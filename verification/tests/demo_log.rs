use quantam_fs::demo_log::{render, safe_text, transfer_event, Event, Kind, Transfer};
use quantam_fs::ids::{FileId, PeerId};

#[test]
fn untrusted_names_cannot_forge_terminal_events() {
    assert_eq!(
        safe_text("name\n\x1b[31m\t\r\u{202e}x", 100),
        "name  [31m   x"
    );
    assert_eq!(safe_text("abcdef", 3), "abc");
}

#[test]
fn transfer_is_one_framed_block_with_indented_sources() {
    let event = Event {
        timestamp: "12:30:00.000Z".into(),
        kind: Kind::Transfer,
        standard: "AES-256-GCM".into(),
        headline: "File available locally".into(),
        details: vec!["peer aaaa: 2 chunks".into(), "peer bbbb: 3 chunks".into()],
        count: 1,
    };
    let plain = render(&event, false);
    assert_eq!(plain.matches("[TRANSFER]").count(), 1);
    assert!(plain.contains("\n    | peer aaaa: 2 chunks\n    | peer bbbb: 3 chunks\n\n"));
    assert!(!plain.contains('\x1b'));
    assert!(render(&event, true).contains("\x1b[1;36m"));
}

#[test]
fn partial_batch_does_not_claim_a_complete_file() {
    let mut progress = Transfer {
        total: 40,
        available: 32,
        sources: vec![(PeerId([1; 32]), (16, 1024)), (PeerId([2; 32]), (16, 2048))],
        changed: true,
    };
    let partial = render(
        &transfer_event(PeerId([3; 32]), FileId([4; 32]), &progress),
        false,
    );
    assert!(partial.contains("File transfer in progress"));
    assert!(partial.contains("32 / 40 pieces local | 2 contributing peers"));
    assert!(partial.contains("peer 010101010101 -> 16 verified pieces (1024 bytes)"));
    assert!(partial.contains("peer 020202020202 -> 16 verified pieces (2048 bytes)"));
    progress.available = 40;
    assert!(transfer_event(PeerId([3; 32]), FileId([4; 32]), &progress)
        .headline
        .starts_with("File ready locally"));
}

#[test]
fn safe_text_keeps_ordinary_text_and_cuts_at_the_limit() {
    assert_eq!(safe_text("plain name", 100), "plain name");
    assert_eq!(safe_text("", 5), "");
    assert_eq!(safe_text("abc", 0), "");
    assert_eq!(safe_text("a\u{7f}b", 10), "a b");
}

#[test]
fn plain_render_of_a_single_event_has_no_detail_lines() {
    let event = Event {
        timestamp: "00:00:01.002Z".into(),
        kind: Kind::Transfer,
        standard: "AES-256-GCM".into(),
        headline: "x".into(),
        details: Vec::new(),
        count: 1,
    };
    let plain = render(&event, false);
    assert!(plain.contains("[TRANSFER]"));
    assert!(!plain.contains("    | "));
}
