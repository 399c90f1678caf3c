//! Human-readable demo telemetry: event blocks, their text and the
//! sanitising of untrusted names. The terminal, the mirror file and the
//! pacing thread live with the program.

use vstd::prelude::*;

use crate::ids::{FileId, PeerId};
use crate::net::admin::{hex_alphabet, hex_text, push_hex_byte};
use crate::text::{decimal, padded, push_char, push_decimal, push_padded, push_str, to_chars};

verus! {

#[derive(Clone, Copy, Debug, PartialEq, Eq, PartialOrd, Ord, Structural)]
pub enum Kind {
    Lifecycle,
    Discovery,
    Security,
    Membership,
    File,
    Transfer,
    Sync,
    Warning,
}

pub open spec fn kind_label(k: Kind) -> Seq<char> {
    match k {
        Kind::Lifecycle => "SYSTEM"@,
        Kind::Discovery => "DISCOVERY"@,
        Kind::Security => "SECURE"@,
        Kind::Membership => "PEERS"@,
        Kind::File => "FILE"@,
        Kind::Transfer => "TRANSFER"@,
        Kind::Sync => "SYNC"@,
        Kind::Warning => "ATTENTION"@,
    }
}

pub open spec fn kind_color(k: Kind) -> Seq<char> {
    match k {
        Kind::Lifecycle => "\x1b[1;37m"@,
        Kind::Discovery => "\x1b[34m"@,
        Kind::Security => "\x1b[35m"@,
        Kind::Membership => "\x1b[36m"@,
        Kind::File => "\x1b[32m"@,
        Kind::Transfer => "\x1b[1;36m"@,
        Kind::Sync => "\x1b[33m"@,
        Kind::Warning => "\x1b[1;31m"@,
    }
}

impl Kind {
    pub fn label(self) -> (r: &'static str)
        ensures
            r@ == kind_label(self),
    {
        match self {
            Kind::Lifecycle => "SYSTEM",
            Kind::Discovery => "DISCOVERY",
            Kind::Security => "SECURE",
            Kind::Membership => "PEERS",
            Kind::File => "FILE",
            Kind::Transfer => "TRANSFER",
            Kind::Sync => "SYNC",
            Kind::Warning => "ATTENTION",
        }
    }

    /// The ANSI colour of the kind's tag.
    pub fn color(self) -> (r: &'static str)
        ensures
            r@ == kind_color(self),
    {
        match self {
            Kind::Lifecycle => "\x1b[1;37m",
            Kind::Discovery => "\x1b[34m",
            Kind::Security => "\x1b[35m",
            Kind::Membership => "\x1b[36m",
            Kind::File => "\x1b[32m",
            Kind::Transfer => "\x1b[1;36m",
            Kind::Sync => "\x1b[33m",
            Kind::Warning => "\x1b[1;31m",
        }
    }
}

/// One block of telemetry.
pub struct Event {
    pub timestamp: String,
    pub kind: Kind,
    pub standard: String,
    pub headline: String,
    pub details: Vec<String>,
    pub count: usize,
}

/// Progress of one file reconstruction; `sources` holds, per contributing
/// holder in ascending order, the pieces and bytes it supplied.
pub struct Transfer {
    pub total: usize,
    pub available: usize,
    pub sources: Vec<(PeerId, (usize, usize))>,
    pub changed: bool,
}

// ---------------------------------------------------------------------------
// Untrusted text
// ---------------------------------------------------------------------------

/// Unicode general category Cc.
pub open spec fn is_control(c: char) -> bool {
    (c as u32) < 0x20 || (0x7f <= (c as u32) && (c as u32) <= 0x9f)
}

/// Line separators, paragraph separators and bidirectional overrides.
pub open spec fn is_layout_control(c: char) -> bool {
    ('\u{2028}' <= c && c <= '\u{202e}') || ('\u{2066}' <= c && c <= '\u{2069}')
}

pub open spec fn safe_char(c: char) -> char {
    if is_control(c) || is_layout_control(c) {
        ' '
    } else {
        c
    }
}

/// At most `limit` characters, each control or layout character replaced by
/// a space.
pub open spec fn safe_chars(value: Seq<char>, limit: nat) -> Seq<char> {
    let kept = if value.len() <= limit {
        value
    } else {
        value.take(limit as int)
    };
    kept.map_values(|c: char| safe_char(c))
}

pub fn is_control_char(c: char) -> (r: bool)
    ensures
        r == is_control(c),
{
    let v = c as u32;
    v < 0x20 || (0x7f <= v && v <= 0x9f)
}

/// Names and network errors are untrusted terminal text: no escape or
/// control injection, no forged rows, no bidi overrides, bounded width.
pub fn safe_text(value: &str, limit: usize) -> (r: String)
    ensures
        r@ == safe_chars(value@, limit as nat),
{
    let chars = to_chars(value);
    let n = if chars.len() < limit {
        chars.len()
    } else {
        limit
    };
    let mut out = String::new();
    let mut i: usize = 0;
    while i < n
        invariant
            n <= chars@.len(),
            chars@ == value@,
            n == (if value@.len() <= limit { value@.len() } else { limit as nat }),
            i <= n,
            out@ == value@.take(i as int).map_values(|c: char| safe_char(c)),
        decreases n - i,
    {
        let c = chars[i];
        let safe = if is_control_char(c) || ('\u{2028}' <= c && c <= '\u{202e}') || ('\u{2066}'
            <= c && c <= '\u{2069}') {
            ' '
        } else {
            c
        };
        push_char(&mut out, safe);
        i = i + 1;
        assert(out@ =~= value@.take(i as int).map_values(|c: char| safe_char(c)));
    }
    proof {
        if value@.len() <= limit {
            assert(value@.take(n as int) =~= value@);
        }
    }
    out
}

// ---------------------------------------------------------------------------
// Identifiers
// ---------------------------------------------------------------------------

/// The first six bytes in lower-case hexadecimal.
pub fn short_id(bytes: &[u8; 32]) -> (r: String)
    ensures
        r@ == hex_text(bytes@.take(6)),
{
    let mut out = String::new();
    let mut i: usize = 0;
    while i < 6
        invariant
            i <= 6,
            out@ == hex_text(bytes@.take(i as int)),
        decreases 6 - i,
    {
        push_hex_byte(&mut out, bytes[i]);
        i = i + 1;
        assert(out@ =~= hex_text(bytes@.take(i as int)));
    }
    out
}

pub fn peer(id: PeerId) -> (r: String)
    ensures
        r@ == "peer "@ + hex_text(id@.take(6)),
{
    let mut out = String::new();
    push_str(&mut out, "peer ");
    push_str(&mut out, short_id(&id.0).as_str());
    out
}

pub fn file(id: FileId) -> (r: String)
    ensures
        r@ == "file "@ + hex_text(id@.take(6)),
{
    let mut out = String::new();
    push_str(&mut out, "file ");
    push_str(&mut out, short_id(&id.0).as_str());
    out
}

// ---------------------------------------------------------------------------
// Rendering
// ---------------------------------------------------------------------------

pub open spec fn detail_line(paint: Seq<char>, reset: Seq<char>, detail: Seq<char>) -> Seq<char> {
    "    "@ + paint + "|"@ + reset + " "@ + detail + "\n"@
}

/// The detail lines of `details`, in order.
pub open spec fn detail_lines(paint: Seq<char>, reset: Seq<char>, details: Seq<String>) -> Seq<char>
    decreases details.len(),
{
    if details.len() == 0 {
        Seq::<char>::empty()
    } else {
        detail_lines(paint, reset, details.drop_last()) + detail_line(
            paint,
            reset,
            details.last()@,
        )
    }
}

/// The block an event prints: a tagged headline, one indented line per
/// detail, a grouping note when similar events were merged, and a blank line.
pub open spec fn rendered(e: Event, color: bool) -> Seq<char> {
    let paint = if color {
        kind_color(e.kind)
    } else {
        Seq::<char>::empty()
    };
    let reset = if color {
        "\x1b[0m"@
    } else {
        Seq::<char>::empty()
    };
    let standard = if e.standard@.len() == 0 {
        Seq::<char>::empty()
    } else {
        "["@ + e.standard@ + "] "@
    };
    let head = e.timestamp@ + " "@ + paint + standard + "["@ + kind_label(e.kind) + "]"@ + reset
        + " "@ + e.headline@ + "\n"@;
    let grouped = if e.count > 1 {
        "    | "@ + decimal(e.count as nat)
            + " similar events grouped; latest details shown\n"@
    } else {
        Seq::<char>::empty()
    };
    head + detail_lines(paint, reset, e.details@) + grouped + "\n"@
}

#[verifier::spinoff_prover]
#[verifier::rlimit(40)]
pub fn render(event: &Event, color: bool) -> (r: String)
    ensures
        r@ == rendered(*event, color),
{
    let paint: &str = if color {
        event.kind.color()
    } else {
        ""
    };
    let reset: &str = if color {
        "\x1b[0m"
    } else {
        ""
    };
    proof {
        if !color {
            reveal_strlit("");
        }
        assert(""@ =~= Seq::<char>::empty()) by {
            reveal_strlit("");
        }
    }
    let mut out = String::new();
    push_str(&mut out, event.timestamp.as_str());
    push_str(&mut out, " ");
    push_str(&mut out, paint);
    if to_chars(event.standard.as_str()).len() != 0 {
        push_str(&mut out, "[");
        push_str(&mut out, event.standard.as_str());
        push_str(&mut out, "] ");
    }
    push_str(&mut out, "[");
    push_str(&mut out, event.kind.label());
    push_str(&mut out, "]");
    push_str(&mut out, reset);
    push_str(&mut out, " ");
    push_str(&mut out, event.headline.as_str());
    push_str(&mut out, "\n");
    let ghost head = out@;
    let mut i: usize = 0;
    assert(event.details@.take(0) =~= Seq::<String>::empty());
    while i < event.details.len()
        invariant
            i <= event.details@.len(),
            out@ == head + detail_lines(paint@, reset@, event.details@.take(i as int)),
        decreases event.details@.len() - i,
    {
        push_str(&mut out, "    ");
        push_str(&mut out, paint);
        push_str(&mut out, "|");
        push_str(&mut out, reset);
        push_str(&mut out, " ");
        push_str(&mut out, event.details[i].as_str());
        push_str(&mut out, "\n");
        proof {
            let t = event.details@.take(i + 1);
            assert(t.drop_last() =~= event.details@.take(i as int));
            assert(t.last() == event.details@[i as int]);
        }
        i = i + 1;
        assert(out@ =~= head + detail_lines(paint@, reset@, event.details@.take(i as int)));
    }
    assert(event.details@.take(event.details@.len() as int) =~= event.details@);
    if event.count > 1 {
        push_str(&mut out, "    | ");
        push_decimal(&mut out, event.count as u64);
        push_str(&mut out, " similar events grouped; latest details shown\n");
    }
    push_str(&mut out, "\n");
    proof {
        let e = *event;
        let standard = if e.standard@.len() == 0 {
            Seq::<char>::empty()
        } else {
            "["@ + e.standard@ + "] "@
        };
        assert(head =~= e.timestamp@ + " "@ + paint@ + standard + "["@ + kind_label(e.kind) + "]"@
            + reset@ + " "@ + e.headline@ + "\n"@);
        assert(out@ =~= rendered(e, color));
    }
    out
}

// ---------------------------------------------------------------------------
// Time of day
// ---------------------------------------------------------------------------

/// `HH:MM:SS.mmmZ` of a UTC time in milliseconds since the epoch.
pub open spec fn time_of_day(millis: u64) -> Seq<char> {
    let seconds = (millis / 1000) % 86400;
    padded((seconds / 3600) as nat, 2) + ":"@ + padded(((seconds / 60) % 60) as nat, 2) + ":"@
        + padded((seconds % 60) as nat, 2) + "."@ + padded((millis % 1000) as nat, 3) + "Z"@
}

pub fn timestamp_text(millis: u64) -> (r: String)
    ensures
        r@ == time_of_day(millis),
{
    let seconds = (millis / 1000) % 86400;
    let mut out = String::new();
    push_padded(&mut out, seconds / 3600, 2);
    push_str(&mut out, ":");
    push_padded(&mut out, (seconds / 60) % 60, 2);
    push_str(&mut out, ":");
    push_padded(&mut out, seconds % 60, 2);
    push_str(&mut out, ".");
    push_padded(&mut out, millis % 1000, 3);
    push_str(&mut out, "Z");
    out
}

/// `SystemTime::now()` as milliseconds since the Unix epoch, zero before it.
/// The value depends on the clock; nothing is claimed of it.
#[verifier::external_body]
fn now_millis() -> (r: u64) {
    std::time::SystemTime::now()
        .duration_since(std::time::UNIX_EPOCH)
        .map(|d| d.as_millis() as u64)
        .unwrap_or(0)
}

/// The current time of day.
pub fn timestamp() -> (r: String)
    ensures
        exists|m: u64| r@ == time_of_day(m),
{
    let m = now_millis();
    timestamp_text(m)
}

// ---------------------------------------------------------------------------
// Transfer progress
// ---------------------------------------------------------------------------

pub open spec fn progress_line(p: Transfer) -> Seq<char> {
    decimal(p.available as nat) + " / "@ + decimal(p.total as nat) + " pieces local | "@
        + decimal(p.sources@.len()) + " contributing peers"@ + if p.available == p.total {
        " | all pieces available in manifest order"@
    } else {
        " | more pieces needed"@
    }
}

pub open spec fn source_line(s: (PeerId, (usize, usize))) -> Seq<char> {
    "peer "@ + hex_text(s.0@.take(6)) + " -> "@ + decimal(s.1.0 as nat) + " verified pieces ("@
        + decimal(s.1.1 as nat) + " bytes)"@
}

/// One file-level block: progress, one line per holder, and the checks that
/// were applied. A file is complete only when every piece is available.
pub fn transfer_event(requester: PeerId, file_id: FileId, progress: &Transfer) -> (r: Event)
    ensures
        r.kind == Kind::Transfer,
        r.standard@ == "AES-256-GCM"@,
        r.count == 1,
        r.headline@ == (if progress.available == progress.total {
            "File ready locally"@
        } else {
            "File transfer in progress"@
        }) + " | "@ + "file "@ + hex_text(file_id@.take(6)) + " -> "@ + "peer "@ + hex_text(
            requester@.take(6),
        ),
        r.details@.len() == progress.sources@.len() + 2,
        r.details@[0]@ == progress_line(*progress),
        forall|i: int|
            0 <= i < progress.sources@.len() ==> (#[trigger] r.details@[i + 1])@ == source_line(
                progress.sources@[i],
            ),
        r.details@.last()@ == "GCM authentication + SHA-256 integrity checked against writer-signed manifest"@,
        exists|m: u64| r.timestamp@ == time_of_day(m),
{
    let complete = progress.available == progress.total;
    let mut first = String::new();
    push_decimal(&mut first, progress.available as u64);
    push_str(&mut first, " / ");
    push_decimal(&mut first, progress.total as u64);
    push_str(&mut first, " pieces local | ");
    push_decimal(&mut first, progress.sources.len() as u64);
    push_str(&mut first, " contributing peers");
    push_str(
        &mut first,
        if complete {
            " | all pieces available in manifest order"
        } else {
            " | more pieces needed"
        },
    );
    assert(first@ =~= progress_line(*progress));
    let mut details: Vec<String> = Vec::new();
    details.push(first);
    let mut i: usize = 0;
    while i < progress.sources.len()
        invariant
            i <= progress.sources@.len(),
            details@.len() == i + 1,
            details@[0]@ == progress_line(*progress),
            forall|j: int|
                0 <= j < i ==> (#[trigger] details@[j + 1])@ == source_line(progress.sources@[j]),
        decreases progress.sources@.len() - i,
    {
        let (holder, (pieces, bytes)) = progress.sources[i];
        let mut line = peer(holder);
        push_str(&mut line, " -> ");
        push_decimal(&mut line, pieces as u64);
        push_str(&mut line, " verified pieces (");
        push_decimal(&mut line, bytes as u64);
        push_str(&mut line, " bytes)");
        assert(line@ =~= source_line(progress.sources@[i as int]));
        details.push(line);
        i = i + 1;
    }
    let mut last = String::new();
    push_str(&mut last, "GCM authentication + SHA-256 integrity checked against writer-signed manifest");
    details.push(last);
    let mut headline = String::new();
    push_str(
        &mut headline,
        if complete {
            "File ready locally"
        } else {
            "File transfer in progress"
        },
    );
    push_str(&mut headline, " | ");
    push_str(&mut headline, file(file_id).as_str());
    push_str(&mut headline, " -> ");
    push_str(&mut headline, peer(requester).as_str());
    let mut standard = String::new();
    push_str(&mut standard, "AES-256-GCM");
    Event {
        timestamp: timestamp(),
        kind: Kind::Transfer,
        standard,
        headline,
        details,
        count: 1,
    }
}

} // verus!
