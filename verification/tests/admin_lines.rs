use quantam_fs::error::Error;
use quantam_fs::ids::PeerId;
use quantam_fs::net::admin::{hex, parse_admin_line, AdminCommand, AdminLine};
use quantam_fs::net::VaultId;

const TOKEN: &str = "s3cret-token";

fn command(line: &str) -> AdminCommand {
    match parse_admin_line(line, TOKEN, true).unwrap() {
        AdminLine::Command(c) => c,
        other => panic!("not a command: {:?}", other),
    }
}

#[test]
fn blank_and_auth_lines() {
    assert_eq!(parse_admin_line("", TOKEN, false).unwrap(), AdminLine::Blank);
    assert_eq!(parse_admin_line("AUTH s3cret-token", TOKEN, false).unwrap(), AdminLine::Auth { accepted: true });
    assert_eq!(parse_admin_line("AUTH s3cret-tokeN", TOKEN, false).unwrap(), AdminLine::Auth { accepted: false });
    assert_eq!(parse_admin_line("AUTH ", TOKEN, false).unwrap(), AdminLine::Auth { accepted: false });
}

#[test]
fn read_only_commands_need_no_token() {
    assert_eq!(parse_admin_line("PING", TOKEN, false).unwrap(), AdminLine::Command(AdminCommand::Ping));
    assert_eq!(parse_admin_line("  STATUS  ", TOKEN, false).unwrap(), AdminLine::Command(AdminCommand::Status));
    assert_eq!(parse_admin_line("KICK a b", TOKEN, false).unwrap(), AdminLine::Unauthorized);
    assert_eq!(parse_admin_line("   ", TOKEN, false).unwrap(), AdminLine::Unauthorized);
    assert_eq!(parse_admin_line("   ", TOKEN, true).unwrap(), AdminLine::Unknown);
    assert_eq!(parse_admin_line("DANCE", TOKEN, true).unwrap(), AdminLine::Unknown);
}

#[test]
fn commands_parse_their_arguments() {
    let vault = VaultId([0x11; 32]);
    let peer = PeerId([0x22; 32]);
    assert_eq!(
        command("CREATE_VAULT 1048576 -"),
        AdminCommand::CreateVault { quota: 1048576, creator: None }
    );
    assert_eq!(
        command(&format!("CREATE_VAULT 5 {}", hex(&peer.0))),
        AdminCommand::CreateVault { quota: 5, creator: Some(peer) }
    );
    assert_eq!(command(&format!("KICK {} {}", hex(&vault.0), hex(&peer.0))), AdminCommand::Kick { vault, peer });
    assert_eq!(command(&format!("ROTATE_CODE {}", hex(&vault.0))), AdminCommand::RotateCode { vault });
    assert_eq!(command(&format!("FORGET_VAULT {}", hex(&vault.0))), AdminCommand::ForgetVault { vault });
    assert_eq!(
        parse_admin_line(&format!("OPS {} 12", hex(&vault.0)), TOKEN, false).unwrap(),
        AdminLine::Command(AdminCommand::Ops { vault, since: 12 })
    );
}

#[test]
fn missing_and_malformed_arguments_are_refused() {
    assert!(matches!(parse_admin_line("CREATE_VAULT 5", TOKEN, true), Err(Error::InvalidInput(_))));
    assert!(matches!(parse_admin_line("CREATE_VAULT lots -", TOKEN, true), Err(Error::InvalidInput(_))));
    assert!(matches!(parse_admin_line("CREATE_VAULT 5 ABC", TOKEN, true), Err(Error::InvalidInput(_))));
    assert!(matches!(parse_admin_line("KICK abc def", TOKEN, true), Err(Error::InvalidInput(_))));
    assert!(matches!(parse_admin_line("ROTATE_CODE", TOKEN, true), Err(Error::InvalidInput(_))));
    let vault = hex(&[0x11; 32]);
    assert!(matches!(parse_admin_line(&format!("OPS {vault} -1"), TOKEN, true), Err(Error::InvalidInput(_))));
}

#[test]
fn quotas_parse_as_unsigned_decimals() {
    assert_eq!(command("CREATE_VAULT +7 -"), AdminCommand::CreateVault { quota: 7, creator: None });
    assert_eq!(
        command("CREATE_VAULT 18446744073709551615 -"),
        AdminCommand::CreateVault { quota: u64::MAX, creator: None }
    );
    for bad in ["18446744073709551616", "+", "1_000", "-0", "0x10", "12a"] {
        assert!(matches!(
            parse_admin_line(&format!("CREATE_VAULT {bad} -"), TOKEN, true),
            Err(Error::InvalidInput(_))
        ));
    }
}
