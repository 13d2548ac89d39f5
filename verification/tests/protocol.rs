use pijul_core::error::{ErrorKind, ServerError};
use pijul_core::protocol::PijulCommand;
use pijul_core::server::{
    command_reply, exec_reply, failure_reply, health, invalid_command_reply, list_repos,
    parse_flag, parse_log_level, parse_port, LogLevel,
};

#[test]
fn test_parse_clone() {
    let cmd = PijulCommand::parse("pijul clone myrepo").unwrap();
    assert_eq!(
        cmd,
        PijulCommand::Clone {
            repo: "myrepo".to_string(),
            channel: None
        }
    );
}

#[test]
fn test_parse_clone_with_channel() {
    let cmd = PijulCommand::parse("pijul clone myrepo feature").unwrap();
    assert_eq!(
        cmd,
        PijulCommand::Clone {
            repo: "myrepo".to_string(),
            channel: Some("feature".to_string())
        }
    );
}

#[test]
fn test_parse_error() {
    assert!(PijulCommand::parse("pijul").is_err());
    assert!(PijulCommand::parse("pijul clone").is_err());
}

fn protocol_text(command: &str) -> String {
    match PijulCommand::parse(command) {
        Err(ServerError::Protocol(text)) => text,
        other => panic!("expected a protocol error, got {:?}", other),
    }
}

#[test]
fn parse_reports_each_fault() {
    assert_eq!(protocol_text(""), "Empty command");
    assert_eq!(protocol_text("  \t\n "), "Empty command");
    assert_eq!(protocol_text("pijul"), "Missing pijul subcommand");
    assert_eq!(protocol_text("pijul clone"), "Clone requires repository name");
    assert_eq!(protocol_text("pull"), "Pull requires repository name");
    assert_eq!(protocol_text("pijul push"), "Push requires repository name");
    assert_eq!(protocol_text("ping"), "Ping requires repository name");
    assert_eq!(protocol_text("pijul fetch repo"), "Unknown command: fetch");
    assert_eq!(protocol_text("Clone repo"), "Unknown command: Clone");
}

#[test]
fn parse_without_the_leading_word() {
    assert_eq!(
        PijulCommand::parse("pull repo dev").unwrap(),
        PijulCommand::Pull { repo: "repo".to_string(), channel: Some("dev".to_string()) }
    );
    assert_eq!(
        PijulCommand::parse("push repo").unwrap(),
        PijulCommand::Push { repo: "repo".to_string(), channel: None }
    );
}

#[test]
fn parse_ignores_extra_words_and_white_space() {
    assert_eq!(
        PijulCommand::parse("  pijul\tping   repo  other more ").unwrap(),
        PijulCommand::Ping { repo: "repo".to_string() }
    );
    assert_eq!(
        PijulCommand::parse("pijul clone a b c").unwrap(),
        PijulCommand::Clone { repo: "a".to_string(), channel: Some("b".to_string()) }
    );
}

#[test]
fn parse_takes_pijul_as_a_repository_name() {
    assert_eq!(
        PijulCommand::parse("pijul clone pijul").unwrap(),
        PijulCommand::Clone { repo: "pijul".to_string(), channel: None }
    );
}

#[test]
fn repo_and_channel_of_a_command() {
    let cmd = PijulCommand::parse("pijul pull myrepo").unwrap();
    assert_eq!(cmd.repo(), "myrepo");
    assert_eq!(cmd.channel(), "main");
    let cmd = PijulCommand::parse("pijul push myrepo dev").unwrap();
    assert_eq!(cmd.repo(), "myrepo");
    assert_eq!(cmd.channel(), "dev");
    let cmd = PijulCommand::parse("ping myrepo dev").unwrap();
    assert_eq!(cmd.repo(), "myrepo");
    assert_eq!(cmd.channel(), "main");
}

#[test]
fn error_constructors_and_messages() {
    assert_eq!(ServerError::ssh("a").message(), "SSH error: a");
    assert_eq!(ServerError::config("b").message(), "Configuration error: b");
    assert_eq!(ServerError::repository("c").message(), "Repository error: c");
    assert_eq!(ServerError::protocol("d").message(), "Protocol error: d");
    assert_eq!(ServerError::auth("e").message(), "Auth error: e");
    assert_eq!(ServerError::not_found("f").message(), "Not found: f");
    assert_eq!(ServerError::internal("g").message(), "Internal error: g");
    assert_eq!(ServerError::ssh("a").kind(), ErrorKind::Ssh);
    assert_eq!(ServerError::internal("").kind(), ErrorKind::Internal);
}

#[test]
fn io_errors_convert() {
    let e: ServerError = std::io::Error::new(std::io::ErrorKind::Other, "disk full").into();
    assert_eq!(e.kind(), ErrorKind::Io);
    assert_eq!(e.message(), "I/O error: disk full");
}

#[test]
fn replies_to_commands() {
    let ping = PijulCommand::Ping { repo: "r".to_string() };
    let reply = command_reply(&ping, true);
    assert_eq!(reply.data, "pong\n");
    assert_eq!(reply.exit_status, 0);
    assert!(reply.close);
    let reply = command_reply(&ping, false);
    assert_eq!(reply.data, "Repository not found: r\n");
    assert_eq!(reply.exit_status, 1);
    assert!(reply.close);

    let clone = PijulCommand::Clone { repo: "r".to_string(), channel: None };
    assert_eq!(command_reply(&clone, true).data, "PIJUL_CLONE r main\n");
    let pull = PijulCommand::Pull { repo: "r".to_string(), channel: Some("dev".to_string()) };
    assert_eq!(command_reply(&pull, true).data, "PIJUL_PULL r dev\n");
    let push = PijulCommand::Push { repo: "r".to_string(), channel: None };
    let reply = command_reply(&push, true);
    assert_eq!(reply.data, "PIJUL_PUSH r main\n");
    assert_eq!(reply.exit_status, 0);
    assert!(reply.close);
    let reply = command_reply(&push, false);
    assert_eq!(reply.data, "Repository not found: r\n");
    assert_eq!(reply.exit_status, 1);
    // the channel of a command on a missing repository stays open
    assert!(!reply.close);
    assert!(!command_reply(&clone, false).close);
    assert!(!command_reply(&pull, false).close);
}

#[test]
fn replies_to_requests() {
    let reply = exec_reply("pijul clone r feature", true);
    assert_eq!(reply.data, "PIJUL_CLONE r feature\n");
    assert_eq!(reply.exit_status, 0);
    let reply = exec_reply("pijul dance", true);
    assert_eq!(reply.data, "Invalid command: Protocol error: Unknown command: dance\n");
    assert_eq!(reply.exit_status, 1);
    let reply = invalid_command_reply("x");
    assert_eq!(reply.data, "Invalid command: x\n");
    assert!(reply.close);
    let reply = failure_reply("boom");
    assert_eq!(reply.data, "Error: boom\n");
    assert_eq!(reply.exit_status, 1);
    assert!(reply.close);
}

#[test]
fn health_and_repository_list() {
    let h = health("1.2.3", 42);
    assert_eq!(h.status, "healthy");
    assert_eq!(h.version, "1.2.3");
    assert_eq!(h.uptime_secs, 42);
    let list = list_repos(&vec!["a".to_string(), "b".to_string()]);
    assert_eq!(list.repositories.len(), 2);
    assert_eq!(list.repositories[0].name, "a");
    assert_eq!(list.repositories[1].name, "b");
    assert_eq!(list.repositories[1].channels, vec!["main".to_string()]);
    assert!(list_repos(&Vec::new()).repositories.is_empty());
}

#[test]
fn ports_are_read_as_std_reads_them() {
    for text in ["0", "22", "2222", "65535", "+80", "0080", "65536", "", "+", "-1", "8o", " 80", "99999999999999999999999"] {
        let expected: Option<u16> = text.parse().ok();
        match parse_port("SSH", text) {
            Ok(p) => assert_eq!(Some(p), expected, "{:?}", text),
            Err(e) => {
                assert_eq!(expected, None, "{:?}", text);
                assert_eq!(e.message(), format!("Configuration error: Invalid SSH port: {}", text));
            }
        }
    }
    assert_eq!(parse_port("HTTP", "3000").unwrap(), 3000);
    assert_eq!(
        parse_port("HTTP", "x").unwrap_err().message(),
        "Configuration error: Invalid HTTP port: x"
    );
}

#[test]
fn flags_and_log_levels() {
    assert!(parse_flag("true"));
    assert!(parse_flag("TRUE"));
    assert!(parse_flag("True"));
    assert!(parse_flag("1"));
    assert!(!parse_flag("0"));
    assert!(!parse_flag("yes"));
    assert!(!parse_flag(""));
    assert_eq!(parse_log_level("trace"), LogLevel::Trace);
    assert_eq!(parse_log_level("DEBUG"), LogLevel::Debug);
    assert_eq!(parse_log_level("info"), LogLevel::Info);
    assert_eq!(parse_log_level("Warn"), LogLevel::Warn);
    assert_eq!(parse_log_level("error"), LogLevel::Error);
    assert_eq!(parse_log_level("loud"), LogLevel::Info);
}
