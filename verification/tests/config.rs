use pijul_core::config::{
    colorful_theme, hook_exit, Author, Choice, Config, Global, HookAction, HookEntry, Remote,
    RemoteConfig, RemoteParts, SshRemote, CONFIG_DIR, GLOBAL_CONFIG_DIR,
};
use pijul_core::server::{host_key_source, HostKeySource, HostSetting, ServerConfig, Settings};
use pijul_core::text::trim;

#[test]
fn test_default_config() {
    let config = ServerConfig::default();
    assert_eq!(config.ssh_port, 2222);
    assert_eq!(config.http_port, 3000);
}

#[test]
fn the_default_server_configuration() {
    let config = ServerConfig::default();
    assert_eq!(config.ssh_host, "0.0.0.0");
    assert_eq!(config.http_host, "127.0.0.1");
    assert_eq!(config.host_key_path, "./host_key");
    assert_eq!(config.repos_dir, "./repos");
    assert_eq!(config.log_level, "info");
    assert!(config.generate_host_key);
    assert_eq!(config.ssh_addr(), "0.0.0.0:2222");
}

fn no_settings() -> Settings {
    Settings {
        ssh_host: None,
        ssh_port: None,
        http_host: None,
        http_port: None,
        host_key_path: None,
        repos_dir: None,
        log_level: None,
        generate_host_key: None,
    }
}

fn host(given: &str, address: Option<&str>) -> Option<HostSetting> {
    Some(HostSetting { given: given.to_string(), address: address.map(|a| a.to_string()) })
}

#[test]
fn settings_take_the_place_of_defaults() {
    let config = ServerConfig::from_settings(&no_settings()).unwrap();
    assert_eq!(config.ssh_addr(), "0.0.0.0:2222");
    let s = Settings {
        ssh_host: host("::0001", Some("::1")),
        ssh_port: Some("22".to_string()),
        http_host: host("10.0.0.1", Some("10.0.0.1")),
        http_port: Some("8080".to_string()),
        host_key_path: Some("/etc/key".to_string()),
        repos_dir: Some("/srv".to_string()),
        log_level: Some("debug".to_string()),
        generate_host_key: Some("FALSE".to_string()),
    };
    let config = ServerConfig::from_settings(&s).unwrap();
    assert_eq!(config.ssh_host, "::1");
    assert_eq!(config.ssh_port, 22);
    assert_eq!(config.http_host, "10.0.0.1");
    assert_eq!(config.http_port, 8080);
    assert_eq!(config.host_key_path, "/etc/key");
    assert_eq!(config.repos_dir, "/srv");
    assert_eq!(config.log_level, "debug");
    assert!(!config.generate_host_key);
    assert_eq!(config.ssh_addr(), "::1:22");
}

#[test]
fn the_first_setting_that_cannot_be_read_decides() {
    let mut s = no_settings();
    s.ssh_port = Some("seventy".to_string());
    s.http_host = host("nowhere", None);
    assert_eq!(
        ServerConfig::from_settings(&s).unwrap_err().message(),
        "Configuration error: Invalid SSH port: seventy"
    );
    s.ssh_host = host("n/a", None);
    assert_eq!(
        ServerConfig::from_settings(&s).unwrap_err().message(),
        "Configuration error: Invalid SSH host: n/a"
    );
    let mut s = no_settings();
    s.http_host = host("nowhere", None);
    s.http_port = Some("70000".to_string());
    assert_eq!(
        ServerConfig::from_settings(&s).unwrap_err().message(),
        "Configuration error: Invalid HTTP host: nowhere"
    );
    s.http_host = None;
    assert_eq!(
        ServerConfig::from_settings(&s).unwrap_err().message(),
        "Configuration error: Invalid HTTP port: 70000"
    );
    let mut s = no_settings();
    s.generate_host_key = Some("1".to_string());
    assert!(ServerConfig::from_settings(&s).unwrap().generate_host_key);
}

#[test]
fn where_the_host_key_comes_from() {
    assert_eq!(host_key_source(true, true), Some(HostKeySource::File));
    assert_eq!(host_key_source(true, false), Some(HostKeySource::File));
    assert_eq!(host_key_source(false, true), Some(HostKeySource::Generated));
    assert_eq!(host_key_source(false, false), None);
}

#[test]
fn defaults_of_the_configuration() {
    let g = Global::default();
    assert_eq!(g.author.username, "");
    assert_eq!(g.author.email, "");
    assert_eq!(g.author.origin, "");
    assert!(g.author.key_path.is_none());
    assert!(g.unrecord_changes.is_none());
    assert!(g.colors.is_none());
    assert!(g.pager.is_none());
    assert!(g.template.is_none());
    assert!(g.ignore_kinds.is_none());
    let a = Author::default();
    assert_eq!(a.username, "");
    assert!(a.key_path.is_none());
    let c = Config::default();
    assert!(c.default_remote.is_none());
    assert!(c.remotes.is_empty());
    assert!(c.extra_dependencies.is_empty());
    assert!(c.hooks.record.is_empty());
    assert_eq!(Choice::default(), Choice::Auto);
    assert_eq!(GLOBAL_CONFIG_DIR, ".pijulconfig");
    assert_eq!(CONFIG_DIR, "pijul");
}

#[test]
fn choices_have_names() {
    for c in [Choice::Auto, Choice::Always, Choice::Never] {
        assert_eq!(Choice::from_name(c.name()), Some(c));
    }
    assert_eq!(Choice::Auto.name(), "auto");
    assert_eq!(Choice::Always.name(), "always");
    assert_eq!(Choice::Never.name(), "never");
    assert_eq!(Choice::from_name("Auto"), None);
    assert_eq!(Choice::from_name(""), None);
    assert!(colorful_theme(None));
    assert!(colorful_theme(Some(Choice::Auto)));
    assert!(colorful_theme(Some(Choice::Always)));
    assert!(!colorful_theme(Some(Choice::Never)));
}

#[test]
fn named_remotes_have_a_name_and_an_address() {
    let s = RemoteConfig::Ssh { name: "origin".to_string(), ssh: "me@host:repo".to_string() };
    assert_eq!(s.name(), "origin");
    assert_eq!(s.url(), "me@host:repo");
    assert!(!s.db_uses_name());
    let h = RemoteConfig::Http { name: "web".to_string(), http: "https://h".to_string(), headers: vec![] };
    assert_eq!(h.name(), "web");
    assert_eq!(h.url(), "https://h");
    assert!(h.db_uses_name());
}

#[test]
fn remotes_are_written_as_one_entry_and_read_back() {
    let cases = [
        Remote::Ssh(SshRemote { addr: "me@host".to_string() }),
        Remote::Local { local: "/srv/repo".to_string() },
        Remote::Http { url: "https://h".to_string() },
        Remote::Absent,
    ];
    for r in cases {
        let parts = r.to_parts();
        let filled = [parts.ssh.is_some(), parts.local.is_some(), parts.url.is_some()]
            .iter()
            .filter(|b| **b)
            .count();
        assert_eq!(filled, if matches!(r, Remote::Absent) { 0 } else { 1 });
        let back = Remote::from_parts(parts);
        assert_eq!(format!("{:?}", back), format!("{:?}", r));
    }
}

#[test]
fn the_first_entry_of_a_remote_counts() {
    let parts = RemoteParts {
        ssh: Some(SshRemote { addr: "a".to_string() }),
        local: Some("b".to_string()),
        url: Some("c".to_string()),
    };
    assert!(matches!(Remote::from_parts(parts), Remote::Ssh(SshRemote { addr }) if addr == "a"));
    let parts = RemoteParts { ssh: None, local: Some("b".to_string()), url: Some("c".to_string()) };
    assert!(matches!(Remote::from_parts(parts), Remote::Local { local } if local == "b"));
    let parts = RemoteParts { ssh: None, local: None, url: Some("c".to_string()) };
    assert!(matches!(Remote::from_parts(parts), Remote::Http { url } if url == "c"));
    let parts = RemoteParts { ssh: None, local: None, url: None };
    assert!(matches!(Remote::from_parts(parts), Remote::Absent));
}

#[test]
fn what_running_a_hook_amounts_to() {
    assert!(matches!(HookEntry::Shell("".to_string()).action(), HookAction::Nothing));
    assert!(matches!(HookEntry::Shell("make test".to_string()).action(), HookAction::Shell("make test")));
    let hook = HookEntry::Command { command: "cargo".to_string(), args: vec!["test".to_string()] };
    match hook.action() {
        HookAction::Command(c, args) => {
            assert_eq!(c, "cargo");
            assert_eq!(args, &vec!["test".to_string()]);
        }
        _ => panic!(),
    }
    assert_eq!(hook.label(), "cargo");
    assert_eq!(HookEntry::Shell("make".to_string()).label(), "make");
    assert_eq!(hook_exit(true, Some(3)), None);
    assert_eq!(hook_exit(true, None), None);
    assert_eq!(hook_exit(false, Some(3)), Some(3));
    assert_eq!(hook_exit(false, None), Some(1));
}

#[test]
fn texts_are_trimmed_as_std_trims_them() {
    for text in ["", " ", "a", "  a b \n", "\t\u{a0}x\u{3000}", "no space", " \r\n ", "é "] {
        assert_eq!(trim(text), text.trim(), "{:?}", text);
    }
}
