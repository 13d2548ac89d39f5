//! What the repository server answers: to a command that came over SSH, to
//! the requests of its HTTP interface, and to the settings it is started with.

use crate::error::{ErrorKind, ServerError};
use crate::protocol::{CommandView, PijulCommand};
use crate::text::{decimal_u64, join2, join3, parse_u64, same_text};
use vstd::prelude::*;

verus! {

/// Health check response.
#[derive(Debug)]
pub struct HealthResponse {
    pub status: &'static str,
    pub version: &'static str,
    pub uptime_secs: u64,
}

/// Repository info response.
#[derive(Debug)]
pub struct RepoInfo {
    pub name: String,
    pub channels: Vec<String>,
}

/// List repositories response.
#[derive(Debug)]
pub struct ReposResponse {
    pub repositories: Vec<RepoInfo>,
}

/// The answer to a health check.
pub fn health(version: &'static str, uptime_secs: u64) -> (res: HealthResponse)
    ensures
        res.status@ == "healthy"@,
        res.version@ == version@,
        res.uptime_secs == uptime_secs,
{
    HealthResponse { status: "healthy", version, uptime_secs }
}

impl RepoInfo {
    /// A repository is listed under `name` with the one channel `main`.
    pub open spec fn is_listing_of(&self, name: Seq<char>) -> bool {
        &&& self.name@ == name
        &&& self.channels@.len() == 1
        &&& self.channels@[0]@ == "main"@
    }

    pub fn listing(name: &str) -> (res: RepoInfo)
        ensures
            res.is_listing_of(name@),
    {
        let mut channels: Vec<String> = Vec::new();
        channels.push("main".to_owned());
        RepoInfo { name: name.to_owned(), channels }
    }
}

/// The list of repositories, one for each directory name, in the same order.
pub fn list_repos(names: &Vec<String>) -> (res: ReposResponse)
    ensures
        res.repositories@.len() == names@.len(),
        forall|i: int|
            0 <= i < names@.len() ==> (#[trigger] res.repositories@[i]).is_listing_of(names@[i]@),
{
    let mut repositories: Vec<RepoInfo> = Vec::new();
    let mut i: usize = 0;
    while i < names.len()
        invariant
            0 <= i <= names@.len(),
            repositories@.len() == i,
            forall|k: int|
                0 <= k < i ==> (#[trigger] repositories@[k]).is_listing_of(names@[k]@),
        decreases names@.len() - i,
    {
        repositories.push(RepoInfo::listing(names[i].as_str()));
        i = i + 1;
    }
    ReposResponse { repositories }
}

/// What is sent back on the channel of a command: a text and an exit
/// status; and whether the channel is closed after that.
#[derive(Debug)]
pub struct Reply {
    pub data: String,
    pub exit_status: u32,
    pub close: bool,
}

/// The channel is closed after the reply to a command, but for a command
/// other than `ping` whose repository does not exist.
pub open spec fn closes(cmd: CommandView, repo_exists: bool) -> bool {
    repo_exists || cmd is Ping
}

/// The word under which a command is acknowledged, where it is.
pub open spec fn acknowledgement(cmd: CommandView) -> Seq<char> {
    match cmd {
        CommandView::Clone { .. } => "PIJUL_CLONE "@,
        CommandView::Pull { .. } => "PIJUL_PULL "@,
        CommandView::Push { .. } => "PIJUL_PUSH "@,
        CommandView::Ping { .. } => "pong\n"@,
    }
}

/// The text that answers a command.
pub open spec fn reply_text(cmd: CommandView, repo_exists: bool) -> Seq<char> {
    if !repo_exists {
        "Repository not found: "@ + cmd.repo() + "\n"@
    } else if cmd is Ping {
        "pong\n"@
    } else {
        acknowledgement(cmd) + cmd.repo() + " "@ + cmd.channel() + "\n"@
    }
}

/// The answer to a command, given whether its repository exists: the
/// repository's absence is reported with status 1, anything else is
/// acknowledged with status 0.
pub fn command_reply(cmd: &PijulCommand, repo_exists: bool) -> (res: Reply)
    ensures
        res.data@ == reply_text(cmd@, repo_exists),
        res.exit_status == (if repo_exists {
            0u32
        } else {
            1u32
        }),
        res.close == closes(cmd@, repo_exists),
{
    if !repo_exists {
        let close = match cmd {
            PijulCommand::Ping { .. } => true,
            _ => false,
        };
        return Reply {
            data: join3("Repository not found: ", cmd.repo(), "\n"),
            exit_status: 1,
            close,
        };
    }
    let word = match cmd {
        PijulCommand::Ping { .. } => {
            return Reply { data: "pong\n".to_owned(), exit_status: 0, close: true };
        },
        PijulCommand::Clone { .. } => "PIJUL_CLONE ",
        PijulCommand::Pull { .. } => "PIJUL_PULL ",
        PijulCommand::Push { .. } => "PIJUL_PUSH ",
    };
    let mut data = join3(word, cmd.repo(), " ");
    data.append(cmd.channel());
    data.append("\n");
    Reply { data, exit_status: 0, close: true }
}

/// The answer to a request that is no command.
pub fn invalid_command_reply(error_message: &str) -> (res: Reply)
    ensures
        res.data@ == "Invalid command: "@ + error_message@ + "\n"@,
        res.exit_status == 1,
        res.close,
{
    Reply { data: join3("Invalid command: ", error_message, "\n"), exit_status: 1, close: true }
}

/// The answer to a command that failed while it ran.
pub fn failure_reply(error_message: &str) -> (res: Reply)
    ensures
        res.data@ == "Error: "@ + error_message@ + "\n"@,
        res.exit_status == 1,
        res.close,
{
    Reply { data: join3("Error: ", error_message, "\n"), exit_status: 1, close: true }
}

/// The answer to an exec request: the request is parsed, and answered as a
/// command where it is one. `repo_exists` tells of the repository that the
/// request names as its first argument.
pub fn exec_reply(request: &str, repo_exists: bool) -> (res: Reply)
    ensures
        match crate::protocol::command_of_words(crate::text::words(request@)) {
            Ok(cmd) => res.data@ == reply_text(cmd, repo_exists) && res.exit_status == (
            if repo_exists {
                0u32
            } else {
                1u32
            }) && res.close == closes(cmd, repo_exists),
            Err(text) => res.data@ == "Invalid command: "@ + "Protocol error: "@ + text + "\n"@
                && res.exit_status == 1 && res.close,
        },
{
    match PijulCommand::parse(request) {
        Ok(cmd) => command_reply(&cmd, repo_exists),
        Err(e) => {
            let message = e.message();
            invalid_command_reply(message.as_str())
        },
    }
}

/// The port that a setting names.
pub open spec fn port_of(val: Seq<char>) -> Option<u16> {
    match decimal_u64(val) {
        Some(n) => if n <= 0xffff {
            Some(n as u16)
        } else {
            None
        },
        None => None,
    }
}

/// Reads the port of the service `service` ("SSH" or "HTTP") from a setting.
pub fn parse_port(service: &str, val: &str) -> (res: Result<u16, ServerError>)
    ensures
        match port_of(val@) {
            Some(p) => res == Ok::<u16, ServerError>(p),
            None => res matches Err(e) && e.is(
                ErrorKind::Config,
                "Invalid "@ + service@ + " port: "@ + val@,
            ),
        },
{
    match parse_u64(val) {
        Some(n) => {
            if n <= 0xffff {
                return Ok(n as u16);
            }
        },
        None => {},
    }
    let mut text = join3("Invalid ", service, " port: ");
    text.append(val);
    Err(ServerError::config(text.as_str()))
}

/// The error that a host setting earns which is no address.
pub fn invalid_host(service: &str, val: &str) -> (res: ServerError)
    ensures
        res.is(ErrorKind::Config, "Invalid "@ + service@ + " host: "@ + val@),
{
    let mut text = join3("Invalid ", service, " host: ");
    text.append(val);
    ServerError::config(text.as_str())
}

/// The lower-case form that std gives a string.
pub uninterp spec fn lowercased(s: Seq<char>) -> Seq<char>;

/// Calls `str::to_lowercase`. Trusted: the result is a function of the string.
#[verifier::external_body]
fn lowercase(s: &str) -> (res: String)
    ensures
        res@ == lowercased(s@),
{
    s.to_lowercase()
}

/// Reads a switch from a setting: it is on for `1` and for `true` in any case.
pub fn parse_flag(val: &str) -> (res: bool)
    ensures
        res == (lowercased(val@) == "true"@ || val@ == "1"@),
{
    let lower = lowercase(val);
    same_text(lower.as_str(), "true") || same_text(val, "1")
}

/// How much the server logs.
#[derive(Debug, Clone, Copy, PartialEq, Eq, Structural)]
pub enum LogLevel {
    Trace,
    Debug,
    Info,
    Warn,
    Error,
}

pub open spec fn level_of(lower: Seq<char>) -> LogLevel {
    if lower == "trace"@ {
        LogLevel::Trace
    } else if lower == "debug"@ {
        LogLevel::Debug
    } else if lower == "warn"@ {
        LogLevel::Warn
    } else if lower == "error"@ {
        LogLevel::Error
    } else {
        LogLevel::Info
    }
}

/// Reads the log level from a setting, in any case; what is no level counts
/// as `info`.
pub fn parse_log_level(val: &str) -> (res: LogLevel)
    ensures
        res == level_of(lowercased(val@)),
{
    let lower = lowercase(val);
    let l = lower.as_str();
    if same_text(l, "trace") {
        LogLevel::Trace
    } else if same_text(l, "debug") {
        LogLevel::Debug
    } else if same_text(l, "warn") {
        LogLevel::Warn
    } else if same_text(l, "error") {
        LogLevel::Error
    } else {
        LogLevel::Info
    }
}


/// A setting that is to name an address to listen on: the text as it was
/// given, and the address in its usual form where the text is one.
#[derive(Debug)]
pub struct HostSetting {
    pub given: String,
    pub address: Option<String>,
}

/// The settings that the server finds in its environment, each as it was
/// given, if it was.
#[derive(Debug)]
pub struct Settings {
    pub ssh_host: Option<HostSetting>,
    pub ssh_port: Option<String>,
    pub http_host: Option<HostSetting>,
    pub http_port: Option<String>,
    pub host_key_path: Option<String>,
    pub repos_dir: Option<String>,
    pub log_level: Option<String>,
    pub generate_host_key: Option<String>,
}

/// Server configuration loaded from environment variables.
#[derive(Debug)]
pub struct ServerConfig {
    /// SSH server bind address
    pub ssh_host: String,
    /// SSH server port (default: 2222)
    pub ssh_port: u16,
    /// HTTP server bind address
    pub http_host: String,
    /// HTTP server port (default: 3000)
    pub http_port: u16,
    /// Path to SSH host key file
    pub host_key_path: String,
    /// Directory containing repositories
    pub repos_dir: String,
    /// Log level (trace, debug, info, warn, error)
    pub log_level: String,
    /// Whether to generate host key if missing
    pub generate_host_key: bool,
}

pub struct ServerConfigView {
    pub ssh_host: Seq<char>,
    pub ssh_port: u16,
    pub http_host: Seq<char>,
    pub http_port: u16,
    pub host_key_path: Seq<char>,
    pub repos_dir: Seq<char>,
    pub log_level: Seq<char>,
    pub generate_host_key: bool,
}

impl View for ServerConfig {
    type V = ServerConfigView;

    open spec fn view(&self) -> ServerConfigView {
        ServerConfigView {
            ssh_host: self.ssh_host@,
            ssh_port: self.ssh_port,
            http_host: self.http_host@,
            http_port: self.http_port,
            host_key_path: self.host_key_path@,
            repos_dir: self.repos_dir@,
            log_level: self.log_level@,
            generate_host_key: self.generate_host_key,
        }
    }
}

/// The configuration of a server that finds no setting.
pub open spec fn default_config() -> ServerConfigView {
    ServerConfigView {
        ssh_host: "0.0.0.0"@,
        ssh_port: 2222,
        http_host: "127.0.0.1"@,
        http_port: 3000,
        host_key_path: "./host_key"@,
        repos_dir: "./repos"@,
        log_level: "info"@,
        generate_host_key: true,
    }
}

impl Default for ServerConfig {
    fn default() -> (res: Self)
        ensures
            res@ == default_config(),
    {
        ServerConfig {
            ssh_host: "0.0.0.0".to_owned(),
            ssh_port: 2222,
            http_host: "127.0.0.1".to_owned(),
            http_port: 3000,
            host_key_path: "./host_key".to_owned(),
            repos_dir: "./repos".to_owned(),
            log_level: "info".to_owned(),
            generate_host_key: true,
        }
    }
}

/// The host that a setting gives, or the text of the error that it earns.
pub open spec fn host_of(
    service: Seq<char>,
    setting: Option<HostSetting>,
    default: Seq<char>,
) -> Result<Seq<char>, Seq<char>> {
    match setting {
        None => Ok(default),
        Some(h) => match h.address {
            Some(a) => Ok(a@),
            None => Err("Invalid "@ + service + " host: "@ + h.given@),
        },
    }
}

/// The port that a setting gives, or the text of the error that it earns.
pub open spec fn port_setting(service: Seq<char>, setting: Option<String>, default: u16) -> Result<
    u16,
    Seq<char>,
> {
    match setting {
        None => Ok(default),
        Some(text) => match port_of(text@) {
            Some(p) => Ok(p),
            None => Err("Invalid "@ + service + " port: "@ + text@),
        },
    }
}

pub open spec fn text_or(setting: Option<String>, default: Seq<char>) -> Seq<char> {
    match setting {
        Some(t) => t@,
        None => default,
    }
}

/// The configuration that the settings give: each setting that is there
/// takes the place of the default. The first setting, in the order SSH host,
/// SSH port, HTTP host, HTTP port, that cannot be read decides the error.
pub open spec fn config_of(s: Settings) -> Result<ServerConfigView, Seq<char>> {
    let d = default_config();
    match host_of("SSH"@, s.ssh_host, d.ssh_host) {
        Err(e) => Err(e),
        Ok(ssh_host) => match port_setting("SSH"@, s.ssh_port, d.ssh_port) {
            Err(e) => Err(e),
            Ok(ssh_port) => match host_of("HTTP"@, s.http_host, d.http_host) {
                Err(e) => Err(e),
                Ok(http_host) => match port_setting("HTTP"@, s.http_port, d.http_port) {
                    Err(e) => Err(e),
                    Ok(http_port) => Ok(
                        ServerConfigView {
                            ssh_host,
                            ssh_port,
                            http_host,
                            http_port,
                            host_key_path: text_or(s.host_key_path, d.host_key_path),
                            repos_dir: text_or(s.repos_dir, d.repos_dir),
                            log_level: text_or(s.log_level, d.log_level),
                            generate_host_key: match s.generate_host_key {
                                Some(t) => lowercased(t@) == "true"@ || t@ == "1"@,
                                None => d.generate_host_key,
                            },
                        },
                    ),
                },
            },
        },
    }
}

impl ServerConfig {
    /// Makes the configuration from the settings of the environment.
    pub fn from_settings(s: &Settings) -> (res: Result<ServerConfig, ServerError>)
        ensures
            match config_of(*s) {
                Ok(v) => res matches Ok(c) && c@ == v,
                Err(text) => res matches Err(e) && e.is(ErrorKind::Config, text),
            },
    {
        let mut config = ServerConfig::default();
        if let Some(h) = &s.ssh_host {
            match &h.address {
                Some(a) => {
                    config.ssh_host = a.clone();
                },
                None => {
                    return Err(invalid_host("SSH", h.given.as_str()));
                },
            }
        }
        if let Some(val) = &s.ssh_port {
            match parse_port("SSH", val.as_str()) {
                Ok(p) => {
                    config.ssh_port = p;
                },
                Err(e) => {
                    return Err(e);
                },
            }
        }
        if let Some(h) = &s.http_host {
            match &h.address {
                Some(a) => {
                    config.http_host = a.clone();
                },
                None => {
                    return Err(invalid_host("HTTP", h.given.as_str()));
                },
            }
        }
        if let Some(val) = &s.http_port {
            match parse_port("HTTP", val.as_str()) {
                Ok(p) => {
                    config.http_port = p;
                },
                Err(e) => {
                    return Err(e);
                },
            }
        }
        if let Some(val) = &s.host_key_path {
            config.host_key_path = val.clone();
        }
        if let Some(val) = &s.repos_dir {
            config.repos_dir = val.clone();
        }
        if let Some(val) = &s.log_level {
            config.log_level = val.clone();
        }
        if let Some(val) = &s.generate_host_key {
            config.generate_host_key = parse_flag(val.as_str());
        }
        Ok(config)
    }

    /// Get the SSH socket address as a string.
    pub fn ssh_addr(&self) -> (res: String)
        ensures
            res@ == self.ssh_host@ + ":"@ + crate::text::decimal(self.ssh_port as nat),
    {
        let mut out = join2(self.ssh_host.as_str(), ":");
        crate::text::push_decimal(&mut out, self.ssh_port as u64);
        out
    }
}

/// Where the host key of the server comes from.
#[derive(Debug, Clone, Copy, PartialEq, Eq, Structural)]
pub enum HostKeySource {
    /// The key is loaded from its file.
    File,
    /// A new key is made, which lasts as long as the server runs.
    Generated,
}

/// The host key is loaded where its file exists, and made where it does not
/// and making one is allowed; else the server does not start.
pub fn host_key_source(file_exists: bool, generate: bool) -> (res: Option<HostKeySource>)
    ensures
        res == (if file_exists {
            Some(HostKeySource::File)
        } else if generate {
            Some(HostKeySource::Generated)
        } else {
            None
        }),
{
    if file_exists {
        Some(HostKeySource::File)
    } else if generate {
        Some(HostKeySource::Generated)
    } else {
        None
    }
}

} // verus!
