//! The user's and the repository's configuration, as plain data.

use std::collections::HashMap;
use std::path::PathBuf;
use vstd::prelude::*;

verus! {

/// `whoami::realname` asks the system for the user's full name, and falls
/// back on the user name. Nothing is claimed of the answer.
pub assume_specification[ whoami::realname ]() -> (name: String)
;

#[derive(Debug)]
pub struct Global {
    pub author: Author,
    pub unrecord_changes: Option<usize>,
    pub reset_overwrites_changes: Option<Choice>,
    pub colors: Option<Choice>,
    pub pager: Option<Choice>,
    pub template: Option<Templates>,
    pub ignore_kinds: Option<HashMap<String, Vec<String>>>,
}

impl Default for Global {
    fn default() -> (res: Self)
        ensures
            res.author.is_blank(),
            res.unrecord_changes.is_none(),
            res.reset_overwrites_changes.is_none(),
            res.colors.is_none(),
            res.pager.is_none(),
            res.template.is_none(),
            res.ignore_kinds.is_none(),
    {
        Global {
            author: Author::default(),
            unrecord_changes: None,
            reset_overwrites_changes: None,
            colors: None,
            pager: None,
            template: None,
            ignore_kinds: None,
        }
    }
}

#[derive(Debug, Clone, PartialEq, Eq)]
pub struct Author {
    // Older versions called this 'name', but 'username' is more descriptive
    pub username: String,
    pub display_name: String,
    pub email: String,
    pub origin: String,
    // This has been moved to identity::Config, but we should still be able to read the values
    pub key_path: Option<PathBuf>,
}

impl Author {
    /// Nothing is filled in but, possibly, the name to display.
    pub open spec fn is_blank(&self) -> bool {
        &&& self.username@.len() == 0
        &&& self.email@.len() == 0
        &&& self.origin@.len() == 0
        &&& self.key_path.is_none()
    }
}

impl Default for Author {
    /// An author of whom only the name to display is known: the one the
    /// system gives for the current user.
    fn default() -> (res: Self)
        ensures
            res.is_blank(),
    {
        Author {
            username: String::new(),
            email: String::new(),
            display_name: whoami::realname(),
            origin: String::new(),
            key_path: None,
        }
    }
}

#[derive(Debug, Clone, Copy, PartialEq, Eq, Structural)]
pub enum Choice {
    Auto,
    Always,
    Never,
}

impl Default for Choice {
    fn default() -> (res: Self)
        ensures
            res == Choice::Auto,
    {
        Choice::Auto
    }
}

impl Choice {
    /// The text that stands for the choice in a configuration file.
    pub open spec fn spec_name(self) -> Seq<char> {
        match self {
            Choice::Auto => "auto"@,
            Choice::Always => "always"@,
            Choice::Never => "never"@,
        }
    }

    pub fn name(self) -> (res: &'static str)
        ensures
            res@ == self.spec_name(),
    {
        match self {
            Choice::Auto => "auto",
            Choice::Always => "always",
            Choice::Never => "never",
        }
    }

    /// Reads a choice from its name.
    pub fn from_name(name: &str) -> (res: Option<Choice>)
        ensures
            match res {
                Some(c) => name@ == c.spec_name(),
                None => forall|c: Choice| name@ != c.spec_name(),
            },
    {
        if crate::text::same_text(name, "auto") {
            Some(Choice::Auto)
        } else if crate::text::same_text(name, "always") {
            Some(Choice::Always)
        } else if crate::text::same_text(name, "never") {
            Some(Choice::Never)
        } else {
            None
        }
    }
}

/// Whether prompts are drawn in colour: they are unless the user's choice of
/// colours is `Never`. Without a configuration they are.
pub fn colorful_theme(colors: Option<Choice>) -> (res: bool)
    ensures
        res == !(colors == Some(Choice::Never)),
{
    match colors {
        Some(Choice::Never) => false,
        _ => true,
    }
}

#[derive(Debug)]
pub struct Templates {
    pub message: Option<PathBuf>,
    pub description: Option<PathBuf>,
}

pub const GLOBAL_CONFIG_DIR: &'static str = ".pijulconfig";

pub const CONFIG_DIR: &'static str = "pijul";

#[derive(Debug)]
pub struct Config {
    pub default_remote: Option<String>,
    pub extra_dependencies: Vec<String>,
    pub remotes: Vec<RemoteConfig>,
    pub hooks: Hooks,
    pub unrecord_changes: Option<usize>,
    pub reset_overwrites_changes: Option<Choice>,
    pub colors: Option<Choice>,
    pub pager: Option<Choice>,
}

impl Default for Config {
    fn default() -> (res: Self)
        ensures
            res.default_remote.is_none(),
            res.extra_dependencies@.len() == 0,
            res.remotes@.len() == 0,
            res.hooks.record@.len() == 0,
            res.unrecord_changes.is_none(),
            res.reset_overwrites_changes.is_none(),
            res.colors.is_none(),
            res.pager.is_none(),
    {
        Config {
            default_remote: None,
            extra_dependencies: Vec::new(),
            remotes: Vec::new(),
            hooks: Hooks { record: Vec::new() },
            unrecord_changes: None,
            reset_overwrites_changes: None,
            colors: None,
            pager: None,
        }
    }
}

/// A named remote. The headers of an HTTP remote are kept in the order in
/// which they were given; no name stands twice among them.
#[derive(Debug)]
pub enum RemoteConfig {
    Ssh { name: String, ssh: String },
    Http { name: String, http: String, headers: Vec<(String, RemoteHttpHeader)> },
}

impl RemoteConfig {
    pub open spec fn spec_name(&self) -> Seq<char> {
        match self {
            RemoteConfig::Ssh { name, .. } => name@,
            RemoteConfig::Http { name, .. } => name@,
        }
    }

    pub open spec fn spec_url(&self) -> Seq<char> {
        match self {
            RemoteConfig::Ssh { ssh, .. } => ssh@,
            RemoteConfig::Http { http, .. } => http@,
        }
    }

    pub open spec fn spec_db_uses_name(&self) -> bool {
        self is Http
    }

    pub fn name(&self) -> (res: &str)
        ensures
            res@ == self.spec_name(),
    {
        match self {
            RemoteConfig::Ssh { name, .. } => name.as_str(),
            RemoteConfig::Http { name, .. } => name.as_str(),
        }
    }

    pub fn url(&self) -> (res: &str)
        ensures
            res@ == self.spec_url(),
    {
        match self {
            RemoteConfig::Ssh { ssh, .. } => ssh.as_str(),
            RemoteConfig::Http { http, .. } => http.as_str(),
        }
    }

    /// Whether the repository's database knows the remote by its name (an
    /// HTTP remote) or by its address (an SSH remote).
    #[verifier::when_used_as_spec(spec_db_uses_name)]
    pub fn db_uses_name(&self) -> (res: bool)
        ensures
            res == self.spec_db_uses_name(),
    {
        match self {
            RemoteConfig::Ssh { .. } => false,
            RemoteConfig::Http { .. } => true,
        }
    }
}

#[derive(Debug)]
pub enum RemoteHttpHeader {
    String(String),
    Shell(Shell),
}

impl RemoteHttpHeader {
    /// The text of the header: the value itself, or the command that gives it.
    pub open spec fn spec_text(&self) -> Seq<char> {
        match self {
            RemoteHttpHeader::String(s) => s@,
            RemoteHttpHeader::Shell(s) => s.shell@,
        }
    }

    pub fn text(&self) -> (res: &str)
        ensures
            res@ == self.spec_text(),
    {
        match self {
            RemoteHttpHeader::String(s) => s.as_str(),
            RemoteHttpHeader::Shell(s) => s.shell.as_str(),
        }
    }
}

#[derive(Debug)]
pub struct Shell {
    pub shell: String,
}

#[derive(Debug)]
pub struct Hooks {
    pub record: Vec<HookEntry>,
}

/// A hook: a line for the shell, or a command with its arguments.
#[derive(Debug)]
pub enum HookEntry {
    Shell(String),
    Command { command: String, args: Vec<String> },
}

/// What running a hook amounts to.
pub enum HookAction<'a> {
    /// The hook is an empty line: there is nothing to run.
    Nothing,
    /// Hand the line to the shell.
    Shell(&'a str),
    /// Run the command with the arguments.
    Command(&'a str, &'a Vec<String>),
}

impl HookEntry {
    /// Tells what is to be run for the hook.
    pub fn action(&self) -> (res: HookAction<'_>)
        ensures
            match *self {
                HookEntry::Shell(line) => if line@.len() == 0 {
                    res is Nothing
                } else {
                    res matches HookAction::Shell(s) && s@ == line@
                },
                HookEntry::Command { command, args } => res matches HookAction::Command(c, a)
                    && c@ == command@ && *a == args,
            },
    {
        match self {
            HookEntry::Shell(line) => {
                if line.as_str().is_empty() {
                    HookAction::Nothing
                } else {
                    HookAction::Shell(line.as_str())
                }
            },
            HookEntry::Command { command, args } => HookAction::Command(command.as_str(), args),
        }
    }

    /// The name under which a failure of the hook is reported.
    pub fn label(&self) -> (res: &str)
        ensures
            match *self {
                HookEntry::Shell(line) => res@ == line@,
                HookEntry::Command { command, .. } => res@ == command@,
            },
    {
        match self {
            HookEntry::Shell(line) => line.as_str(),
            HookEntry::Command { command, .. } => command.as_str(),
        }
    }
}

/// The exit code with which the program ends after a hook has run: none where
/// the hook succeeded, else the hook's own code, or 1 where it has none.
pub fn hook_exit(success: bool, code: Option<i32>) -> (res: Option<i32>)
    ensures
        res == (if success {
            None
        } else {
            Some(
                match code {
                    Some(c) => c,
                    None => 1i32,
                },
            )
        }),
{
    if success {
        None
    } else {
        match code {
            Some(c) => Some(c),
            None => Some(1),
        }
    }
}

/// Where a repository was cloned from.
#[derive(Debug)]
pub enum Remote {
    Ssh(SshRemote),
    Local { local: String },
    Http { url: String },
    /// No place is recorded.
    Absent,
}

#[derive(Debug, Clone)]
pub struct SshRemote {
    pub addr: String,
}

/// The three optional entries as which a `Remote` is written.
#[derive(Debug)]
pub struct RemoteParts {
    pub ssh: Option<SshRemote>,
    pub local: Option<String>,
    pub url: Option<String>,
}

pub enum RemoteView {
    Ssh(Seq<char>),
    Local(Seq<char>),
    Http(Seq<char>),
    Absent,
}

pub struct RemotePartsView {
    pub ssh: Option<Seq<char>>,
    pub local: Option<Seq<char>>,
    pub url: Option<Seq<char>>,
}

impl View for Remote {
    type V = RemoteView;

    open spec fn view(&self) -> RemoteView {
        match self {
            Remote::Ssh(ssh) => RemoteView::Ssh(ssh.addr@),
            Remote::Local { local } => RemoteView::Local(local@),
            Remote::Http { url } => RemoteView::Http(url@),
            Remote::Absent => RemoteView::Absent,
        }
    }
}

impl View for RemoteParts {
    type V = RemotePartsView;

    open spec fn view(&self) -> RemotePartsView {
        RemotePartsView {
            ssh: match self.ssh {
                Some(s) => Some(s.addr@),
                None => None,
            },
            local: match self.local {
                Some(s) => Some(s@),
                None => None,
            },
            url: match self.url {
                Some(s) => Some(s@),
                None => None,
            },
        }
    }
}

/// The remote that three entries stand for: the first that is there, in the
/// order SSH, local, HTTP.
pub open spec fn remote_of_parts(p: RemotePartsView) -> RemoteView {
    if let Some(addr) = p.ssh {
        RemoteView::Ssh(addr)
    } else if let Some(local) = p.local {
        RemoteView::Local(local)
    } else if let Some(url) = p.url {
        RemoteView::Http(url)
    } else {
        RemoteView::Absent
    }
}

/// The entries as which a remote is written: at most one.
pub open spec fn parts_of_remote(r: RemoteView) -> RemotePartsView {
    match r {
        RemoteView::Ssh(addr) => RemotePartsView { ssh: Some(addr), local: None, url: None },
        RemoteView::Local(local) => RemotePartsView { ssh: None, local: Some(local), url: None },
        RemoteView::Http(url) => RemotePartsView { ssh: None, local: None, url: Some(url) },
        RemoteView::Absent => RemotePartsView { ssh: None, local: None, url: None },
    }
}

/// A remote that is written out and read back is the same remote.
pub proof fn lemma_remote_round_trip(r: RemoteView)
    ensures
        remote_of_parts(parts_of_remote(r)) == r,
{
}

impl Remote {
    pub fn from_parts(parts: RemoteParts) -> (res: Remote)
        ensures
            res@ == remote_of_parts(parts@),
    {
        if let Some(ssh) = parts.ssh {
            Remote::Ssh(ssh)
        } else if let Some(local) = parts.local {
            Remote::Local { local }
        } else if let Some(url) = parts.url {
            Remote::Http { url }
        } else {
            Remote::Absent
        }
    }

    pub fn to_parts(&self) -> (res: RemoteParts)
        ensures
            res@ == parts_of_remote(self@),
    {
        match self {
            Remote::Ssh(ssh) => RemoteParts {
                ssh: Some(SshRemote { addr: ssh.addr.clone() }),
                local: None,
                url: None,
            },
            Remote::Local { local } => RemoteParts {
                local: Some(local.clone()),
                ssh: None,
                url: None,
            },
            Remote::Http { url } => RemoteParts { local: None, ssh: None, url: Some(url.clone()) },
            Remote::Absent => RemoteParts { local: None, ssh: None, url: None },
        }
    }
}

} // verus!
