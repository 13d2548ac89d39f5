//! Pijul protocol command parsing.
//!
//! Parses SSH exec requests into Pijul commands.

use crate::error::{ErrorKind, ServerError};
use crate::text::{join2, same_text, split_whitespace, texts, words};
use vstd::prelude::*;

verus! {

/// Pijul protocol commands that can be executed over SSH.
#[derive(Debug, Clone, PartialEq)]
pub enum PijulCommand {
    /// Clone a repository channel
    Clone { repo: String, channel: Option<String> },
    /// Pull changes from a repository
    Pull { repo: String, channel: Option<String> },
    /// Push changes to a repository
    Push { repo: String, channel: Option<String> },
    /// Check if a repository exists
    Ping { repo: String },
}

/// A command as the text it holds.
pub enum CommandView {
    Clone { repo: Seq<char>, channel: Option<Seq<char>> },
    Pull { repo: Seq<char>, channel: Option<Seq<char>> },
    Push { repo: Seq<char>, channel: Option<Seq<char>> },
    Ping { repo: Seq<char> },
}

pub open spec fn text_of(s: Option<String>) -> Option<Seq<char>> {
    match s {
        Some(s) => Some(s@),
        None => None,
    }
}

impl View for PijulCommand {
    type V = CommandView;

    open spec fn view(&self) -> CommandView {
        match self {
            PijulCommand::Clone { repo, channel } => CommandView::Clone {
                repo: repo@,
                channel: text_of(*channel),
            },
            PijulCommand::Pull { repo, channel } => CommandView::Pull {
                repo: repo@,
                channel: text_of(*channel),
            },
            PijulCommand::Push { repo, channel } => CommandView::Push {
                repo: repo@,
                channel: text_of(*channel),
            },
            PijulCommand::Ping { repo } => CommandView::Ping { repo: repo@ },
        }
    }
}

impl CommandView {
    pub open spec fn repo(self) -> Seq<char> {
        match self {
            CommandView::Clone { repo, .. } => repo,
            CommandView::Pull { repo, .. } => repo,
            CommandView::Push { repo, .. } => repo,
            CommandView::Ping { repo } => repo,
        }
    }

    /// The channel that the command names, `main` where it names none.
    pub open spec fn channel(self) -> Seq<char> {
        match self {
            CommandView::Clone { channel: Some(c), .. } => c,
            CommandView::Pull { channel: Some(c), .. } => c,
            CommandView::Push { channel: Some(c), .. } => c,
            _ => "main"@,
        }
    }
}

/// The second argument of a command, where there is one.
pub open spec fn second(args: Seq<Seq<char>>) -> Option<Seq<char>> {
    if args.len() > 1 {
        Some(args[1])
    } else {
        None
    }
}

/// The command that a subcommand and its arguments stand for, or the text of
/// the protocol error that they earn.
pub open spec fn command_of(cmd: Seq<char>, args: Seq<Seq<char>>) -> Result<
    CommandView,
    Seq<char>,
> {
    if cmd == "clone"@ {
        if args.len() == 0 {
            Err("Clone requires repository name"@)
        } else {
            Ok(CommandView::Clone { repo: args[0], channel: second(args) })
        }
    } else if cmd == "pull"@ {
        if args.len() == 0 {
            Err("Pull requires repository name"@)
        } else {
            Ok(CommandView::Pull { repo: args[0], channel: second(args) })
        }
    } else if cmd == "push"@ {
        if args.len() == 0 {
            Err("Push requires repository name"@)
        } else {
            Ok(CommandView::Push { repo: args[0], channel: second(args) })
        }
    } else if cmd == "ping"@ {
        if args.len() == 0 {
            Err("Ping requires repository name"@)
        } else {
            Ok(CommandView::Ping { repo: args[0] })
        }
    } else {
        Err("Unknown command: "@ + cmd)
    }
}

/// The command that the words of a request stand for. A leading `pijul` is
/// optional.
pub open spec fn command_of_words(parts: Seq<Seq<char>>) -> Result<CommandView, Seq<char>> {
    if parts.len() == 0 {
        Err("Empty command"@)
    } else if parts[0] == "pijul"@ {
        if parts.len() < 2 {
            Err("Missing pijul subcommand"@)
        } else {
            command_of(parts[1], parts.skip(2))
        }
    } else {
        command_of(parts[0], parts.skip(1))
    }
}

fn clone_at(parts: &Vec<String>, i: usize) -> (res: Option<String>)
    ensures
        text_of(res) == (if i < parts@.len() {
            Some(parts@[i as int]@)
        } else {
            None
        }),
{
    if i < parts.len() {
        Some(parts[i].clone())
    } else {
        None
    }
}

impl PijulCommand {
    /// Parse an SSH exec command into a PijulCommand.
    ///
    /// Expected formats:
    /// - `pijul clone REPO [CHANNEL]`
    /// - `pijul pull REPO [CHANNEL]`
    /// - `pijul push REPO [CHANNEL]`
    /// - `pijul ping REPO`
    pub fn parse(command: &str) -> (res: Result<Self, ServerError>)
        ensures
            match command_of_words(words(command@)) {
                Ok(v) => res matches Ok(c) && c@ == v,
                Err(text) => res matches Err(e) && e.is(ErrorKind::Protocol, text),
            },
    {
        let parts = split_whitespace(command);
        assert(texts(parts@).len() == parts@.len());
        assert(forall|i: int| 0 <= i < parts@.len() ==> texts(parts@)[i] == parts@[i]@);
        if parts.len() == 0 {
            return Err(ServerError::protocol("Empty command"));
        }
        // Handle both "pijul <cmd>" and just "<cmd>" formats
        let at: usize = if same_text(parts[0].as_str(), "pijul") {
            if parts.len() < 2 {
                return Err(ServerError::protocol("Missing pijul subcommand"));
            }
            1
        } else {
            0
        };
        let ghost args = words(command@).skip(at + 1);
        assert(args.len() == parts@.len() - at - 1);
        assert(forall|i: int| 0 <= i < args.len() ==> args[i] == parts@[at + 1 + i]@);
        let cmd = parts[at].as_str();
        if same_text(cmd, "clone") {
            if parts.len() <= at + 1 {
                return Err(ServerError::protocol("Clone requires repository name"));
            }
            Ok(
                PijulCommand::Clone {
                    repo: parts[at + 1].clone(),
                    channel: clone_at(&parts, at + 2),
                },
            )
        } else if same_text(cmd, "pull") {
            if parts.len() <= at + 1 {
                return Err(ServerError::protocol("Pull requires repository name"));
            }
            Ok(
                PijulCommand::Pull {
                    repo: parts[at + 1].clone(),
                    channel: clone_at(&parts, at + 2),
                },
            )
        } else if same_text(cmd, "push") {
            if parts.len() <= at + 1 {
                return Err(ServerError::protocol("Push requires repository name"));
            }
            Ok(
                PijulCommand::Push {
                    repo: parts[at + 1].clone(),
                    channel: clone_at(&parts, at + 2),
                },
            )
        } else if same_text(cmd, "ping") {
            if parts.len() <= at + 1 {
                return Err(ServerError::protocol("Ping requires repository name"));
            }
            Ok(PijulCommand::Ping { repo: parts[at + 1].clone() })
        } else {
            let text = join2("Unknown command: ", cmd);
            Err(ServerError::protocol(text.as_str()))
        }
    }

    /// Get the repository name for this command.
    pub fn repo(&self) -> (res: &str)
        ensures
            res@ == self@.repo(),
    {
        match self {
            PijulCommand::Clone { repo, .. } => repo.as_str(),
            PijulCommand::Pull { repo, .. } => repo.as_str(),
            PijulCommand::Push { repo, .. } => repo.as_str(),
            PijulCommand::Ping { repo } => repo.as_str(),
        }
    }

    /// Get the channel name, defaulting to "main".
    pub fn channel(&self) -> (res: &str)
        ensures
            res@ == self@.channel(),
    {
        match self {
            PijulCommand::Clone { channel: Some(c), .. } => c.as_str(),
            PijulCommand::Pull { channel: Some(c), .. } => c.as_str(),
            PijulCommand::Push { channel: Some(c), .. } => c.as_str(),
            _ => "main",
        }
    }
}

} // verus!
