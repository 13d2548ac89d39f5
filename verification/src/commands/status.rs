//! The rules of the `status` command.

use crate::commands::common_opts::RepoAndChannel;
use std::path::PathBuf;
use vstd::prelude::*;

verus! {

#[derive(Debug)]
pub struct Status {
    pub base: RepoAndChannel,
    /// Add all the changes of this channel as dependencies (except changes implied transitively), instead of the minimal dependencies.
    pub tag: bool,
    /// Include the untracked files
    pub untracked: bool,
    /// Show only untracked files
    pub only_untracked: bool,
    /// Only diff those paths (files or directories). If missing, diff the entire repository.
    pub prefixes: Vec<PathBuf>,
}

/// The options of the `diff` command.
#[derive(Debug)]
pub struct Diff {
    pub base: RepoAndChannel,
    pub json: bool,
    pub tag: bool,
    pub short: bool,
    pub untracked: bool,
    pub prefixes: Vec<PathBuf>,
    pub patience: bool,
    pub histogram: bool,
}

/// What `status` does after it has named the current channel.
#[derive(Debug)]
pub enum StatusAction {
    /// List the untracked files, and nothing else.
    UntrackedFiles(RepoAndChannel),
    /// Run a diff.
    Diff(Diff),
}

impl Status {
    /// Status is a short diff with Myers' algorithm, unless only the
    /// untracked files are asked for.
    pub fn action(self) -> (res: StatusAction)
        ensures
            match res {
                StatusAction::UntrackedFiles(base) => self.only_untracked && base == self.base,
                StatusAction::Diff(d) => !self.only_untracked && d == (Diff {
                    base: self.base,
                    json: false,
                    tag: self.tag,
                    short: true,
                    untracked: self.untracked,
                    prefixes: self.prefixes,
                    patience: false,
                    histogram: false,
                }),
            },
    {
        if self.only_untracked {
            StatusAction::UntrackedFiles(self.base)
        } else {
            StatusAction::Diff(
                Diff {
                    base: self.base,
                    json: false,
                    tag: self.tag,
                    short: true,
                    untracked: self.untracked,
                    prefixes: self.prefixes,
                    patience: false,
                    histogram: false,
                },
            )
        }
    }
}

/// The line that names the current channel.
pub fn channel_line(current: Option<&str>) -> (res: String)
    ensures
        res@ == (match current {
            Some(c) => "On channel: "@ + c@,
            None => "Not on a channel"@,
        }),
{
    match current {
        Some(c) => crate::text::join2("On channel: ", c),
        None => "Not on a channel".to_owned(),
    }
}

} // verus!
