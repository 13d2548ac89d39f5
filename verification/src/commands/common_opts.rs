//! Options that most commands share.

use std::path::PathBuf;
use vstd::prelude::*;

verus! {

/// `std::path::PathBuf`: paths are carried through as they are given.
#[verifier::external_type_specification]
#[verifier::external_body]
pub struct ExPathBuf(PathBuf);

#[derive(Debug)]
pub struct RepoPath {
    /// Work with the repository at PATH instead of the one containing the current directory.
    pub repo_path: Option<PathBuf>,
}

#[derive(Debug)]
pub struct RepoAndChannel {
    pub base: RepoPath,
    /// Work with CHANNEL instead of the current channel
    pub channel: Option<String>,
}

/// `r` refers to what `o` holds, or both hold nothing.
pub open spec fn refers_to<T>(r: Option<&T>, o: Option<T>) -> bool {
    match (r, o) {
        (Some(a), Some(b)) => *a == b,
        (None, None) => true,
        _ => false,
    }
}

impl RepoPath {
    pub fn repo_path(&self) -> (res: Option<&PathBuf>)
        ensures
            refers_to(res, self.repo_path),
    {
        match &self.repo_path {
            Some(p) => Some(p),
            None => None,
        }
    }
}

impl RepoAndChannel {
    pub fn repo_path(&self) -> (res: Option<&PathBuf>)
        ensures
            refers_to(res, self.base.repo_path),
    {
        self.base.repo_path()
    }

    pub fn channel(&self) -> (res: Option<&str>)
        ensures
            match (res, self.channel) {
                (Some(a), Some(b)) => a@ == b@,
                (None, None) => true,
                _ => false,
            },
    {
        match &self.channel {
            Some(c) => Some(c.as_str()),
            None => None,
        }
    }
}

} // verus!
