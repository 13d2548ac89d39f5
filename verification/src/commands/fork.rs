//! The rules of the `fork` command.

use crate::changes;
use crate::commands::common_opts::RepoPath;
use vstd::prelude::*;

verus! {

#[derive(Debug)]
pub struct Fork {
    pub base: RepoPath,
    /// Make the new channel from this state instead of the current channel
    pub state: Option<String>,
    /// Make the new channel from this channel instead of the current channel
    pub channel: Option<String>,
    /// Apply this change after creating the channel
    pub change: Option<String>,
    /// The name of the new channel
    pub to: String,
}

/// How the new channel comes about.
pub enum ForkSource<'a> {
    /// An empty channel, to which one change is applied with what it depends on.
    Change(&'a str),
    /// A copy of a channel (the current one where none is named), rolled
    /// back to a state where one is named.
    Channel { channel: Option<&'a str>, state: Option<&'a str> },
}

impl Fork {
    /// A change that is named decides; else the channel and the state do.
    pub fn source(&self) -> (res: ForkSource<'_>)
        ensures
            match self.change {
                Some(c) => res matches ForkSource::Change(r) && r@ == c@,
                None => res matches ForkSource::Channel { channel, state }
                    && crate::commands::channel::opt_text(channel) == crate::protocol::text_of(
                    self.channel,
                ) && crate::commands::channel::opt_text(state) == crate::protocol::text_of(
                    self.state,
                ),
            },
    {
        match &self.change {
            Some(c) => ForkSource::Change(c.as_str()),
            None => ForkSource::Channel {
                channel: match &self.channel {
                    Some(c) => Some(c.as_str()),
                    None => None,
                },
                state: match &self.state {
                    Some(s) => Some(s.as_str()),
                    None => None,
                },
            },
        }
    }
}

/// How many entries at the beginning of a log, read from its end, were
/// applied after ordinal `n`.
pub open spec fn newer_len(rev_log: Seq<(u64, changes::Hash)>, n: u64) -> nat
    decreases rev_log.len(),
{
    if rev_log.len() > 0 && rev_log[0].0 > n {
        1 + newer_len(rev_log.skip(1), n)
    } else {
        0
    }
}

proof fn lemma_newer_len(rev_log: Seq<(u64, changes::Hash)>, n: u64, k: int)
    requires
        0 <= k <= rev_log.len(),
        forall|i: int| 0 <= i < k ==> (#[trigger] rev_log[i]).0 > n,
        k < rev_log.len() ==> rev_log[k].0 <= n,
    ensures
        newer_len(rev_log, n) == k,
    decreases k,
{
    if k > 0 {
        assert forall|i: int| 0 <= i < k - 1 implies (#[trigger] rev_log.skip(1)[i]).0 > n by {
            assert(rev_log.skip(1)[i] == rev_log[i + 1]);
        }
        lemma_newer_len(rev_log.skip(1), n, k - 1);
    }
}

/// The changes to unapply so that a channel goes back to the state it had
/// after ordinal `n`: those of the log, read from its end, up to the first
/// that was applied at `n` or before; the newest comes first.
pub fn changes_above(rev_log: &[(u64, changes::Hash)], n: u64) -> (res: Vec<changes::Hash>)
    ensures
        res@.len() == newer_len(rev_log@, n),
        forall|i: int| 0 <= i < res@.len() ==> res@[i] == (#[trigger] rev_log@[i]).1,
{
    let mut v: Vec<changes::Hash> = Vec::new();
    let mut i: usize = 0;
    while i < rev_log.len() && rev_log[i].0 > n
        invariant
            0 <= i <= rev_log@.len(),
            v@.len() == i,
            forall|k: int| 0 <= k < i ==> (#[trigger] rev_log@[k]).0 > n,
            forall|k: int| 0 <= k < i ==> v@[k] == (#[trigger] rev_log@[k]).1,
        decreases rev_log@.len() - i,
    {
        v.push(rev_log[i].1);
        i = i + 1;
    }
    proof {
        lemma_newer_len(rev_log@, n, i as int);
    }
    v
}

} // verus!
