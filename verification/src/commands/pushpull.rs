//! The rules of the `push` and `pull` commands.

use crate::changes;
use crate::changes::{contains_cs, CS};
use crate::commands::channel::opt_text;
use crate::commands::common_opts::RepoPath;
use crate::text::{debug_list_form, debug_list_text, join2, same_text, texts};
use vstd::prelude::*;

verus! {

#[derive(Debug)]
pub struct Push {
    pub base: RepoPath,
    /// Push from this channel instead of the default channel
    pub from_channel: Option<String>,
    /// Push all changes
    pub all: bool,
    /// Force an update of the local remote cache. May effect some
    /// reporting of unrecords/concurrent changes in the remote.
    pub force_cache: bool,
    /// Do not check certificates (HTTPS remotes only, this option might be dangerous)
    pub no_cert_check: bool,
    /// Push changes only relating to these paths
    pub path: Vec<String>,
    /// Push to this remote
    pub to: Option<String>,
    /// Push to this remote channel instead of the remote's default channel
    pub to_channel: Option<String>,
    /// Push only these changes
    pub changes: Vec<String>,
}

#[derive(Debug)]
pub struct Pull {
    pub base: RepoPath,
    /// Pull into this channel instead of the current channel
    pub to_channel: Option<String>,
    /// Pull all changes
    pub all: bool,
    /// Force an update of the local remote cache. May effect some
    /// reporting of unrecords/concurrent changes in the remote.
    pub force_cache: bool,
    /// Do not check certificates (HTTPS remotes only, this option might be dangerous)
    pub no_cert_check: bool,
    /// Download full changes, even when not necessary
    pub full: bool,
    /// Only pull to these paths
    pub path: Vec<String>,
    /// Pull from this remote
    pub from: Option<String>,
    /// Pull from this remote channel
    pub from_channel: Option<String>,
    /// Pull changes from the local repository, not necessarily from a channel
    pub changes: Vec<String>,
}

/// The name of the channel that a repository begins with.
pub const DEFAULT_CHANNEL: &'static str = "main";

/// Why a push or a pull is given up.
#[derive(Debug)]
pub enum TransferError {
    /// No remote was named, and the configuration has no default remote.
    MissingRemote,
    /// Changes were asked for that the repository does not have.
    ChangesNotFound(Vec<String>),
    /// A tag came in for a state that the channel never had.
    StateNotInChannel { state: String, channel: String },
}

impl TransferError {
    pub open spec fn spec_message(&self) -> Seq<char> {
        match self {
            TransferError::MissingRemote => "Missing remote"@,
            TransferError::ChangesNotFound(list) => "Changes not found: "@ + debug_list_form(
                texts(list@),
            ),
            TransferError::StateNotInChannel { state, channel } => "Cannot add tag "@ + state@
                + ": channel "@ + crate::text::debug_form(channel@)
                + " does not have that state"@,
        }
    }

    pub fn message(&self) -> (res: String)
        ensures
            res@ == self.spec_message(),
    {
        match self {
            TransferError::MissingRemote => "Missing remote".to_owned(),
            TransferError::ChangesNotFound(list) => {
                let shown = debug_list_text(list);
                join2("Changes not found: ", shown.as_str())
            },
            TransferError::StateNotInChannel { state, channel } => {
                let shown = crate::text::debug_text(channel.as_str());
                let mut out = join2("Cannot add tag ", state.as_str());
                out.append(": channel ");
                out.append(shown.as_str());
                out.append(" does not have that state");
                out
            },
        }
    }
}

/// The remote to talk to: the one that is named, else the default remote of
/// the configuration.
pub fn choose_remote<'a>(named: Option<&'a str>, default_remote: Option<&'a str>) -> (res: Result<
    &'a str,
    TransferError,
>)
    ensures
        match (named, default_remote) {
            (Some(n), _) => res matches Ok(r) && r@ == n@,
            (None, Some(d)) => res matches Ok(r) && r@ == d@,
            (None, None) => res matches Err(TransferError::MissingRemote),
        },
{
    match named {
        Some(n) => Ok(n),
        None => match default_remote {
            Some(d) => Ok(d),
            None => Err(TransferError::MissingRemote),
        },
    }
}

impl Push {
    /// The remote to push to.
    pub fn remote_name<'a>(&'a self, default_remote: Option<&'a str>) -> (res: Result<
        &'a str,
        TransferError,
    >)
        ensures
            match (self.to, default_remote) {
                (Some(n), _) => res matches Ok(r) && r@ == n@,
                (None, Some(d)) => res matches Ok(r) && r@ == d@,
                (None, None) => res matches Err(TransferError::MissingRemote),
            },
    {
        match &self.to {
            Some(n) => Ok(n.as_str()),
            None => choose_remote(None, default_remote),
        }
    }

    /// Whether the cache of the remote is to be refreshed: as the option says.
    pub fn force_cache(&self) -> (res: Option<bool>)
        ensures
            res == Some(self.force_cache),
    {
        Some(self.force_cache)
    }
}

impl Pull {
    /// The remote to pull from.
    pub fn remote_name<'a>(&'a self, default_remote: Option<&'a str>) -> (res: Result<
        &'a str,
        TransferError,
    >)
        ensures
            match (self.from, default_remote) {
                (Some(n), _) => res matches Ok(r) && r@ == n@,
                (None, Some(d)) => res matches Ok(r) && r@ == d@,
                (None, None) => res matches Err(TransferError::MissingRemote),
            },
    {
        match &self.from {
            Some(n) => Ok(n.as_str()),
            None => choose_remote(None, default_remote),
        }
    }

    /// The channel of the remote to pull from: the one that is named, else
    /// `main`.
    pub fn remote_channel(&self) -> (res: &str)
        ensures
            res@ == (match self.from_channel {
                Some(c) => c@,
                None => DEFAULT_CHANNEL@,
            }),
    {
        match &self.from_channel {
            Some(c) => c.as_str(),
            None => DEFAULT_CHANNEL,
        }
    }

    /// Whether the cache of the remote is to be refreshed: only where the
    /// option asks for it.
    pub fn force_cache(&self) -> (res: Option<bool>)
        ensures
            res == (if self.force_cache {
                Some(true)
            } else {
                None
            }),
    {
        if self.force_cache {
            Some(true)
        } else {
            None
        }
    }
}

/// The length of the part of `s` before the first `stop`.
pub open spec fn run_before(s: Seq<char>, stop: char) -> nat
    decreases s.len(),
{
    if s.len() > 0 && s[0] != stop {
        1 + run_before(s.skip(1), stop)
    } else {
        0
    }
}

pub proof fn lemma_run_before(s: Seq<char>, stop: char, n: int)
    requires
        0 <= n <= s.len(),
        forall|i: int| 0 <= i < n ==> s[i] != stop,
        n < s.len() ==> s[n] == stop,
    ensures
        run_before(s, stop) == n,
    decreases n,
{
    if n > 0 {
        assert forall|i: int| 0 <= i < n - 1 implies s.skip(1)[i] != stop by {
            assert(s.skip(1)[i] == s[i + 1]);
        }
        lemma_run_before(s.skip(1), stop, n - 1);
    }
}

/// The two parts of a channel argument `REMOTE:PUSH`: the channel of the
/// remote, which is what stands before the first colon, if anything does;
/// and the channel to push to, which is what follows that colon up to the
/// end of its line, if there is a colon.
pub open spec fn channel_parts(c: Seq<char>) -> (Option<Seq<char>>, Option<Seq<char>>) {
    let k = run_before(c, ':') as int;
    let rest = c.skip(k + 1);
    (
        if k > 0 {
            Some(c.take(k))
        } else {
            None
        },
        if k < c.len() {
            Some(rest.take(run_before(rest, '\n') as int))
        } else {
            None
        },
    )
}

fn scan(s: &str, from: usize, stop: char) -> (end: usize)
    requires
        from <= s@.len(),
    ensures
        from <= end <= s@.len(),
        end - from == run_before(s@.skip(from as int), stop),
{
    let n = s.unicode_len();
    let mut i: usize = from;
    while i < n && s.get_char(i) != stop
        invariant
            from <= i <= n,
            n == s@.len(),
            forall|k: int| from <= k < i ==> s@[k] != stop,
        decreases n - i,
    {
        i = i + 1;
    }
    proof {
        let t = s@.skip(from as int);
        assert forall|k: int| 0 <= k < i - from implies t[k] != stop by {
            assert(t[k] == s@[k + from]);
        }
        lemma_run_before(t, stop, i - from);
    }
    i
}

/// Splits a channel argument into its two parts.
pub fn split_channel(c: &str) -> (res: (Option<&str>, Option<&str>))
    ensures
        opt_text(res.0) == channel_parts(c@).0,
        opt_text(res.1) == channel_parts(c@).1,
{
    assert(c@.skip(0) == c@);
    let n = c.unicode_len();
    let k = scan(c, 0, ':');
    let remote = if k > 0 {
        let r = c.substring_char(0, k);
        assert(r@ == c@.take(k as int));
        Some(r)
    } else {
        None
    };
    let push = if k < n {
        let end = scan(c, k + 1, '\n');
        let p = c.substring_char(k + 1, end);
        proof {
            let rest = c@.skip(k + 1);
            assert(p@ == rest.take(end - (k + 1)));
        }
        Some(p)
    } else {
        None
    };
    (remote, push)
}

impl Push {
    /// The channel of the remote to push to, and the channel that the remote
    /// is to push into: both are read from the `to_channel` option; without
    /// one, the first is the channel pushed from.
    pub fn channels<'a>(&'a self, channel_name: &'a str) -> (res: (&'a str, Option<&'a str>))
        ensures
            match self.to_channel {
                Some(c) => {
                    &&& res.0@ == (match channel_parts(c@).0 {
                        Some(r) => r,
                        None => channel_name@,
                    })
                    &&& opt_text(res.1) == channel_parts(c@).1
                },
                None => res.0@ == channel_name@ && res.1 is None,
            },
    {
        match &self.to_channel {
            Some(c) => {
                let (remote, push) = split_channel(c.as_str());
                match remote {
                    Some(r) => (r, push),
                    None => (channel_name, push),
                }
            },
            None => (channel_name, None),
        }
    }
}


/// A change that was asked for on the command line, and the change of the
/// repository that the text was found to stand for, if any.
#[derive(Debug)]
pub struct Requested {
    pub text: String,
    pub hash: Option<changes::Hash>,
}

/// Of the changes asked for, those that are up for transfer, in the order in
/// which they were asked for.
pub open spec fn picked(pending: Seq<CS>, requested: Seq<Requested>) -> Seq<CS>
    decreases requested.len(),
{
    if requested.len() == 0 {
        Seq::empty()
    } else {
        let front = picked(pending, requested.drop_last());
        match requested.last().hash {
            Some(h) => if pending.contains(CS::Change(h)) {
                front.push(CS::Change(h))
            } else {
                front
            },
            None => front,
        }
    }
}

/// The texts that were found to stand for no change, each once, in the order
/// in which they were asked for.
pub open spec fn not_found(requested: Seq<Requested>) -> Seq<Seq<char>>
    decreases requested.len(),
{
    if requested.len() == 0 {
        Seq::empty()
    } else {
        let front = not_found(requested.drop_last());
        if requested.last().hash is None && !front.contains(requested.last().text@) {
            front.push(requested.last().text@)
        } else {
            front
        }
    }
}

fn contains_text(list: &Vec<String>, s: &str) -> (res: bool)
    ensures
        res == texts(list@).contains(s@),
{
    let mut i: usize = 0;
    while i < list.len()
        invariant
            0 <= i <= list@.len(),
            forall|k: int| 0 <= k < i ==> texts(list@)[k] != s@,
        decreases list@.len() - i,
    {
        if same_text(list[i].as_str(), s) {
            assert(texts(list@)[i as int] == s@);
            return true;
        }
        i = i + 1;
    }
    false
}

/// Picks, out of the changes that are up for transfer, those that were asked
/// for. Where a text stands for no change, nothing is picked, and the texts
/// that stand for none are reported.
pub fn select_requested(pending: &[CS], requested: &[Requested]) -> (res: Result<
    Vec<CS>,
    TransferError,
>)
    ensures
        match res {
            Ok(list) => not_found(requested@).len() == 0 && list@ == picked(pending@, requested@),
            Err(e) => not_found(requested@).len() > 0 && (e matches TransferError::ChangesNotFound(
                list,
            ) && texts(list@) == not_found(requested@)),
        },
{
    let mut chosen: Vec<CS> = Vec::new();
    let mut missing: Vec<String> = Vec::new();
    let mut i: usize = 0;
    proof {
        assert(requested@.take(0) == Seq::<Requested>::empty());
        assert(texts(missing@) =~= Seq::<Seq<char>>::empty());
    }
    while i < requested.len()
        invariant
            0 <= i <= requested@.len(),
            chosen@ == picked(pending@, requested@.take(i as int)),
            texts(missing@) == not_found(requested@.take(i as int)),
        decreases requested@.len() - i,
    {
        proof {
            assert(requested@.take(i + 1).drop_last() == requested@.take(i as int));
            assert(requested@.take(i + 1).last() == requested@[i as int]);
        }
        match requested[i].hash {
            Some(h) => {
                if contains_cs(pending, CS::Change(h)) {
                    chosen.push(CS::Change(h));
                }
            },
            None => {
                if !contains_text(&missing, requested[i].text.as_str()) {
                    let ghost before = texts(missing@);
                    missing.push(requested[i].text.clone());
                    assert(texts(missing@) =~= before.push(requested@[i as int].text@));
                }
            },
        }
        i = i + 1;
    }
    assert(requested@.take(requested@.len() as int) == requested@);
    if missing.len() > 0 {
        Err(TransferError::ChangesNotFound(missing))
    } else {
        Ok(chosen)
    }
}

/// The ordinals do not decrease along the list.
pub open spec fn by_ordinal(list: Seq<(u64, CS)>) -> bool {
    forall|i: int, j: int| 0 <= i < j < list.len() ==> (#[trigger] list[i]).0 <= (#[trigger] list[j]).0
}

/// How many entries at the end of the list have an ordinal above `n`.
pub open spec fn later_len(list: Seq<(u64, CS)>, n: u64) -> nat
    decreases list.len(),
{
    if list.len() > 0 && list.last().0 > n {
        1 + later_len(list.drop_last(), n)
    } else {
        0
    }
}

/// The list with `x` put behind the entries whose ordinal is not above its
/// own.
pub open spec fn put_in_order(list: Seq<(u64, CS)>, x: (u64, CS)) -> Seq<(u64, CS)> {
    list.insert(list.len() - later_len(list, x.0), x)
}

/// The entries put in the order of their ordinals, one after the other;
/// entries with one ordinal stay in the order in which they came.
pub open spec fn in_order(items: Seq<(u64, CS)>) -> Seq<(u64, CS)>
    decreases items.len(),
{
    if items.len() == 0 {
        Seq::empty()
    } else {
        put_in_order(in_order(items.drop_last()), items.last())
    }
}

proof fn lemma_later_len(list: Seq<(u64, CS)>, n: u64, p: int)
    requires
        0 <= p <= list.len(),
        forall|k: int| p <= k < list.len() ==> (#[trigger] list[k]).0 > n,
        p > 0 ==> list[p - 1].0 <= n,
    ensures
        later_len(list, n) == list.len() - p,
    decreases list.len() - p,
{
    if p < list.len() {
        let front = list.drop_last();
        assert forall|k: int| p <= k < front.len() implies (#[trigger] front[k]).0 > n by {
            assert(front[k] == list[k]);
        }
        if p > 0 {
            assert(front[p - 1] == list[p - 1]);
        }
        lemma_later_len(front, n, p);
    }
}

/// Puts changes and states, each with the ordinal at which the channel has
/// it, in the order of their ordinals. Entries with one ordinal stay in the
/// order in which they came.
pub fn sort_by_ordinal(items: &[(u64, CS)]) -> (res: Vec<(u64, CS)>)
    ensures
        res@ == in_order(items@),
        by_ordinal(res@),
        res@.to_multiset() == items@.to_multiset(),
{
    let mut out: Vec<(u64, CS)> = Vec::new();
    let mut i: usize = 0;
    proof {
        assert(items@.take(0) == Seq::<(u64, CS)>::empty());
    }
    while i < items.len()
        invariant
            0 <= i <= items@.len(),
            by_ordinal(out@),
            out@ == in_order(items@.take(i as int)),
            out@.to_multiset() == items@.take(i as int).to_multiset(),
        decreases items@.len() - i,
    {
        let x = items[i];
        let mut p: usize = out.len();
        while p > 0 && out[p - 1].0 > x.0
            invariant
                0 <= p <= out@.len(),
                by_ordinal(out@),
                forall|k: int| p <= k < out@.len() ==> (#[trigger] out@[k]).0 > x.0,
            decreases p,
        {
            p = p - 1;
        }
        let ghost before = out@;
        proof {
            lemma_later_len(before, x.0, p as int);
        }
        out.insert(p, x);
        proof {
            let after = out@;
            assert(after == before.insert(p as int, x));
            assert(items@.take(i + 1).drop_last() == items@.take(i as int));
            assert(items@.take(i + 1).last() == x);
            assert forall|a: int, b: int| 0 <= a < b < after.len() implies (#[trigger] after[a]).0 <= (
            #[trigger] after[b]).0 by {
                if b < p {
                    assert(after[a] == before[a] && after[b] == before[b]);
                } else if b == p {
                    assert(after[a] == before[a]);
                    if p > 0 {
                        assert(before[p - 1].0 <= x.0);
                        if a < p - 1 {
                            assert(before[a].0 <= before[p - 1].0);
                        }
                    }
                } else if a < p {
                    assert(after[a] == before[a] && after[b] == before[b - 1]);
                } else if a == p {
                    assert(after[b] == before[b - 1]);
                } else {
                    assert(after[a] == before[a - 1] && after[b] == before[b - 1]);
                }
            }
            assert(after.remove(p as int) == before);
            vstd::seq_lib::to_multiset_remove(after, p as int);
            assert(after.to_multiset() =~= before.to_multiset().insert(x)) by {
                after.to_multiset_ensures();
                assert(after.contains(x)) by {
                    assert(after[p as int] == x);
                }
            }
            assert(items@.take(i + 1) == items@.take(i as int).push(x));
            vstd::seq_lib::to_multiset_build(items@.take(i as int), x);
        }
        i = i + 1;
    }
    assert(items@.take(items@.len() as int) == items@);
    out
}

/// What is done with one entry that was downloaded.
#[derive(Debug, Clone, Copy, PartialEq, Eq, Structural)]
pub enum PullAction {
    /// Apply the change, after the changes it depends on.
    Apply(changes::Hash),
    /// Tag the state, which the channel reached at this ordinal.
    Tag(u64, changes::Merkle),
}

/// Decides what is done with an entry that was downloaded. A change is
/// applied. A state is tagged, at the ordinal at which the channel has it;
/// where the channel does not have it, the pull is given up.
pub fn pull_action(
    entry: CS,
    ordinal_of_state: Option<u64>,
    state_name: &str,
    channel_name: &str,
) -> (res: Result<PullAction, TransferError>)
    ensures
        match entry {
            CS::Change(h) => res == Ok::<PullAction, TransferError>(PullAction::Apply(h)),
            CS::State(s) => match ordinal_of_state {
                Some(n) => res == Ok::<PullAction, TransferError>(PullAction::Tag(n, s)),
                None => res matches Err(TransferError::StateNotInChannel { state, channel })
                    && state@ == state_name@ && channel@ == channel_name@,
            },
        },
{
    match entry {
        CS::Change(h) => Ok(PullAction::Apply(h)),
        CS::State(s) => match ordinal_of_state {
            Some(n) => Ok(PullAction::Tag(n, s)),
            None => Err(
                TransferError::StateNotInChannel {
                    state: state_name.to_owned(),
                    channel: channel_name.to_owned(),
                },
            ),
        },
    }
}

/// The entries of the table of touched files that belong to a change: those
/// under its number, as far as the table, which is in the order of the
/// numbers, is read until a greater number turns up.
pub open spec fn touched_by(
    table: Seq<(changes::ChangeId, changes::Position)>,
    change: changes::ChangeId,
) -> Seq<changes::Position>
    decreases table.len(),
{
    if table.len() == 0 || table[0].0.0 > change.0 {
        Seq::empty()
    } else if table[0].0.0 < change.0 {
        touched_by(table.skip(1), change)
    } else {
        seq![table[0].1] + touched_by(table.skip(1), change)
    }
}

/// Reads the files that a change touched off the table of touched files.
pub fn touched_of_change(
    table: &[(changes::ChangeId, changes::Position)],
    change: changes::ChangeId,
) -> (res: Vec<changes::Position>)
    ensures
        res@ == touched_by(table@, change),
{
    let mut out: Vec<changes::Position> = Vec::new();
    let mut i: usize = 0;
    proof {
        assert(table@.skip(0) == table@);
        assert(out@ + touched_by(table@, change) == touched_by(table@, change));
    }
    while i < table.len()
        invariant
            0 <= i <= table@.len(),
            touched_by(table@, change) == out@ + touched_by(table@.skip(i as int), change),
        decreases table@.len() - i,
    {
        let entry = table[i];
        proof {
            let rest = table@.skip(i as int);
            assert(rest[0] == entry);
            assert(rest.skip(1) == table@.skip(i + 1));
        }
        if entry.0.0 > change.0 {
            assert(out@ + Seq::<changes::Position>::empty() == out@);
            return out;
        }
        if entry.0.0 == change.0 {
            let ghost before = out@;
            out.push(entry.1);
            proof {
                let tail = touched_by(table@.skip(i + 1), change);
                assert(before + (seq![entry.1] + tail) == before.push(entry.1) + tail);
            }
        }
        i = i + 1;
    }
    proof {
        assert(table@.skip(table@.len() as int).len() == 0);
        assert(out@ + Seq::<changes::Position>::empty() == out@);
    }
    out
}

/// `path` lies below the directory `dir`.
pub open spec fn lies_under(dir: Seq<char>, path: Seq<char>) -> bool {
    dir.len() < path.len() && path.take(dir.len() as int) == dir && path[dir.len() as int] == '/'
}

/// The paths that are left when each path is dropped that lies below the
/// path that was kept last before it.
pub open spec fn pruned(paths: Seq<Seq<char>>, last: Option<Seq<char>>) -> Seq<Seq<char>>
    decreases paths.len(),
{
    if paths.len() == 0 {
        Seq::empty()
    } else if last is Some && lies_under(last.unwrap(), paths[0]) {
        pruned(paths.skip(1), last)
    } else {
        seq![paths[0]] + pruned(paths.skip(1), Some(paths[0]))
    }
}

fn is_under(dir: &str, path: &str) -> (res: bool)
    ensures
        res == lies_under(dir@, path@),
{
    let n = dir.unicode_len();
    if n < path.unicode_len() {
        let front = path.substring_char(0, n);
        assert(front@ == path@.take(n as int));
        same_text(front, dir) && path.get_char(n) == '/'
    } else {
        false
    }
}

/// Drops from a list of paths, which is in order, each path that lies below
/// the path kept before it: to output a directory is to output what lies
/// below it.
pub fn prune_paths(paths: &[String]) -> (res: Vec<String>)
    ensures
        texts(res@) == pruned(texts(paths@), None),
{
    let mut out: Vec<String> = Vec::new();
    let mut last: Option<usize> = None;
    let ghost all = texts(paths@);
    let mut i: usize = 0;
    proof {
        assert(all.skip(0) == all);
        assert(texts(out@) =~= Seq::<Seq<char>>::empty());
        assert(Seq::<Seq<char>>::empty() + pruned(all, None) == pruned(all, None));
    }
    while i < paths.len()
        invariant
            0 <= i <= paths@.len(),
            all == texts(paths@),
            last matches Some(l) ==> l < i,
            pruned(all, None) == texts(out@) + pruned(
                all.skip(i as int),
                match last {
                    Some(l) => Some(all[l as int]),
                    None => None,
                },
            ),
        decreases paths@.len() - i,
    {
        let skip = match last {
            Some(l) => is_under(paths[l].as_str(), paths[i].as_str()),
            None => false,
        };
        proof {
            let rest = all.skip(i as int);
            assert(rest[0] == all[i as int]);
            assert(rest.skip(1) == all.skip(i + 1));
            assert(all[i as int] == paths@[i as int]@);
        }
        if !skip {
            let ghost before = texts(out@);
            out.push(paths[i].clone());
            last = Some(i);
            proof {
                assert(texts(out@) =~= before.push(all[i as int]));
                let tail = pruned(all.skip(i + 1), Some(all[i as int]));
                assert(before + (seq![all[i as int]] + tail) == before.push(all[i as int]) + tail);
            }
        }
        i = i + 1;
    }
    proof {
        assert(all.skip(all.len() as int).len() == 0);
        assert(texts(out@) + Seq::<Seq<char>>::empty() == texts(out@));
    }
    out
}

/// The header of the note on changes that the remote has and the local copy
/// does not know.
pub open spec fn unknown_header() -> Seq<char> {
    "# The following changes are new in the remote\n# (and are not yet known to your local copy):\n#\n"@
}

pub open spec fn unknown_line(hash: String) -> Seq<char> {
    "#     "@ + hash@ + "\n"@
}

/// The note on changes of the remote that are not known locally: the first
/// five are named, the others are counted.
pub open spec fn unknown_changes_text(hashes: Seq<String>) -> Seq<char> {
    let shown = if hashes.len() > 5 {
        hashes.take(5)
    } else {
        hashes
    };
    let rest = hashes.len() - shown.len();
    unknown_header() + crate::commands::remote::concat(shown, |h: String| unknown_line(h)) + (
    if rest > 0 {
        "#     ... plus "@ + crate::text::decimal(rest as nat) + " more change"@ + (if rest == 1 {
            ""@
        } else {
            "s"@
        }) + "\n"@
    } else {
        Seq::empty()
    })
}

/// Writes the note on the changes of the remote that are not known locally,
/// given their hashes as texts. There is no note where there is no such
/// change.
pub fn unknown_changes_notice(hashes: &[String]) -> (res: Option<String>)
    ensures
        match res {
            Some(s) => hashes@.len() > 0 && s@ == unknown_changes_text(hashes@),
            None => hashes@.len() == 0,
        },
{
    if hashes.len() == 0 {
        return None;
    }
    let mut s = String::new();
    s.append(
        "# The following changes are new in the remote\n# (and are not yet known to your local copy):\n#\n",
    );
    let shown_len: usize = if hashes.len() > 5 {
        5
    } else {
        hashes.len()
    };
    let rest_len: usize = hashes.len() - shown_len;
    let ghost shown = hashes@.take(shown_len as int);
    let ghost f = |h: String| unknown_line(h);
    let ghost head = s@;
    let mut i: usize = 0;
    proof {
        assert(shown.take(0) == Seq::<String>::empty());
        assert(head + Seq::<char>::empty() == head);
        if hashes@.len() <= 5 {
            assert(shown == hashes@);
        }
    }
    while i < shown_len
        invariant
            0 <= i <= shown_len,
            shown_len <= hashes@.len(),
            shown == hashes@.take(shown_len as int),
            f == |h: String| unknown_line(h),
            s@ == head + crate::commands::remote::concat(shown.take(i as int), f),
        decreases shown_len - i,
    {
        let ghost before = s@;
        s.append("#     ");
        s.append(hashes[i].as_str());
        s.append("\n");
        proof {
            crate::commands::remote::lemma_concat_step(shown, f, i as int);
            assert(shown[i as int] == hashes@[i as int]);
            assert(s@ == before + unknown_line(shown[i as int]));
            assert(head + crate::commands::remote::concat(shown.take(i as int), f) + unknown_line(
                shown[i as int],
            ) == head + (crate::commands::remote::concat(shown.take(i as int), f) + unknown_line(
                shown[i as int],
            )));
        }
        i = i + 1;
    }
    assert(shown.take(shown_len as int) == shown);
    let ghost listed = s@;
    if rest_len > 0 {
        s.append("#     ... plus ");
        crate::text::push_decimal(&mut s, rest_len as u64);
        s.append(" more change");
        if rest_len == 1 {
            s.append("");
        } else {
            s.append("s");
        }
        s.append("\n");
        proof {
            let plural = if rest_len == 1 {
                ""@
            } else {
                "s"@
            };
            assert(s@ == listed + ("#     ... plus "@ + crate::text::decimal(rest_len as nat)
                + " more change"@ + plural + "\n"@));
        }
    } else {
        assert(listed + Seq::<char>::empty() == listed);
    }
    Some(s)
}

/// A change that the remote has unrecorded, as it is shown to the user.
#[derive(Debug)]
pub struct Unrecorded {
    pub message: String,
    pub timestamp: String,
    pub hash: String,
}

pub open spec fn unrecorded_header() -> Seq<char> {
    "# The following changes have been unrecorded in the remote.\n# This buffer is only being used to inform you of the remote change;\n# your push will continue when it is closed.\n"@
}

pub open spec fn unrecorded_block(u: Unrecorded) -> Seq<char> {
    "#\n"@ + "#    "@ + u.message@ + "\n"@ + "#    "@ + u.timestamp@ + "\n"@ + "#    "@ + u.hash@
        + "\n"@
}

/// The note on changes that the remote has unrecorded.
pub open spec fn unrecords_text(list: Seq<Unrecorded>) -> Seq<char> {
    unrecorded_header() + crate::commands::remote::concat(list, |u: Unrecorded| unrecorded_block(u))
}

/// Writes the note on the changes that the remote has unrecorded. There is
/// no note where there is no such change.
pub fn remote_unrecords_notice(list: &[Unrecorded]) -> (res: Option<String>)
    ensures
        match res {
            Some(s) => list@.len() > 0 && s@ == unrecords_text(list@),
            None => list@.len() == 0,
        },
{
    if list.len() == 0 {
        return None;
    }
    let mut s = String::new();
    s.append(
        "# The following changes have been unrecorded in the remote.\n# This buffer is only being used to inform you of the remote change;\n# your push will continue when it is closed.\n",
    );
    let ghost head = s@;
    let ghost f = |u: Unrecorded| unrecorded_block(u);
    let mut i: usize = 0;
    proof {
        assert(list@.take(0) == Seq::<Unrecorded>::empty());
        assert(head + Seq::<char>::empty() == head);
    }
    while i < list.len()
        invariant
            0 <= i <= list@.len(),
            f == |u: Unrecorded| unrecorded_block(u),
            s@ == head + crate::commands::remote::concat(list@.take(i as int), f),
        decreases list@.len() - i,
    {
        let ghost before = s@;
        s.append("#\n");
        s.append("#    ");
        s.append(list[i].message.as_str());
        s.append("\n");
        s.append("#    ");
        s.append(list[i].timestamp.as_str());
        s.append("\n");
        s.append("#    ");
        s.append(list[i].hash.as_str());
        s.append("\n");
        proof {
            crate::commands::remote::lemma_concat_step(list@, f, i as int);
            assert(s@ == before + unrecorded_block(list@[i as int]));
            assert(head + crate::commands::remote::concat(list@.take(i as int), f) + unrecorded_block(
                list@[i as int],
            ) == head + (crate::commands::remote::concat(list@.take(i as int), f) + unrecorded_block(
                list@[i as int],
            )));
        }
        i = i + 1;
    }
    assert(list@.take(list@.len() as int) == list@);
    Some(s)
}

/// Some file that was touched has no path.
pub open spec fn some_pathless(paths: Seq<Option<String>>) -> bool {
    exists|i: int| 0 <= i < paths.len() && (#[trigger] paths[i]) is None
}

/// The text of a path, where there is one.
pub open spec fn path_text(path: Option<String>) -> Option<Seq<char>> {
    match path {
        Some(s) => Some(s@),
        None => None,
    }
}

/// `p` is the path of a file that was touched.
pub open spec fn is_touched(paths: Seq<Option<String>>, p: Seq<char>) -> bool {
    exists|i: int| 0 <= i < paths.len() && path_text(#[trigger] paths[i]) == Some(p)
}

/// The paths to output after a pull, given the path of each file that was
/// touched, where it has one: these paths, each once, in order. Where a file
/// has no path, or no file was touched, all is output: the one path is the
/// empty path, which stands for the whole repository.
pub fn touched_paths(paths: &[Option<String>]) -> (res: Vec<String>)
    ensures
        if some_pathless(paths@) || paths@.len() == 0 {
            texts(res@) == seq![Seq::<char>::empty()]
        } else {
            &&& crate::textmap::increasing(texts(res@))
            &&& forall|p: Seq<char>| texts(res@).contains(p) <==> is_touched(paths@, p)
        },
{
    let mut set: crate::textmap::TextMap<bool> = crate::textmap::TextMap::new();
    let mut whole = paths.len() == 0;
    let mut i: usize = 0;
    while i < paths.len() && !whole
        invariant
            0 <= i <= paths@.len(),
            set.wf(),
            whole ==> some_pathless(paths@) || paths@.len() == 0,
            !whole ==> paths@.len() > 0 && forall|k: int| 0 <= k < i ==> (#[trigger] paths@[k]) is Some,
            forall|p: Seq<char>| set.has(p) <==> is_touched(paths@.take(i as int), p),
        decreases paths@.len() - i + (if whole { 0int } else { 1int }),
    {
        match &paths[i] {
            Some(path) => {
                let ghost before = set;
                set.insert(path.clone(), true);
                proof {
                    let upto = paths@.take(i as int);
                    let next = paths@.take(i + 1);
                    assert forall|p: Seq<char>| set.has(p) <==> is_touched(next, p) by {
                        if is_touched(next, p) {
                            let k = choose|k: int|
                                0 <= k < next.len() && path_text(#[trigger] next[k]) == Some(p);
                            if k < i {
                                assert(upto[k] == next[k]);
                                assert(is_touched(upto, p));
                            }
                        }
                        if is_touched(upto, p) {
                            let k = choose|k: int|
                                0 <= k < upto.len() && path_text(#[trigger] upto[k]) == Some(p);
                            assert(next[k] == upto[k]);
                        }
                        if p == path@ {
                            assert(next[i as int] == paths@[i as int]);
                        }
                    }
                }
                i = i + 1;
            },
            None => {
                whole = true;
            },
        }
    }
    let mut out: Vec<String> = Vec::new();
    if whole || set.is_empty() {
        proof {
            if !whole {
                assert(paths@.take(paths@.len() as int) == paths@);
                assert(paths@[0] is Some);
                assert(is_touched(paths@, paths@[0]->Some_0@));
                assert(set.has(paths@[0]->Some_0@));
            }
        }
        out.push(String::new());
        assert(texts(out@) =~= seq![Seq::<char>::empty()]);
        return out;
    }
    proof {
        assert(paths@.take(paths@.len() as int) == paths@);
        assert(!some_pathless(paths@));
    }
    let mut j: usize = 0;
    while j < set.entries.len()
        invariant
            0 <= j <= set.entries@.len(),
            set.wf(),
            paths@.len() > 0,
            !some_pathless(paths@),
            forall|p: Seq<char>| set.has(p) <==> is_touched(paths@, p),
            texts(out@) == set.keys().take(j as int),
        decreases set.entries@.len() - j,
    {
        let ghost before = texts(out@);
        out.push(set.entries[j].0.clone());
        proof {
            assert(texts(out@) =~= before.push(set.keys()[j as int]));
            assert(set.keys().take(j + 1) == set.keys().take(j as int).push(set.keys()[j as int]));
        }
        j = j + 1;
    }
    proof {
        let keys = set.keys();
        assert(keys.take(set.entries@.len() as int) == keys);
        assert forall|p: Seq<char>| texts(out@).contains(p) <==> is_touched(paths@, p) by {
            if keys.contains(p) {
                let k = choose|k: int| 0 <= k < keys.len() && keys[k] == p;
                assert(set.keys()[k] == p);
            }
            if set.has(p) {
                assert(keys[set.place(p)] == p);
            }
        }
    }
    out
}

} // verus!
