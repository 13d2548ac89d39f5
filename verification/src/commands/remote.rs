//! The rules of the `remote` command: how the remotes are listed, and what
//! the deletion of one comes to.

use crate::commands::common_opts::RepoPath;
use crate::config::RemoteConfig;
use crate::remotes::{id_of_text, ExtraConfig, RemoteId, RemoteInfo, RemoteInfos};
use crate::text::{join2, join3, same_text};
use crate::textmap::TextMap;
use vstd::prelude::*;

verus! {

#[derive(Debug)]
pub struct Remote {
    pub base: RepoPath,
    pub subcmd: Option<SubRemote>,
}

#[derive(Debug)]
pub enum SubRemote {
    /// Set the default remote
    Default { remote: String },
    /// Deletes the remote
    Delete {
        remote: String,
        /// Delete only the specified datum, i.e. database ID or remote name. If this isn't specified and there is at most one of each kind of data linked to a remote, the entire remote is deleted.
        exact: bool,
        /// Delete all the linked data of the remote, i.e. all names and all database IDs.
        flood: bool,
    },
}

/// The texts that `f` gives for the items, one after the other.
pub open spec fn concat<T>(items: Seq<T>, f: spec_fn(T) -> Seq<char>) -> Seq<char>
    decreases items.len(),
{
    if items.len() == 0 {
        Seq::empty()
    } else {
        concat(items.drop_last(), f) + f(items.last())
    }
}

pub proof fn lemma_concat_step<T>(items: Seq<T>, f: spec_fn(T) -> Seq<char>, i: int)
    requires
        0 <= i < items.len(),
    ensures
        concat(items.take(i + 1), f) == concat(items.take(i), f) + f(items[i]),
{
    assert(items.take(i + 1).drop_last() == items.take(i));
    assert(items.take(i + 1).last() == items[i]);
}

/// The line of one header.
pub open spec fn header_line(entry: (String, String)) -> Seq<char> {
    "    - "@ + entry.0@ + ": "@ + entry.1@ + "\n"@
}

/// The lines that show the headers of a configuration: none where it has no
/// header.
pub open spec fn headers_text(c: ExtraConfig) -> Seq<char> {
    if c.headers.entries@.len() == 0 {
        Seq::empty()
    } else {
        "    Headers:\n"@ + concat(c.headers.entries@, |e: (String, String)| header_line(e))
    }
}

fn push_headers(out: &mut String, c: &ExtraConfig)
    ensures
        final(out)@ == old(out)@ + headers_text(*c),
{
    if c.headers.is_empty() {
        assert(old(out)@ + Seq::<char>::empty() == old(out)@);
        return ;
    }
    out.append("    Headers:\n");
    let ghost f = |e: (String, String)| header_line(e);
    let ghost start = out@;
    let mut i: usize = 0;
    assert(c.headers.entries@.take(0) == Seq::<(String, String)>::empty());
    assert(start + Seq::<char>::empty() == start);
    while i < c.headers.entries.len()
        invariant
            0 <= i <= c.headers.entries@.len(),
            f == |e: (String, String)| header_line(e),
            out@ == start + concat(c.headers.entries@.take(i as int), f),
        decreases c.headers.entries@.len() - i,
    {
        let ghost before = out@;
        out.append("    - ");
        out.append(c.headers.entries[i].0.as_str());
        out.append(": ");
        out.append(c.headers.entries[i].1.as_str());
        out.append("\n");
        proof {
            lemma_concat_step(c.headers.entries@, f, i as int);
            assert(out@ == before + header_line(c.headers.entries@[i as int]));
            assert(start + concat(c.headers.entries@.take(i as int), f) + header_line(
                c.headers.entries@[i as int],
            ) == start + (concat(c.headers.entries@.take(i as int), f) + header_line(
                c.headers.entries@[i as int],
            )));
        }
        i = i + 1;
    }
    proof {
        assert(c.headers.entries@.take(c.headers.entries@.len() as int) == c.headers.entries@);
        assert(old(out)@ + "    Headers:\n"@ + concat(c.headers.entries@, f) == old(out)@ + (
        "    Headers:\n"@ + concat(c.headers.entries@, f)));
    }
}

/// No configuration of the remote has a header.
pub open spec fn no_headers(configs: Seq<(String, ExtraConfig)>) -> bool {
    forall|i: int| 0 <= i < configs.len() ==> (#[trigger] configs[i]).1.headers.entries@.len() == 0
}

/// No configuration of the remote is marked as the default.
pub open spec fn no_default(configs: Seq<(String, ExtraConfig)>) -> bool {
    forall|i: int| 0 <= i < configs.len() ==> !(#[trigger] configs[i]).1.default
}

/// A remote is shown on one line where it has fewer than two names, or no
/// header under any name.
pub open spec fn can_collapse(info: RemoteInfo) -> bool {
    info.configs.entries@.len() < 2 || no_headers(info.configs.entries@)
}

/// The remote is starred as the default where it is the default and is shown
/// on one line, or none of its names is the default.
pub open spec fn starred(info: RemoteInfo) -> bool {
    info.default && (can_collapse(info) || no_default(info.configs.entries@))
}

pub open spec fn quoted_name(entry: (String, ExtraConfig)) -> Seq<char> {
    "«"@ + entry.0@ + "» "@
}

pub open spec fn named_block(entry: (String, ExtraConfig)) -> Seq<char> {
    (if entry.1.default {
        "*"@
    } else {
        " "@
    }) + " «"@ + entry.0@ + "»\n"@ + headers_text(entry.1)
}

pub open spec fn further_id(id: RemoteId) -> Seq<char> {
    ", "@ + id.spec_text()
}

/// How one remote is shown.
pub open spec fn info_text(info: RemoteInfo) -> Seq<char> {
    let configs = info.configs.entries@;
    let head = (if starred(info) {
        "* "@
    } else {
        "  "@
    }) + (if info.id@.len() > 0 {
        info.id@[0].spec_text()
    } else {
        "(no ID)                   "@
    }) + ": "@;
    let body = if can_collapse(info) {
        concat(configs, |e: (String, ExtraConfig)| quoted_name(e)) + info.path@ + "\n"@ + concat(
            configs,
            |e: (String, ExtraConfig)| headers_text(e.1),
        )
    } else {
        info.path@ + "\n"@ + concat(configs, |e: (String, ExtraConfig)| named_block(e))
    };
    let tail = if info.id@.len() > 1 {
        "  (also registered as "@ + info.id@[1].spec_text() + concat(
            info.id@.skip(2),
            |id: RemoteId| further_id(id),
        ) + ")\n"@
    } else {
        Seq::empty()
    };
    head + body + tail
}

fn all_without_headers(configs: &TextMap<ExtraConfig>) -> (res: bool)
    ensures
        res == no_headers(configs.entries@),
{
    let mut i: usize = 0;
    while i < configs.entries.len()
        invariant
            0 <= i <= configs.entries@.len(),
            forall|k: int| 0 <= k < i ==> (#[trigger] configs.entries@[k]).1.headers.entries@.len() == 0,
        decreases configs.entries@.len() - i,
    {
        if !configs.entries[i].1.headers.is_empty() {
            return false;
        }
        i = i + 1;
    }
    true
}

fn none_default(configs: &TextMap<ExtraConfig>) -> (res: bool)
    ensures
        res == no_default(configs.entries@),
{
    let mut i: usize = 0;
    while i < configs.entries.len()
        invariant
            0 <= i <= configs.entries@.len(),
            forall|k: int| 0 <= k < i ==> !(#[trigger] configs.entries@[k]).1.default,
        decreases configs.entries@.len() - i,
    {
        if configs.entries[i].1.default {
            return false;
        }
        i = i + 1;
    }
    true
}

/// Appends to `out` how one remote is shown.
pub fn push_info(out: &mut String, info: &RemoteInfo)
    ensures
        final(out)@ == old(out)@ + info_text(*info),
{
    let collapse = info.configs.len() < 2 || all_without_headers(&info.configs);
    let star = info.default && (collapse || none_default(&info.configs));
    let mut text = String::new();
    if star {
        text.append("* ");
    } else {
        text.append("  ");
    }
    if info.id.len() > 0 {
        let id_text = info.id[0].to_base32();
        text.append(id_text.as_str());
    } else {
        text.append("(no ID)                   ");
    }
    text.append(": ");
    let ghost head = text@;
    let ghost configs = info.configs.entries@;
    let ghost quoted = |e: (String, ExtraConfig)| quoted_name(e);
    let ghost heads = |e: (String, ExtraConfig)| headers_text(e.1);
    let ghost blocks = |e: (String, ExtraConfig)| named_block(e);
    proof {
        assert(configs.take(0) == Seq::<(String, ExtraConfig)>::empty());
        assert(head + Seq::<char>::empty() == head);
    }
    if collapse {
        let mut i: usize = 0;
        while i < info.configs.entries.len()
            invariant
                0 <= i <= configs.len(),
                configs == info.configs.entries@,
                quoted == |e: (String, ExtraConfig)| quoted_name(e),
                text@ == head + concat(configs.take(i as int), quoted),
            decreases configs.len() - i,
        {
            let ghost before = text@;
            text.append("«");
            text.append(info.configs.entries[i].0.as_str());
            text.append("» ");
            proof {
                lemma_concat_step(configs, quoted, i as int);
                assert(text@ == before + quoted_name(configs[i as int]));
                assert(head + concat(configs.take(i as int), quoted) + quoted_name(
                    configs[i as int],
                ) == head + (concat(configs.take(i as int), quoted) + quoted_name(
                    configs[i as int],
                )));
            }
            i = i + 1;
        }
        assert(configs.take(configs.len() as int) == configs);
        text.append(info.path.as_str());
        text.append("\n");
        let ghost mid = text@;
        assert(mid + Seq::<char>::empty() == mid);
        let mut j: usize = 0;
        while j < info.configs.entries.len()
            invariant
                0 <= j <= configs.len(),
                configs == info.configs.entries@,
                heads == |e: (String, ExtraConfig)| headers_text(e.1),
                text@ == mid + concat(configs.take(j as int), heads),
            decreases configs.len() - j,
        {
            push_headers(&mut text, &info.configs.entries[j].1);
            proof {
                lemma_concat_step(configs, heads, j as int);
                assert(mid + concat(configs.take(j as int), heads) + headers_text(
                    configs[j as int].1,
                ) == mid + (concat(configs.take(j as int), heads) + headers_text(
                    configs[j as int].1,
                )));
            }
            j = j + 1;
        }
        proof {
            assert(text@ == head + (concat(configs, quoted) + info.path@ + "\n"@ + concat(
                configs,
                heads,
            )));
        }
    } else {
        text.append(info.path.as_str());
        text.append("\n");
        let ghost mid = text@;
        assert(mid + Seq::<char>::empty() == mid);
        let mut j: usize = 0;
        while j < info.configs.entries.len()
            invariant
                0 <= j <= configs.len(),
                configs == info.configs.entries@,
                blocks == |e: (String, ExtraConfig)| named_block(e),
                text@ == mid + concat(configs.take(j as int), blocks),
            decreases configs.len() - j,
        {
            let ghost before = text@;
            if info.configs.entries[j].1.default {
                text.append("*");
            } else {
                text.append(" ");
            }
            text.append(" «");
            text.append(info.configs.entries[j].0.as_str());
            text.append("»\n");
            push_headers(&mut text, &info.configs.entries[j].1);
            proof {
                lemma_concat_step(configs, blocks, j as int);
                assert(text@ == before + named_block(configs[j as int]));
                assert(mid + concat(configs.take(j as int), blocks) + named_block(
                    configs[j as int],
                ) == mid + (concat(configs.take(j as int), blocks) + named_block(
                    configs[j as int],
                )));
            }
            j = j + 1;
        }
        proof {
            assert(configs.take(configs.len() as int) == configs);
            assert(text@ == head + (info.path@ + "\n"@ + concat(configs, blocks)));
        }
    }
    let ghost upto_body = text@;
    if info.id.len() > 1 {
        text.append("  (also registered as ");
        let second = info.id[1].to_base32();
        text.append(second.as_str());
        let ghost start = text@;
        let ghost further = |id: RemoteId| further_id(id);
        let ghost rest = info.id@.skip(2);
        let mut k: usize = 2;
        proof {
            assert(rest.take(0) == Seq::<RemoteId>::empty());
            assert(start + Seq::<char>::empty() == start);
        }
        while k < info.id.len()
            invariant
                2 <= k <= info.id@.len(),
                rest == info.id@.skip(2),
                further == |id: RemoteId| further_id(id),
                text@ == start + concat(rest.take(k - 2), further),
            decreases info.id@.len() - k,
        {
            let ghost before = text@;
            let id_text = info.id[k].to_base32();
            text.append(", ");
            text.append(id_text.as_str());
            proof {
                lemma_concat_step(rest, further, k - 2);
                assert(rest[k - 2] == info.id@[k as int]);
                assert(text@ == before + further_id(info.id@[k as int]));
                assert(start + concat(rest.take(k - 2), further) + further_id(rest[k - 2]) == start
                    + (concat(rest.take(k - 2), further) + further_id(rest[k - 2])));
            }
            k = k + 1;
        }
        text.append(")\n");
        proof {
            assert(rest.take(rest.len() as int) == rest);
            assert(text@ == upto_body + ("  (also registered as "@ + info.id@[1].spec_text()
                + concat(rest, further) + ")\n"@));
        }
    } else {
        assert(upto_body + Seq::<char>::empty() == upto_body);
    }
    out.append(text.as_str());
}

/// How the remotes are listed.
pub open spec fn listing_text(infos: RemoteInfos) -> Seq<char> {
    concat(infos.data@, |info: RemoteInfo| info_text(info))
}

/// Lists the remotes, each as `push_info` shows it.
pub fn listing(infos: &RemoteInfos) -> (res: String)
    ensures
        res@ == listing_text(*infos),
{
    let mut out = String::new();
    let ghost f = |info: RemoteInfo| info_text(info);
    let mut i: usize = 0;
    assert(infos.data@.take(0) == Seq::<RemoteInfo>::empty());
    while i < infos.data.len()
        invariant
            0 <= i <= infos.data@.len(),
            f == |info: RemoteInfo| info_text(info),
            out@ == concat(infos.data@.take(i as int), f),
        decreases infos.data@.len() - i,
    {
        push_info(&mut out, &infos.data[i]);
        proof {
            lemma_concat_step(infos.data@, f, i as int);
        }
        i = i + 1;
    }
    assert(infos.data@.take(infos.data@.len() as int) == infos.data@);
    out
}


/// What the deletion of a remote comes to: the identifiers to drop from the
/// database, the names to remove from the configuration, and whether the
/// configuration loses its default remote.
#[derive(Debug)]
pub struct Deletion {
    pub drop_ids: Vec<RemoteId>,
    pub remove_names: Vec<String>,
    pub clear_default: bool,
}

pub struct DeletionView {
    pub drop_ids: Seq<RemoteId>,
    pub remove_names: Seq<Seq<char>>,
    pub clear_default: bool,
}

impl View for Deletion {
    type V = DeletionView;

    open spec fn view(&self) -> DeletionView {
        DeletionView {
            drop_ids: self.drop_ids@,
            remove_names: crate::text::texts(self.remove_names@),
            clear_default: self.clear_default,
        }
    }
}

/// Why a remote is not deleted.
#[derive(Debug)]
pub enum DeleteError {
    NoSuchRemote(String),
    NamedAndRegistered(String),
    SeveralNames(String),
    SeveralIds(String),
}

/// The kinds of `DeleteError`.
#[derive(Debug, Clone, Copy, PartialEq, Eq, Structural)]
pub enum DeleteFault {
    NoSuchRemote,
    NamedAndRegistered,
    SeveralNames,
    SeveralIds,
}

impl DeleteError {
    pub open spec fn fault(&self) -> DeleteFault {
        match self {
            DeleteError::NoSuchRemote(_) => DeleteFault::NoSuchRemote,
            DeleteError::NamedAndRegistered(_) => DeleteFault::NamedAndRegistered,
            DeleteError::SeveralNames(_) => DeleteFault::SeveralNames,
            DeleteError::SeveralIds(_) => DeleteFault::SeveralIds,
        }
    }

    pub open spec fn subject(&self) -> Seq<char> {
        match self {
            DeleteError::NoSuchRemote(s) => s@,
            DeleteError::NamedAndRegistered(s) => s@,
            DeleteError::SeveralNames(s) => s@,
            DeleteError::SeveralIds(s) => s@,
        }
    }

    pub open spec fn spec_message(&self) -> Seq<char> {
        match self {
            DeleteError::NoSuchRemote(s) => "No such remote: "@ + s@,
            DeleteError::NamedAndRegistered(s) => "Cannot delete '"@ + s@
                + "' since there is both a named remote and an ID associated with it"@,
            DeleteError::SeveralNames(s) => "Cannot delete '"@ + s@
                + "' since there are multiple named remotes associated with it"@,
            DeleteError::SeveralIds(s) => "Cannot delete '"@ + s@
                + "' since there are multiple IDs associated with it"@,
        }
    }

    pub fn message(&self) -> (res: String)
        ensures
            res@ == self.spec_message(),
    {
        match self {
            DeleteError::NoSuchRemote(s) => join2("No such remote: ", s.as_str()),
            DeleteError::NamedAndRegistered(s) => join3(
                "Cannot delete '",
                s.as_str(),
                "' since there is both a named remote and an ID associated with it",
            ),
            DeleteError::SeveralNames(s) => join3(
                "Cannot delete '",
                s.as_str(),
                "' since there are multiple named remotes associated with it",
            ),
            DeleteError::SeveralIds(s) => join3(
                "Cannot delete '",
                s.as_str(),
                "' since there are multiple IDs associated with it",
            ),
        }
    }
}

/// How the remote to delete was found.
#[derive(Debug, Clone, Copy, PartialEq, Eq, Structural)]
pub enum FoundBy {
    Label,
    Id(RemoteId),
    Url,
}

/// The remote that `text` stands for: the one of that name, else the one
/// that the database knows under that identifier, else the one at that
/// address.
pub open spec fn target(db: RemoteInfos, text: Seq<char>) -> Option<(int, FoundBy)> {
    let labels = crate::remotes::places(db.by_label);
    let urls = crate::remotes::places(db.by_url);
    if labels.contains_key(text) {
        Some((labels[text], FoundBy::Label))
    } else if id_of_text(text) is Some && db.by_id@.contains_key(id_of_text(text).unwrap()) {
        Some((db.by_id@[id_of_text(text).unwrap()], FoundBy::Id(id_of_text(text).unwrap())))
    } else if urls.contains_key(text) {
        Some((urls[text], FoundBy::Url))
    } else {
        None
    }
}

/// Finds the remote that `text` stands for.
pub fn find_target(db: &RemoteInfos, text: &str) -> (res: Option<(usize, FoundBy)>)
    requires
        db.wf(),
    ensures
        match res {
            Some((i, by)) => target(*db, text@) == Some((i as int, by)) && i < db.data@.len(),
            None => target(*db, text@) is None,
        },
{
    let id = RemoteId::from_base32(text);
    if let Some(v) = db.by_label.get(text) {
        return Some((*v, FoundBy::Label));
    }
    if let Some(x) = id {
        if let Some(i) = db.by_id.get(x) {
            assert(db.by_id@.contains_key(x));
            return Some((i, FoundBy::Id(x)));
        }
    }
    if let Some(v) = db.by_url.get(text) {
        return Some((*v, FoundBy::Url));
    }
    None
}

/// All of a remote goes: each identifier, each name, and the default
/// where the remote is the default.
pub open spec fn wholesale(d: RemoteInfo) -> DeletionView {
    DeletionView {
        drop_ids: d.id@,
        remove_names: crate::textmap::keys_of(d.configs.entries@),
        clear_default: d.default,
    }
}

/// A deletion that floods, and is not exact, is given up where it would
/// take away more than one thing.
pub open spec fn overruns(d: RemoteInfo, exact: bool, flood: bool) -> bool {
    flood && !exact && d.id@.len() + d.configs.entries@.len() > 1
}

/// What the deletion of the remote `d` comes to, which was found by `by`
/// under the text `text`.
pub open spec fn deletion_of(d: RemoteInfo, by: FoundBy, text: Seq<char>, exact: bool, flood: bool) -> Result<
    DeletionView,
    DeleteFault,
> {
    let small = !exact && d.id@.len() <= 1 && d.configs.entries@.len() <= 1;
    if flood {
        Ok(wholesale(d))
    } else {
        match by {
            FoundBy::Label => if small {
                Ok(wholesale(d))
            } else {
                Ok(
                    DeletionView {
                        drop_ids: Seq::empty(),
                        remove_names: seq![text],
                        clear_default: d.configs.has(text) && d.configs.value(text).default,
                    },
                )
            },
            FoundBy::Id(id) => if small {
                Ok(wholesale(d))
            } else {
                Ok(
                    DeletionView {
                        drop_ids: seq![id],
                        remove_names: Seq::empty(),
                        clear_default: false,
                    },
                )
            },
            FoundBy::Url => if exact && d.configs.entries@.len() > 0 && d.id@.len() > 0 {
                Err(DeleteFault::NamedAndRegistered)
            } else if d.configs.entries@.len() > 1 {
                Err(DeleteFault::SeveralNames)
            } else if d.id@.len() > 1 {
                Err(DeleteFault::SeveralIds)
            } else {
                Ok(wholesale(d))
            },
        }
    }
}

fn whole(d: &RemoteInfo) -> (res: Deletion)
    ensures
        res@ == wholesale(*d),
{
    let mut drop_ids: Vec<RemoteId> = Vec::new();
    let mut i: usize = 0;
    while i < d.id.len()
        invariant
            0 <= i <= d.id@.len(),
            drop_ids@ == d.id@.take(i as int),
        decreases d.id@.len() - i,
    {
        drop_ids.push(d.id[i]);
        assert(d.id@.take(i + 1) == d.id@.take(i as int).push(d.id@[i as int]));
        i = i + 1;
    }
    assert(d.id@.take(d.id@.len() as int) == d.id@);
    let mut remove_names: Vec<String> = Vec::new();
    let mut j: usize = 0;
    while j < d.configs.entries.len()
        invariant
            0 <= j <= d.configs.entries@.len(),
            remove_names@.len() == j,
            forall|k: int| 0 <= k < j ==> (#[trigger] remove_names@[k])@ == d.configs.entries@[k].0@,
        decreases d.configs.entries@.len() - j,
    {
        remove_names.push(d.configs.entries[j].0.clone());
        j = j + 1;
    }
    let res = Deletion { drop_ids, remove_names, clear_default: d.default };
    assert(res@.remove_names =~= crate::textmap::keys_of(d.configs.entries@));
    res
}

/// Tells whether the deletion of the remote that `text` stands for would
/// be given up half-way.
pub fn deletion_overruns(db: &RemoteInfos, text: &str, exact: bool, flood: bool) -> (res: bool)
    requires
        db.wf(),
    ensures
        res == (target(*db, text@) matches Some((i, _)) && overruns(db.data@[i], exact, flood)),
{
    match find_target(db, text) {
        Some((i, _)) => {
            let d = &db.data[i];
            flood && !exact && (d.id.len() > 1 || d.configs.len() > 1 || (d.id.len() == 1
                && d.configs.len() == 1))
        },
        None => false,
    }
}

/// Decides what the deletion of a remote comes to.
///
/// A deletion that floods takes all of the remote. Otherwise a remote with
/// at most one identifier and one name goes as a whole, unless the deletion
/// is to be exact; of a larger one, only the name or the identifier goes
/// that was given. A remote that was found by its address goes as a whole,
/// or not at all.
pub fn delete_plan(db: &RemoteInfos, text: &str, exact: bool, flood: bool) -> (res: Result<
    Deletion,
    DeleteError,
>)
    requires
        db.wf(),
        !(target(*db, text@) matches Some((i, _)) && overruns(db.data@[i], exact, flood)),
    ensures
        match target(*db, text@) {
            None => res matches Err(e) && e.fault() == DeleteFault::NoSuchRemote && e.subject()
                == text@,
            Some((i, by)) => match deletion_of(db.data@[i], by, text@, exact, flood) {
                Ok(plan) => res matches Ok(p) && p@ == plan,
                Err(fault) => res matches Err(e) && e.fault() == fault && e.subject() == text@,
            },
        },
{
    let (i, by) = match find_target(db, text) {
        Some(found) => found,
        None => {
            return Err(DeleteError::NoSuchRemote(text.to_owned()));
        },
    };
    let d = &db.data[i];
    if flood {
        return Ok(whole(d));
    }
    let small = !exact && d.id.len() <= 1 && d.configs.len() <= 1;
    match by {
        FoundBy::Label => {
            if small {
                Ok(whole(d))
            } else {
                let clear_default = match d.configs.get(text) {
                    Some(c) => c.default,
                    None => false,
                };
                let mut remove_names: Vec<String> = Vec::new();
                remove_names.push(text.to_owned());
                let res = Deletion { drop_ids: Vec::new(), remove_names, clear_default };
                assert(res@.remove_names =~= seq![text@]);
                Ok(res)
            }
        },
        FoundBy::Id(id) => {
            if small {
                Ok(whole(d))
            } else {
                let mut drop_ids: Vec<RemoteId> = Vec::new();
                drop_ids.push(id);
                let res = Deletion { drop_ids, remove_names: Vec::new(), clear_default: false };
                assert(res@.remove_names =~= Seq::<Seq<char>>::empty());
                assert(res@.drop_ids =~= seq![id]);
                Ok(res)
            }
        },
        FoundBy::Url => {
            if exact && !d.configs.is_empty() && d.id.len() > 0 {
                Err(DeleteError::NamedAndRegistered(text.to_owned()))
            } else if d.configs.len() > 1 {
                Err(DeleteError::SeveralNames(text.to_owned()))
            } else if d.id.len() > 1 {
                Err(DeleteError::SeveralIds(text.to_owned()))
            } else {
                Ok(whole(d))
            }
        },
    }
}

/// Removes from the configuration the first remote that bears the name.
/// Tells whether there was one.
pub fn remove_named(remotes: &mut Vec<RemoteConfig>, name: &str) -> (res: bool)
    ensures
        match res {
            true => exists|i: int|
                0 <= i < old(remotes)@.len() && (#[trigger] old(remotes)@[i]).spec_name() == name@
                    && (forall|j: int| 0 <= j < i ==> (#[trigger] old(remotes)@[j]).spec_name() != name@)
                    && final(remotes)@ == old(remotes)@.remove(i),
            false => final(remotes)@ == old(remotes)@ && forall|i: int|
                0 <= i < old(remotes)@.len() ==> (#[trigger] old(remotes)@[i]).spec_name() != name@,
        },
{
    let mut i: usize = 0;
    while i < remotes.len()
        invariant
            0 <= i <= remotes@.len(),
            remotes@ == old(remotes)@,
            forall|j: int| 0 <= j < i ==> (#[trigger] remotes@[j]).spec_name() != name@,
        decreases remotes@.len() - i,
    {
        if same_text(remotes[i].name(), name) {
            remotes.remove(i);
            return true;
        }
        i = i + 1;
    }
    false
}

} // verus!
