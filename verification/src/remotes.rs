//! What a repository knows of its remotes, gathered from its database and
//! from its configuration.

use crate::base32::{
    all_symbols, char_digit, digit_of, digits32, lemma_digit_symbol, lemma_digits32_len,
    lemma_digits_of_value, lemma_symbol_digit, lemma_value32_bound, lemma_value_of_digits,
    parse_digits32, pow32, push_digits32, symbol,
};
use crate::config::{RemoteConfig, RemoteHttpHeader};
use crate::textmap::TextMap;
use vstd::prelude::*;

verus! {

/// The identifier under which the database of a repository knows a remote.
#[derive(Debug, Clone, Copy, PartialEq, Eq, Hash, Structural)]
pub struct RemoteId(pub u128);

/// The identifier that a text writes, if it writes one.
pub open spec fn id_of_text(text: Seq<char>) -> Option<RemoteId> {
    if exists|id: RemoteId| id.spec_text() == text {
        Some(choose|id: RemoteId| id.spec_text() == text)
    } else {
        None
    }
}

impl RemoteId {
    /// The base-32 text of the identifier: its sixteen bytes, the most
    /// significant first, in 26 digits, of which the last holds three bits.
    pub open spec fn spec_text(self) -> Seq<char> {
        digits32((self.0 / 8) as nat, 25).push(symbol((4 * (self.0 % 8)) as int))
    }

    /// No two identifiers have the same text.
    pub proof fn lemma_text_injective(a: RemoteId, b: RemoteId)
        requires
            a.spec_text() == b.spec_text(),
        ensures
            a == b,
    {
        let fa = digits32((a.0 / 8) as nat, 25);
        let fb = digits32((b.0 / 8) as nat, 25);
        assert(a.spec_text().drop_last() == fa);
        assert(b.spec_text().drop_last() == fb);
        assert(a.spec_text().last() == symbol((4 * (a.0 % 8)) as int));
        assert(b.spec_text().last() == symbol((4 * (b.0 % 8)) as int));
        lemma_value_of_digits((a.0 / 8) as nat, 25);
        lemma_value_of_digits((b.0 / 8) as nat, 25);
        lemma_symbol_digit((4 * (a.0 % 8)) as int);
        lemma_symbol_digit((4 * (b.0 % 8)) as int);
        assert(pow32(25) == 0x20000000000000000000000000000000) by {
            reveal_with_fuel(pow32, 26);
        }
    }

    /// The text of an identifier is read back as the identifier.
    pub proof fn lemma_round_trip(id: RemoteId)
        ensures
            id_of_text(id.spec_text()) == Some(id),
    {
        let back = choose|other: RemoteId| other.spec_text() == id.spec_text();
        Self::lemma_text_injective(back, id);
    }

    pub fn to_base32(&self) -> (res: String)
        ensures
            res@ == self.spec_text(),
    {
        let mut out = String::new();
        push_digits32(&mut out, self.0 / 8, 25);
        push_digits32(&mut out, 4 * (self.0 % 8), 1);
        proof {
            let last = 4 * (self.0 % 8);
            assert(digits32(last as nat, 1) == seq![symbol(last as int)]) by {
                reveal_with_fuel(digits32, 2);
                assert(last % 32 == last);
            }
            assert(Seq::<char>::empty() + digits32((self.0 / 8) as nat, 25) + seq![
                symbol(last as int),
            ] == self.spec_text());
        }
        out
    }

    /// Reads an identifier from its text.
    pub fn from_base32(s: &str) -> (res: Option<RemoteId>)
        ensures
            res == id_of_text(s@),
    {
        let res = Self::read(s);
        proof {
            if let Some(id) = res {
                Self::lemma_text_injective(id, id_of_text(s@).unwrap());
            }
        }
        res
    }

    fn read(s: &str) -> (res: Option<RemoteId>)
        ensures
            match res {
                Some(id) => id.spec_text() == s@,
                None => forall|id: RemoteId| id.spec_text() != s@,
            },
    {
        proof {
            assert forall|id: RemoteId| #[trigger] id.spec_text() == s@ implies s@.len() == 26
                && all_symbols(s@.take(25)) && digit_of(s@[25]) == Some(
                (4 * (id.0 % 8)) as int,
            ) by {
                lemma_digits32_len((id.0 / 8) as nat, 25);
                assert(id.spec_text().take(25) == digits32((id.0 / 8) as nat, 25));
                lemma_symbol_digit((4 * (id.0 % 8)) as int);
            }
        }
        if s.unicode_len() != 26 {
            return None;
        }
        let front = s.substring_char(0, 25);
        let last = s.get_char(25);
        assert(front@ == s@.take(25));
        let high = match parse_digits32(front) {
            Some(v) => v,
            None => {
                return None;
            },
        };
        let low = match char_digit(last) {
            Some(d) => d,
            None => {
                return None;
            },
        };
        if low % 4 != 0 {
            return None;
        }
        proof {
            lemma_value32_bound(front@);
            assert(pow32(25) == 0x20000000000000000000000000000000) by {
                reveal_with_fuel(pow32, 26);
            }
            lemma_digits_of_value(front@);
            lemma_digit_symbol(last);
        }
        let id = RemoteId(high * 8 + (low / 4) as u128);
        proof {
            assert(id.0 / 8 == high);
            assert(4 * (id.0 % 8) == low);
            assert(id.spec_text() == front@.push(last));
            assert(front@.push(last) == s@);
        }
        Some(id)
    }
}

/// A map from remote identifiers to places in a list.
#[derive(Debug)]
pub struct IdMap {
    pub entries: Vec<(RemoteId, usize)>,
}

impl IdMap {
    /// No identifier stands twice.
    pub open spec fn wf(&self) -> bool {
        forall|i: int, j: int|
            0 <= i < j < self.entries@.len() ==> (#[trigger] self.entries@[i]).0 != (
            #[trigger] self.entries@[j]).0
    }

    pub open spec fn has(&self, id: RemoteId) -> bool {
        exists|i: int| 0 <= i < self.entries@.len() && (#[trigger] self.entries@[i]).0 == id
    }

    pub open spec fn place(&self, id: RemoteId) -> int {
        choose|i: int| 0 <= i < self.entries@.len() && (#[trigger] self.entries@[i]).0 == id
    }

    pub open spec fn view(&self) -> Map<RemoteId, int> {
        Map::new(|id: RemoteId| self.has(id), |id: RemoteId| self.entries@[self.place(id)].1 as int)
    }

    pub fn new() -> (res: IdMap)
        ensures
            res.wf(),
            res@ == Map::<RemoteId, int>::empty(),
    {
        let res = IdMap { entries: Vec::new() };
        assert(res@ =~= Map::<RemoteId, int>::empty());
        res
    }

    fn find(&self, id: RemoteId) -> (res: Option<usize>)
        requires
            self.wf(),
        ensures
            match res {
                Some(i) => i < self.entries@.len() && self.entries@[i as int].0 == id && self.has(id)
                    && self.place(id) == i,
                None => !self.has(id),
            },
    {
        let mut i: usize = 0;
        while i < self.entries.len()
            invariant
                0 <= i <= self.entries@.len(),
                self.wf(),
                forall|k: int| 0 <= k < i ==> (#[trigger] self.entries@[k]).0 != id,
            decreases self.entries@.len() - i,
        {
            if self.entries[i].0 == id {
                proof {
                    let p = self.place(id);
                    if p < i {
                        assert(self.entries@[p].0 != id);
                    } else if i < p {
                        assert(self.entries@[i as int].0 != self.entries@[p].0);
                    }
                }
                return Some(i);
            }
            i = i + 1;
        }
        None
    }

    /// The place that an identifier is mapped to.
    pub fn get(&self, id: RemoteId) -> (res: Option<usize>)
        requires
            self.wf(),
        ensures
            match res {
                Some(v) => self@.contains_key(id) && self@[id] == v,
                None => !self@.contains_key(id),
            },
    {
        match self.find(id) {
            Some(i) => Some(self.entries[i].1),
            None => None,
        }
    }

    /// Maps an identifier to a place, whatever it was mapped to before.
    pub fn insert(&mut self, id: RemoteId, value: usize)
        requires
            old(self).wf(),
        ensures
            final(self).wf(),
            final(self)@ == old(self)@.insert(id, value as int),
    {
        let ghost before = *self;
        match self.find(id) {
            Some(i) => {
                self.entries.set(i, (id, value));
                proof {
                    assert forall|k: RemoteId| self.has(k) == before.has(k) by {
                        if before.has(k) {
                            let p = before.place(k);
                            assert(self.entries@[p].0 == k);
                        }
                        if self.has(k) {
                            let p = self.place(k);
                            assert(before.entries@[p].0 == k);
                        }
                    }
                    assert forall|k: RemoteId| self.has(k) implies #[trigger] self@[k] == before@.insert(
                        id,
                        value as int,
                    )[k] by {
                        let p = self.place(k);
                        let q = before.place(k);
                        assert(before.entries@[p].0 == k);
                        if p < q {
                            assert(before.entries@[p].0 != before.entries@[q].0);
                        } else if q < p {
                            assert(before.entries@[q].0 != before.entries@[p].0);
                        }
                    }
                    assert(self@ =~= before@.insert(id, value as int));
                }
            },
            None => {
                self.entries.push((id, value));
                proof {
                    let n = before.entries@.len() as int;
                    assert(self.entries@[n].0 == id);
                    assert forall|k: RemoteId| self.has(k) == (k == id || before.has(k)) by {
                        if before.has(k) {
                            let p = before.place(k);
                            assert(self.entries@[p].0 == k);
                        }
                        if self.has(k) {
                            let p = self.place(k);
                            if p < n {
                                assert(before.entries@[p].0 == k);
                            }
                        }
                    }
                    assert forall|k: RemoteId| self.has(k) implies #[trigger] self@[k] == before@.insert(
                        id,
                        value as int,
                    )[k] by {
                        let p = self.place(k);
                        if k != id {
                            let q = before.place(k);
                            assert(self.entries@[q].0 == k);
                            if p < q {
                                assert(self.entries@[p].0 != self.entries@[q].0);
                            } else if q < p {
                                assert(self.entries@[q].0 != self.entries@[p].0);
                            }
                        } else {
                            if p < n {
                                assert(self.entries@[p].0 != self.entries@[n].0);
                            }
                        }
                    }
                    assert(self@ =~= before@.insert(id, value as int));
                }
            },
        }
    }
}

/// What a map from strings to places holds.
pub open spec fn places(m: TextMap<usize>) -> Map<Seq<char>, int> {
    Map::new(|k: Seq<char>| m.has(k), |k: Seq<char>| m.value(k) as int)
}

/// What a map from strings to strings holds.
pub open spec fn strings(m: TextMap<String>) -> Map<Seq<char>, Seq<char>> {
    Map::new(|k: Seq<char>| m.has(k), |k: Seq<char>| m.value(k)@)
}

fn get_place(m: &TextMap<usize>, key: &str) -> (res: Option<usize>)
    requires
        m.wf(),
    ensures
        match res {
            Some(v) => places(*m).contains_key(key@) && places(*m)[key@] == v,
            None => !places(*m).contains_key(key@),
        },
{
    match m.get(key) {
        Some(v) => Some(*v),
        None => None,
    }
}

fn put_place(m: &mut TextMap<usize>, key: &str, value: usize)
    requires
        old(m).wf(),
    ensures
        final(m).wf(),
        places(*final(m)) == places(*old(m)).insert(key@, value as int),
{
    m.insert(key.to_owned(), value);
    assert(places(*m) =~= places(*old(m)).insert(key@, value as int));
}

fn put_string(m: &mut TextMap<String>, key: &str, value: &str)
    requires
        old(m).wf(),
    ensures
        final(m).wf(),
        strings(*final(m)) == strings(*old(m)).insert(key@, value@),
{
    m.insert(key.to_owned(), value.to_owned());
    assert(strings(*m) =~= strings(*old(m)).insert(key@, value@));
}

/// What the configuration says of a remote under one of its names.
#[derive(Debug)]
pub struct ExtraConfig {
    pub headers: TextMap<String>,
    pub default: bool,
}

pub struct ExtraConfigView {
    pub headers: Map<Seq<char>, Seq<char>>,
    pub default: bool,
}

impl View for ExtraConfig {
    type V = ExtraConfigView;

    open spec fn view(&self) -> ExtraConfigView {
        ExtraConfigView { headers: strings(self.headers), default: self.default }
    }
}

/// What a map from names to configurations holds.
pub open spec fn configs(m: TextMap<ExtraConfig>) -> Map<Seq<char>, ExtraConfigView> {
    Map::new(|k: Seq<char>| m.has(k), |k: Seq<char>| m.value(k)@)
}

/// The configurations are all well-formed.
pub open spec fn configs_wf(m: TextMap<ExtraConfig>) -> bool {
    &&& m.wf()
    &&& forall|i: int| 0 <= i < m.entries@.len() ==> (#[trigger] m.entries@[i]).1.headers.wf()
}

/// One remote: where it is, under which identifiers the database knows it,
/// and under which names the configuration.
#[derive(Debug)]
pub struct RemoteInfo {
    /// The identifiers, in increasing order.
    pub id: Vec<RemoteId>,
    pub path: String,
    pub configs: TextMap<ExtraConfig>,
    pub default: bool,
}

pub struct RemoteInfoView {
    pub id: Set<RemoteId>,
    pub path: Seq<char>,
    pub configs: Map<Seq<char>, ExtraConfigView>,
    pub default: bool,
}

/// The identifiers stand in strictly increasing order.
pub open spec fn ids_increasing(ids: Seq<RemoteId>) -> bool {
    forall|i: int, j: int| 0 <= i < j < ids.len() ==> (#[trigger] ids[i]).0 < (#[trigger] ids[j]).0
}

impl View for RemoteInfo {
    type V = RemoteInfoView;

    open spec fn view(&self) -> RemoteInfoView {
        RemoteInfoView {
            id: self.id@.to_set(),
            path: self.path@,
            configs: configs(self.configs),
            default: self.default,
        }
    }
}

/// A remote at `path` of which nothing else is known yet.
pub open spec fn blank_info(path: Seq<char>) -> RemoteInfoView {
    RemoteInfoView { id: Set::empty(), path, configs: Map::empty(), default: false }
}

impl RemoteInfo {
    pub open spec fn wf(&self) -> bool {
        &&& ids_increasing(self.id@)
        &&& configs_wf(self.configs)
    }

    pub fn new(path: &str) -> (res: RemoteInfo)
        ensures
            res.wf(),
            res@ == blank_info(path@),
    {
        let res = RemoteInfo {
            id: Vec::new(),
            path: path.to_owned(),
            configs: TextMap::new(),
            default: false,
        };
        assert(res@.id =~= Set::<RemoteId>::empty());
        assert(res@.configs =~= Map::<Seq<char>, ExtraConfigView>::empty());
        res
    }

    /// Notes an identifier of the remote.
    pub fn add_id(&mut self, id: RemoteId)
        requires
            old(self).wf(),
        ensures
            final(self).wf(),
            final(self)@ == (RemoteInfoView { id: old(self)@.id.insert(id), ..old(self)@ }),
    {
        let mut i: usize = 0;
        while i < self.id.len() && self.id[i].0 < id.0
            invariant
                0 <= i <= self.id@.len(),
                *self == *old(self),
                forall|k: int| 0 <= k < i ==> (#[trigger] self.id@[k]).0 < id.0,
            decreases self.id@.len() - i,
        {
            i = i + 1;
        }
        let ghost before = self.id@;
        if i < self.id.len() && self.id[i].0 == id.0 {
            assert(before[i as int] == id);
            assert(before.to_set() =~= before.to_set().insert(id));
            return ;
        }
        self.id.insert(i, id);
        proof {
            let after = self.id@;
            assert(after == before.insert(i as int, id));
            assert forall|a: int, b: int| 0 <= a < b < after.len() implies (#[trigger] after[a]).0 < (
            #[trigger] after[b]).0 by {
                if b < i {
                    assert(after[a] == before[a] && after[b] == before[b]);
                } else if b == i {
                    assert(after[a] == before[a]);
                } else if a < i {
                    assert(after[a] == before[a] && after[b] == before[b - 1]);
                    if i < before.len() {
                        assert(before[i as int].0 > id.0);
                    }
                } else if a == i {
                    assert(after[b] == before[b - 1]);
                    assert(before[i as int].0 > id.0);
                    if b - 1 > i {
                        assert(before[i as int].0 < before[b - 1].0);
                    }
                } else {
                    assert(after[a] == before[a - 1] && after[b] == before[b - 1]);
                }
            }
            assert forall|x: RemoteId| after.to_set().contains(x) == before.to_set().insert(
                id,
            ).contains(x) by {
                if after.contains(x) {
                    let p = choose|p: int| 0 <= p < after.len() && after[p] == x;
                    if p < i {
                        assert(before[p] == x);
                    } else if p > i {
                        assert(before[p - 1] == x);
                    }
                }
                if before.contains(x) {
                    let p = choose|p: int| 0 <= p < before.len() && before[p] == x;
                    if p < i {
                        assert(after[p] == x);
                    } else {
                        assert(after[p + 1] == x);
                    }
                }
                if x == id {
                    assert(after[i as int] == x);
                }
            }
            assert(after.to_set() =~= before.to_set().insert(id));
        }
    }

    /// Notes a name of the remote with its headers.
    pub fn add_config(&mut self, name: &str, headers: TextMap<String>)
        requires
            old(self).wf(),
            headers.wf(),
        ensures
            final(self).wf(),
            final(self)@ == (RemoteInfoView {
                configs: old(self)@.configs.insert(
                    name@,
                    ExtraConfigView { headers: strings(headers), default: false },
                ),
                ..old(self)@
            }),
    {
        let ghost before = self.configs;
        let config = ExtraConfig { headers, default: false };
        self.configs.insert(name.to_owned(), config);
        proof {
            assert forall|i: int| 0 <= i < self.configs.entries@.len() implies (
            #[trigger] self.configs.entries@[i]).1.headers.wf() by {
                let k = self.configs.keys()[i];
                self.configs.lemma_place(i);
                if k != name@ {
                    assert(before.has(k));
                    let p = before.place(k);
                    assert(before.entries@[p].1.headers.wf());
                }
            }
            assert(configs(self.configs) =~= configs(before).insert(
                name@,
                ExtraConfigView { headers: strings(headers), default: false },
            ));
        }
    }
}


/// The remotes of a repository, and where to find each by an identifier, by
/// its address, and by a name.
#[derive(Debug)]
pub struct RemoteInfos {
    pub data: Vec<RemoteInfo>,
    pub by_id: IdMap,
    pub by_url: TextMap<usize>,
    pub by_label: TextMap<usize>,
}

pub struct RemoteInfosView {
    pub data: Seq<RemoteInfoView>,
    pub by_id: Map<RemoteId, int>,
    pub by_url: Map<Seq<char>, int>,
    pub by_label: Map<Seq<char>, int>,
}

pub open spec fn info_views(data: Seq<RemoteInfo>) -> Seq<RemoteInfoView> {
    Seq::new(data.len(), |i: int| data[i]@)
}

/// The map leads to places of a list of length `len`.
pub open spec fn in_range<K>(m: Map<K, int>, len: int) -> bool {
    forall|k: K| m.contains_key(k) ==> 0 <= #[trigger] m[k] < len
}

impl View for RemoteInfos {
    type V = RemoteInfosView;

    open spec fn view(&self) -> RemoteInfosView {
        RemoteInfosView {
            data: info_views(self.data@),
            by_id: self.by_id@,
            by_url: places(self.by_url),
            by_label: places(self.by_label),
        }
    }
}

impl RemoteInfos {
    /// The maps are in order and lead to remotes of the list.
    pub open spec fn wf(&self) -> bool {
        &&& self.by_id.wf()
        &&& self.by_url.wf()
        &&& self.by_label.wf()
        &&& forall|i: int| 0 <= i < self.data@.len() ==> (#[trigger] self.data@[i]).wf()
        &&& in_range(self.by_id@, self.data@.len() as int)
        &&& in_range(places(self.by_url), self.data@.len() as int)
        &&& in_range(places(self.by_label), self.data@.len() as int)
        &&& labels_configured(self@)
    }
}

/// The remote to which a name leads is configured under that name.
pub open spec fn labels_configured(s: RemoteInfosView) -> bool {
    forall|k: Seq<char>|
        s.by_label.contains_key(k) ==> 0 <= #[trigger] s.by_label[k] < s.data.len()
            && s.data[s.by_label[k]].configs.contains_key(k)
}

/// A named remote of the configuration, as plain values.
pub struct RemoteConfigView {
    pub name: Seq<char>,
    pub url: Seq<char>,
    pub db_uses_name: bool,
    pub headers: Map<Seq<char>, Seq<char>>,
}

/// The headers of a list, each under its name; of two with one name the
/// later counts.
pub open spec fn header_map(list: Seq<(String, RemoteHttpHeader)>) -> Map<Seq<char>, Seq<char>>
    decreases list.len(),
{
    if list.len() == 0 {
        Map::empty()
    } else {
        header_map(list.drop_last()).insert(list.last().0@, list.last().1.spec_text())
    }
}

pub open spec fn config_view(rc: RemoteConfig) -> RemoteConfigView {
    RemoteConfigView {
        name: rc.spec_name(),
        url: rc.spec_url(),
        db_uses_name: rc.spec_db_uses_name(),
        headers: match rc {
            RemoteConfig::Ssh { .. } => Map::empty(),
            RemoteConfig::Http { headers, .. } => header_map(headers@),
        },
    }
}

pub open spec fn config_views(remotes: Seq<RemoteConfig>) -> Seq<RemoteConfigView> {
    Seq::new(remotes.len(), |i: int| config_view(remotes[i]))
}

pub open spec fn db_views(db: Seq<(RemoteId, String)>) -> Seq<(RemoteId, Seq<char>)> {
    Seq::new(db.len(), |i: int| (db[i].0, db[i].1@))
}

/// What is gathered while the sources are read: the remotes, and under which
/// names the database may know them.
pub struct Gathered {
    pub infos: RemoteInfosView,
    pub by_db_name: Map<Seq<char>, int>,
}

pub open spec fn nothing_gathered() -> Gathered {
    Gathered {
        infos: RemoteInfosView {
            data: Seq::empty(),
            by_id: Map::empty(),
            by_url: Map::empty(),
            by_label: Map::empty(),
        },
        by_db_name: Map::empty(),
    }
}

/// A named remote of the configuration is taken in. It joins the remote with
/// its address, which is made if there is none yet.
pub open spec fn with_config(s: Gathered, rc: RemoteConfigView) -> Gathered {
    let fresh = !s.infos.by_url.contains_key(rc.url);
    let data = if fresh {
        s.infos.data.push(blank_info(rc.url))
    } else {
        s.infos.data
    };
    let idx = if fresh {
        s.infos.data.len() as int
    } else {
        s.infos.by_url[rc.url]
    };
    let named = if rc.db_uses_name {
        s.by_db_name.insert(rc.name, idx)
    } else {
        s.by_db_name
    };
    Gathered {
        infos: RemoteInfosView {
            data: data.update(
                idx,
                RemoteInfoView {
                    configs: data[idx].configs.insert(
                        rc.name,
                        ExtraConfigView { headers: rc.headers, default: false },
                    ),
                    ..data[idx]
                },
            ),
            by_id: s.infos.by_id,
            by_url: s.infos.by_url.insert(rc.url, idx),
            by_label: s.infos.by_label.insert(rc.name, idx),
        },
        by_db_name: named.insert(rc.url, idx),
    }
}

pub open spec fn with_configs(s: Gathered, remotes: Seq<RemoteConfigView>) -> Gathered
    decreases remotes.len(),
{
    if remotes.len() == 0 {
        s
    } else {
        with_config(with_configs(s, remotes.drop_last()), remotes.last())
    }
}

/// A remote of the database is taken in. It joins the remote that the
/// configuration has under the name by which the database knows it, or is
/// made a remote of its own.
pub open spec fn with_db_remote(s: Gathered, id: RemoteId, path: Seq<char>) -> Gathered {
    let fresh = !s.by_db_name.contains_key(path);
    let data = if fresh {
        s.infos.data.push(blank_info(path))
    } else {
        s.infos.data
    };
    let idx = if fresh {
        s.infos.data.len() as int
    } else {
        s.by_db_name[path]
    };
    Gathered {
        infos: RemoteInfosView {
            data: data.update(idx, RemoteInfoView { id: data[idx].id.insert(id), ..data[idx] }),
            by_id: s.infos.by_id.insert(id, idx),
            by_url: if fresh {
                s.infos.by_url.insert(path, idx)
            } else {
                s.infos.by_url
            },
            by_label: s.infos.by_label,
        },
        by_db_name: s.by_db_name,
    }
}

pub open spec fn with_db_remotes(s: Gathered, db: Seq<(RemoteId, Seq<char>)>) -> Gathered
    decreases db.len(),
{
    if db.len() == 0 {
        s
    } else {
        with_db_remote(with_db_remotes(s, db.drop_last()), db.last().0, db.last().1)
    }
}

/// The default remote is marked: the remote of that name, else the remote at
/// that address, else a new one. Where it was found by its name, the name is
/// marked too.
pub open spec fn with_default(s: RemoteInfosView, default: Seq<char>) -> RemoteInfosView {
    let labelled = s.by_label.contains_key(default);
    let fresh = !labelled && !s.by_url.contains_key(default);
    let data = if fresh {
        s.data.push(blank_info(default))
    } else {
        s.data
    };
    let idx = if labelled {
        s.by_label[default]
    } else if fresh {
        s.data.len() as int
    } else {
        s.by_url[default]
    };
    let info = data[idx];
    let marked = if labelled && info.configs.contains_key(default) {
        info.configs.insert(
            default,
            ExtraConfigView { default: true, ..info.configs[default] },
        )
    } else {
        info.configs
    };
    RemoteInfosView {
        data: data.update(idx, RemoteInfoView { default: true, configs: marked, ..info }),
        by_id: s.by_id,
        by_url: if fresh {
            s.by_url.insert(default, idx)
        } else {
            s.by_url
        },
        by_label: s.by_label,
    }
}

/// What is known of the remotes: first the named remotes of the
/// configuration are taken in, then the remotes of the database, then the
/// default remote of the configuration is marked.
pub open spec fn gathered(
    remotes: Seq<RemoteConfigView>,
    db: Seq<(RemoteId, Seq<char>)>,
    default: Option<Seq<char>>,
) -> RemoteInfosView {
    let s = with_db_remotes(with_configs(nothing_gathered(), remotes), db).infos;
    match default {
        Some(d) => with_default(s, d),
        None => s,
    }
}

/// The headers of a named remote, each under its name.
fn headers_of(rc: &RemoteConfig) -> (res: TextMap<String>)
    ensures
        res.wf(),
        strings(res) == config_view(*rc).headers,
{
    let mut res: TextMap<String> = TextMap::new();
    assert(strings(res) =~= Map::<Seq<char>, Seq<char>>::empty());
    match rc {
        RemoteConfig::Ssh { .. } => {},
        RemoteConfig::Http { headers, .. } => {
            let mut i: usize = 0;
            assert(headers@.take(0) == Seq::<(String, RemoteHttpHeader)>::empty());
            while i < headers.len()
                invariant
                    0 <= i <= headers@.len(),
                    res.wf(),
                    strings(res) == header_map(headers@.take(i as int)),
                decreases headers@.len() - i,
            {
                put_string(&mut res, headers[i].0.as_str(), headers[i].1.text());
                proof {
                    assert(headers@.take(i + 1).drop_last() == headers@.take(i as int));
                    assert(headers@.take(i + 1).last() == headers@[i as int]);
                }
                i = i + 1;
            }
            assert(headers@.take(headers@.len() as int) == headers@);
        },
    }
    res
}

/// The state of the gathering, as plain values.
pub open spec fn state_view(infos: RemoteInfos, by_db_name: TextMap<usize>) -> Gathered {
    Gathered { infos: infos@, by_db_name: places(by_db_name) }
}

pub open spec fn state_wf(infos: RemoteInfos, by_db_name: TextMap<usize>) -> bool {
    &&& infos.wf()
    &&& by_db_name.wf()
    &&& in_range(places(by_db_name), infos.data@.len() as int)
}

fn take_config(infos: &mut RemoteInfos, by_db_name: &mut TextMap<usize>, rc: &RemoteConfig)
    requires
        state_wf(*old(infos), *old(by_db_name)),
    ensures
        state_wf(*final(infos), *final(by_db_name)),
        state_view(*final(infos), *final(by_db_name)) == with_config(
            state_view(*old(infos), *old(by_db_name)),
            config_view(*rc),
        ),
{
    let ghost s0 = state_view(*infos, *by_db_name);
    let ghost v = config_view(*rc);
    let ghost data_before = infos.data@;
    let idx = match get_place(&infos.by_url, rc.url()) {
        Some(idx) => idx,
        None => {
            infos.data.push(RemoteInfo::new(rc.url()));
            infos.data.len() - 1
        },
    };
    let ghost data0 = infos.data@;
    proof {
        assert(info_views(data0) =~= (if s0.infos.by_url.contains_key(v.url) {
            s0.infos.data
        } else {
            s0.infos.data.push(blank_info(v.url))
        }));
    }
    if rc.db_uses_name() {
        put_place(by_db_name, rc.name(), idx);
    }
    put_place(by_db_name, rc.url(), idx);
    put_place(&mut infos.by_label, rc.name(), idx);
    put_place(&mut infos.by_url, rc.url(), idx);
    let headers = headers_of(rc);
    infos.data[idx].add_config(rc.name(), headers);
    proof {
        let s1 = with_config(s0, v);
        assert(info_views(infos.data@) =~= s1.infos.data);
    }
}

fn take_db_remote(infos: &mut RemoteInfos, by_db_name: &TextMap<usize>, id: RemoteId, path: &str)
    requires
        state_wf(*old(infos), *by_db_name),
    ensures
        state_wf(*final(infos), *by_db_name),
        state_view(*final(infos), *by_db_name) == with_db_remote(
            state_view(*old(infos), *by_db_name),
            id,
            path@,
        ),
{
    let ghost s0 = state_view(*infos, *by_db_name);
    let idx = match get_place(by_db_name, path) {
        Some(idx) => idx,
        None => {
            infos.data.push(RemoteInfo::new(path));
            let idx = infos.data.len() - 1;
            put_place(&mut infos.by_url, path, idx);
            idx
        },
    };
    let ghost data0 = infos.data@;
    proof {
        assert(info_views(data0) =~= (if s0.by_db_name.contains_key(path@) {
            s0.infos.data
        } else {
            s0.infos.data.push(blank_info(path@))
        }));
    }
    infos.data[idx].add_id(id);
    infos.by_id.insert(id, idx);
    proof {
        let s1 = with_db_remote(s0, id, path@);
        assert(info_views(infos.data@) =~= s1.infos.data);
    }
}

fn mark_default(infos: &mut RemoteInfos, default: &str)
    requires
        old(infos).wf(),
    ensures
        final(infos).wf(),
        final(infos)@ == with_default(old(infos)@, default@),
{
    let ghost s0 = infos@;
    let label_idx = get_place(&infos.by_label, default);
    let idx = match label_idx {
        Some(idx) => idx,
        None => match get_place(&infos.by_url, default) {
            Some(idx) => idx,
            None => {
                infos.data.push(RemoteInfo::new(default));
                let idx = infos.data.len() - 1;
                put_place(&mut infos.by_url, default, idx);
                idx
            },
        },
    };
    let ghost data0 = infos.data@;
    proof {
        assert(info_views(data0) =~= (if !s0.by_label.contains_key(default@)
            && !s0.by_url.contains_key(default@) {
            s0.data.push(blank_info(default@))
        } else {
            s0.data
        }));
    }
    infos.data[idx].default = true;
    if label_idx.is_some() {
        let ghost before = infos.data@[idx as int].configs;
        match infos.data[idx].configs.position(default) {
            Ok(p) => {
                infos.data[idx].configs.entries[p].1.default = true;
                proof {
                    let after = infos.data@[idx as int].configs;
                    assert(after.keys() =~= before.keys());
                    after.lemma_place(p as int);
                    before.lemma_place(p as int);
                    assert forall|k: Seq<char>| after.has(k) == before.has(k) by {
                        if before.has(k) {
                            assert(after.keys()[before.place(k)] == k);
                        }
                        if after.has(k) {
                            assert(before.keys()[after.place(k)] == k);
                        }
                    }
                    assert forall|k: Seq<char>| after.has(k) && k != default@ implies after.value(k)
                        == before.value(k) by {
                        let q = before.place(k);
                        before.lemma_place(q);
                        after.lemma_place(q);
                    }
                    assert(after.value(default@).headers == before.value(default@).headers);
                    assert(configs(after) =~= configs(before).insert(
                        default@,
                        ExtraConfigView { default: true, ..configs(before)[default@] },
                    ));
                    assert forall|i: int| 0 <= i < after.entries@.len() implies (
                    #[trigger] after.entries@[i]).1.headers.wf() by {
                        assert(before.entries@[i].1.headers.wf());
                    }
                }
            },
            Err(_) => {},
        }
    }
    proof {
        let s1 = with_default(s0, default@);
        assert(info_views(infos.data@) =~= s1.data);
    }
}

/// Aggregates remote information from three sources:
/// - the repo database
/// - named remotes in the configuration
/// - the default remote set in the configuration
pub fn aggregate_remote_info(
    remotes: &Vec<RemoteConfig>,
    db: &Vec<(RemoteId, String)>,
    default_remote: Option<&str>,
) -> (res: RemoteInfos)
    ensures
        res.wf(),
        res@ == gathered(
            config_views(remotes@),
            db_views(db@),
            crate::commands::channel::opt_text(default_remote),
        ),
{
    let mut infos = RemoteInfos {
        data: Vec::new(),
        by_id: IdMap::new(),
        by_url: TextMap::new(),
        by_label: TextMap::new(),
    };
    let mut by_db_name: TextMap<usize> = TextMap::new();
    proof {
        assert(places(infos.by_url) =~= Map::<Seq<char>, int>::empty());
        assert(places(infos.by_label) =~= Map::<Seq<char>, int>::empty());
        assert(places(by_db_name) =~= Map::<Seq<char>, int>::empty());
        assert(info_views(infos.data@) =~= Seq::<RemoteInfoView>::empty());
        assert(config_views(remotes@).take(0) =~= Seq::<RemoteConfigView>::empty());
    }
    let mut i: usize = 0;
    while i < remotes.len()
        invariant
            0 <= i <= remotes@.len(),
            state_wf(infos, by_db_name),
            state_view(infos, by_db_name) == with_configs(
                nothing_gathered(),
                config_views(remotes@).take(i as int),
            ),
        decreases remotes@.len() - i,
    {
        take_config(&mut infos, &mut by_db_name, &remotes[i]);
        proof {
            let all = config_views(remotes@);
            assert(all.take(i + 1).drop_last() == all.take(i as int));
            assert(all.take(i + 1).last() == config_view(remotes@[i as int]));
        }
        i = i + 1;
    }
    proof {
        assert(config_views(remotes@).take(remotes@.len() as int) == config_views(remotes@));
        assert(db_views(db@).take(0) =~= Seq::<(RemoteId, Seq<char>)>::empty());
    }
    let ghost after_configs = with_configs(nothing_gathered(), config_views(remotes@));
    let mut j: usize = 0;
    while j < db.len()
        invariant
            0 <= j <= db@.len(),
            state_wf(infos, by_db_name),
            state_view(infos, by_db_name) == with_db_remotes(
                after_configs,
                db_views(db@).take(j as int),
            ),
        decreases db@.len() - j,
    {
        take_db_remote(&mut infos, &by_db_name, db[j].0, db[j].1.as_str());
        proof {
            let all = db_views(db@);
            assert(all.take(j + 1).drop_last() == all.take(j as int));
            assert(all.take(j + 1).last() == (db@[j as int].0, db@[j as int].1@));
        }
        j = j + 1;
    }
    proof {
        assert(db_views(db@).take(db@.len() as int) == db_views(db@));
    }
    if let Some(default) = default_remote {
        mark_default(&mut infos, default);
    }
    infos
}

} // verus!
