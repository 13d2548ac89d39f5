//! A store of changes' dependencies that lives in memory.

use crate::changes;
use crate::changes::ChangeStore;
use vstd::prelude::*;

verus! {

/// The dependencies of changes, in the order in which the changes came in. A
/// change comes in after the changes it depends on, and once.
pub struct Memory {
    entries: Vec<(changes::Hash, Vec<changes::Hash>)>,
}

/// The changes with their dependencies, as plain values.
pub open spec fn plain(entries: Seq<(changes::Hash, Vec<changes::Hash>)>) -> Seq<(changes::Hash, Seq<changes::Hash>)> {
    Seq::new(entries.len(), |i: int| (entries[i].0, entries[i].1@))
}

/// The list names `h`.
pub open spec fn names(list: Seq<(changes::Hash, Seq<changes::Hash>)>, h: changes::Hash) -> bool {
    exists|i: int| 0 <= i < list.len() && (#[trigger] list[i]).0 == h
}

/// The place of `h` in the list.
pub open spec fn place(list: Seq<(changes::Hash, Seq<changes::Hash>)>, h: changes::Hash) -> int {
    choose|i: int| 0 <= i < list.len() && (#[trigger] list[i]).0 == h
}

/// No change is named twice, and each dependency of a change is named before
/// the change.
pub open spec fn well_ordered(list: Seq<(changes::Hash, Seq<changes::Hash>)>) -> bool {
    &&& forall|i: int, j: int|
        0 <= i < j < list.len() ==> (#[trigger] list[i]).0 != (#[trigger] list[j]).0
    &&& forall|i: int, k: int|
        0 <= i < list.len() && 0 <= k < list[i].1.len() ==> names(
            list.take(i),
            #[trigger] list[i].1[k],
        )
}

/// Why a change was not taken into the store.
#[derive(Debug, Clone, Copy, PartialEq, Eq, Structural)]
pub enum InsertError {
    /// The store has the change already.
    AlreadyKnown,
    /// The change depends on one that the store does not have.
    MissingDependency(changes::Hash),
}

/// The store has no such change.
#[derive(Debug, Clone, Copy, PartialEq, Eq, Structural)]
pub struct ChangeNotFound(pub changes::Hash);

/// A copy of a list of changes.
pub(crate) fn copy_hashes(v: &Vec<changes::Hash>) -> (res: Vec<changes::Hash>)
    ensures
        res@ == v@,
{
    let mut res: Vec<changes::Hash> = Vec::new();
    let mut i: usize = 0;
    while i < v.len()
        invariant
            0 <= i <= v@.len(),
            res@ == v@.take(i as int),
        decreases v@.len() - i,
    {
        res.push(v[i]);
        assert(v@.take(i + 1) == v@.take(i as int).push(v@[i as int]));
        i = i + 1;
    }
    assert(v@.take(v@.len() as int) == v@);
    res
}

impl Memory {
    #[verifier::type_invariant]
    spec fn ordered(&self) -> bool {
        well_ordered(plain(self.entries@))
    }

    /// The changes of the store with their dependencies, oldest first.
    pub closed spec fn view(&self) -> Seq<(changes::Hash, Seq<changes::Hash>)> {
        plain(self.entries@)
    }

    /// The store has the change `h`.
    pub open spec fn has(&self, h: changes::Hash) -> bool {
        names(self@, h)
    }

    pub fn new() -> (res: Memory)
        ensures
            res@.len() == 0,
    {
        Memory { entries: Vec::new() }
    }

    /// The number of changes in the store.
    pub fn len(&self) -> (n: usize)
        ensures
            n == self@.len(),
    {
        self.entries.len()
    }

    /// The place of a change in the store.
    pub fn find(&self, h: &changes::Hash) -> (res: Option<usize>)
        ensures
            match res {
                Some(i) => i < self@.len() && self@[i as int].0 == *h,
                None => !self.has(*h),
            },
    {
        let mut i: usize = 0;
        while i < self.entries.len()
            invariant
                0 <= i <= self.entries@.len(),
                forall|k: int| 0 <= k < i ==> (#[trigger] plain(self.entries@)[k]).0 != *h,
            decreases self.entries@.len() - i,
        {
            if self.entries[i].0 == *h {
                return Some(i);
            }
            i = i + 1;
        }
        None
    }

    /// Tells whether the store has a change.
    pub fn contains(&self, h: &changes::Hash) -> (res: bool)
        ensures
            res == self.has(*h),
    {
        match self.find(h) {
            Some(i) => {
                assert(self@[i as int].0 == *h);
                true
            },
            None => false,
        }
    }

    /// Takes a change with its dependencies into the store, and hands the
    /// store back. The change is refused, and the store handed back as it
    /// was, where the store has the change already, or lacks one of its
    /// dependencies: the first that it lacks is reported.
    pub fn insert(self, h: changes::Hash, deps: Vec<changes::Hash>) -> (res: (
        Memory,
        Result<(), InsertError>,
    ))
        ensures
            match res.1 {
                Ok(()) => res.0@ == self@.push((h, deps@)),
                Err(_) => res.0@ == self@,
            },
            res.1 is Ok <==> !self.has(h) && forall|k: int|
                0 <= k < deps@.len() ==> self.has(#[trigger] deps@[k]),
            res.1 == Err::<(), InsertError>(InsertError::AlreadyKnown) <==> self.has(h),
            res.1 matches Err(InsertError::MissingDependency(d)) ==> exists|k: int|
                0 <= k < deps@.len() && #[trigger] deps@[k] == d && !self.has(d) && forall|j: int|
                    0 <= j < k ==> self.has(#[trigger] deps@[j]),
    {
        proof {
            use_type_invariant(&self);
        }
        if self.contains(&h) {
            return (self, Err(InsertError::AlreadyKnown));
        }
        let mut k: usize = 0;
        while k < deps.len()
            invariant
                0 <= k <= deps@.len(),
                !self.has(h),
                well_ordered(plain(self.entries@)),
                forall|j: int| 0 <= j < k ==> self.has(#[trigger] deps@[j]),
            decreases deps@.len() - k,
        {
            if !self.contains(&deps[k]) {
                let d = deps[k];
                return (self, Err(InsertError::MissingDependency(d)));
            }
            k = k + 1;
        }
        let ghost before = plain(self.entries@);
        let ghost deps_view = deps@;
        let mut entries = self.entries;
        entries.push((h, deps));
        proof {
            let after = plain(entries@);
            assert(after == before.push((h, deps_view)));
            assert forall|i: int, j: int| 0 <= i < j < after.len() implies (#[trigger] after[i]).0 != (
            #[trigger] after[j]).0 by {
                if j < before.len() {
                    assert(after[i] == before[i] && after[j] == before[j]);
                } else {
                    assert(after[i] == before[i]);
                }
            }
            assert forall|i: int, m: int|
                0 <= i < after.len() && 0 <= m < after[i].1.len() implies names(
                after.take(i),
                #[trigger] after[i].1[m],
            ) by {
                if i < before.len() {
                    assert(after[i] == before[i]);
                    assert(after.take(i) == before.take(i));
                } else {
                    assert(after.take(i) == before);
                    assert(names(before, deps_view[m]));
                }
            }
        }
        (Memory { entries }, Ok(()))
    }
}

impl ChangeStore for Memory {
    type Error = ChangeNotFound;

    open spec fn deps(&self, h: changes::Hash) -> Seq<changes::Hash> {
        if well_ordered(self@) && self.has(h) {
            self@[place(self@, h)].1
        } else {
            Seq::empty()
        }
    }

    open spec fn holds(&self, h: changes::Hash) -> bool {
        well_ordered(self@) && self.has(h)
    }

    open spec fn rank(&self, h: changes::Hash) -> nat {
        if self.has(h) {
            (place(self@, h) + 1) as nat
        } else {
            0
        }
    }

    proof fn deps_descend(&self, h: changes::Hash, i: int) {
        let list = self@;
        let p = place(list, h);
        let d = list[p].1[i];
        assert(names(list.take(p), d));
        let q = choose|q: int| 0 <= q < list.take(p).len() && (#[trigger] list.take(p)[q]).0 == d;
        assert(list[q].0 == d);
        let pd = place(list, d);
        if pd != q {
            if pd < q {
                assert(list[pd].0 != list[q].0);
            } else {
                assert(list[q].0 != list[pd].0);
            }
        }
    }

    fn get_dependencies(&self, h: &changes::Hash) -> (res: Result<Vec<changes::Hash>, ChangeNotFound>)
        ensures
            res is Ok <==> self.has(*h),
            res matches Err(e) ==> e == ChangeNotFound(*h),
    {
        proof {
            use_type_invariant(self);
        }
        match self.find(h) {
            Some(i) => {
                proof {
                    let list = self@;
                    let p = place(list, *h);
                    assert(list[i as int].0 == *h);
                    if p != i {
                        if p < i {
                            assert(list[p].0 != list[i as int].0);
                        } else {
                            assert(list[i as int].0 != list[p].0);
                        }
                    }
                }
                Ok(copy_hashes(&self.entries[i].1))
            },
            None => Err(ChangeNotFound(*h)),
        }
    }
}

/// A store that comes about by `insert` can answer for each of its changes
/// and for all that the change depends on, whatever the selection.
pub proof fn lemma_store_is_closed(
    store: &Memory,
    original: Option<Seq<changes::CS>>,
    now: Seq<changes::CS>,
)
    requires
        well_ordered(store@),
    ensures
        crate::changes::closed(store, original, now, Set::new(|h: changes::Hash| store.has(h))),
{
    let set = Set::new(|h: changes::Hash| store.has(h));
    let list = store@;
    assert forall|h: changes::Hash| #![trigger set.contains(h)] set.contains(h) implies store.holds(h)
        && forall|i: int|
        0 <= i < store.deps(h).len() ==> set.contains(#[trigger] store.deps(h)[i]) by {
        let p = place(list, h);
        assert forall|i: int| 0 <= i < store.deps(h).len() implies set.contains(
            #[trigger] store.deps(h)[i],
        ) by {
            let d = list[p].1[i];
            assert(names(list.take(p), d));
            let q = choose|q: int| 0 <= q < list.take(p).len() && (#[trigger] list.take(p)[q]).0 == d;
            assert(list[q].0 == d);
        }
    }
}

} // verus!
