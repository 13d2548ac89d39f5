//! Tables of the repository: the numbers under which changes are known, and
//! the tree of the files that are tracked. Each table is kept in both
//! directions, and the two directions are inverse to each other.

use crate::changes;
use crate::text::same_text;
use vstd::prelude::*;

verus! {

/// The numbers of the changes that a repository knows: the change with the
/// number `n` stands at place `n`.
#[derive(Debug)]
pub struct ChangeIds {
    hashes: Vec<changes::Hash>,
}

impl ChangeIds {
    #[verifier::type_invariant]
    spec fn inv(&self) -> bool {
        self.hashes@.no_duplicates() && self.hashes@.len() <= u64::MAX
    }

    /// The changes in the order of their numbers.
    pub closed spec fn view(&self) -> Seq<changes::Hash> {
        self.hashes@
    }

    pub fn new() -> (res: ChangeIds)
        ensures
            res@.len() == 0,
    {
        ChangeIds { hashes: Vec::new() }
    }

    /// How many changes are known.
    pub fn len(&self) -> (n: usize)
        ensures
            n == self@.len(),
    {
        self.hashes.len()
    }

    /// No change has two numbers, and no number two changes.
    pub proof fn lemma_one_to_one(&self, a: int, b: int)
        requires
            self@.no_duplicates(),
            0 <= a < self@.len(),
            0 <= b < self@.len(),
        ensures
            self@[a] == self@[b] <==> a == b,
    {
    }

    /// The number of a change.
    pub fn get_internal(&self, h: changes::Hash) -> (res: Option<changes::ChangeId>)
        ensures
            self@.no_duplicates(),
            match res {
                Some(id) => id.0 < self@.len() && self@[id.0 as int] == h,
                None => !self@.contains(h),
            },
    {
        proof {
            use_type_invariant(self);
        }
        let mut i: usize = 0;
        while i < self.hashes.len()
            invariant
                0 <= i <= self.hashes@.len(),
                self.hashes@.len() <= u64::MAX,
                self.hashes@.no_duplicates(),
                forall|k: int| 0 <= k < i ==> self.hashes@[k] != h,
            decreases self.hashes@.len() - i,
        {
            if self.hashes[i] == h {
                return Some(changes::ChangeId(i as u64));
            }
            i = i + 1;
        }
        None
    }

    /// The change that has a number.
    pub fn get_external(&self, id: changes::ChangeId) -> (res: Option<changes::Hash>)
        ensures
            match res {
                Some(h) => id.0 < self@.len() && self@[id.0 as int] == h,
                None => id.0 >= self@.len(),
            },
    {
        if id.0 < self.hashes.len() as u64 {
            Some(self.hashes[id.0 as usize])
        } else {
            None
        }
    }

    /// Gives a change its number: the one it has, or else the next one. The
    /// numbers of the other changes stay.
    pub fn register(self, h: changes::Hash) -> (res: (ChangeIds, changes::ChangeId))
        requires
            self@.len() < u64::MAX,
        ensures
            res.0@.no_duplicates(),
            res.1.0 < res.0@.len(),
            res.0@[res.1.0 as int] == h,
            res.0@ == (if self@.contains(h) {
                self@
            } else {
                self@.push(h)
            }),
    {
        proof {
            use_type_invariant(&self);
        }
        match self.get_internal(h) {
            Some(id) => (self, id),
            None => {
                let n = self.hashes.len();
                let mut hashes = self.hashes;
                hashes.push(h);
                proof {
                    assert forall|i: int, j: int|
                        0 <= i < hashes@.len() && 0 <= j < hashes@.len() && i != j implies hashes@[i]
                        != hashes@[j] by {
                        if i < n && j < n {
                            assert(self.hashes@[i] != self.hashes@[j]);
                        } else if i < n {
                            assert(self.hashes@.contains(self.hashes@[i]));
                        } else if j < n {
                            assert(self.hashes@.contains(self.hashes@[j]));
                        }
                    }
                }
                (ChangeIds { hashes }, changes::ChangeId(n as u64))
            },
        }
    }
}

/// The identity of a file that is tracked, which stays when the file is
/// renamed.
#[derive(Debug, Clone, Copy, PartialEq, Eq, Hash, Structural)]
pub struct Inode(pub u64);

/// Where a tracked file stands: under which directory, and under which name.
#[derive(Debug)]
pub struct TreeEntry {
    pub parent: Inode,
    pub basename: String,
    pub inode: Inode,
}

/// The tree of the tracked files. It is read in both directions: from a
/// place to the file that stands there, and from a file to its place.
#[derive(Debug)]
pub struct Tree {
    entries: Vec<TreeEntry>,
}

/// A place in the tree, as plain values.
pub type Place = (Inode, Seq<char>);

/// The place of an entry.
pub open spec fn place_of(e: TreeEntry) -> Place {
    (e.parent, e.basename@)
}

/// No file stands at two places, and at no place stand two files.
pub open spec fn tree_wf(entries: Seq<TreeEntry>) -> bool {
    &&& forall|i: int, j: int|
        0 <= i < j < entries.len() ==> (#[trigger] entries[i]).inode != (#[trigger] entries[j]).inode
    &&& forall|i: int, j: int|
        0 <= i < j < entries.len() ==> place_of(#[trigger] entries[i]) != place_of(
            #[trigger] entries[j],
        )
}

/// The file `inode` has an entry.
pub open spec fn has_entry(entries: Seq<TreeEntry>, inode: Inode) -> bool {
    exists|i: int| 0 <= i < entries.len() && (#[trigger] entries[i]).inode == inode
}

/// At the place stands an entry.
pub open spec fn taken(entries: Seq<TreeEntry>, place: Place) -> bool {
    exists|i: int| 0 <= i < entries.len() && place_of(#[trigger] entries[i]) == place
}

/// Why the tree is not changed.
#[derive(Debug, Clone, Copy, PartialEq, Eq, Structural)]
pub enum TreeError {
    /// The file is tracked already.
    AlreadyTracked,
    /// The file is not tracked.
    NotTracked,
    /// Another file stands at the place.
    NameTaken(Inode),
}

impl Tree {
    #[verifier::type_invariant]
    spec fn inv(&self) -> bool {
        tree_wf(self.entries@)
    }

    /// No file stands at two places, and at no place stand two files.
    pub closed spec fn wf(&self) -> bool {
        tree_wf(self.entries@)
    }

    /// The table from files to places: `revtree`.
    pub closed spec fn revtree(&self) -> Map<Inode, Place> {
        Map::new(
            |inode: Inode| has_entry(self.entries@, inode),
            |inode: Inode|
                place_of(
                    self.entries@[choose|i: int|
                        0 <= i < self.entries@.len() && (#[trigger] self.entries@[i]).inode
                            == inode],
                ),
        )
    }

    /// The table from places to files: `tree`.
    pub closed spec fn tree(&self) -> Map<Place, Inode> {
        Map::new(
            |place: Place| taken(self.entries@, place),
            |place: Place|
                self.entries@[choose|i: int|
                    0 <= i < self.entries@.len() && place_of(#[trigger] self.entries@[i])
                        == place].inode,
        )
    }

    /// The two tables are inverse to each other.
    pub open spec fn inverse(&self) -> bool {
        &&& forall|inode: Inode|
            self.revtree().contains_key(inode) ==> self.tree().contains_key(
                #[trigger] self.revtree()[inode],
            ) && self.tree()[self.revtree()[inode]] == inode
        &&& forall|place: Place|
            self.tree().contains_key(place) ==> self.revtree().contains_key(
                #[trigger] self.tree()[place],
            ) && self.revtree()[self.tree()[place]] == place
    }

    proof fn lemma_entry(&self, i: int)
        requires
            tree_wf(self.entries@),
            0 <= i < self.entries@.len(),
        ensures
            self.revtree().contains_key(self.entries@[i].inode),
            self.revtree()[self.entries@[i].inode] == place_of(self.entries@[i]),
            self.tree().contains_key(place_of(self.entries@[i])),
            self.tree()[place_of(self.entries@[i])] == self.entries@[i].inode,
    {
        let e = self.entries@;
        let a = choose|k: int| 0 <= k < e.len() && (#[trigger] e[k]).inode == e[i].inode;
        if a < i {
            assert(e[a].inode != e[i].inode);
        } else if i < a {
            assert(e[i].inode != e[a].inode);
        }
        let b = choose|k: int| 0 <= k < e.len() && place_of(#[trigger] e[k]) == place_of(e[i]);
        if b < i {
            assert(place_of(e[b]) != place_of(e[i]));
        } else if i < b {
            assert(place_of(e[i]) != place_of(e[b]));
        }
    }

    /// The tables of a tree are inverse to each other.
    pub proof fn lemma_inverse(&self)
        requires
            self.wf(),
        ensures
            self.inverse(),
    {
        let e = self.entries@;
        assert forall|inode: Inode| self.revtree().contains_key(inode) implies self.tree().contains_key(
            #[trigger] self.revtree()[inode],
        ) && self.tree()[self.revtree()[inode]] == inode by {
            let i = choose|i: int| 0 <= i < e.len() && (#[trigger] e[i]).inode == inode;
            self.lemma_entry(i);
        }
        assert forall|place: Place| self.tree().contains_key(place) implies self.revtree().contains_key(
            #[trigger] self.tree()[place],
        ) && self.revtree()[self.tree()[place]] == place by {
            let i = choose|i: int| 0 <= i < e.len() && place_of(#[trigger] e[i]) == place;
            self.lemma_entry(i);
        }
    }

    pub fn new() -> (res: Tree)
        ensures
            res.wf(),
            res.revtree() == Map::<Inode, Place>::empty(),
            res.tree() == Map::<Place, Inode>::empty(),
    {
        let res = Tree { entries: Vec::new() };
        assert(res.revtree() =~= Map::<Inode, Place>::empty());
        assert(res.tree() =~= Map::<Place, Inode>::empty());
        res
    }

    fn find_inode(&self, inode: Inode) -> (res: Option<usize>)
        ensures
            match res {
                Some(i) => i < self.entries@.len() && self.entries@[i as int].inode == inode,
                None => !has_entry(self.entries@, inode),
            },
    {
        let mut i: usize = 0;
        while i < self.entries.len()
            invariant
                0 <= i <= self.entries@.len(),
                forall|k: int| 0 <= k < i ==> (#[trigger] self.entries@[k]).inode != inode,
            decreases self.entries@.len() - i,
        {
            if self.entries[i].inode == inode {
                return Some(i);
            }
            i = i + 1;
        }
        None
    }

    fn find_place(&self, parent: Inode, basename: &str) -> (res: Option<usize>)
        ensures
            match res {
                Some(i) => i < self.entries@.len() && place_of(self.entries@[i as int]) == (
                    parent,
                    basename@,
                ),
                None => !taken(self.entries@, (parent, basename@)),
            },
    {
        let mut i: usize = 0;
        while i < self.entries.len()
            invariant
                0 <= i <= self.entries@.len(),
                forall|k: int|
                    0 <= k < i ==> place_of(#[trigger] self.entries@[k]) != (parent, basename@),
            decreases self.entries@.len() - i,
        {
            if self.entries[i].parent == parent && same_text(
                self.entries[i].basename.as_str(),
                basename,
            ) {
                return Some(i);
            }
            i = i + 1;
        }
        None
    }

    /// The file that stands at a place.
    pub fn get(&self, parent: Inode, basename: &str) -> (res: Option<Inode>)
        ensures
            match res {
                Some(inode) => self.tree().contains_key((parent, basename@)) && self.tree()[(
                    parent,
                    basename@,
                )] == inode,
                None => !self.tree().contains_key((parent, basename@)),
            },
    {
        proof {
            use_type_invariant(self);
        }
        match self.find_place(parent, basename) {
            Some(i) => {
                proof {
                    self.lemma_entry(i as int);
                }
                Some(self.entries[i].inode)
            },
            None => None,
        }
    }

    /// The place at which a file stands.
    pub fn get_rev(&self, inode: Inode) -> (res: Option<(Inode, &str)>)
        ensures
            match res {
                Some((parent, basename)) => self.revtree().contains_key(inode)
                    && self.revtree()[inode] == (parent, basename@),
                None => !self.revtree().contains_key(inode),
            },
    {
        proof {
            use_type_invariant(self);
        }
        match self.find_inode(inode) {
            Some(i) => {
                proof {
                    self.lemma_entry(i as int);
                }
                Some((self.entries[i].parent, self.entries[i].basename.as_str()))
            },
            None => None,
        }
    }

    /// Puts a file that is not tracked yet at a place where no file stands.
    pub fn add(self, parent: Inode, basename: &str, inode: Inode) -> (res: (Tree, Result<(), TreeError>))
        ensures
            res.0.wf(),
            match res.1 {
                Ok(()) => !self.revtree().contains_key(inode) && !self.tree().contains_key(
                    (parent, basename@),
                ) && res.0.revtree() == self.revtree().insert(inode, (parent, basename@)),
                Err(e) => res.0.revtree() == self.revtree() && (match e {
                    TreeError::AlreadyTracked => self.revtree().contains_key(inode),
                    TreeError::NameTaken(other) => !self.revtree().contains_key(inode)
                        && self.tree().contains_key((parent, basename@)) && self.tree()[(
                        parent,
                        basename@,
                    )] == other,
                    TreeError::NotTracked => false,
                }),
            },
    {
        proof {
            use_type_invariant(&self);
        }
        if self.find_inode(inode).is_some() {
            return (self, Err(TreeError::AlreadyTracked));
        }
        if let Some(i) = self.find_place(parent, basename) {
            proof {
                self.lemma_entry(i as int);
            }
            let other = self.entries[i].inode;
            return (self, Err(TreeError::NameTaken(other)));
        }
        let ghost before = self.entries@;
        let ghost old_rev = self.revtree();
        let mut entries = self.entries;
        entries.push(TreeEntry { parent, basename: basename.to_owned(), inode });
        proof {
            let after = entries@;
            assert forall|i: int, j: int| 0 <= i < j < after.len() implies (#[trigger] after[i]).inode
                != (#[trigger] after[j]).inode && place_of(after[i]) != place_of(after[j]) by {
                if j < before.len() {
                    assert(after[i] == before[i] && after[j] == before[j]);
                } else {
                    assert(after[i] == before[i]);
                }
            }
        }
        let res = Tree { entries };
        proof {
            let after = res.entries@;
            assert forall|x: Inode| res.revtree().contains_key(x) == old_rev.insert(
                inode,
                (parent, basename@),
            ).contains_key(x) by {
                if has_entry(before, x) {
                    let i = choose|i: int| 0 <= i < before.len() && (#[trigger] before[i]).inode == x;
                    assert(after[i].inode == x);
                }
                if has_entry(after, x) {
                    let i = choose|i: int| 0 <= i < after.len() && (#[trigger] after[i]).inode == x;
                    if i < before.len() {
                        assert(before[i].inode == x);
                    }
                }
                if x == inode {
                    assert(after[before.len() as int].inode == x);
                }
            }
            assert forall|x: Inode| res.revtree().contains_key(x) implies res.revtree()[x]
                == old_rev.insert(inode, (parent, basename@))[x] by {
                let i = choose|i: int| 0 <= i < after.len() && (#[trigger] after[i]).inode == x;
                res.lemma_entry(i);
                if i < before.len() {
                    assert(before[i] == after[i]);
                    self.lemma_entry(i);
                }
            }
            assert(res.revtree() =~= old_rev.insert(inode, (parent, basename@)));
        }
        (res, Ok(()))
    }

    /// Moves a file to another place, at which no other file stands.
    pub fn rename(self, inode: Inode, parent: Inode, basename: &str) -> (res: (
        Tree,
        Result<(), TreeError>,
    ))
        ensures
            res.0.wf(),
            match res.1 {
                Ok(()) => self.revtree().contains_key(inode) && res.0.revtree()
                    == self.revtree().insert(inode, (parent, basename@)),
                Err(e) => res.0.revtree() == self.revtree() && (match e {
                    TreeError::NotTracked => !self.revtree().contains_key(inode),
                    TreeError::NameTaken(other) => other != inode && self.revtree().contains_key(
                        inode,
                    ) && self.tree().contains_key((parent, basename@)) && self.tree()[(
                        parent,
                        basename@,
                    )] == other,
                    TreeError::AlreadyTracked => false,
                }),
            },
    {
        proof {
            use_type_invariant(&self);
        }
        let at = match self.find_inode(inode) {
            Some(i) => i,
            None => {
                return (self, Err(TreeError::NotTracked));
            },
        };
        proof {
            self.lemma_entry(at as int);
        }
        if let Some(j) = self.find_place(parent, basename) {
            proof {
                self.lemma_entry(j as int);
            }
            if j != at {
                let other = self.entries[j].inode;
                proof {
                    if j < at {
                        assert(self.entries@[j as int].inode != self.entries@[at as int].inode);
                    } else {
                        assert(self.entries@[at as int].inode != self.entries@[j as int].inode);
                    }
                }
                return (self, Err(TreeError::NameTaken(other)));
            }
        }
        let ghost before = self.entries@;
        let ghost old_rev = self.revtree();
        let ghost place = (parent, basename@);
        let mut entries = self.entries;
        entries.set(at, TreeEntry { parent, basename: basename.to_owned(), inode });
        proof {
            let after = entries@;
            assert forall|i: int, j: int| 0 <= i < j < after.len() implies (#[trigger] after[i]).inode
                != (#[trigger] after[j]).inode && place_of(after[i]) != place_of(after[j]) by {
                assert(after[i].inode == before[i].inode && after[j].inode == before[j].inode);
                assert(before[i].inode != before[j].inode);
                if i != at && j != at {
                    assert(after[i] == before[i] && after[j] == before[j]);
                } else if i == at {
                    assert(after[j] == before[j]);
                    assert(place_of(before[j]) != place);
                } else {
                    assert(after[i] == before[i]);
                    assert(place_of(before[i]) != place);
                }
            }
        }
        let res = Tree { entries };
        proof {
            let after = res.entries@;
            assert forall|x: Inode| res.revtree().contains_key(x) == old_rev.insert(
                inode,
                place,
            ).contains_key(x) by {
                if has_entry(before, x) {
                    let i = choose|i: int| 0 <= i < before.len() && (#[trigger] before[i]).inode == x;
                    assert(after[i].inode == x);
                }
                if has_entry(after, x) {
                    let i = choose|i: int| 0 <= i < after.len() && (#[trigger] after[i]).inode == x;
                    assert(before[i].inode == x);
                }
            }
            assert forall|x: Inode| res.revtree().contains_key(x) implies res.revtree()[x]
                == old_rev.insert(inode, place)[x] by {
                let i = choose|i: int| 0 <= i < after.len() && (#[trigger] after[i]).inode == x;
                res.lemma_entry(i);
                if i != at {
                    assert(before[i] == after[i]);
                    self.lemma_entry(i);
                }
            }
            assert(res.revtree() =~= old_rev.insert(inode, place));
        }
        (res, Ok(()))
    }

    /// Takes a file out of the tree. Tells whether it was tracked.
    pub fn remove(self, inode: Inode) -> (res: (Tree, bool))
        ensures
            res.0.wf(),
            res.1 == self.revtree().contains_key(inode),
            res.0.revtree() == self.revtree().remove(inode),
    {
        proof {
            use_type_invariant(&self);
        }
        let at = match self.find_inode(inode) {
            Some(i) => i,
            None => {
                assert(self.revtree().remove(inode) =~= self.revtree());
                return (self, false);
            },
        };
        let ghost before = self.entries@;
        let ghost old_rev = self.revtree();
        let mut entries = self.entries;
        entries.remove(at);
        proof {
            let after = entries@;
            assert(after == before.remove(at as int));
            assert forall|i: int, j: int| 0 <= i < j < after.len() implies (#[trigger] after[i]).inode
                != (#[trigger] after[j]).inode && place_of(after[i]) != place_of(after[j]) by {
                let a = if i < at {
                    i
                } else {
                    i + 1
                };
                let b = if j < at {
                    j
                } else {
                    j + 1
                };
                assert(after[i] == before[a] && after[j] == before[b]);
            }
        }
        let res = Tree { entries };
        proof {
            let after = res.entries@;
            assert forall|x: Inode| res.revtree().contains_key(x) == old_rev.remove(
                inode,
            ).contains_key(x) by {
                if has_entry(after, x) {
                    let i = choose|i: int| 0 <= i < after.len() && (#[trigger] after[i]).inode == x;
                    let a = if i < at {
                        i
                    } else {
                        i + 1
                    };
                    assert(before[a].inode == x);
                    if x == inode {
                        if a < at {
                            assert(before[a].inode != before[at as int].inode);
                        } else {
                            assert(before[at as int].inode != before[a].inode);
                        }
                    }
                }
                if has_entry(before, x) && x != inode {
                    let i = choose|i: int| 0 <= i < before.len() && (#[trigger] before[i]).inode == x;
                    let a = if i < at {
                        i
                    } else {
                        i - 1
                    };
                    assert(after[a].inode == x);
                }
            }
            assert forall|x: Inode| res.revtree().contains_key(x) implies res.revtree()[x]
                == old_rev.remove(inode)[x] by {
                let i = choose|i: int| 0 <= i < after.len() && (#[trigger] after[i]).inode == x;
                res.lemma_entry(i);
                let a = if i < at {
                    i
                } else {
                    i + 1
                };
                assert(before[a] == after[i]);
                self.lemma_entry(a);
            }
            assert(res.revtree() =~= old_rev.remove(inode));
        }
        (res, true)
    }
}

/// A file that is moved and moved back stands where it stood.
pub proof fn lemma_rename_back(rev: Map<Inode, Place>, inode: Inode, there: Place)
    requires
        rev.contains_key(inode),
    ensures
        rev.insert(inode, there).insert(inode, rev[inode]) == rev,
{
    assert(rev.insert(inode, there).insert(inode, rev[inode]) =~= rev);
}

/// A file that is added to a tree and removed at once leaves the tree as it
/// was.
pub proof fn lemma_add_then_remove(rev: Map<Inode, Place>, inode: Inode, place: Place)
    requires
        !rev.contains_key(inode),
    ensures
        rev.insert(inode, place).remove(inode) == rev,
{
    assert(rev.insert(inode, place).remove(inode) =~= rev);
}

} // verus!
