//! The dependencies of changes as they were read from a store, in any
//! order, put in an order in which they can be searched.

use crate::changes;
use crate::changes::ChangeStore;
use crate::memory::{copy_hashes, names, place, plain, ChangeNotFound};
use vstd::prelude::*;

verus! {

/// Rows of changes with their dependencies, each change once, and each after
/// the changes it depends on that have a row themselves.
pub struct Table {
    rows: Vec<(changes::Hash, Vec<changes::Hash>)>,
}

/// No change has two rows, and a dependency of a change has its row, if it
/// has one, before the row of the change.
pub open spec fn layered(list: Seq<(changes::Hash, Seq<changes::Hash>)>) -> bool {
    &&& forall|i: int, j: int|
        0 <= i < j < list.len() ==> (#[trigger] list[i]).0 != (#[trigger] list[j]).0
    &&& forall|i: int, k: int|
        0 <= i < list.len() && 0 <= k < list[i].1.len() && names(list, #[trigger] list[i].1[k])
            ==> names(list.take(i), list[i].1[k])
}

/// The `k`-th dependency of row `i` is the change of row `j`.
pub open spec fn leads(list: Seq<(changes::Hash, Seq<changes::Hash>)>, i: int, k: int, j: int) -> bool {
    &&& 0 <= i < list.len()
    &&& 0 <= k < list[i].1.len()
    &&& 0 <= j < list.len()
    &&& list[j].0 == list[i].1[k]
}

/// The rows of `set` depend on each other in a circle: each depends on a
/// change that has a row in `set`.
#[verifier::opaque]
pub open spec fn circular(list: Seq<(changes::Hash, Seq<changes::Hash>)>, set: Set<int>) -> bool {
    &&& exists|i: int| set.contains(i)
    &&& forall|i: int|
        #![trigger set.contains(i)]
        set.contains(i) ==> exists|k: int, j: int| set.contains(j) && #[trigger] leads(list, i, k, j)
}

/// Why rows make no table.
#[derive(Debug, Clone, Copy, PartialEq, Eq, Structural)]
pub enum TableError {
    /// A change has two rows.
    Duplicate(changes::Hash),
    /// Changes depend on each other in a circle.
    Circular,
}

/// How many of the flags are set.
pub open spec fn count_set(flags: Seq<bool>) -> nat
    decreases flags.len(),
{
    if flags.len() == 0 {
        0
    } else {
        count_set(flags.drop_last()) + (if flags.last() {
            1nat
        } else {
            0nat
        })
    }
}

proof fn lemma_count_set_update(flags: Seq<bool>, i: int)
    requires
        0 <= i < flags.len(),
        !flags[i],
    ensures
        count_set(flags.update(i, true)) == count_set(flags) + 1,
    decreases flags.len(),
{
    let after = flags.update(i, true);
    if i == flags.len() - 1 {
        assert(after.drop_last() == flags.drop_last());
    } else {
        assert(after.drop_last() == flags.drop_last().update(i, true));
        lemma_count_set_update(flags.drop_last(), i);
    }
}

proof fn lemma_count_set_full(flags: Seq<bool>)
    ensures
        count_set(flags) <= flags.len(),
        count_set(flags) == flags.len() ==> forall|i: int| 0 <= i < flags.len() ==> flags[i],
    decreases flags.len(),
{
    if flags.len() > 0 {
        lemma_count_set_full(flags.drop_last());
        if count_set(flags) == flags.len() {
            assert forall|i: int| 0 <= i < flags.len() implies flags[i] by {
                if i < flags.len() - 1 {
                    assert(flags.drop_last()[i] == flags[i]);
                }
            }
        }
    }
}

fn find_row(rows: &Vec<(changes::Hash, Vec<changes::Hash>)>, h: changes::Hash) -> (res: Option<usize>)
    ensures
        match res {
            Some(i) => i < rows@.len() && rows@[i as int].0 == h && forall|k: int|
                0 <= k < i ==> (#[trigger] rows@[k]).0 != h,
            None => !names(plain(rows@), h),
        },
{
    let mut i: usize = 0;
    while i < rows.len()
        invariant
            0 <= i <= rows@.len(),
            forall|k: int| 0 <= k < i ==> (#[trigger] plain(rows@)[k]).0 != h,
            forall|k: int| 0 <= k < i ==> (#[trigger] rows@[k]).0 != h,
        decreases rows@.len() - i,
    {
        if rows[i].0 == h {
            return Some(i);
        }
        assert(plain(rows@)[i as int].0 == rows@[i as int].0);
        i = i + 1;
    }
    None
}

/// Row `i` can be placed: each of its dependencies has no row, or a row
/// that is placed.
spec fn ready(
    given: Seq<(changes::Hash, Seq<changes::Hash>)>,
    placed: Seq<(changes::Hash, Seq<changes::Hash>)>,
    i: int,
) -> bool {
    forall|k: int|
        0 <= k < given[i].1.len() ==> !names(given, #[trigger] given[i].1[k]) || names(
            placed,
            given[i].1[k],
        )
}

/// What holds of the rows that are placed while a table is made.
spec fn placing(
    all: Seq<(changes::Hash, Seq<changes::Hash>)>,
    placed: Seq<(changes::Hash, Seq<changes::Hash>)>,
    used: Seq<bool>,
) -> bool {
    &&& used.len() == all.len()
    &&& placed.len() == count_set(used)
    &&& placed.len() <= all.len()
    &&& layered(placed)
    &&& forall|i: int, j: int|
        0 <= i < j < all.len() ==> (#[trigger] all[i]).0 != (#[trigger] all[j]).0
    &&& forall|i: int| 0 <= i < all.len() && #[trigger] used[i] ==> placed.contains(all[i])
    &&& forall|k: int|
        0 <= k < placed.len() ==> exists|i: int|
            0 <= i < all.len() && used[i] && all[i] == #[trigger] placed[k]
    &&& forall|k: int, m: int|
        0 <= k < placed.len() && 0 <= m < placed[k].1.len() ==> !names(
            all,
            #[trigger] placed[k].1[m],
        ) || names(placed, placed[k].1[m])
}

impl Table {
    #[verifier::type_invariant]
    spec fn inv(&self) -> bool {
        layered(plain(self.rows@))
    }

    /// The rows of the table, in their order.
    pub closed spec fn view(&self) -> Seq<(changes::Hash, Seq<changes::Hash>)> {
        plain(self.rows@)
    }

    /// The table has a row for the change `h`.
    pub open spec fn has(&self, h: changes::Hash) -> bool {
        names(self@, h)
    }

    /// The number of rows.
    pub fn len(&self) -> (n: usize)
        ensures
            n == self@.len(),
    {
        self.rows.len()
    }

    /// Tells whether the table has a row for a change.
    pub fn contains(&self, h: &changes::Hash) -> (res: bool)
        ensures
            res == self.has(*h),
    {
        match find_row(&self.rows, *h) {
            Some(i) => {
                assert(self@[i as int].0 == *h);
                true
            },
            None => false,
        }
    }

    /// Makes a table of rows that were read in any order. Rows of which two
    /// are for one change make no table, nor rows of changes that depend on
    /// each other in a circle. The table holds the rows that were given.
    pub fn build(given: Vec<(changes::Hash, Vec<changes::Hash>)>) -> (res: Result<Table, TableError>)
        ensures
            match res {
                Ok(t) => {
                    &&& layered(t@)
                    &&& t@.len() == given@.len()
                    &&& forall|i: int|
                        0 <= i < given@.len() ==> t@.contains(#[trigger] plain(given@)[i])
                    &&& forall|i: int| 0 <= i < t@.len() ==> plain(given@).contains(#[trigger] t@[i])
                },
                Err(TableError::Duplicate(h)) => exists|i: int, j: int|
                    0 <= i < j < given@.len() && (#[trigger] given@[i]).0 == h && (
                    #[trigger] given@[j]).0 == h,
                Err(TableError::Circular) => exists|set: Set<int>| circular(plain(given@), set),
            },
    {
        let n = given.len();
        let ghost all = plain(given@);
        // each change once
        let mut a: usize = 0;
        while a < n
            invariant
                0 <= a <= n,
                n == given@.len(),
                forall|i: int, j: int|
                    0 <= i < j < given@.len() && i < a ==> (#[trigger] given@[i]).0 != (
                    #[trigger] given@[j]).0,
            decreases n - a,
        {
            let mut b: usize = a + 1;
            while b < n
                invariant
                    a < b <= n,
                    n == given@.len(),
                    forall|j: int| a < j < b ==> given@[a as int].0 != (#[trigger] given@[j]).0,
                decreases n - b,
            {
                if given[a].0 == given[b].0 {
                    return Err(TableError::Duplicate(given[a].0));
                }
                b = b + 1;
            }
            a = a + 1;
        }
        proof {
            assert forall|i: int, j: int| 0 <= i < j < all.len() implies (#[trigger] all[i]).0 != (
            #[trigger] all[j]).0 by {
                assert(given@[i].0 != given@[j].0);
            }
        }
        let mut rows: Vec<(changes::Hash, Vec<changes::Hash>)> = Vec::new();
        let mut used: Vec<bool> = Vec::new();
        let mut u: usize = 0;
        while u < n
            invariant
                0 <= u <= n,
                used@.len() == u,
                forall|i: int| 0 <= i < u ==> !used@[i],
                count_set(used@) == 0,
            decreases n - u,
        {
            let ghost before = used@;
            used.push(false);
            assert(used@.drop_last() == before);
            u = u + 1;
        }
        proof {
            assert(plain(rows@) =~= Seq::<(changes::Hash, Seq<changes::Hash>)>::empty());
        }
        while rows.len() < n
            invariant
                n == given@.len(),
                all == plain(given@),
                placing(all, plain(rows@), used@),
            decreases n - rows@.len(),
        {
            // a row that is not placed and whose dependencies are seen to
            let mut found: Option<usize> = None;
            let mut i: usize = 0;
            while i < n && found.is_none()
                invariant
                    0 <= i <= n,
                    n == given@.len(),
                    all == plain(given@),
                    used@.len() == n,
                    placing(all, plain(rows@), used@),
                    rows@.len() < n,
                    found matches Some(f) ==> f < n && !used@[f as int] && ready(
                        all,
                        plain(rows@),
                        f as int,
                    ),
                    found is None ==> forall|j: int|
                        0 <= j < i && !used@[j] ==> !ready(all, plain(rows@), #[trigger] (j + 0)),
                decreases n - i + (if found is None { 1int } else { 0int }),
            {
                if !used[i] {
                    let mut fits = true;
                    let mut k: usize = 0;
                    while k < given[i].1.len() && fits
                        invariant
                            0 <= k <= given@[i as int].1@.len(),
                            i < n,
                            n == given@.len(),
                            all == plain(given@),
                            used@.len() == n,
                            !used@[i as int],
                            placing(all, plain(rows@), used@),
                            rows@.len() < n,
                            fits ==> forall|m: int|
                                0 <= m < k ==> !names(all, #[trigger] all[i as int].1[m]) || names(
                                    plain(rows@),
                                    all[i as int].1[m],
                                ),
                            !fits ==> !ready(all, plain(rows@), i as int),
                        decreases given@[i as int].1@.len() - k + (if fits { 1int } else { 0int }),
                    {
                        let d = given[i].1[k];
                        assert(all[i as int].1[k as int] == d);
                        let given_row = find_row(&given, d);
                        let placed_row = find_row(&rows, d);
                        proof {
                            if let Some(r) = given_row {
                                assert(all[r as int].0 == d);
                            }
                            if let Some(r) = placed_row {
                                assert(plain(rows@)[r as int].0 == d);
                            }
                        }
                        if given_row.is_some() && placed_row.is_none() {
                            fits = false;
                        } else {
                            k = k + 1;
                        }
                    }
                    if fits {
                        found = Some(i);
                    } else {
                        i = i + 1;
                    }
                } else {
                    i = i + 1;
                }
            }
            match found {
                None => {
                    proof {
                        lemma_stuck(all, plain(rows@), used@);
                    }
                    return Err(TableError::Circular);
                },
                Some(f) => {
                    let ghost before = plain(rows@);
                    let ghost used_before = used@;
                    let row = (given[f].0, copy_hashes(&given[f].1));
                    rows.push(row);
                    used.set(f, true);
                    proof {
                        assert(plain(rows@) == before.push(all[f as int]));
                        lemma_place_row(all, before, used_before, f as int);
                    }
                },
            }
        }
        proof {
            lemma_count_set_full(used@);
            assert(rows@.len() == n);
            assert forall|i: int| 0 <= i < given@.len() implies plain(rows@).contains(
                #[trigger] plain(given@)[i],
            ) by {
                assert(used@[i]);
            }
            assert forall|i: int| 0 <= i < rows@.len() implies all.contains(
                #[trigger] plain(rows@)[i],
            ) by {
                let j = choose|j: int| 0 <= j < n && used@[j] && all[j] == plain(rows@)[i];
                assert(all[j] == plain(rows@)[i]);
            }
        }
        Ok(Table { rows })
    }
}

/// When no row can be placed, the rows that are left depend on each other in
/// a circle.
proof fn lemma_stuck(
    all: Seq<(changes::Hash, Seq<changes::Hash>)>,
    placed: Seq<(changes::Hash, Seq<changes::Hash>)>,
    used: Seq<bool>,
)
    requires
        used.len() == all.len(),
        placed.len() == count_set(used),
        placed.len() < all.len(),
        forall|j: int| 0 <= j < all.len() && !used[j] ==> !ready(all, placed, #[trigger] (j + 0)),
        forall|k: int|
            0 <= k < placed.len() ==> exists|i: int|
                0 <= i < all.len() && used[i] && all[i] == #[trigger] placed[k],
        forall|i: int| 0 <= i < all.len() && #[trigger] used[i] ==> placed.contains(all[i]),
    ensures
        exists|set: Set<int>| circular(all, set),
{
    let set = Set::new(|i: int| 0 <= i < all.len() && !used[i]);
    lemma_count_set_full(used);
    assert(exists|i: int| set.contains(i)) by {
        if forall|i: int| 0 <= i < used.len() ==> used[i] {
            lemma_count_all(used);
        }
        let i = choose|i: int| 0 <= i < used.len() && !used[i];
        assert(set.contains(i));
    }
    assert forall|i: int| #![trigger set.contains(i)] set.contains(i) implies exists|k: int, j: int|
        set.contains(j) && #[trigger] leads(all, i, k, j) by {
        assert(!ready(all, placed, i + 0));
        let k = choose|k: int|
            0 <= k < all[i].1.len() && !(!names(all, #[trigger] all[i].1[k]) || names(
                placed,
                all[i].1[k],
            ));
        let d = all[i].1[k];
        let j = choose|j: int| 0 <= j < all.len() && (#[trigger] all[j]).0 == d;
        if used[j] {
            assert(placed.contains(all[j]));
            let p = choose|p: int| 0 <= p < placed.len() && placed[p] == all[j];
            assert(placed[p].0 == d);
        }
        assert(set.contains(j));
        assert(leads(all, i, k, j));
    }
    assert(circular(all, set)) by {
        reveal(circular);
    }
}

proof fn lemma_count_all(flags: Seq<bool>)
    requires
        forall|i: int| 0 <= i < flags.len() ==> flags[i],
    ensures
        count_set(flags) == flags.len(),
    decreases flags.len(),
{
    if flags.len() > 0 {
        assert forall|i: int| 0 <= i < flags.drop_last().len() implies flags.drop_last()[i] by {
            assert(flags.drop_last()[i] == flags[i]);
        }
        lemma_count_all(flags.drop_last());
    }
}

/// A row that is ready keeps the placed rows in order when it follows them.
proof fn lemma_place_row(
    all: Seq<(changes::Hash, Seq<changes::Hash>)>,
    placed: Seq<(changes::Hash, Seq<changes::Hash>)>,
    used: Seq<bool>,
    f: int,
)
    requires
        placing(all, placed, used),
        0 <= f < all.len(),
        !used[f],
        ready(all, placed, f),
    ensures
        placing(all, placed.push(all[f]), used.update(f, true)),
{
    let after = placed.push(all[f]);
    let used1 = used.update(f, true);
    lemma_count_set_update(used, f);
    lemma_count_set_full(used1);
    assert forall|h: changes::Hash| names(placed, h) implies names(after, h) by {
        let p = choose|p: int| 0 <= p < placed.len() && (#[trigger] placed[p]).0 == h;
        assert(after[p].0 == h);
    }
    assert(!names(placed, all[f].0)) by {
        if names(placed, all[f].0) {
            let p = choose|p: int| 0 <= p < placed.len() && (#[trigger] placed[p]).0 == all[f].0;
            let i = choose|i: int| 0 <= i < all.len() && used[i] && all[i] == placed[p];
            if i < f {
                assert(all[i].0 != all[f].0);
            } else if f < i {
                assert(all[f].0 != all[i].0);
            }
        }
    }
    assert forall|i: int, j: int| 0 <= i < j < after.len() implies (#[trigger] after[i]).0 != (
    #[trigger] after[j]).0 by {
        if j < placed.len() {
            assert(after[i] == placed[i] && after[j] == placed[j]);
        } else {
            assert(after[i] == placed[i]);
        }
    }
    assert forall|k: int, m: int|
        0 <= k < after.len() && 0 <= m < after[k].1.len() implies !names(
        all,
        #[trigger] after[k].1[m],
    ) || names(after, after[k].1[m]) by {
        if k < placed.len() {
            assert(after[k] == placed[k]);
        }
    }
    assert forall|i: int, k: int|
        0 <= i < after.len() && 0 <= k < after[i].1.len() && names(
            after,
            #[trigger] after[i].1[k],
        ) implies names(after.take(i), after[i].1[k]) by {
        let d = after[i].1[k];
        let p = choose|p: int| 0 <= p < after.len() && (#[trigger] after[p]).0 == d;
        if i < placed.len() {
            assert(after[i] == placed[i]);
            assert(after.take(i) == placed.take(i));
            if p == placed.len() {
                assert(all[f].0 == d);
                assert(names(all, d));
            } else {
                assert(placed[p].0 == d);
            }
            assert(names(placed, d));
        } else {
            assert(after.take(i) == placed);
            if p < placed.len() {
                assert(placed[p].0 == d);
            } else {
                assert(d == all[f].0);
                assert(names(all, d));
            }
            assert(names(placed, d));
        }
    }
    assert forall|i: int| 0 <= i < all.len() && #[trigger] used1[i] implies after.contains(all[i]) by {
        if i == f {
            assert(after[placed.len() as int] == all[i]);
        } else {
            assert(used[i]);
            let k = choose|k: int| 0 <= k < placed.len() && placed[k] == all[i];
            assert(after[k] == all[i]);
        }
    }
    assert forall|k: int| 0 <= k < after.len() implies exists|i: int|
        0 <= i < all.len() && used1[i] && all[i] == #[trigger] after[k] by {
        if k < placed.len() {
            assert(after[k] == placed[k]);
            let i = choose|i: int| 0 <= i < all.len() && used[i] && all[i] == placed[k];
            assert(used1[i]);
        } else {
            assert(used1[f]);
        }
    }
}

impl ChangeStore for Table {
    type Error = ChangeNotFound;

    open spec fn deps(&self, h: changes::Hash) -> Seq<changes::Hash> {
        if layered(self@) && self.has(h) {
            self@[place(self@, h)].1
        } else {
            Seq::empty()
        }
    }

    open spec fn holds(&self, h: changes::Hash) -> bool {
        layered(self@) && self.has(h)
    }

    open spec fn rank(&self, h: changes::Hash) -> nat {
        if self.has(h) {
            (place(self@, h) + 1) as nat
        } else {
            0
        }
    }

    proof fn deps_descend(&self, h: changes::Hash, i: int) {
        let list = self@;
        let p = place(list, h);
        let d = list[p].1[i];
        if names(list, d) {
            assert(names(list.take(p), d));
            let q = choose|q: int| 0 <= q < list.take(p).len() && (#[trigger] list.take(p)[q]).0 == d;
            assert(list[q].0 == d);
            let pd = place(list, d);
            if pd != q {
                if pd < q {
                    assert(list[pd].0 != list[q].0);
                } else {
                    assert(list[q].0 != list[pd].0);
                }
            }
        }
    }

    fn get_dependencies(&self, h: &changes::Hash) -> (res: Result<Vec<changes::Hash>, ChangeNotFound>)
        ensures
            res is Ok <==> self.has(*h),
            res matches Err(e) ==> e == ChangeNotFound(*h),
    {
        proof {
            use_type_invariant(self);
        }
        match find_row(&self.rows, *h) {
            Some(i) => {
                proof {
                    let list = self@;
                    assert(list[i as int].0 == *h);
                    let p = place(list, *h);
                    if p != i {
                        if p < i {
                            assert(list[p].0 != list[i as int].0);
                        } else {
                            assert(list[i as int].0 != list[p].0);
                        }
                    }
                }
                Ok(copy_hashes(&self.rows[i].1))
            },
            None => Err(ChangeNotFound(*h)),
        }
    }
}


/// The change `h` has a row, or waits for one.
pub open spec fn asked(
    rows: Seq<(changes::Hash, Seq<changes::Hash>)>,
    todo: Seq<changes::Hash>,
    h: changes::Hash,
) -> bool {
    names(rows, h) || todo.contains(h)
}

/// What holds while rows are gathered for the completion of the selection
/// `now`: no change has two rows; each change of `now`, and each dependency
/// of a row that counts and is not selected, has a row or waits for one.
pub open spec fn gathering(
    rows: Seq<(changes::Hash, Seq<changes::Hash>)>,
    todo: Seq<changes::Hash>,
    original: Option<Seq<changes::CS>>,
    now: Seq<changes::CS>,
) -> bool {
    &&& forall|i: int, j: int|
        0 <= i < j < rows.len() ==> (#[trigger] rows[i]).0 != (#[trigger] rows[j]).0
    &&& forall|i: int|
        0 <= i < now.len() ==> (#[trigger] now[i] matches changes::CS::Change(h) ==> asked(
            rows,
            todo,
            h,
        ))
    &&& forall|i: int, k: int|
        0 <= i < rows.len() && 0 <= k < rows[i].1.len() && changes::wanted(
            original,
            #[trigger] rows[i].1[k],
        ) && !now.contains(changes::CS::Change(rows[i].1[k])) ==> asked(rows, todo, rows[i].1[k])
}

pub open spec fn opt_view(original: Option<Vec<changes::CS>>) -> Option<Seq<changes::CS>> {
    match original {
        Some(o) => Some(o@),
        None => None,
    }
}

/// The rows that the completion of a selection asks of a store, as far as
/// they are read, and the changes whose rows are still to be read. The store
/// is read outside: `next` tells for which change, `feed` takes what was
/// read, and `complete` completes the selection when all is read.
pub struct Gather {
    original: Option<Vec<changes::CS>>,
    now: Vec<changes::CS>,
    rows: Vec<(changes::Hash, Vec<changes::Hash>)>,
    todo: Vec<changes::Hash>,
}

/// Why a selection is not completed from what was gathered.
#[derive(Debug, Clone, Copy, PartialEq, Eq, Structural)]
pub enum GatherError {
    /// The dependencies of some change are still to be read.
    Unfinished(changes::Hash),
    /// Changes depend on each other in a circle.
    Circular,
}

fn has_row(rows: &Vec<(changes::Hash, Vec<changes::Hash>)>, h: changes::Hash) -> (res: bool)
    ensures
        res == names(plain(rows@), h),
{
    match find_row(rows, h) {
        Some(i) => {
            assert(plain(rows@)[i as int].0 == h);
            true
        },
        None => false,
    }
}

proof fn lemma_asked_after_pop(
    rows: Seq<(changes::Hash, Seq<changes::Hash>)>,
    todo: Seq<changes::Hash>,
    x: changes::Hash,
)
    requires
        todo.len() > 0,
        asked(rows, todo, x),
        x != todo.last() || names(rows, x),
    ensures
        asked(rows, todo.drop_last(), x),
{
    if !names(rows, x) {
        let p = choose|p: int| 0 <= p < todo.len() && todo[p] == x;
        assert(todo.drop_last()[p] == x);
    }
}

proof fn lemma_asked_after_push(
    rows: Seq<(changes::Hash, Seq<changes::Hash>)>,
    todo: Seq<changes::Hash>,
    d: changes::Hash,
)
    ensures
        asked(rows, todo.push(d), d),
        forall|x: changes::Hash| asked(rows, todo, x) ==> asked(rows, todo.push(d), x),
{
    assert(todo.push(d)[todo.len() as int] == d);
    assert forall|x: changes::Hash| asked(rows, todo, x) implies asked(rows, todo.push(d), x) by {
        if !names(rows, x) {
            let p = choose|p: int| 0 <= p < todo.len() && todo[p] == x;
            assert(todo.push(d)[p] == x);
        }
    }
}

impl Gather {
    #[verifier::type_invariant]
    spec fn inv(&self) -> bool {
        gathering(plain(self.rows@), self.todo@, opt_view(self.original), self.now@)
    }

    /// The rows that are read.
    pub closed spec fn rows(&self) -> Seq<(changes::Hash, Seq<changes::Hash>)> {
        plain(self.rows@)
    }

    /// The changes that wait for their rows, the next one last.
    pub closed spec fn todo(&self) -> Seq<changes::Hash> {
        self.todo@
    }

    /// The selection that is to be completed.
    pub closed spec fn selection(&self) -> Seq<changes::CS> {
        self.now@
    }

    /// The list out of which the selection was made, if there is one.
    pub closed spec fn offered(&self) -> Option<Seq<changes::CS>> {
        opt_view(self.original)
    }

    /// Begins to gather for the completion of the selection `now` out of
    /// the list `original`, if there is one: the changes of `now` are to be
    /// read first.
    pub fn new(original: Option<&[changes::CS]>, now: &[changes::CS]) -> (g: Gather)
        ensures
            g.rows().len() == 0,
            g.selection() == now@,
            g.offered() == changes::offered(original),
    {
        let mut todo: Vec<changes::Hash> = Vec::new();
        let mut i: usize = 0;
        while i < now.len()
            invariant
                0 <= i <= now@.len(),
                forall|k: int|
                    0 <= k < i ==> (#[trigger] now@[k] matches changes::CS::Change(h)
                        ==> todo@.contains(h)),
            decreases now@.len() - i,
        {
            if let changes::CS::Change(h) = now[i] {
                let ghost before = todo@;
                todo.push(h);
                proof {
                    assert(todo@[before.len() as int] == h);
                    assert forall|k: int| 0 <= k < i implies (#[trigger] now@[k] matches changes::CS::Change(
                        x,
                    ) ==> todo@.contains(x)) by {
                        if let changes::CS::Change(x) = now@[k] {
                            let p = choose|p: int| 0 <= p < before.len() && before[p] == x;
                            assert(todo@[p] == x);
                        }
                    }
                }
            }
            i = i + 1;
        }
        let original = match original {
            Some(o) => Some(vstd::slice::slice_to_vec(o)),
            None => None,
        };
        Gather { original, now: vstd::slice::slice_to_vec(now), rows: Vec::new(), todo }
    }

    /// Tells for which change the store is to be read next, if for any.
    pub fn next(self) -> (res: (Gather, Option<changes::Hash>))
        ensures
            res.0.rows() == self.rows(),
            res.0.selection() == self.selection(),
            res.0.offered() == self.offered(),
            match res.1 {
                Some(h) => !names(res.0.rows(), h) && self.todo().contains(h),
                None => forall|i: int|
                    0 <= i < self.todo().len() ==> names(self.rows(), #[trigger] self.todo()[i]),
            },
    {
        proof {
            use_type_invariant(&self);
        }
        let ghost todo0 = self.todo@;
        let ghost rows = plain(self.rows@);
        let original = self.original;
        let now = self.now;
        let rows_vec = self.rows;
        let mut todo = self.todo;
        let mut found: Option<changes::Hash> = None;
        assert(todo0.take(todo0.len() as int) == todo0);
        while todo.len() > 0 && found.is_none()
            invariant
                rows == plain(rows_vec@),
                gathering(rows, todo@, opt_view(original), now@),
                todo@.len() <= todo0.len(),
                todo@ == todo0.take(todo@.len() as int),
                forall|i: int| todo@.len() <= i < todo0.len() ==> names(rows, #[trigger] todo0[i]),
                found matches Some(h) ==> !names(rows, h) && todo@.len() > 0 && todo@.last() == h,
            decreases todo@.len() + (if found is None { 1int } else { 0int }),
        {
            let top = todo[todo.len() - 1];
            if !has_row(&rows_vec, top) {
                found = Some(top);
            } else {
                let ghost before = todo@;
                todo.pop();
                proof {
                    assert(todo@ == before.drop_last());
                    assert forall|x: changes::Hash| asked(rows, before, x) implies asked(
                        rows,
                        todo@,
                        x,
                    ) by {
                        lemma_asked_after_pop(rows, before, x);
                    }
                    assert(todo0.take(before.len() as int)[before.len() - 1] == before.last());
                    assert(todo@ == todo0.take(todo@.len() as int));
                }
            }
        }
        proof {
            if let Some(h) = found {
                assert(todo0.take(todo@.len() as int)[todo@.len() - 1] == todo@.last());
                assert(todo0[todo@.len() - 1] == h);
            }
        }
        (Gather { original, now, rows: rows_vec, todo }, found)
    }

    /// Takes the dependencies that were read for a change. They are not
    /// taken twice for one change.
    pub fn feed(self, h: changes::Hash, deps: Vec<changes::Hash>) -> (res: Gather)
        ensures
            res.rows() == (if names(self.rows(), h) {
                self.rows()
            } else {
                self.rows().push((h, deps@))
            }),
            res.selection() == self.selection(),
            res.offered() == self.offered(),
    {
        proof {
            use_type_invariant(&self);
        }
        if has_row(&self.rows, h) {
            return self;
        }
        let ghost rows0 = plain(self.rows@);
        let ghost todo0 = self.todo@;
        let ghost orig = opt_view(self.original);
        let original = self.original;
        let now = self.now;
        let mut rows = self.rows;
        let mut todo = self.todo;
        let mut k: usize = 0;
        while k < deps.len()
            invariant
                0 <= k <= deps@.len(),
                rows0 == plain(rows@),
                orig == opt_view(original),
                forall|x: changes::Hash| asked(rows0, todo0, x) ==> asked(rows0, todo@, x),
                forall|m: int|
                    0 <= m < k && changes::wanted(orig, #[trigger] deps@[m]) && !now@.contains(
                        changes::CS::Change(deps@[m]),
                    ) ==> asked(rows0, todo@, deps@[m]),
            decreases deps@.len() - k,
        {
            let d = deps[k];
            let counted = match &original {
                Some(o) => changes::contains_cs(o.as_slice(), changes::CS::Change(d)),
                None => true,
            };
            if counted && !changes::contains_cs(now.as_slice(), changes::CS::Change(d)) && !has_row(
                &rows,
                d,
            ) {
                proof {
                    lemma_asked_after_push(rows0, todo@, d);
                }
                todo.push(d);
            }
            k = k + 1;
        }
        let ghost deps_view = deps@;
        rows.push((h, deps));
        proof {
            let rows1 = plain(rows@);
            let todo1 = todo@;
            assert(rows1 == rows0.push((h, deps_view)));
            assert(rows1[rows0.len() as int].0 == h);
            assert forall|x: changes::Hash| names(rows0, x) implies names(rows1, x) by {
                let p = choose|p: int| 0 <= p < rows0.len() && (#[trigger] rows0[p]).0 == x;
                assert(rows1[p].0 == x);
            }
            assert forall|i: int, j: int| 0 <= i < j < rows1.len() implies (#[trigger] rows1[i]).0 != (
            #[trigger] rows1[j]).0 by {
                if j < rows0.len() {
                    assert(rows1[i] == rows0[i] && rows1[j] == rows0[j]);
                } else {
                    assert(rows1[i] == rows0[i]);
                }
            }
            assert forall|i: int, m: int|
                0 <= i < rows1.len() && 0 <= m < rows1[i].1.len() && changes::wanted(
                    orig,
                    #[trigger] rows1[i].1[m],
                ) && !now@.contains(changes::CS::Change(rows1[i].1[m])) implies asked(
                rows1,
                todo1,
                rows1[i].1[m],
            ) by {
                if i < rows0.len() {
                    assert(rows1[i] == rows0[i]);
                    assert(asked(rows0, todo0, rows0[i].1[m]));
                }
            }
            assert forall|i: int| 0 <= i < now@.len() implies (#[trigger] now@[i] matches changes::CS::Change(
                x,
            ) ==> asked(rows1, todo1, x)) by {
                if let changes::CS::Change(x) = now@[i] {
                    assert(asked(rows0, todo0, x));
                }
            }
        }
        Gather { original, now, rows, todo }
    }

    /// Completes the selection from the rows that were gathered, and tells
    /// whether the selection was complete as it stood: it was where the
    /// completion has as many entries. The rows must all be there, and they
    /// must make a table.
    pub fn complete(self) -> (res: Result<(Table, Vec<changes::CS>, bool), GatherError>)
        ensures
            match res {
                Ok((t, list, was_complete)) => {
                    &&& was_complete == (list@.len() == self.selection().len())
                    &&& layered(t@)
                    &&& forall|i: int| 0 <= i < self.rows().len() ==> t@.contains(#[trigger] self.rows()[i])
                    &&& forall|i: int| 0 <= i < t@.len() ==> self.rows().contains(#[trigger] t@[i])
                    &&& changes::is_completion(&t, self.offered(), self.selection(), list@)
                },
                Err(GatherError::Unfinished(h)) => self.todo().contains(h) && !names(self.rows(), h),
                Err(GatherError::Circular) => exists|set: Set<int>| circular(self.rows(), set),
            },
            res is Ok <==> (forall|i: int|
                0 <= i < self.todo().len() ==> names(self.rows(), #[trigger] self.todo()[i])) && !(
            exists|set: Set<int>| circular(self.rows(), set)),
    {
        proof {
            use_type_invariant(&self);
        }
        let ghost rows0 = plain(self.rows@);
        let ghost todo0 = self.todo@;
        let ghost orig = opt_view(self.original);
        let mut i: usize = 0;
        while i < self.todo.len()
            invariant
                0 <= i <= self.todo@.len(),
                rows0 == plain(self.rows@),
                todo0 == self.todo@,
                orig == opt_view(self.original),
                gathering(rows0, todo0, orig, self.now@),
                forall|k: int| 0 <= k < i ==> names(rows0, #[trigger] todo0[k]),
            decreases self.todo@.len() - i,
        {
            if !has_row(&self.rows, self.todo[i]) {
                assert(!names(self.rows(), self.todo()[i as int]));
                return Err(GatherError::Unfinished(self.todo[i]));
            }
            i = i + 1;
        }
        let original = self.original;
        let now = self.now;
        proof {
            assert forall|x: changes::Hash| asked(rows0, todo0, x) implies asked(
                rows0,
                Seq::empty(),
                x,
            ) by {
                if !names(rows0, x) {
                    let p = choose|p: int| 0 <= p < todo0.len() && todo0[p] == x;
                    assert(names(rows0, todo0[p]));
                }
            }
            assert(gathering(rows0, Seq::empty(), orig, now@));
        }
        let ghost given = self.rows@;
        let table = match Table::build(self.rows) {
            Ok(t) => t,
            Err(TableError::Circular) => {
                proof {
                    assert(plain(given) == rows0);
                    let set = choose|set: Set<int>| circular(plain(given), set);
                    assert(circular(self.rows(), set));
                }
                return Err(GatherError::Circular);
            },
            Err(TableError::Duplicate(h)) => {
                proof {
                    let (a, b) = choose|a: int, b: int|
                        0 <= a < b < given.len() && (#[trigger] given[a]).0 == h && (
                        #[trigger] given[b]).0 == h;
                    assert(rows0[a].0 == h && rows0[b].0 == h);
                    assert(rows0[a].0 != rows0[b].0);
                }
                return Err(GatherError::Circular);
            },
        };
        proof {
            lemma_gathered_covers(&table, rows0, orig, now@);
            lemma_layered_not_circular(table@, rows0);
        }
        let original_slice = match &original {
            Some(o) => Some(o.as_slice()),
            None => None,
        };
        match changes::complete_deps(&table, original_slice, now.as_slice()) {
            Ok(list) => {
                let was_complete = list.len() == now.len();
                Ok((table, list, was_complete))
            },
            // the table has a row for each change that the completion asks for
            Err(e) => Err(GatherError::Unfinished(e.0)),
        }
    }
}

/// A row of a circle depends on a row of the circle.
proof fn lemma_circle_step(
    given: Seq<(changes::Hash, Seq<changes::Hash>)>,
    set: Set<int>,
    i: int,
) -> (next: (int, int))
    requires
        circular(given, set),
        set.contains(i),
    ensures
        set.contains(next.1),
        leads(given, i, next.0, next.1),
{
    reveal(circular);
    choose|k: int, j: int| set.contains(j) && #[trigger] leads(given, i, k, j)
}

proof fn lemma_circle_has_row(given: Seq<(changes::Hash, Seq<changes::Hash>)>, set: Set<int>) -> (i: int)
    requires
        circular(given, set),
    ensures
        set.contains(i),
{
    reveal(circular);
    choose|i: int| set.contains(i)
}

/// The place of a row in an order in which it stands.
spec fn place_in(
    list: Seq<(changes::Hash, Seq<changes::Hash>)>,
    row: (changes::Hash, Seq<changes::Hash>),
) -> int {
    choose|p: int| 0 <= p < list.len() && list[p] == row
}

/// Rows that can be put in order do not depend on each other in a circle.
pub proof fn lemma_layered_not_circular(
    list: Seq<(changes::Hash, Seq<changes::Hash>)>,
    given: Seq<(changes::Hash, Seq<changes::Hash>)>,
)
    requires
        layered(list),
        forall|i: int| 0 <= i < given.len() ==> list.contains(#[trigger] given[i]),
    ensures
        !(exists|set: Set<int>| circular(given, set)),
{
    assert forall|set: Set<int>| !circular(given, set) by {
        if circular(given, set) {
            let i0 = lemma_circle_has_row(given, set);
            let step = lemma_circle_step(given, set, i0);
            assert(list.contains(given[i0]));
            lemma_descend(list, given, set, i0, place_in(list, given[i0]) + 1);
        }
    }
}

/// From a row of a circle one would come to rows ever earlier in the order:
/// so there is no circle through a row that is in the order.
proof fn lemma_descend(
    list: Seq<(changes::Hash, Seq<changes::Hash>)>,
    given: Seq<(changes::Hash, Seq<changes::Hash>)>,
    set: Set<int>,
    i: int,
    bound: int,
)
    requires
        layered(list),
        forall|i: int| 0 <= i < given.len() ==> list.contains(#[trigger] given[i]),
        set.contains(i),
        0 <= i < given.len(),
        0 <= place_in(list, given[i]) < bound,
    ensures
        !circular(given, set),
    decreases bound,
{
    if circular(given, set) {
        let step = lemma_circle_step(given, set, i);
        let k = step.0;
        let j = step.1;
        let p = place_in(list, given[i]);
        assert(list.contains(given[i]));
        assert(list[p] == given[i]);
        let d = given[i].1[k];
        assert(list.contains(given[j]));
        let q = place_in(list, given[j]);
        assert(list[q] == given[j]);
        lemma_dependency_earlier(list, p, k, q);
        lemma_descend(list, given, set, j, p);
    }
}

/// In an order, the row of a dependency stands before the row that has the
/// dependency.
proof fn lemma_dependency_earlier(
    list: Seq<(changes::Hash, Seq<changes::Hash>)>,
    p: int,
    k: int,
    q: int,
)
    requires
        layered(list),
        0 <= p < list.len(),
        0 <= k < list[p].1.len(),
        0 <= q < list.len(),
        list[q].0 == list[p].1[k],
    ensures
        q < p,
{
    let d = list[p].1[k];
    assert(names(list, d));
    assert(names(list.take(p), d));
    let r = choose|r: int| 0 <= r < list.take(p).len() && (#[trigger] list.take(p)[r]).0 == d;
    assert(list[r].0 == d);
    if r != q {
        if r < q {
            assert(list[r].0 != list[q].0);
        } else {
            assert(list[q].0 != list[r].0);
        }
    }
}

/// A table that is made of all the rows that were gathered for the
/// completion of a selection can answer for all that the completion asks.
pub proof fn lemma_gathered_covers(
    t: &Table,
    given: Seq<(changes::Hash, Seq<changes::Hash>)>,
    original: Option<Seq<changes::CS>>,
    now: Seq<changes::CS>,
)
    requires
        layered(t@),
        forall|i: int| 0 <= i < given.len() ==> t@.contains(#[trigger] given[i]),
        forall|i: int| 0 <= i < t@.len() ==> given.contains(#[trigger] t@[i]),
        gathering(given, Seq::empty(), original, now),
    ensures
        changes::store_covers(t, original, now),
{
    let set = Set::new(|h: changes::Hash| t.has(h));
    let list = t@;
    assert forall|h: changes::Hash| names(given, h) implies names(list, h) by {
        let i = choose|i: int| 0 <= i < given.len() && (#[trigger] given[i]).0 == h;
        assert(list.contains(given[i]));
        let p = choose|p: int| 0 <= p < list.len() && list[p] == given[i];
        assert(list[p].0 == h);
    }
    assert forall|h: changes::Hash| #![trigger set.contains(h)] set.contains(h) implies t.holds(h)
        && forall|i: int|
        0 <= i < t.deps(h).len() && changes::wanted(original, #[trigger] t.deps(h)[i])
            && !now.contains(changes::CS::Change(t.deps(h)[i])) ==> set.contains(t.deps(h)[i]) by {
        let p = place(list, h);
        assert(given.contains(list[p]));
        let g = choose|g: int| 0 <= g < given.len() && given[g] == list[p];
        assert forall|i: int|
            0 <= i < t.deps(h).len() && changes::wanted(original, #[trigger] t.deps(h)[i])
                && !now.contains(changes::CS::Change(t.deps(h)[i])) implies set.contains(
            t.deps(h)[i],
        ) by {
            let d = given[g].1[i];
            assert(asked(given, Seq::empty(), d));
            assert(names(given, d));
        }
    }
    assert(changes::closed(t, original, now, set));
    assert forall|i: int| 0 <= i < now.len() implies (#[trigger] now[i] matches changes::CS::Change(h)
        ==> set.contains(h)) by {
        if let changes::CS::Change(h) = now[i] {
            assert(asked(given, Seq::empty(), h));
            assert(names(given, h));
        }
    }
    assert(changes::changes_within(now, set));
}

} // verus!
