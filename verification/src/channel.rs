//! The log of a channel: the changes that are applied to it, in the order in
//! which they were applied. A change is applied after the changes it depends
//! on, and unapplied before them.

use crate::changes;
use crate::changes::ChangeStore;
use vstd::prelude::*;

verus! {

/// The changes applied to a channel. The ordinal of a change is its place
/// in the log.
#[derive(Debug)]
pub struct ChangeLog {
    pub changes: Vec<changes::Hash>,
}

/// The place of a change in a log that holds it.
pub open spec fn ordinal_of(log: Seq<changes::Hash>, h: changes::Hash) -> int {
    choose|i: int| 0 <= i < log.len() && log[i] == h
}

/// No change is applied twice, and each is applied after the changes it
/// depends on.
pub open spec fn log_wf<C: ChangeStore>(log: Seq<changes::Hash>, c: &C) -> bool {
    &&& log.no_duplicates()
    &&& forall|i: int, k: int|
        0 <= i < log.len() && 0 <= k < c.deps(log[i]).len() ==> log.take(i).contains(
            #[trigger] c.deps(log[i])[k],
        )
}

/// The `k`-th dependency of `h` is the first that is not applied.
pub open spec fn first_missing<C: ChangeStore>(
    log: Seq<changes::Hash>,
    c: &C,
    h: changes::Hash,
    k: int,
) -> bool {
    &&& 0 <= k < c.deps(h).len()
    &&& !log.contains(c.deps(h)[k])
    &&& forall|j: int| 0 <= j < k ==> log.contains(#[trigger] c.deps(h)[j])
}

/// All that `h` depends on is applied.
pub open spec fn dependencies_applied<C: ChangeStore>(
    log: Seq<changes::Hash>,
    c: &C,
    h: changes::Hash,
) -> bool {
    forall|k: int| 0 <= k < c.deps(h).len() ==> log.contains(#[trigger] c.deps(h)[k])
}

/// The change at `j` depends on `h`.
pub open spec fn depends_at<C: ChangeStore>(
    log: Seq<changes::Hash>,
    c: &C,
    h: changes::Hash,
    j: int,
) -> bool {
    0 <= j < log.len() && c.deps(log[j]).contains(h)
}

/// Why a change is not applied.
#[derive(Debug)]
pub enum ApplyError<E> {
    /// The change is applied already.
    AlreadyApplied,
    /// The change depends on one that is not applied.
    MissingDependency(changes::Hash),
    /// The store could not give the dependencies of a change.
    Store(E),
}

/// Why a change is not unapplied.
#[derive(Debug)]
pub enum UnapplyError<E> {
    /// The change is not applied.
    NotApplied,
    /// A change that is applied depends on the change.
    DependedUpon(changes::Hash),
    /// The store could not give the dependencies of a change.
    Store(E),
}

fn contains_hash(list: &Vec<changes::Hash>, h: changes::Hash) -> (res: bool)
    ensures
        res == list@.contains(h),
{
    let mut i: usize = 0;
    while i < list.len()
        invariant
            0 <= i <= list@.len(),
            forall|k: int| 0 <= k < i ==> list@[k] != h,
        decreases list@.len() - i,
    {
        if list[i] == h {
            return true;
        }
        i = i + 1;
    }
    false
}

impl ChangeLog {
    pub open spec fn wf<C: ChangeStore>(&self, c: &C) -> bool {
        log_wf(self.changes@, c)
    }

    pub fn new() -> (res: ChangeLog)
        ensures
            res.changes@.len() == 0,
    {
        ChangeLog { changes: Vec::new() }
    }

    /// The number of changes applied, which is the ordinal of the next one.
    pub fn len(&self) -> (n: usize)
        ensures
            n == self.changes@.len(),
    {
        self.changes.len()
    }

    /// The ordinal of a change.
    pub fn ordinal(&self, h: changes::Hash) -> (res: Option<usize>)
        ensures
            match res {
                Some(i) => i < self.changes@.len() && self.changes@[i as int] == h && forall|k: int|
                    0 <= k < i ==> self.changes@[k] != h,
                None => !self.changes@.contains(h),
            },
    {
        let mut i: usize = 0;
        while i < self.changes.len()
            invariant
                0 <= i <= self.changes@.len(),
                forall|k: int| 0 <= k < i ==> self.changes@[k] != h,
            decreases self.changes@.len() - i,
        {
            if self.changes[i] == h {
                return Some(i);
            }
            i = i + 1;
        }
        None
    }

    /// Applies a change: it goes to the end of the log, with the next
    /// ordinal, which is returned. A change that is applied already, or that
    /// depends on a change that is not applied, is refused, and the log stays
    /// as it is: the first dependency that is missing is reported.
    pub fn apply<C: ChangeStore>(&mut self, c: &C, h: changes::Hash) -> (res: Result<
        usize,
        ApplyError<C::Error>,
    >)
        requires
            old(self).wf(c),
        ensures
            final(self).wf(c),
            match res {
                Ok(n) => {
                    &&& !old(self).changes@.contains(h)
                    &&& dependencies_applied(old(self).changes@, c, h)
                    &&& n == old(self).changes@.len()
                    &&& final(self).changes@ == old(self).changes@.push(h)
                },
                Err(e) => {
                    &&& final(self).changes@ == old(self).changes@
                    &&& e matches ApplyError::AlreadyApplied ==> old(self).changes@.contains(h)
                    &&& e matches ApplyError::MissingDependency(d) ==> !old(self).changes@.contains(
                        h,
                    ) && exists|k: int|
                        first_missing(old(self).changes@, c, h, k) && c.deps(h)[k] == d
                    &&& e matches ApplyError::Store(_) ==> !c.holds(h)
                },
            },
            old(self).changes@.contains(h) ==> res matches Err(ApplyError::AlreadyApplied),
    {
        if contains_hash(&self.changes, h) {
            return Err(ApplyError::AlreadyApplied);
        }
        let deps = match c.get_dependencies(&h) {
            Ok(deps) => deps,
            Err(e) => {
                return Err(ApplyError::Store(e));
            },
        };
        let mut k: usize = 0;
        while k < deps.len()
            invariant
                0 <= k <= deps@.len(),
                deps@ == c.deps(h),
                self.changes@ == old(self).changes@,
                log_wf(self.changes@, c),
                !self.changes@.contains(h),
                forall|j: int| 0 <= j < k ==> self.changes@.contains(#[trigger] c.deps(h)[j]),
            decreases deps@.len() - k,
        {
            if !contains_hash(&self.changes, deps[k]) {
                assert(first_missing(self.changes@, c, h, k as int));
                return Err(ApplyError::MissingDependency(deps[k]));
            }
            k = k + 1;
        }
        let n = self.changes.len();
        self.changes.push(h);
        proof {
            lemma_push_wf(old(self).changes@, c, h);
        }
        Ok(n)
    }

    /// Unapplies a change: it leaves the log, and the changes after it move
    /// up. A change that is not applied, or on which a change depends that is
    /// applied, is not unapplied, and the log stays as it is.
    pub fn unapply<C: ChangeStore>(&mut self, c: &C, h: changes::Hash) -> (res: Result<
        (),
        UnapplyError<C::Error>,
    >)
        requires
            old(self).wf(c),
        ensures
            final(self).wf(c),
            match res {
                Ok(()) => {
                    &&& old(self).changes@.contains(h)
                    &&& forall|j: int| !depends_at(old(self).changes@, c, h, j)
                    &&& final(self).changes@ == old(self).changes@.remove(
                        ordinal_of(old(self).changes@, h),
                    )
                },
                Err(e) => {
                    &&& final(self).changes@ == old(self).changes@
                    &&& e matches UnapplyError::NotApplied ==> !old(self).changes@.contains(h)
                    &&& e matches UnapplyError::DependedUpon(by) ==> exists|j: int|
                        depends_at(old(self).changes@, c, h, j) && old(self).changes@[j] == by
                    &&& e matches UnapplyError::Store(_) ==> exists|j: int|
                        0 <= j < old(self).changes@.len() && !c.holds(
                            #[trigger] old(self).changes@[j],
                        )
                },
            },
            !old(self).changes@.contains(h) ==> res matches Err(UnapplyError::NotApplied),
    {
        let i = match self.ordinal(h) {
            Some(i) => i,
            None => {
                return Err(UnapplyError::NotApplied);
            },
        };
        let ghost log = self.changes@;
        proof {
            lemma_ordinal(log, i as int);
        }
        assert(i < self.changes.len());
        let mut j: usize = i + 1;
        while j < self.changes.len()
            invariant
                i < j <= self.changes@.len(),
                self.changes@ == log,
                log == old(self).changes@,
                log_wf(log, c),
                log[i as int] == h,
                ordinal_of(log, h) == i,
                forall|m: int| i < m < j ==> !depends_at(log, c, h, m),
            decreases self.changes@.len() - j,
        {
            let later = self.changes[j];
            let deps = match c.get_dependencies(&later) {
                Ok(deps) => deps,
                Err(e) => {
                    assert(!c.holds(log[j as int]));
                    return Err(UnapplyError::Store(e));
                },
            };
            if contains_hash(&deps, h) {
                assert(depends_at(log, c, h, j as int));
                return Err(UnapplyError::DependedUpon(later));
            }
            j = j + 1;
        }
        self.changes.remove(i);
        proof {
            assert forall|m: int| !depends_at(log, c, h, m) by {
                if 0 <= m <= i && depends_at(log, c, h, m) {
                    let k = choose|k: int| 0 <= k < c.deps(log[m]).len() && c.deps(log[m])[k] == h;
                    assert(log.take(m).contains(c.deps(log[m])[k]));
                    let q = choose|q: int| 0 <= q < log.take(m).len() && log.take(m)[q] == h;
                    assert(log[q] == h);
                    assert(q != i);
                }
            }
            lemma_remove_wf(log, c, i as int);
        }
        Ok(())
    }
}

/// In a log without duplicates a change has one place.
pub proof fn lemma_ordinal(log: Seq<changes::Hash>, i: int)
    requires
        log.no_duplicates(),
        0 <= i < log.len(),
    ensures
        ordinal_of(log, log[i]) == i,
{
    let p = ordinal_of(log, log[i]);
    if p != i {
        assert(log[p] == log[i]);
    }
}

/// A log stays in order when a change goes to its end whose dependencies
/// are applied.
pub proof fn lemma_push_wf<C: ChangeStore>(log: Seq<changes::Hash>, c: &C, h: changes::Hash)
    requires
        log_wf(log, c),
        !log.contains(h),
        dependencies_applied(log, c, h),
    ensures
        log_wf(log.push(h), c),
{
    let after = log.push(h);
    assert forall|i: int, j: int| 0 <= i < after.len() && 0 <= j < after.len() && i != j implies after[i]
        != after[j] by {
        if i < log.len() && j < log.len() {
            assert(log[i] != log[j]);
        } else if i < log.len() {
            assert(log.contains(log[i]));
        } else if j < log.len() {
            assert(log.contains(log[j]));
        }
    }
    assert forall|i: int, k: int| 0 <= i < after.len() && 0 <= k < c.deps(after[i]).len() implies after.take(
        i,
    ).contains(#[trigger] c.deps(after[i])[k]) by {
        if i < log.len() {
            assert(after[i] == log[i]);
            assert(after.take(i) == log.take(i));
        } else {
            assert(after.take(i) == log);
        }
    }
}

/// A log stays in order when a change leaves it on which no other depends.
pub proof fn lemma_remove_wf<C: ChangeStore>(log: Seq<changes::Hash>, c: &C, i: int)
    requires
        log_wf(log, c),
        0 <= i < log.len(),
        forall|j: int| !depends_at(log, c, log[i], j),
    ensures
        log_wf(log.remove(i), c),
{
    let after = log.remove(i);
    assert forall|a: int, b: int| 0 <= a < after.len() && 0 <= b < after.len() && a != b implies after[a]
        != after[b] by {
        let x = if a < i {
            a
        } else {
            a + 1
        };
        let y = if b < i {
            b
        } else {
            b + 1
        };
        assert(log[x] != log[y]);
    }
    assert forall|a: int, k: int| 0 <= a < after.len() && 0 <= k < c.deps(after[a]).len() implies after.take(
        a,
    ).contains(#[trigger] c.deps(after[a])[k]) by {
        let x = if a < i {
            a
        } else {
            a + 1
        };
        assert(after[a] == log[x]);
        let d = c.deps(log[x])[k];
        assert(log.take(x).contains(d));
        let q = choose|q: int| 0 <= q < log.take(x).len() && log.take(x)[q] == d;
        assert(log[q] == d);
        assert(!depends_at(log, c, log[i], x));
        assert(d != log[i]);
        let q1 = if q < i {
            q
        } else {
            q - 1
        };
        assert(after[q1] == d);
        assert(after.take(a)[q1] == d);
    }
}

/// A change that was applied last can be unapplied, and the log is then what
/// it was before the change was applied.
pub proof fn lemma_unapply_undoes_apply<C: ChangeStore>(
    log: Seq<changes::Hash>,
    c: &C,
    h: changes::Hash,
)
    requires
        log_wf(log, c),
        !log.contains(h),
        dependencies_applied(log, c, h),
    ensures
        log_wf(log.push(h), c),
        log.push(h).contains(h),
        forall|j: int| !depends_at(log.push(h), c, h, j),
        log.push(h).remove(ordinal_of(log.push(h), h)) == log,
{
    let after = log.push(h);
    lemma_push_wf(log, c, h);
    assert(after[log.len() as int] == h);
    lemma_ordinal(after, log.len() as int);
    assert(after.remove(log.len() as int) == log);
    assert forall|j: int| !depends_at(after, c, h, j) by {
        if depends_at(after, c, h, j) {
            let k = choose|k: int| 0 <= k < c.deps(after[j]).len() && c.deps(after[j])[k] == h;
            assert(after.take(j).contains(c.deps(after[j])[k]));
            let q = choose|q: int| 0 <= q < after.take(j).len() && after.take(j)[q] == h;
            assert(after[q] == h);
            assert(q < log.len());
            assert(log[q] == h);
        }
    }
}

/// Two changes of which neither depends on the other, and which can both be
/// applied to a log, can be applied one after the other in either order, and
/// the same changes are applied after both. (The two logs differ in the
/// order of their last two entries.)
pub proof fn lemma_independent_changes_commute<C: ChangeStore>(
    log: Seq<changes::Hash>,
    c: &C,
    a: changes::Hash,
    b: changes::Hash,
)
    requires
        log_wf(log, c),
        a != b,
        !log.contains(a),
        !log.contains(b),
        dependencies_applied(log, c, a),
        dependencies_applied(log, c, b),
    ensures
        dependencies_applied(log.push(a), c, b),
        dependencies_applied(log.push(b), c, a),
        !log.push(a).contains(b),
        !log.push(b).contains(a),
        log_wf(log.push(a).push(b), c),
        log_wf(log.push(b).push(a), c),
        log.push(a).push(b).to_set() == log.push(b).push(a).to_set(),
{
    let la = log.push(a);
    let lb = log.push(b);
    assert forall|x: changes::Hash| log.contains(x) implies la.contains(x) && lb.contains(x) by {
        let i = choose|i: int| 0 <= i < log.len() && log[i] == x;
        assert(la[i] == x && lb[i] == x);
    }
    assert(!la.contains(b)) by {
        if la.contains(b) {
            let i = choose|i: int| 0 <= i < la.len() && la[i] == b;
            if i < log.len() {
                assert(log[i] == b);
            }
        }
    }
    assert(!lb.contains(a)) by {
        if lb.contains(a) {
            let i = choose|i: int| 0 <= i < lb.len() && lb[i] == a;
            if i < log.len() {
                assert(log[i] == a);
            }
        }
    }
    lemma_push_wf(log, c, a);
    lemma_push_wf(log, c, b);
    lemma_push_wf(la, c, b);
    lemma_push_wf(lb, c, a);
    let ab = la.push(b);
    let ba = lb.push(a);
    assert forall|x: changes::Hash| ab.to_set().contains(x) == ba.to_set().contains(x) by {
        if ab.contains(x) {
            let i = choose|i: int| 0 <= i < ab.len() && ab[i] == x;
            if i < log.len() {
                assert(ba[i] == x);
            } else if i == log.len() {
                assert(ba[log.len() as int + 1] == x);
            } else {
                assert(ba[log.len() as int] == x);
            }
        }
        if ba.contains(x) {
            let i = choose|i: int| 0 <= i < ba.len() && ba[i] == x;
            if i < log.len() {
                assert(ab[i] == x);
            } else if i == log.len() {
                assert(ab[log.len() as int + 1] == x);
            } else {
                assert(ab[log.len() as int] == x);
            }
        }
    }
    assert(ab.to_set() =~= ba.to_set());
}

} // verus!
