//! Changes, states and the dependencies between changes.

use vstd::prelude::*;

verus! {

/// The content address of a change: thirty-two bytes, held as two numbers
/// of sixteen bytes each.
#[derive(Debug, Clone, Copy, PartialEq, Eq, Hash, Structural)]
pub struct Hash(pub u128, pub u128);

/// The hash that sums up the changes applied to a channel up to some point,
/// held like a `Hash`.
#[derive(Debug, Clone, Copy, PartialEq, Eq, Hash, Structural)]
pub struct Merkle(pub u128, pub u128);

/// What is exchanged with a remote: a change, or a tagged state.
#[derive(Debug, Clone, Copy, PartialEq, Eq, Hash, Structural)]
pub enum CS {
    Change(Hash),
    State(Merkle),
}

/// The number under which a repository knows a change.
#[derive(Debug, Clone, Copy, PartialEq, Eq, Hash, Structural)]
pub struct ChangeId(pub u64);

/// A place in what a change has written: the change and an offset in it.
#[derive(Debug, Clone, Copy, PartialEq, Eq, Hash, Structural)]
pub struct Position {
    pub change: ChangeId,
    pub pos: u64,
}

/// Tells whether `x` occurs in `list`.
pub fn contains_cs(list: &[CS], x: CS) -> (res: bool)
    ensures
        res == list@.contains(x),
{
    let mut i: usize = 0;
    while i < list.len()
        invariant
            0 <= i <= list@.len(),
            forall|k: int| 0 <= k < i ==> list@[k] != x,
        decreases list@.len() - i,
    {
        if list[i] == x {
            return true;
        }
        i = i + 1;
    }
    false
}

/// Where the dependencies of changes are looked up.
pub trait ChangeStore {
    type Error;

    /// The changes that `h` depends on directly, as the store has them.
    spec fn deps(&self, h: Hash) -> Seq<Hash>;

    /// The store has the change `h` at hand, so that asking for its
    /// dependencies cannot fail.
    spec fn holds(&self, h: Hash) -> bool;

    /// A number that is smaller for a dependency than for the change that
    /// depends on it: no change depends on itself, directly or not.
    spec fn rank(&self, h: Hash) -> nat;

    proof fn deps_descend(&self, h: Hash, i: int)
        requires
            0 <= i < self.deps(h).len(),
        ensures
            self.rank(self.deps(h)[i]) < self.rank(h),
    ;

    fn get_dependencies(&self, h: &Hash) -> (res: Result<Vec<Hash>, Self::Error>)
        ensures
            self.holds(*h) ==> res is Ok,
            res matches Ok(v) ==> v@ == self.deps(*h),
    ;
}

/// The list that was offered for selection, where there was one.
pub open spec fn offered(original: Option<&[CS]>) -> Option<Seq<CS>> {
    match original {
        Some(o) => Some(o@),
        None => None,
    }
}

/// A dependency counts: with a list that was offered, where it stands in that
/// list; without one, always.
pub open spec fn wanted(original: Option<Seq<CS>>, d: Hash) -> bool {
    match original {
        Some(o) => o.contains(CS::Change(d)),
        None => true,
    }
}

/// The store has each change of `set` at hand, and `set` holds, with each
/// change, the changes it depends on that count and are not selected.
pub open spec fn closed<C: ChangeStore>(
    c: &C,
    original: Option<Seq<CS>>,
    now: Seq<CS>,
    set: Set<Hash>,
) -> bool {
    forall|h: Hash|
        #![trigger set.contains(h)]
        set.contains(h) ==> c.holds(h) && forall|i: int|
            0 <= i < c.deps(h).len() && wanted(original, #[trigger] c.deps(h)[i]) && !now.contains(
                CS::Change(c.deps(h)[i]),
            ) ==> set.contains(c.deps(h)[i])
}

/// The changes of `list` are in `set`.
pub open spec fn changes_within(list: Seq<CS>, set: Set<Hash>) -> bool {
    forall|i: int| 0 <= i < list.len() ==> (#[trigger] list[i] matches CS::Change(h) ==> set.contains(h))
}

/// The store can answer for all that the completion of the selection `now`
/// asks it: for the changes of `now`, and for the dependencies that count
/// and are not selected, theirs too.
pub open spec fn store_covers<C: ChangeStore>(
    c: &C,
    original: Option<Seq<CS>>,
    now: Seq<CS>,
) -> bool {
    exists|set: Set<Hash>| closed(c, original, now, set) && changes_within(now, set)
}

/// The store has each change of `list` at hand.
pub open spec fn holds_changes<C: ChangeStore>(c: &C, list: Seq<CS>) -> bool {
    forall|i: int| 0 <= i < list.len() ==> (#[trigger] list[i] matches CS::Change(h) ==> c.holds(h))
}

/// The `k`-th dependency of the change `h` was offered in `original` and is
/// not selected in `now`.
pub open spec fn unmet<C: ChangeStore>(
    c: &C,
    original: Seq<CS>,
    now: Seq<CS>,
    h: Hash,
    k: int,
) -> bool {
    &&& 0 <= k < c.deps(h).len()
    &&& original.contains(CS::Change(c.deps(h)[k]))
    &&& !now.contains(CS::Change(c.deps(h)[k]))
}

/// The `n`-th entry of `now` is a change that lacks a dependency.
pub open spec fn lacks_dependency<C: ChangeStore>(
    c: &C,
    original: Seq<CS>,
    now: Seq<CS>,
    n: int,
) -> bool {
    &&& 0 <= n < now.len()
    &&& now[n] is Change
    &&& exists|k: int| unmet(c, original, now, now[n]->Change_0, k)
}

/// Why a selection of changes was refused.
#[derive(Debug)]
pub enum DepsError<E> {
    /// The change depends on one that was offered and not selected.
    MissingDependency(Hash),
    /// The store could not give the dependencies of a change.
    Store(E),
}

/// Checks that a selection `now` out of the changes `original` is closed: a
/// selected change may depend only on selected changes and on changes that
/// were not offered. The first selected change that breaks this is reported.
pub fn check_deps<C: ChangeStore>(c: &C, original: &[CS], now: &[CS]) -> (res: Result<
    (),
    DepsError<C::Error>,
>)
    ensures
        res is Ok ==> forall|n: int| !lacks_dependency(c, original@, now@, n),
        res matches Err(DepsError::MissingDependency(h)) ==> exists|n: int|
            lacks_dependency(c, original@, now@, n) && now@[n] == CS::Change(h) && forall|m: int|
                0 <= m < n ==> !lacks_dependency(c, original@, now@, m),
        holds_changes(c, now@) ==> !(res matches Err(DepsError::Store(_))),
{
    let mut n: usize = 0;
    while n < now.len()
        invariant
            0 <= n <= now@.len(),
            forall|m: int| 0 <= m < n ==> !lacks_dependency(c, original@, now@, m),
        decreases now@.len() - n,
    {
        if let CS::Change(h) = now[n] {
            let deps = match c.get_dependencies(&h) {
                Ok(deps) => deps,
                Err(e) => {
                    assert(now@[n as int] matches CS::Change(x) ==> !c.holds(x));
                    return Err(DepsError::Store(e));
                },
            };
            let mut k: usize = 0;
            while k < deps.len()
                invariant
                    0 <= k <= deps@.len(),
                    deps@ == c.deps(h),
                    0 <= n < now@.len(),
                    now@[n as int] == CS::Change(h),
                    forall|m: int| 0 <= m < n ==> !lacks_dependency(c, original@, now@, m),
                    forall|j: int| 0 <= j < k ==> !unmet(c, original@, now@, h, j),
                decreases deps@.len() - k,
            {
                let d = CS::Change(deps[k]);
                if contains_cs(original, d) && !contains_cs(now, d) {
                    assert(unmet(c, original@, now@, now@[n as int]->Change_0, k as int));
                    return Err(DepsError::MissingDependency(h));
                }
                k = k + 1;
            }
            assert(!lacks_dependency(c, original@, now@, n as int));
        } else {
            assert(!lacks_dependency(c, original@, now@, n as int));
        }
        n = n + 1;
    }
    assert forall|m: int| !lacks_dependency(c, original@, now@, m) by {
        if 0 <= m < now@.len() {
        }
    }
    Ok(())
}


/// The entries of `result` that stand in `now`, in their order.
pub open spec fn kept(result: Seq<CS>, now: Seq<CS>) -> Seq<CS>
    decreases result.len(),
{
    if result.len() == 0 {
        result
    } else if now.contains(result.last()) {
        kept(result.drop_last(), now).push(result.last())
    } else {
        kept(result.drop_last(), now)
    }
}

/// A list without the changes that it has named before; states stay, as
/// often as they stand.
pub open spec fn first_mentions(list: Seq<CS>) -> Seq<CS>
    decreases list.len(),
{
    if list.len() == 0 {
        list
    } else if list.last() is Change && list.drop_last().contains(list.last()) {
        first_mentions(list.drop_last())
    } else {
        first_mentions(list.drop_last()).push(list.last())
    }
}

/// Entry `i` of `result` is a change on which a later change of `result`
/// depends.
pub open spec fn has_later_dependent<C: ChangeStore>(c: &C, result: Seq<CS>, i: int) -> bool {
    exists|j: int|
        i < j < result.len() && (#[trigger] result[j]) is Change && result[i] is Change && c.deps(
            result[j]->Change_0,
        ).contains(result[i]->Change_0)
}

/// Each counted dependency of the change at `j` stands in `now`, or in
/// `result` before `j`.
pub open spec fn dependencies_precede<C: ChangeStore>(
    c: &C,
    original: Option<Seq<CS>>,
    now: Seq<CS>,
    result: Seq<CS>,
    j: int,
) -> bool {
    result[j] matches CS::Change(h) ==> forall|k: int|
        0 <= k < c.deps(h).len() && wanted(original, #[trigger] c.deps(h)[k]) ==> now.contains(
            CS::Change(c.deps(h)[k]),
        ) || result.take(j).contains(CS::Change(c.deps(h)[k]))
}

/// What `complete_deps` returns for a selection `now`:
/// - of `now` it holds every entry, in the order of `now`, a change once;
/// - whatever else it holds is a change that counts and on which a later
///   change of the list depends;
/// - each counted dependency of a change in it stands in `now` or earlier in
///   the list;
/// - no change stands twice in it.
pub open spec fn is_completion<C: ChangeStore>(
    c: &C,
    original: Option<Seq<CS>>,
    now: Seq<CS>,
    result: Seq<CS>,
) -> bool {
    &&& kept(result, now) == first_mentions(now)
    &&& forall|i: int|
        0 <= i < result.len() && !now.contains(#[trigger] result[i]) ==> result[i] is Change
            && wanted(original, result[i]->Change_0) && has_later_dependent(c, result, i)
    &&& forall|j: int| 0 <= j < result.len() ==> #[trigger] dependencies_precede(c, original, now, result, j)
    &&& forall|i: int, j: int|
        0 <= i < j < result.len() && (#[trigger] result[i]) is Change ==> result[i]
            != #[trigger] result[j]
}

/// What the search for the dependencies of `h` costs at most.
spec fn weight<C: ChangeStore>(c: &C, h: Hash) -> nat
    decreases c.rank(h), 1nat, 0nat,
{
    2 + weight_seq(c, c.deps(h), c.rank(h))
}

spec fn weight_seq<C: ChangeStore>(c: &C, s: Seq<Hash>, bound: nat) -> nat
    decreases bound, 0nat, s.len(),
{
    if s.len() == 0 {
        0
    } else {
        weight_seq(c, s.drop_last(), bound) + (if c.rank(s.last()) < bound {
            weight(c, s.last())
        } else {
            0
        })
    }
}

spec fn entry_weight<C: ChangeStore>(c: &C, x: CS, expanded: bool) -> nat {
    if expanded {
        1
    } else {
        match x {
            CS::Change(h) => weight(c, h),
            CS::State(_) => 1,
        }
    }
}

spec fn stack_weight<C: ChangeStore>(c: &C, stack: Seq<CS>, expanded: Seq<bool>) -> nat
    decreases stack.len(),
{
    if stack.len() == 0 {
        0
    } else {
        stack_weight(c, stack.drop_last(), expanded.drop_last()) + entry_weight(
            c,
            stack.last(),
            expanded.last(),
        )
    }
}

proof fn lemma_weight_seq_take<C: ChangeStore>(c: &C, h: Hash, k: int)
    requires
        0 <= k < c.deps(h).len(),
    ensures
        weight_seq(c, c.deps(h).take(k + 1), c.rank(h)) == weight_seq(
            c,
            c.deps(h).take(k),
            c.rank(h),
        ) + weight(c, c.deps(h)[k]),
{
    c.deps_descend(h, k);
    assert(c.deps(h).take(k + 1).drop_last() == c.deps(h).take(k));
    assert(c.deps(h).take(k + 1).last() == c.deps(h)[k]);
}

/// The bottom `base` entries of the stack are the entries of `now` that wait
/// for their turn, the next one on top.
spec fn inv_base(now: Seq<CS>, stack: Seq<CS>, base: int) -> bool {
    &&& 0 <= base <= stack.len()
    &&& base <= now.len()
    &&& forall|i: int| 0 <= i < base ==> #[trigger] stack[i] == now[now.len() - 1 - i]
}

/// Entry `p` of the stack was put there for a change below it that is being
/// searched.
spec fn has_parent<C: ChangeStore>(c: &C, stack: Seq<CS>, expanded: Seq<bool>, p: int, d: Hash) -> bool {
    exists|q: int|
        0 <= q < p && q < stack.len() && expanded[q] && (#[trigger] stack[q]) is Change && c.deps(
            stack[q]->Change_0,
        ).contains(d)
}

spec fn inv_pushed<C: ChangeStore>(
    c: &C,
    original: Option<Seq<CS>>,
    now: Seq<CS>,
    stack: Seq<CS>,
    expanded: Seq<bool>,
    base: int,
) -> bool {
    forall|p: int|
        base <= p < stack.len() ==> (#[trigger] stack[p]) is Change && !now.contains(stack[p])
            && wanted(original, stack[p]->Change_0) && has_parent(
            c,
            stack,
            expanded,
            p,
            stack[p]->Change_0,
        )
}

/// The dependency `d` of the entry at `p` is seen to: it stands in `now`, in
/// `result`, or on the stack above `p`.
spec fn settled(now: Seq<CS>, result: Seq<CS>, stack: Seq<CS>, p: int, d: Hash) -> bool {
    ||| now.contains(CS::Change(d))
    ||| result.contains(CS::Change(d))
    ||| exists|q: int| p < q < stack.len() && #[trigger] stack[q] == CS::Change(d)
}

spec fn expanded_ok<C: ChangeStore>(
    c: &C,
    original: Option<Seq<CS>>,
    now: Seq<CS>,
    stack: Seq<CS>,
    result: Seq<CS>,
    p: int,
) -> bool {
    &&& stack[p] is Change
    &&& !result.contains(stack[p])
    &&& forall|q: int|
        p < q < stack.len() ==> (#[trigger] stack[q]) is Change && c.rank(stack[q]->Change_0)
            < c.rank(stack[p]->Change_0)
    &&& forall|k: int|
        0 <= k < c.deps(stack[p]->Change_0).len() && wanted(
            original,
            #[trigger] c.deps(stack[p]->Change_0)[k],
        ) ==> settled(now, result, stack, p, c.deps(stack[p]->Change_0)[k])
}

spec fn inv_expanded<C: ChangeStore>(
    c: &C,
    original: Option<Seq<CS>>,
    now: Seq<CS>,
    stack: Seq<CS>,
    expanded: Seq<bool>,
    result: Seq<CS>,
) -> bool {
    forall|p: int|
        0 <= p < stack.len() && #[trigger] expanded[p] ==> expanded_ok(
            c,
            original,
            now,
            stack,
            result,
            p,
        )
}

spec fn res_kept(now: Seq<CS>, result: Seq<CS>, done: int) -> bool {
    kept(result, now) == first_mentions(now.take(done))
}

spec fn res_parents<C: ChangeStore>(
    c: &C,
    original: Option<Seq<CS>>,
    now: Seq<CS>,
    stack: Seq<CS>,
    expanded: Seq<bool>,
    result: Seq<CS>,
) -> bool {
    forall|i: int|
        0 <= i < result.len() && !now.contains(#[trigger] result[i]) ==> result[i] is Change
            && wanted(original, result[i]->Change_0) && (has_later_dependent(c, result, i)
            || has_parent(c, stack, expanded, stack.len() as int, result[i]->Change_0))
}

spec fn res_order<C: ChangeStore>(
    c: &C,
    original: Option<Seq<CS>>,
    now: Seq<CS>,
    result: Seq<CS>,
) -> bool {
    forall|j: int|
        0 <= j < result.len() ==> #[trigger] dependencies_precede(c, original, now, result, j)
}

spec fn res_unique(result: Seq<CS>) -> bool {
    forall|i: int, j: int|
        0 <= i < j < result.len() && (#[trigger] result[i]) is Change ==> result[i]
            != #[trigger] result[j]
}

spec fn res_from_now(now: Seq<CS>, result: Seq<CS>, done: int) -> bool {
    forall|i: int|
        0 <= i < result.len() && now.contains(#[trigger] result[i]) ==> now.take(done).contains(
            result[i],
        )
}

spec fn res_has_now(now: Seq<CS>, result: Seq<CS>, done: int) -> bool {
    forall|i: int| 0 <= i < done ==> result.contains(#[trigger] now[i])
}

/// A list in reverse order.
pub fn reversed(now: &[CS]) -> (stack: Vec<CS>)
    ensures
        stack@.len() == now@.len(),
        forall|i: int| 0 <= i < now@.len() ==> #[trigger] stack@[i] == now@[now@.len() - 1 - i],
{
    let mut stack: Vec<CS> = Vec::new();
    let mut i: usize = now.len();
    while i > 0
        invariant
            0 <= i <= now@.len(),
            stack@.len() == now@.len() - i,
            forall|k: int| 0 <= k < stack@.len() ==> #[trigger] stack@[k] == now@[now@.len() - 1 - k],
        decreases i,
    {
        i = i - 1;
        stack.push(now[i]);
    }
    stack
}


/// All that the loop of `complete_deps` keeps true between two turns.
#[verifier::opaque]
spec fn inv_all<C: ChangeStore>(
    c: &C,
    original: Option<Seq<CS>>,
    now: Seq<CS>,
    stack: Seq<CS>,
    expanded: Seq<bool>,
    base: int,
    result: Seq<CS>,
) -> bool {
    &&& expanded.len() == stack.len()
    &&& inv_base(now, stack, base)
    &&& inv_pushed(c, original, now, stack, expanded, base)
    &&& inv_expanded(c, original, now, stack, expanded, result)
    &&& res_kept(now, result, now.len() - base)
    &&& res_parents(c, original, now, stack, expanded, result)
    &&& res_order(c, original, now, result)
    &&& res_unique(result)
    &&& res_from_now(now, result, now.len() - base)
    &&& res_has_now(now, result, now.len() - base)
}

/// No counted dependency of `h` is missing from `now` and `result`.
spec fn nothing_missing<C: ChangeStore>(
    c: &C,
    original: Option<Seq<CS>>,
    now: Seq<CS>,
    result: Seq<CS>,
    h: Hash,
) -> bool {
    forall|k: int|
        0 <= k < c.deps(h).len() && wanted(original, #[trigger] c.deps(h)[k]) ==> now.contains(
            CS::Change(c.deps(h)[k]),
        ) || result.contains(CS::Change(c.deps(h)[k]))
}

spec fn after_pop_result(result: Seq<CS>, top: CS, added: bool) -> Seq<CS> {
    if added {
        result.push(top)
    } else {
        result
    }
}

spec fn after_pop_base(base: int, len: int) -> int {
    if base == len {
        base - 1
    } else {
        base
    }
}

/// What is asked of the entry that leaves the stack.
spec fn may_pop<C: ChangeStore>(
    c: &C,
    original: Option<Seq<CS>>,
    now: Seq<CS>,
    result: Seq<CS>,
    top: CS,
    added: bool,
) -> bool {
    match top {
        CS::State(_) => added,
        CS::Change(h) => (added <==> !result.contains(top)) && nothing_missing(
            c,
            original,
            now,
            result,
            h,
        ),
    }
}

proof fn lemma_kept_push(result: Seq<CS>, now: Seq<CS>, x: CS)
    ensures
        kept(result.push(x), now) == (if now.contains(x) {
            kept(result, now).push(x)
        } else {
            kept(result, now)
        }),
{
    assert(result.push(x).drop_last() == result);
}

proof fn lemma_first_mentions_step(now: Seq<CS>, done: int)
    requires
        0 <= done < now.len(),
    ensures
        first_mentions(now.take(done + 1)) == (if now[done] is Change && now.take(done).contains(
            now[done],
        ) {
            first_mentions(now.take(done))
        } else {
            first_mentions(now.take(done)).push(now[done])
        }),
{
    assert(now.take(done + 1).drop_last() == now.take(done));
    assert(now.take(done + 1).last() == now[done]);
}

proof fn lemma_push_contains(result: Seq<CS>, top: CS, added: bool)
    requires
        !added ==> result.contains(top),
    ensures
        after_pop_result(result, top, added).contains(top),
        forall|x: CS| result.contains(x) ==> #[trigger] after_pop_result(result, top, added).contains(x),
        forall|x: CS|
            #[trigger] after_pop_result(result, top, added).contains(x) ==> x == top
                || result.contains(x),
{
    let r1 = after_pop_result(result, top, added);
    if added {
        assert(r1[result.len() as int] == top);
    }
    assert forall|x: CS| result.contains(x) implies #[trigger] r1.contains(x) by {
        let i = choose|i: int| 0 <= i < result.len() && result[i] == x;
        assert(r1[i] == x);
    }
    assert forall|x: CS| #[trigger] r1.contains(x) implies x == top || result.contains(x) by {
        let i = choose|i: int| 0 <= i < r1.len() && r1[i] == x;
        if i < result.len() {
            assert(result[i] == x);
        }
    }
}

proof fn lemma_pop_shape<C: ChangeStore>(
    c: &C,
    original: Option<Seq<CS>>,
    now: Seq<CS>,
    stack: Seq<CS>,
    expanded: Seq<bool>,
    base: int,
)
    requires
        expanded.len() == stack.len(),
        stack.len() > 0,
        inv_base(now, stack, base),
        inv_pushed(c, original, now, stack, expanded, base),
    ensures
        inv_base(now, stack.drop_last(), after_pop_base(base, stack.len() as int)),
        inv_pushed(
            c,
            original,
            now,
            stack.drop_last(),
            expanded.drop_last(),
            after_pop_base(base, stack.len() as int),
        ),
{
    let s1 = stack.drop_last();
    let e1 = expanded.drop_last();
    let base1 = after_pop_base(base, stack.len() as int);
    assert forall|i: int| 0 <= i < base1 implies #[trigger] s1[i] == now[now.len() - 1 - i] by {
        assert(s1[i] == stack[i]);
    }
    assert forall|p: int| base1 <= p < s1.len() implies (#[trigger] s1[p]) is Change
        && !now.contains(s1[p]) && wanted(original, s1[p]->Change_0) && has_parent(
        c,
        s1,
        e1,
        p,
        s1[p]->Change_0,
    ) by {
        assert(s1[p] == stack[p]);
        assert(has_parent(c, stack, expanded, p, stack[p]->Change_0));
        let q = choose|q: int|
            0 <= q < p && q < stack.len() && expanded[q] && (#[trigger] stack[q]) is Change
                && c.deps(stack[q]->Change_0).contains(stack[p]->Change_0);
        assert(s1[q] == stack[q] && e1[q] == expanded[q]);
    }
}

proof fn lemma_pop_expanded<C: ChangeStore>(
    c: &C,
    original: Option<Seq<CS>>,
    now: Seq<CS>,
    stack: Seq<CS>,
    expanded: Seq<bool>,
    result: Seq<CS>,
    added: bool,
)
    requires
        expanded.len() == stack.len(),
        stack.len() > 0,
        inv_expanded(c, original, now, stack, expanded, result),
        !added ==> result.contains(stack.last()),
    ensures
        inv_expanded(
            c,
            original,
            now,
            stack.drop_last(),
            expanded.drop_last(),
            after_pop_result(result, stack.last(), added),
        ),
{
    let l0 = stack.len() as int;
    let top = stack.last();
    let s1 = stack.drop_last();
    let e1 = expanded.drop_last();
    let r1 = after_pop_result(result, top, added);
    lemma_push_contains(result, top, added);
    assert forall|p: int| 0 <= p < s1.len() && #[trigger] e1[p] implies expanded_ok(
        c,
        original,
        now,
        s1,
        r1,
        p,
    ) by {
        assert(expanded[p]);
        assert(expanded_ok(c, original, now, stack, result, p));
        assert(s1[p] == stack[p]);
        assert(stack[l0 - 1] is Change && c.rank(stack[l0 - 1]->Change_0) < c.rank(
            stack[p]->Change_0,
        ));
        assert(top != stack[p]);
        assert(!r1.contains(s1[p]));
        assert forall|q: int| p < q < s1.len() implies (#[trigger] s1[q]) is Change && c.rank(
            s1[q]->Change_0,
        ) < c.rank(s1[p]->Change_0) by {
            assert(s1[q] == stack[q]);
        }
        let h = stack[p]->Change_0;
        assert forall|k: int|
            0 <= k < c.deps(h).len() && wanted(original, #[trigger] c.deps(h)[k]) implies settled(
            now,
            r1,
            s1,
            p,
            c.deps(h)[k],
        ) by {
            let d = c.deps(h)[k];
            assert(settled(now, result, stack, p, d));
            if !now.contains(CS::Change(d)) && !result.contains(CS::Change(d)) {
                let q = choose|q: int| p < q < stack.len() && #[trigger] stack[q] == CS::Change(d);
                if q < l0 - 1 {
                    assert(s1[q] == CS::Change(d));
                } else {
                    assert(top == CS::Change(d));
                }
            }
        }
    }
}

proof fn lemma_pop_kept<C: ChangeStore>(
    c: &C,
    original: Option<Seq<CS>>,
    now: Seq<CS>,
    stack: Seq<CS>,
    expanded: Seq<bool>,
    base: int,
    result: Seq<CS>,
    added: bool,
)
    requires
        expanded.len() == stack.len(),
        stack.len() > 0,
        inv_base(now, stack, base),
        inv_pushed(c, original, now, stack, expanded, base),
        res_kept(now, result, now.len() - base),
        res_from_now(now, result, now.len() - base),
        res_has_now(now, result, now.len() - base),
        stack.last() is State ==> added,
        stack.last() is Change ==> (added <==> !result.contains(stack.last())),
    ensures
        res_kept(
            now,
            after_pop_result(result, stack.last(), added),
            now.len() - after_pop_base(base, stack.len() as int),
        ),
        res_from_now(
            now,
            after_pop_result(result, stack.last(), added),
            now.len() - after_pop_base(base, stack.len() as int),
        ),
        res_has_now(
            now,
            after_pop_result(result, stack.last(), added),
            now.len() - after_pop_base(base, stack.len() as int),
        ),
{
    let l0 = stack.len() as int;
    let top = stack.last();
    let r1 = after_pop_result(result, top, added);
    let base1 = after_pop_base(base, l0);
    let done0 = now.len() - base;
    let done1 = now.len() - base1;
    lemma_push_contains(result, top, added);
    lemma_kept_push(result, now, top);
    assert(top == stack[l0 - 1]);
    if base == l0 {
        assert(stack[l0 - 1] == now[now.len() - 1 - (l0 - 1)]);
        assert(top == now[done0]);
        lemma_first_mentions_step(now, done0);
        if now.take(done0).contains(top) {
            let i = choose|i: int| 0 <= i < done0 && now.take(done0)[i] == top;
            assert(now[i] == top);
            assert(result.contains(now[i]));
        }
        if result.contains(top) {
            let i = choose|i: int| 0 <= i < result.len() && result[i] == top;
            assert(now.contains(result[i]));
            assert(now.take(done0).contains(result[i]));
        }
        assert(now.take(done1)[done0] == top);
    } else {
        assert(!now.contains(stack[l0 - 1]));
    }
    assert forall|i: int| 0 <= i < r1.len() && now.contains(#[trigger] r1[i]) implies now.take(
        done1,
    ).contains(r1[i]) by {
        if i < result.len() {
            assert(r1[i] == result[i]);
            let m = choose|m: int| 0 <= m < done0 && now.take(done0)[m] == result[i];
            assert(now.take(done1)[m] == r1[i]);
        } else {
            assert(r1[i] == top);
        }
    }
    assert forall|i: int| 0 <= i < done1 implies r1.contains(#[trigger] now[i]) by {
        if i < done0 {
            assert(result.contains(now[i]));
        }
    }
}

proof fn lemma_pop_parents<C: ChangeStore>(
    c: &C,
    original: Option<Seq<CS>>,
    now: Seq<CS>,
    stack: Seq<CS>,
    expanded: Seq<bool>,
    base: int,
    result: Seq<CS>,
    added: bool,
)
    requires
        expanded.len() == stack.len(),
        stack.len() > 0,
        inv_base(now, stack, base),
        inv_pushed(c, original, now, stack, expanded, base),
        inv_expanded(c, original, now, stack, expanded, result),
        res_parents(c, original, now, stack, expanded, result),
        stack.last() is Change ==> (added <==> !result.contains(stack.last())),
    ensures
        res_parents(
            c,
            original,
            now,
            stack.drop_last(),
            expanded.drop_last(),
            after_pop_result(result, stack.last(), added),
        ),
{
    let l0 = stack.len() as int;
    let top = stack.last();
    let s1 = stack.drop_last();
    let e1 = expanded.drop_last();
    let r1 = after_pop_result(result, top, added);
    assert(top == stack[l0 - 1]);
    assert forall|i: int| 0 <= i < r1.len() && !now.contains(#[trigger] r1[i]) implies r1[i] is Change
        && wanted(original, r1[i]->Change_0) && (has_later_dependent(c, r1, i) || has_parent(
        c,
        s1,
        e1,
        s1.len() as int,
        r1[i]->Change_0,
    )) by {
        if i < result.len() {
            assert(r1[i] == result[i]);
            let d = result[i]->Change_0;
            if has_later_dependent(c, result, i) {
                let j = choose|j: int|
                    i < j < result.len() && (#[trigger] result[j]) is Change && result[i] is Change
                        && c.deps(result[j]->Change_0).contains(result[i]->Change_0);
                assert(r1[j] == result[j]);
            } else {
                assert(has_parent(c, stack, expanded, l0, d));
                let q = choose|q: int|
                    0 <= q < l0 && q < stack.len() && expanded[q] && (#[trigger] stack[q]) is Change
                        && c.deps(stack[q]->Change_0).contains(d);
                if q < l0 - 1 {
                    assert(s1[q] == stack[q] && e1[q] == expanded[q]);
                } else {
                    assert(expanded_ok(c, original, now, stack, result, q));
                    assert(added);
                    assert(r1[result.len() as int] == top);
                }
            }
        } else {
            assert(r1[i] == top);
            if base == l0 {
                assert(stack[l0 - 1] == now[now.len() - 1 - (l0 - 1)]);
            }
            assert(base < l0);
            assert(has_parent(c, stack, expanded, l0 - 1, stack[l0 - 1]->Change_0));
            let q = choose|q: int|
                0 <= q < l0 - 1 && q < stack.len() && expanded[q] && (#[trigger] stack[q]) is Change
                    && c.deps(stack[q]->Change_0).contains(top->Change_0);
            assert(s1[q] == stack[q] && e1[q] == expanded[q]);
        }
    }
}

proof fn lemma_pop_order<C: ChangeStore>(
    c: &C,
    original: Option<Seq<CS>>,
    now: Seq<CS>,
    result: Seq<CS>,
    top: CS,
    added: bool,
)
    requires
        res_order(c, original, now, result),
        res_unique(result),
        may_pop(c, original, now, result, top, added),
    ensures
        res_order(c, original, now, after_pop_result(result, top, added)),
        res_unique(after_pop_result(result, top, added)),
{
    let r1 = after_pop_result(result, top, added);
    assert forall|j: int| 0 <= j < r1.len() implies #[trigger] dependencies_precede(
        c,
        original,
        now,
        r1,
        j,
    ) by {
        if j < result.len() {
            assert(dependencies_precede(c, original, now, result, j));
            assert(r1[j] == result[j]);
            assert(r1.take(j) == result.take(j));
        } else {
            assert(r1[j] == top);
            assert(r1.take(j) == result);
        }
    }
    assert forall|i: int, j: int|
        0 <= i < j < r1.len() && (#[trigger] r1[i]) is Change implies r1[i] != #[trigger] r1[j] by {
        assert(r1[i] == result[i]);
        if j < result.len() {
            assert(r1[j] == result[j]);
        }
    }
}

/// The entry on top of the stack leaves it, and joins the result if
/// `added` says so.
proof fn lemma_pop<C: ChangeStore>(
    c: &C,
    original: Option<Seq<CS>>,
    now: Seq<CS>,
    stack: Seq<CS>,
    expanded: Seq<bool>,
    base: int,
    result: Seq<CS>,
    added: bool,
)
    requires
        inv_all(c, original, now, stack, expanded, base, result),
        stack.len() > 0,
        may_pop(c, original, now, result, stack.last(), added),
    ensures
        inv_all(
            c,
            original,
            now,
            stack.drop_last(),
            expanded.drop_last(),
            after_pop_base(base, stack.len() as int),
            after_pop_result(result, stack.last(), added),
        ),
{
    reveal(inv_all);
    lemma_pop_shape(c, original, now, stack, expanded, base);
    lemma_pop_expanded(c, original, now, stack, expanded, result, added);
    lemma_pop_kept(c, original, now, stack, expanded, base, result, added);
    lemma_pop_parents(c, original, now, stack, expanded, base, result, added);
    lemma_pop_order(c, original, now, result, stack.last(), added);
}

/// An entry that is searched already, or handed on already, misses nothing.
proof fn lemma_quiet<C: ChangeStore>(
    c: &C,
    original: Option<Seq<CS>>,
    now: Seq<CS>,
    stack: Seq<CS>,
    expanded: Seq<bool>,
    base: int,
    result: Seq<CS>,
)
    requires
        inv_all(c, original, now, stack, expanded, base, result),
        stack.len() > 0,
        stack.last() is Change,
        expanded.last() || result.contains(stack.last()),
    ensures
        nothing_missing(c, original, now, result, stack.last()->Change_0),
{
    reveal(inv_all);
    let l0 = stack.len() as int;
    let top = stack.last();
    let hh = top->Change_0;
    if expanded.last() {
        assert(expanded[l0 - 1]);
        assert(expanded_ok(c, original, now, stack, result, l0 - 1));
        assert forall|k: int|
            0 <= k < c.deps(hh).len() && wanted(original, #[trigger] c.deps(hh)[k]) implies now.contains(
            CS::Change(c.deps(hh)[k]),
        ) || result.contains(CS::Change(c.deps(hh)[k])) by {
            assert(settled(now, result, stack, l0 - 1, c.deps(hh)[k]));
        }
    } else {
        let j = choose|j: int| 0 <= j < result.len() && result[j] == top;
        assert(dependencies_precede(c, original, now, result, j));
        assert forall|k: int|
            0 <= k < c.deps(hh).len() && wanted(original, #[trigger] c.deps(hh)[k]) implies now.contains(
            CS::Change(c.deps(hh)[k]),
        ) || result.contains(CS::Change(c.deps(hh)[k])) by {
            let d = CS::Change(c.deps(hh)[k]);
            if !now.contains(d) {
                assert(result.take(j).contains(d));
                let i = choose|i: int| 0 <= i < j && result.take(j)[i] == d;
                assert(result[i] == d);
            }
        }
    }
}

/// The stack `stack1` is `stack` with dependencies of its top entry above
/// it, each counted and not selected, and the top entry marked as searched.
spec fn grown<C: ChangeStore>(
    c: &C,
    original: Option<Seq<CS>>,
    now: Seq<CS>,
    stack: Seq<CS>,
    expanded: Seq<bool>,
    stack1: Seq<CS>,
    expanded1: Seq<bool>,
) -> bool {
    &&& stack.len() > 0
    &&& expanded.len() == stack.len()
    &&& stack.last() is Change
    &&& stack1.len() > stack.len()
    &&& stack1.take(stack.len() as int) == stack
    &&& expanded1.len() == stack1.len()
    &&& expanded1.take(stack.len() as int) == expanded.update(stack.len() - 1, true)
    &&& forall|q: int| stack.len() <= q < stack1.len() ==> !#[trigger] expanded1[q]
    &&& forall|q: int|
        stack.len() <= q < stack1.len() ==> (#[trigger] stack1[q]) is Change && c.deps(
            stack.last()->Change_0,
        ).contains(stack1[q]->Change_0) && wanted(original, stack1[q]->Change_0) && !now.contains(
            stack1[q],
        )
}

proof fn lemma_grown<C: ChangeStore>(
    c: &C,
    original: Option<Seq<CS>>,
    now: Seq<CS>,
    stack: Seq<CS>,
    expanded: Seq<bool>,
    stack1: Seq<CS>,
    expanded1: Seq<bool>,
)
    requires
        grown(c, original, now, stack, expanded, stack1, expanded1),
    ensures
        forall|q: int| 0 <= q < stack.len() ==> #[trigger] stack1[q] == stack[q],
        forall|q: int|
            0 <= q < stack.len() ==> (#[trigger] expanded1[q]) == (expanded[q] || q == stack.len()
                - 1),
        forall|q: int|
            stack.len() <= q < stack1.len() ==> c.rank((#[trigger] stack1[q])->Change_0) < c.rank(
                stack.last()->Change_0,
            ),
{
    let l0 = stack.len() as int;
    let hh = stack.last()->Change_0;
    assert forall|q: int| 0 <= q < l0 implies #[trigger] stack1[q] == stack[q] by {
        assert(stack1.take(l0)[q] == stack1[q]);
    }
    assert forall|q: int| 0 <= q < l0 implies (#[trigger] expanded1[q]) == (expanded[q] || q == l0
        - 1) by {
        assert(expanded1.take(l0)[q] == expanded1[q]);
    }
    assert forall|q: int| l0 <= q < stack1.len() implies c.rank((#[trigger] stack1[q])->Change_0)
        < c.rank(hh) by {
        let d = stack1[q]->Change_0;
        let k = choose|k: int| 0 <= k < c.deps(hh).len() && c.deps(hh)[k] == d;
        c.deps_descend(hh, k);
    }
}

proof fn lemma_expand_shape<C: ChangeStore>(
    c: &C,
    original: Option<Seq<CS>>,
    now: Seq<CS>,
    stack: Seq<CS>,
    expanded: Seq<bool>,
    base: int,
    stack1: Seq<CS>,
    expanded1: Seq<bool>,
)
    requires
        grown(c, original, now, stack, expanded, stack1, expanded1),
        inv_base(now, stack, base),
        inv_pushed(c, original, now, stack, expanded, base),
    ensures
        inv_base(now, stack1, base),
        inv_pushed(c, original, now, stack1, expanded1, base),
{
    let l0 = stack.len() as int;
    lemma_grown(c, original, now, stack, expanded, stack1, expanded1);
    assert forall|p: int| base <= p < stack1.len() implies (#[trigger] stack1[p]) is Change
        && !now.contains(stack1[p]) && wanted(original, stack1[p]->Change_0) && has_parent(
        c,
        stack1,
        expanded1,
        p,
        stack1[p]->Change_0,
    ) by {
        if p < l0 {
            assert(stack1[p] == stack[p]);
            assert(has_parent(c, stack, expanded, p, stack[p]->Change_0));
            let q = choose|q: int|
                0 <= q < p && q < stack.len() && expanded[q] && (#[trigger] stack[q]) is Change
                    && c.deps(stack[q]->Change_0).contains(stack[p]->Change_0);
            assert(stack1[q] == stack[q] && expanded1[q]);
        } else {
            assert(stack1[l0 - 1] == stack[l0 - 1] && expanded1[l0 - 1]);
        }
    }
}

proof fn lemma_expand_expanded<C: ChangeStore>(
    c: &C,
    original: Option<Seq<CS>>,
    now: Seq<CS>,
    stack: Seq<CS>,
    expanded: Seq<bool>,
    result: Seq<CS>,
    stack1: Seq<CS>,
    expanded1: Seq<bool>,
)
    requires
        grown(c, original, now, stack, expanded, stack1, expanded1),
        inv_expanded(c, original, now, stack, expanded, result),
        !result.contains(stack.last()),
        forall|k: int|
            0 <= k < c.deps(stack.last()->Change_0).len() && wanted(
                original,
                #[trigger] c.deps(stack.last()->Change_0)[k],
            ) ==> settled(
                now,
                result,
                stack1,
                stack.len() - 1,
                c.deps(stack.last()->Change_0)[k],
            ),
    ensures
        inv_expanded(c, original, now, stack1, expanded1, result),
{
    let l0 = stack.len() as int;
    lemma_grown(c, original, now, stack, expanded, stack1, expanded1);
    assert forall|p: int| 0 <= p < stack1.len() && #[trigger] expanded1[p] implies expanded_ok(
        c,
        original,
        now,
        stack1,
        result,
        p,
    ) by {
        assert(p < l0);
        assert(stack1[p] == stack[p]);
        if p < l0 - 1 {
            assert(expanded[p]);
            assert(expanded_ok(c, original, now, stack, result, p));
            assert(stack[l0 - 1] is Change && c.rank(stack[l0 - 1]->Change_0) < c.rank(
                stack[p]->Change_0,
            ));
            assert forall|q: int| p < q < stack1.len() implies (#[trigger] stack1[q]) is Change
                && c.rank(stack1[q]->Change_0) < c.rank(stack1[p]->Change_0) by {
                if q < l0 {
                    assert(stack1[q] == stack[q]);
                }
            }
            let h = stack[p]->Change_0;
            assert forall|k: int|
                0 <= k < c.deps(h).len() && wanted(original, #[trigger] c.deps(h)[k]) implies settled(
                now,
                result,
                stack1,
                p,
                c.deps(h)[k],
            ) by {
                let d = c.deps(h)[k];
                assert(settled(now, result, stack, p, d));
                if !now.contains(CS::Change(d)) && !result.contains(CS::Change(d)) {
                    let q = choose|q: int| p < q < stack.len() && #[trigger] stack[q] == CS::Change(d);
                    assert(stack1[q] == CS::Change(d));
                }
            }
        }
    }
}

proof fn lemma_expand_parents<C: ChangeStore>(
    c: &C,
    original: Option<Seq<CS>>,
    now: Seq<CS>,
    stack: Seq<CS>,
    expanded: Seq<bool>,
    result: Seq<CS>,
    stack1: Seq<CS>,
    expanded1: Seq<bool>,
)
    requires
        grown(c, original, now, stack, expanded, stack1, expanded1),
        res_parents(c, original, now, stack, expanded, result),
    ensures
        res_parents(c, original, now, stack1, expanded1, result),
{
    let l0 = stack.len() as int;
    lemma_grown(c, original, now, stack, expanded, stack1, expanded1);
    assert forall|i: int| 0 <= i < result.len() && !now.contains(#[trigger] result[i]) implies result[i] is Change
        && wanted(original, result[i]->Change_0) && (has_later_dependent(c, result, i)
        || has_parent(c, stack1, expanded1, stack1.len() as int, result[i]->Change_0)) by {
        if !has_later_dependent(c, result, i) {
            let d = result[i]->Change_0;
            assert(has_parent(c, stack, expanded, l0, d));
            let q = choose|q: int|
                0 <= q < l0 && q < stack.len() && expanded[q] && (#[trigger] stack[q]) is Change
                    && c.deps(stack[q]->Change_0).contains(d);
            assert(stack1[q] == stack[q] && expanded1[q]);
        }
    }
}

/// The entry on top of the stack stays, with the dependencies above it that
/// it was found to miss.
proof fn lemma_expand<C: ChangeStore>(
    c: &C,
    original: Option<Seq<CS>>,
    now: Seq<CS>,
    stack: Seq<CS>,
    expanded: Seq<bool>,
    base: int,
    result: Seq<CS>,
    stack1: Seq<CS>,
    expanded1: Seq<bool>,
)
    requires
        inv_all(c, original, now, stack, expanded, base, result),
        grown(c, original, now, stack, expanded, stack1, expanded1),
        !result.contains(stack.last()),
        forall|k: int|
            0 <= k < c.deps(stack.last()->Change_0).len() && wanted(
                original,
                #[trigger] c.deps(stack.last()->Change_0)[k],
            ) ==> settled(
                now,
                result,
                stack1,
                stack.len() - 1,
                c.deps(stack.last()->Change_0)[k],
            ),
    ensures
        inv_all(c, original, now, stack1, expanded1, base, result),
{
    reveal(inv_all);
    lemma_expand_shape(c, original, now, stack, expanded, base, stack1, expanded1);
    lemma_expand_expanded(c, original, now, stack, expanded, result, stack1, expanded1);
    lemma_expand_parents(c, original, now, stack, expanded, result, stack1, expanded1);
}

proof fn lemma_completion<C: ChangeStore>(
    c: &C,
    original: Option<Seq<CS>>,
    now: Seq<CS>,
    expanded: Seq<bool>,
    result: Seq<CS>,
)
    requires
        inv_all(c, original, now, Seq::<CS>::empty(), expanded, 0, result),
    ensures
        is_completion(c, original, now, result),
{
    reveal(inv_all);
    assert(now.take(now.len() as int) == now);
    let stack = Seq::<CS>::empty();
    assert forall|i: int| 0 <= i < result.len() && !now.contains(#[trigger] result[i]) implies result[i] is Change
        && wanted(original, result[i]->Change_0) && has_later_dependent(c, result, i) by {
        assert(!has_parent(c, stack, expanded, 0, result[i]->Change_0));
    }
}

proof fn lemma_init<C: ChangeStore>(c: &C, original: Option<Seq<CS>>, now: Seq<CS>, stack: Seq<CS>)
    requires
        stack.len() == now.len(),
        forall|i: int| 0 <= i < now.len() ==> #[trigger] stack[i] == now[now.len() - 1 - i],
    ensures
        inv_all(
            c,
            original,
            now,
            stack,
            Seq::new(now.len(), |i: int| false),
            now.len() as int,
            Seq::<CS>::empty(),
        ),
{
    reveal(inv_all);
    assert(now.take(0) == Seq::<CS>::empty());
}

/// Completes a selection of changes by the dependencies that it misses.
///
/// The entries of `now` are taken in turn. Before a change is handed on, each
/// of its dependencies that counts and is neither selected nor handed on yet
/// is handed on first, and before it its own. With `original`, the list from
/// which the selection was made, only the dependencies in that list count;
/// without, all do. The stores answers are taken as they come: where one
/// fails, the failure is returned.
pub fn complete_deps<C: ChangeStore>(c: &C, original: Option<&[CS]>, now: &[CS]) -> (res: Result<
    Vec<CS>,
    C::Error,
>)
    ensures
        res matches Ok(result) ==> is_completion(c, offered(original), now@, result@),
        store_covers(c, offered(original), now@) ==> res is Ok,
{
    let ghost orig = offered(original);
    let ghost set = choose|set: Set<Hash>|
        closed(c, orig, now@, set) && changes_within(now@, set);
    let mut result: Vec<CS> = Vec::new();
    let mut stack: Vec<CS> = reversed(now);
    let ghost mut expanded: Seq<bool> = Seq::new(now@.len(), |i: int| false);
    let ghost mut base: int = now@.len() as int;
    proof {
        lemma_init(c, orig, now@, stack@);
        if store_covers(c, orig, now@) {
            assert forall|q: int| 0 <= q < stack@.len() && (#[trigger] stack@[q]) is Change implies set.contains(
                stack@[q]->Change_0,
            ) by {
                assert(stack@[q] == now@[now@.len() - 1 - q]);
            }
        }
    }
    while stack.len() > 0
        invariant
            orig == offered(original),
            expanded.len() == stack@.len(),
            0 <= base <= stack@.len(),
            inv_all(c, orig, now@, stack@, expanded, base, result@),
            store_covers(c, orig, now@) ==> closed(c, orig, now@, set) && forall|q: int|
                0 <= q < stack@.len() && (#[trigger] stack@[q]) is Change ==> set.contains(
                    stack@[q]->Change_0,
                ),
        decreases stack_weight(c, stack@, expanded),
    {
        let l0 = stack.len();
        let top = stack[l0 - 1];
        let ghost stack0 = stack@;
        let ghost exp0 = expanded;
        let ghost below = stack_weight(c, stack0.drop_last(), exp0.drop_last());
        assert(stack0.last() == top);
        match top {
            CS::State(_) => {
                proof {
                    lemma_pop(c, orig, now@, stack0, exp0, base, result@, true);
                    base = after_pop_base(base, l0 as int);
                    expanded = exp0.drop_last();
                }
                stack.pop();
                result.push(top);
            },
            CS::Change(hh) => {
                let deps = match c.get_dependencies(&hh) {
                    Ok(deps) => deps,
                    Err(e) => {
                        assert(store_covers(c, orig, now@) ==> set.contains(stack@[l0 - 1]->Change_0));
                        return Err(e);
                    },
                };
                let ghost quiet = exp0.last() || result@.contains(top);
                proof {
                    expanded = exp0.update(l0 - 1, true);
                    assert(expanded.drop_last() == exp0.drop_last());
                    assert(deps@.take(0) == Seq::<Hash>::empty());
                    assert(stack@.take(l0 as int) == stack0);
                    assert(expanded.take(l0 as int) == exp0.update(l0 - 1, true));
                    if quiet {
                        lemma_quiet(c, orig, now@, stack0, exp0, base, result@);
                    }
                }
                let mut k: usize = 0;
                while k < deps.len()
                    invariant
                        0 <= k <= deps@.len(),
                        deps@ == c.deps(hh),
                        orig == offered(original),
                        l0 > 0,
                        stack0.len() == l0,
                        stack0.last() == CS::Change(hh),
                        stack@.len() >= l0,
                        stack@.take(l0 as int) == stack0,
                        expanded.len() == stack@.len(),
                        expanded.take(l0 as int) == exp0.update(l0 - 1, true),
                        exp0.len() == l0,
                        forall|q: int| l0 <= q < stack@.len() ==> !#[trigger] expanded[q],
                        forall|q: int|
                            l0 <= q < stack@.len() ==> (#[trigger] stack@[q]) is Change && c.deps(
                                hh,
                            ).contains(stack@[q]->Change_0) && wanted(orig, stack@[q]->Change_0)
                                && !now@.contains(stack@[q]),
                        forall|j: int|
                            0 <= j < k && wanted(orig, #[trigger] c.deps(hh)[j]) ==> settled(
                                now@,
                                result@,
                                stack@,
                                l0 - 1,
                                c.deps(hh)[j],
                            ),
                        stack_weight(c, stack@, expanded) <= below + 1 + weight_seq(
                            c,
                            c.deps(hh).take(k as int),
                            c.rank(hh),
                        ),
                        quiet ==> stack@.len() == l0 && nothing_missing(c, orig, now@, result@, hh),
                        stack@.len() == l0 ==> nothing_missing_before(c, orig, now@, result@, hh, k as int),
                        store_covers(c, orig, now@) ==> closed(c, orig, now@, set) && set.contains(hh) && forall|q: int|
                            0 <= q < stack@.len() && (#[trigger] stack@[q]) is Change
                                ==> set.contains(stack@[q]->Change_0),
                    decreases deps@.len() - k,
                {
                    let dh = deps[k];
                    let d = CS::Change(dh);
                    let counted = match original {
                        Some(o) => contains_cs(o, d),
                        None => true,
                    };
                    let missing = counted && !contains_cs(now, d) && !contains_cs(
                        result.as_slice(),
                        d,
                    );
                    let ghost before = stack@;
                    let ghost exp_before = expanded;
                    proof {
                        lemma_weight_seq_take(c, hh, k as int);
                        assert(dh == c.deps(hh)[k as int]);
                        assert(counted == wanted(orig, dh));
                    }
                    if missing {
                        stack.push(d);
                        proof {
                            expanded = exp_before.push(false);
                            assert(stack@.drop_last() == before);
                            assert(expanded.drop_last() == exp_before);
                            assert(stack@.take(l0 as int) == before.take(l0 as int));
                            assert(expanded.take(l0 as int) == exp_before.take(l0 as int));
                            assert(stack@[before.len() as int] == d);
                            assert(c.deps(hh).contains(dh));
                            assert forall|q: int| l0 <= q < stack@.len() implies (
                            #[trigger] stack@[q]) is Change && c.deps(hh).contains(
                                stack@[q]->Change_0,
                            ) && wanted(orig, stack@[q]->Change_0) && !now@.contains(stack@[q]) by {
                                if q < before.len() {
                                    assert(stack@[q] == before[q]);
                                }
                            }
                            assert forall|q: int| l0 <= q < stack@.len() implies !#[trigger] expanded[q] by {
                                if q < before.len() {
                                    assert(expanded[q] == exp_before[q]);
                                }
                            }
                            if store_covers(c, orig, now@) {
                                assert forall|q: int|
                                    0 <= q < stack@.len() && (#[trigger] stack@[q]) is Change implies set.contains(
                                    stack@[q]->Change_0,
                                ) by {
                                    if q < before.len() {
                                        assert(stack@[q] == before[q]);
                                    }
                                }
                            }
                        }
                    }
                    proof {
                        assert forall|j: int|
                            0 <= j < k + 1 && wanted(orig, #[trigger] c.deps(hh)[j]) implies settled(
                            now@,
                            result@,
                            stack@,
                            l0 - 1,
                            c.deps(hh)[j],
                        ) by {
                            if j < k {
                                assert(settled(now@, result@, before, l0 - 1, c.deps(hh)[j]));
                                if !now@.contains(CS::Change(c.deps(hh)[j])) && !result@.contains(
                                    CS::Change(c.deps(hh)[j]),
                                ) {
                                    let q = choose|q: int|
                                        l0 - 1 < q < before.len() && #[trigger] before[q]
                                            == CS::Change(c.deps(hh)[j]);
                                    assert(stack@[q] == before[q]);
                                }
                            } else {
                                if missing {
                                    assert(stack@[before.len() as int] == d);
                                }
                            }
                        }
                    }
                    k = k + 1;
                }
                proof {
                    assert(c.deps(hh).take(deps@.len() as int) == c.deps(hh));
                }
                if stack.len() == l0 {
                    let added = !contains_cs(result.as_slice(), top);
                    proof {
                        assert(stack@ == stack0) by {
                            assert(stack@.take(l0 as int) == stack@);
                        }
                        assert(nothing_missing(c, orig, now@, result@, hh));
                        lemma_pop(c, orig, now@, stack0, exp0, base, result@, added);
                        base = after_pop_base(base, l0 as int);
                        expanded = exp0.drop_last();
                    }
                    stack.pop();
                    if added {
                        result.push(top);
                    }
                } else {
                    proof {
                        assert(!quiet);
                        lemma_expand(c, orig, now@, stack0, exp0, base, result@, stack@, expanded);
                        assert(weight(c, hh) == 2 + weight_seq(c, c.deps(hh), c.rank(hh)));
                        assert(stack_weight(c, stack0, exp0) == below + weight(c, hh));
                    }
                }
            },
        }
    }
    proof {
        assert(stack@ == Seq::<CS>::empty());
        lemma_completion(c, orig, now@, expanded, result@);
    }
    Ok(result)
}

/// Up to the `k`-th, no counted dependency of `h` is missing.
spec fn nothing_missing_before<C: ChangeStore>(
    c: &C,
    original: Option<Seq<CS>>,
    now: Seq<CS>,
    result: Seq<CS>,
    h: Hash,
    k: int,
) -> bool {
    forall|j: int|
        0 <= j < k && j < c.deps(h).len() && wanted(original, #[trigger] c.deps(h)[j])
            ==> now.contains(CS::Change(c.deps(h)[j])) || result.contains(
            CS::Change(c.deps(h)[j]),
        )
}

} // verus!
