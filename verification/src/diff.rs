//! Line-level diffing: the token model, the replacement list that the diff
//! algorithms fill, and the queries that later stages ask of it.

use core::ops::Range;
use vstd::prelude::*;
use vstd::slice::slice_subrange;

verus! {

/// Algorithm used to compute the diff.
#[derive(Debug, Clone, Copy, PartialEq, Eq, Structural)]
pub enum Algorithm {
    Myers,
    Patience,
    ImaraHistogram,
}

impl Default for Algorithm {
    fn default() -> (res: Self)
        ensures
            res == Algorithm::Myers,
    {
        Algorithm::Myers
    }
}

/// One token of a text: the bytes of a line and the byte offset at which the
/// line begins in the text it was cut from.
#[derive(Debug, Clone, Copy)]
pub struct Line<'a> {
    pub l: &'a [u8],
    pub start: usize,
}

/// The byte contents of a sequence of lines, which is all a diff algorithm sees.
pub open spec fn tokens(lines: Seq<Line>) -> Seq<Seq<u8>> {
    Seq::new(lines.len(), |i: int| lines[i].l@)
}

/// `lines` is the split of `text` into LF-terminated lines, a trailing partial
/// line being a token of its own: the lines are non-empty, follow each other
/// without gap from offset 0 to the end of the text, hold a line feed nowhere
/// but in their last byte, and all but the last one end in a line feed.
pub open spec fn is_line_split(text: Seq<u8>, lines: Seq<Line>) -> bool {
    &&& (lines.len() == 0 <==> text.len() == 0)
    &&& lines.len() > 0 ==> lines.last().start + lines.last().l@.len() == text.len()
    &&& forall|i: int|
        #![trigger lines[i]]
        0 <= i < lines.len() ==> {
            &&& lines[i].l@.len() > 0
            &&& lines[i].start as int == (if i == 0 {
                0
            } else {
                lines[i - 1].start + lines[i - 1].l@.len()
            })
            &&& lines[i].start + lines[i].l@.len() <= text.len()
            &&& lines[i].l@ == text.subrange(
                lines[i].start as int,
                lines[i].start + lines[i].l@.len(),
            )
            &&& forall|k: int| 0 <= k < lines[i].l@.len() - 1 ==> lines[i].l@[k] != 10u8
            &&& i < lines.len() - 1 ==> lines[i].l@.last() == 10u8
        }
}

/// The lines begin at strictly increasing offsets, and none ends beyond what
/// a `usize` can address.
pub open spec fn lines_ordered(lines: Seq<Line>) -> bool {
    &&& forall|i: int, j: int|
        0 <= i < j < lines.len() ==> (#[trigger] lines[i]).start < (#[trigger] lines[j]).start
    &&& forall|i: int|
        0 <= i < lines.len() ==> (#[trigger] lines[i]).start + lines[i].l@.len() <= usize::MAX
}

/// The offset of line `i` counted from the beginning of the first line.
pub open spec fn line_offset(lines: Seq<Line>, i: int) -> int {
    lines[i].start - lines[0].start
}

/// Some line of `lines` begins `pos` bytes after the first one.
pub open spec fn is_line_start(lines: Seq<Line>, pos: int) -> bool {
    exists|i: int| 0 <= i < lines.len() && #[trigger] line_offset(lines, i) == pos
}

pub proof fn lemma_line_split_ordered(text: Seq<u8>, lines: Seq<Line>)
    requires
        is_line_split(text, lines),
        text.len() <= usize::MAX,
    ensures
        lines_ordered(lines),
{
    assert forall|i: int, j: int| 0 <= i < j < lines.len() implies (#[trigger] lines[i]).start
        < (#[trigger] lines[j]).start by {
        lemma_split_starts_increase(text, lines, i, j);
    }
}

proof fn lemma_split_starts_increase(text: Seq<u8>, lines: Seq<Line>, i: int, j: int)
    requires
        is_line_split(text, lines),
        0 <= i < j < lines.len(),
    ensures
        lines[i].start + lines[i].l@.len() <= lines[j].start,
    decreases j - i,
{
    if j == i + 1 {
        assert(lines[j].start as int == lines[j - 1].start + lines[j - 1].l@.len());
    } else {
        lemma_split_starts_increase(text, lines, i, j - 1);
        assert(lines[j].start as int == lines[j - 1].start + lines[j - 1].l@.len());
        assert(lines[j - 1].l@.len() > 0);
    }
}

/// Splits a text into its lines.
pub fn split_lines<'a>(text: &'a [u8]) -> (lines: Vec<Line<'a>>)
    ensures
        is_line_split(text@, lines@),
        lines_ordered(lines@),
{
    let mut lines: Vec<Line<'a>> = Vec::new();
    let mut begin: usize = 0;
    let mut i: usize = 0;
    while i < text.len()
        invariant
            begin <= i <= text@.len(),
            is_line_split(text@.subrange(0, begin as int), lines@),
            forall|k: int| begin <= k < i ==> text@[k] != 10u8,
            forall|k: int|
                0 <= k < lines@.len() ==> (#[trigger] lines@[k]).l@ == text@.subrange(
                    lines@[k].start as int,
                    lines@[k].start + lines@[k].l@.len(),
                ),
            lines@.len() > 0 ==> lines@.last().l@.last() == 10u8,
        decreases text@.len() - i,
    {
        let byte = text[i];
        i = i + 1;
        if byte == 10u8 {
            let piece = slice_subrange(text, begin, i);
            let ghost before = lines@;
            lines.push(Line { l: piece, start: begin });
            proof {
                let prefix = text@.subrange(0, i as int);
                assert forall|k: int| #![trigger lines@[k]] 0 <= k < lines@.len() implies {
                    &&& lines@[k].l@.len() > 0
                    &&& lines@[k].start as int == (if k == 0 {
                        0
                    } else {
                        lines@[k - 1].start + lines@[k - 1].l@.len()
                    })
                    &&& lines@[k].start + lines@[k].l@.len() <= prefix.len()
                    &&& lines@[k].l@ == prefix.subrange(
                        lines@[k].start as int,
                        lines@[k].start + lines@[k].l@.len(),
                    )
                    &&& forall|m: int| 0 <= m < lines@[k].l@.len() - 1 ==> lines@[k].l@[m] != 10u8
                    &&& k < lines@.len() - 1 ==> lines@[k].l@.last() == 10u8
                } by {
                    if k < before.len() {
                        assert(lines@[k] == before[k]);
                        if k > 0 {
                            assert(lines@[k - 1] == before[k - 1]);
                        }
                        if k == before.len() - 1 {
                            assert(before.last() == before[k]);
                        }
                    } else {
                        if k > 0 {
                            assert(lines@[k - 1] == before.last());
                        }
                    }
                }
            }
            begin = i;
        }
    }
    if begin < i {
        let piece = slice_subrange(text, begin, i);
        let ghost before = lines@;
        lines.push(Line { l: piece, start: begin });
        proof {
            assert forall|k: int| #![trigger lines@[k]] 0 <= k < lines@.len() implies {
                &&& lines@[k].l@.len() > 0
                &&& lines@[k].start as int == (if k == 0 {
                    0
                } else {
                    lines@[k - 1].start + lines@[k - 1].l@.len()
                })
                &&& lines@[k].start + lines@[k].l@.len() <= text@.len()
                &&& lines@[k].l@ == text@.subrange(
                    lines@[k].start as int,
                    lines@[k].start + lines@[k].l@.len(),
                )
                &&& forall|m: int| 0 <= m < lines@[k].l@.len() - 1 ==> lines@[k].l@[m] != 10u8
                &&& k < lines@.len() - 1 ==> lines@[k].l@.last() == 10u8
            } by {
                if k < before.len() {
                    assert(lines@[k] == before[k]);
                    if k > 0 {
                        assert(lines@[k - 1] == before[k - 1]);
                    }
                    if k == before.len() - 1 {
                        assert(before.last() == before[k]);
                    }
                } else {
                    if k > 0 {
                        assert(lines@[k - 1] == before.last());
                    }
                }
            }
        }
    } else {
        assert(text@.subrange(0, begin as int) == text@);
    }
    proof {
        lemma_line_split_ordered(text@, lines@);
    }
    lines
}

/// A span of the old text and the span of the new text that takes its place.
#[derive(Debug, Clone, Copy, PartialEq, Eq, Structural)]
pub struct Replacement {
    pub old: usize,
    pub old_len: usize,
    pub new: usize,
    pub new_len: usize,
}

/// The list of replacements that a diff algorithm reports, in the order in
/// which it reports them.
#[derive(Debug)]
pub struct D {
    pub r: Vec<Replacement>,
    pub stop_early: bool,
}

/// What a sink that stops at the first report keeps of a script: its first
/// entry. A sink that does not stop keeps all of it.
pub open spec fn emitted(script: Seq<Replacement>, stop_early: bool) -> Seq<Replacement> {
    if stop_early && script.len() > 1 {
        script.take(1)
    } else {
        script
    }
}

/// The replacements follow each other in the old text: each begins after the
/// preceding one begins, and not before it ends.
pub open spec fn replacements_ordered(r: Seq<Replacement>) -> bool {
    forall|i: int, j: int|
        0 <= i < j < r.len() ==> (#[trigger] r[i]).old < (#[trigger] r[j]).old && r[i].old
            + r[i].old_len <= r[j].old
}

/// Replacement `k` deletes line `line` of the old text.
pub open spec fn covers(r: Seq<Replacement>, k: int, line: int) -> bool {
    0 <= k < r.len() && r[k].old <= line < r[k].old + r[k].old_len
}

impl D {
    pub open spec fn ordered(&self) -> bool {
        replacements_ordered(self.r@)
    }

    pub fn len(&self) -> (n: usize)
        ensures
            n == self.r@.len(),
    {
        self.r.len()
    }

    /// Tells whether the replacements are in the order that `is_deleted` relies on.
    pub fn is_ordered(&self) -> (b: bool)
        ensures
            b == self.ordered(),
    {
        let n = self.r.len();
        if n < 2 {
            return true;
        }
        let mut i: usize = 1;
        while i < n
            invariant
                1 <= i <= n,
                n == self.r@.len(),
                forall|k: int|
                    1 <= k < i ==> (#[trigger] self.r@[k - 1]).old < self.r@[k].old && self.r@[k
                        - 1].old + self.r@[k - 1].old_len <= self.r@[k].old,
            decreases n - i,
        {
            let prev = self.r[i - 1];
            let cur = self.r[i];
            if prev.old >= cur.old || cur.old - prev.old < prev.old_len {
                assert(!(self.r@[i - 1].old < self.r@[i as int].old && self.r@[i - 1].old
                    + self.r@[i - 1].old_len <= self.r@[i as int].old));
                return false;
            }
            i = i + 1;
        }
        proof {
            assert forall|a: int, b: int| 0 <= a < b < self.r@.len() implies (
            #[trigger] self.r@[a]).old < (#[trigger] self.r@[b]).old && self.r@[a].old
                + self.r@[a].old_len <= self.r@[b].old by {
                lemma_adjacent_order(self.r@, a, b);
            }
        }
        true
    }
}

proof fn lemma_adjacent_order(r: Seq<Replacement>, a: int, b: int)
    requires
        0 <= a < b < r.len(),
        forall|k: int|
            1 <= k < r.len() ==> (#[trigger] r[k - 1]).old < r[k].old && r[k - 1].old + r[k
                - 1].old_len <= r[k].old,
    ensures
        r[a].old < r[b].old,
        r[a].old + r[a].old_len <= r[b].old,
    decreases b - a,
{
    assert(r[b - 1].old < r[b].old && r[b - 1].old + r[b - 1].old_len <= r[b].old);
    if a < b - 1 {
        lemma_adjacent_order(r, a, b - 1);
    }
}


impl core::ops::Index<usize> for D {
    type Output = Replacement;

    fn index(&self, i: usize) -> (res: &Replacement)
        ensures
            *res == self.r@[i as int],
    {
        &self.r[i]
    }
}

impl vstd::std_specs::core::IndexSpecImpl<usize> for D {
    open spec fn index_req(&self, index: &usize) -> bool {
        *index < self.r@.len()
    }
}

/// The length that std gives a range of `u32`: nothing where it is empty.
pub open spec fn range_len(r: Range<u32>) -> int {
    if r.start < r.end {
        r.end - r.start
    } else {
        0
    }
}

/// With these impls a `D` is what the outside diff algorithms report into.
/// Each report appends one replacement; a `D` that stops early answers the
/// report with an error, which makes the algorithm return at once.
impl diffs::Diff for D {
    type Error = ();

    fn delete(&mut self, pos: usize, old_len: usize, new: usize) -> (res: Result<(), ()>)
        ensures
            final(self).stop_early == old(self).stop_early,
            final(self).r@ == old(self).r@.push(
                Replacement { old: pos, old_len, new, new_len: 0 },
            ),
            res.is_err() == old(self).stop_early,
    {
        self.r.push(Replacement { old: pos, old_len, new, new_len: 0 });
        if self.stop_early {
            Err(())
        } else {
            Ok(())
        }
    }

    fn insert(&mut self, pos: usize, new: usize, new_len: usize) -> (res: Result<(), ()>)
        ensures
            final(self).stop_early == old(self).stop_early,
            final(self).r@ == old(self).r@.push(
                Replacement { old: pos, old_len: 0, new, new_len },
            ),
            res.is_err() == old(self).stop_early,
    {
        self.r.push(Replacement { old: pos, old_len: 0, new, new_len });
        if self.stop_early {
            Err(())
        } else {
            Ok(())
        }
    }

    fn replace(&mut self, pos: usize, old_len: usize, new: usize, new_len: usize) -> (res: Result<
        (),
        (),
    >)
        ensures
            final(self).stop_early == old(self).stop_early,
            final(self).r@ == old(self).r@.push(Replacement { old: pos, old_len, new, new_len }),
            res.is_err() == old(self).stop_early,
    {
        self.r.push(Replacement { old: pos, old_len, new, new_len });
        if self.stop_early {
            Err(())
        } else {
            Ok(())
        }
    }
}

impl imara_diff::Sink for D {
    type Out = D;

    fn process_change(&mut self, before: Range<u32>, after: Range<u32>)
        ensures
            final(self).stop_early == old(self).stop_early,
            final(self).r@ == old(self).r@.push(
                Replacement {
                    old: before.start as usize,
                    old_len: range_len(before) as usize,
                    new: after.start as usize,
                    new_len: range_len(after) as usize,
                },
            ),
    {
        let old_len: u32 = if before.start < before.end {
            before.end - before.start
        } else {
            0
        };
        let new_len: u32 = if after.start < after.end {
            after.end - after.start
        } else {
            0
        };
        self.r.push(
            Replacement {
                old: before.start as usize,
                old_len: old_len as usize,
                new: after.start as usize,
                new_len: new_len as usize,
            },
        );
    }

    fn finish(self) -> (res: D)
        ensures
            res == self,
    {
        self
    }
}

/// The replacements that Myers' algorithm of the `diffs` crate reports, through
/// the crate's `Replace` adapter, for two token sequences.
pub uninterp spec fn myers_script(a: Seq<Seq<u8>>, b: Seq<Seq<u8>>) -> Seq<Replacement>;

/// The replacements that the patience algorithm of the `diffs` crate reports,
/// through the crate's `Replace` adapter, for two token sequences.
pub uninterp spec fn patience_script(a: Seq<Seq<u8>>, b: Seq<Seq<u8>>) -> Seq<Replacement>;

/// The changes that the histogram algorithm of the `imara-diff` crate reports
/// for two token sequences, each range given by its start and its length.
pub uninterp spec fn histogram_script(a: Seq<Seq<u8>>, b: Seq<Seq<u8>>) -> Seq<Replacement>;

/// What `imara-diff` documents of the changes it reports: they lie inside the
/// two sequences, and each begins strictly after the preceding one ends, on
/// both sides.
pub open spec fn strictly_increasing(r: Seq<Replacement>, a_len: int, b_len: int) -> bool {
    &&& forall|i: int|
        0 <= i < r.len() ==> (#[trigger] r[i]).old + r[i].old_len <= a_len && r[i].new
            + r[i].new_len <= b_len
    &&& forall|i: int, j: int|
        0 <= i < j < r.len() ==> (#[trigger] r[i]).old + r[i].old_len < (#[trigger] r[j]).old
            && r[i].new + r[i].new_len < r[j].new
}

/// The tokens that come of the old tokens `a`, from `pos` on, when the
/// replacements are made one after the other: what stands before a
/// replacement stays, the old span of the replacement goes, and the new span,
/// which is taken from `b`, comes in its place.
pub open spec fn patched_from(
    a: Seq<Seq<u8>>,
    b: Seq<Seq<u8>>,
    r: Seq<Replacement>,
    pos: int,
) -> Seq<Seq<u8>>
    decreases r.len(),
{
    if r.len() == 0 {
        a.skip(pos)
    } else {
        a.subrange(pos, r[0].old as int) + b.subrange(r[0].new as int, r[0].new + r[0].new_len)
            + patched_from(a, b, r.skip(1), r[0].old + r[0].old_len)
    }
}

/// The tokens that come of the old tokens `a` when the replacements are made.
pub open spec fn patched(a: Seq<Seq<u8>>, b: Seq<Seq<u8>>, r: Seq<Replacement>) -> Seq<Seq<u8>> {
    patched_from(a, b, r, 0)
}

/// The replacements can be made on `a_len` old tokens with `b_len` new ones,
/// from `pos` on: each begins where the one before it ends, or later, and
/// their spans lie within the two sequences.
pub open spec fn applicable_from(r: Seq<Replacement>, a_len: int, b_len: int, pos: int) -> bool
    decreases r.len(),
{
    if r.len() == 0 {
        pos <= a_len
    } else {
        &&& pos <= r[0].old
        &&& r[0].old + r[0].old_len <= a_len
        &&& r[0].new + r[0].new_len <= b_len
        &&& applicable_from(r.skip(1), a_len, b_len, r[0].old + r[0].old_len)
    }
}

proof fn lemma_increasing_applicable(r: Seq<Replacement>, a_len: int, b_len: int, pos: int)
    requires
        strictly_increasing(r, a_len, b_len),
        0 <= pos <= a_len,
        r.len() > 0 ==> pos <= r[0].old,
    ensures
        applicable_from(r, a_len, b_len, pos),
    decreases r.len(),
{
    if r.len() > 0 {
        let rest = r.skip(1);
        assert forall|i: int| 0 <= i < rest.len() implies (#[trigger] rest[i]).old + rest[i].old_len
            <= a_len && rest[i].new + rest[i].new_len <= b_len by {
            assert(rest[i] == r[i + 1]);
        }
        assert forall|i: int, j: int| 0 <= i < j < rest.len() implies (#[trigger] rest[i]).old
            + rest[i].old_len < (#[trigger] rest[j]).old && rest[i].new + rest[i].new_len
            < rest[j].new by {
            assert(rest[i] == r[i + 1] && rest[j] == r[j + 1]);
        }
        if rest.len() > 0 {
            assert(rest[0] == r[1]);
            assert(r[0].old + r[0].old_len < r[1].old);
        }
        lemma_increasing_applicable(rest, a_len, b_len, r[0].old + r[0].old_len);
    }
}

impl D {
    /// Makes the replacements on the old lines, with the new lines taken
    /// from `lines_b`, if they can be made.
    pub fn apply<'a>(&self, lines_a: &[Line<'a>], lines_b: &[Line<'a>]) -> (res: Option<
        Vec<Line<'a>>,
    >)
        ensures
            res is Some <==> applicable_from(
                self.r@,
                lines_a@.len() as int,
                lines_b@.len() as int,
                0,
            ),
            res matches Some(lines) ==> tokens(lines@) == patched(
                tokens(lines_a@),
                tokens(lines_b@),
                self.r@,
            ),
    {
        let ghost a = tokens(lines_a@);
        let ghost b = tokens(lines_b@);
        let mut out: Vec<Line<'a>> = Vec::new();
        let mut pos: usize = 0;
        let mut i: usize = 0;
        proof {
            assert(self.r@.skip(0) == self.r@);
            assert(tokens(out@) =~= Seq::<Seq<u8>>::empty());
            assert(Seq::<Seq<u8>>::empty() + patched_from(a, b, self.r@, 0) == patched_from(
                a,
                b,
                self.r@,
                0,
            ));
        }
        while i < self.r.len()
            invariant
                0 <= i <= self.r@.len(),
                0 <= pos <= lines_a@.len(),
                a == tokens(lines_a@),
                b == tokens(lines_b@),
                applicable_from(self.r@, lines_a@.len() as int, lines_b@.len() as int, 0)
                    == applicable_from(
                    self.r@.skip(i as int),
                    lines_a@.len() as int,
                    lines_b@.len() as int,
                    pos as int,
                ),
                patched(a, b, self.r@) == tokens(out@) + patched_from(
                    a,
                    b,
                    self.r@.skip(i as int),
                    pos as int,
                ),
            decreases self.r@.len() - i,
        {
            let x = self.r[i];
            proof {
                let rest = self.r@.skip(i as int);
                assert(rest[0] == x);
                assert(rest.skip(1) == self.r@.skip(i + 1));
            }
            if x.old < pos || x.old > lines_a.len() || x.old_len > lines_a.len() - x.old
                || x.new > lines_b.len() || x.new_len > lines_b.len() - x.new {
                return None;
            }
            let ghost before = tokens(out@);
            let new_end: usize = x.new + x.new_len;
            let old_end: usize = x.old + x.old_len;
            let mut k: usize = pos;
            while k < x.old
                invariant
                    pos <= k <= x.old <= lines_a@.len(),
                    new_end == x.new + x.new_len,
                    new_end <= lines_b@.len(),
                    old_end == x.old + x.old_len,
                    old_end <= lines_a@.len(),
                    a == tokens(lines_a@),
                    tokens(out@) == before + a.subrange(pos as int, k as int),
                decreases x.old - k,
            {
                let ghost prev = tokens(out@);
                out.push(lines_a[k]);
                proof {
                    assert(tokens(out@) =~= prev.push(a[k as int]));
                    assert(a.subrange(pos as int, k + 1) == a.subrange(pos as int, k as int).push(
                        a[k as int],
                    ));
                }
                k = k + 1;
            }
            let ghost kept = tokens(out@);
            let mut m: usize = x.new;
            while m < new_end
                invariant
                    x.new <= m <= new_end <= lines_b@.len(),
                    new_end == x.new + x.new_len,
                    old_end == x.old + x.old_len,
                    old_end <= lines_a@.len(),
                    b == tokens(lines_b@),
                    tokens(out@) == kept + b.subrange(x.new as int, m as int),
                decreases new_end - m,
            {
                let ghost prev = tokens(out@);
                out.push(lines_b[m]);
                proof {
                    assert(tokens(out@) =~= prev.push(b[m as int]));
                    assert(b.subrange(x.new as int, m + 1) == b.subrange(x.new as int, m as int).push(
                        b[m as int],
                    ));
                }
                m = m + 1;
            }
            proof {
                let tail = patched_from(a, b, self.r@.skip(i + 1), x.old + x.old_len);
                assert(before + (a.subrange(pos as int, x.old as int) + b.subrange(
                    x.new as int,
                    x.new + x.new_len,
                ) + tail) == before + a.subrange(pos as int, x.old as int) + b.subrange(
                    x.new as int,
                    x.new + x.new_len,
                ) + tail);
            }
            pos = old_end;
            i = i + 1;
        }
        let ghost before = tokens(out@);
        let mut k: usize = pos;
        while k < lines_a.len()
            invariant
                pos <= k <= lines_a@.len(),
                a == tokens(lines_a@),
                tokens(out@) == before + a.subrange(pos as int, k as int),
            decreases lines_a@.len() - k,
        {
            let ghost prev = tokens(out@);
            out.push(lines_a[k]);
            proof {
                assert(tokens(out@) =~= prev.push(a[k as int]));
                assert(a.subrange(pos as int, k + 1) == a.subrange(pos as int, k as int).push(
                    a[k as int],
                ));
            }
            k = k + 1;
        }
        proof {
            assert(self.r@.skip(self.r@.len() as int).len() == 0);
            assert(a.subrange(pos as int, a.len() as int) == a.skip(pos as int));
        }
        Some(out)
    }
}

/// Calls `diffs::myers::diff` on the lines' bytes, with `d` behind a
/// `diffs::Replace`. Trusted: `d` comes back with the reports appended that
/// the algorithm makes for these tokens, cut after the first one where `d`
/// stops early (its answer to a report is the only thing of `d` that the
/// algorithm reads).
#[verifier::external_body]
fn run_myers(d: D, a: &[Line], b: &[Line]) -> (res: D)
    ensures
        res.stop_early == d.stop_early,
        res.r@ == d.r@ + emitted(myers_script(tokens(a@), tokens(b@)), d.stop_early),
{
    let ta: Vec<&[u8]> = a.iter().map(|line| line.l).collect();
    let tb: Vec<&[u8]> = b.iter().map(|line| line.l).collect();
    let mut dd = diffs::Replace::new(d);
    diffs::myers::diff(&mut dd, &ta[..], 0, ta.len(), &tb[..], 0, tb.len()).unwrap_or(());
    dd.into_inner()
}

/// Calls `diffs::patience::diff` on the lines' bytes, with `d` behind a
/// `diffs::Replace`. Trusted in the same way as the call of Myers' algorithm.
#[verifier::external_body]
fn run_patience(d: D, a: &[Line], b: &[Line]) -> (res: D)
    ensures
        res.stop_early == d.stop_early,
        res.r@ == d.r@ + emitted(patience_script(tokens(a@), tokens(b@)), d.stop_early),
{
    let ta: Vec<&[u8]> = a.iter().map(|line| line.l).collect();
    let tb: Vec<&[u8]> = b.iter().map(|line| line.l).collect();
    let mut dd = diffs::Replace::new(d);
    diffs::patience::diff(&mut dd, &ta[..], 0, ta.len(), &tb[..], 0, tb.len()).unwrap_or(());
    dd.into_inner()
}

/// Interns the lines' bytes and calls `imara_diff::diff` with the histogram
/// algorithm and `d` as the sink. Trusted: `d` comes back with the reported
/// changes appended, which are ordered as the crate documents, and which
/// make the second sequence of the first, as the crate documents too. The
/// crate refuses sequences of `i32::MAX` tokens or more.
#[verifier::external_body]
fn run_histogram(d: D, a: &[Line], b: &[Line]) -> (res: D)
    requires
        a@.len() < i32::MAX,
        b@.len() < i32::MAX,
    ensures
        res.stop_early == d.stop_early,
        res.r@ == d.r@ + histogram_script(tokens(a@), tokens(b@)),
        strictly_increasing(
            res.r@.subrange(d.r@.len() as int, res.r@.len() as int),
            a@.len() as int,
            b@.len() as int,
        ),
        patched(
            tokens(a@),
            tokens(b@),
            res.r@.subrange(d.r@.len() as int, res.r@.len() as int),
        ) == tokens(b@),
{
    let mut input = imara_diff::intern::InternedInput::default();
    input.update_before(a.iter().map(|line| line.l));
    input.update_after(b.iter().map(|line| line.l));
    imara_diff::diff(imara_diff::Algorithm::Histogram, &input, d)
}

/// The replacement list that `diff` returns.
pub open spec fn diff_script(
    a: Seq<Seq<u8>>,
    b: Seq<Seq<u8>>,
    algorithm: Algorithm,
    stop_early: bool,
) -> Seq<Replacement> {
    match algorithm {
        Algorithm::Myers => emitted(myers_script(a, b), stop_early),
        Algorithm::Patience => emitted(patience_script(a, b), stop_early),
        Algorithm::ImaraHistogram => histogram_script(a, b),
    }
}

/// Diffs two sequences of lines with the chosen algorithm. With `stop_early`
/// the Myers and patience algorithms are stopped at their first report, so the
/// result tells only whether the sequences differ, and where first.
pub fn diff(lines_a: &[Line], lines_b: &[Line], algorithm: Algorithm, stop_early: bool) -> (res: D)
    requires
        algorithm == Algorithm::ImaraHistogram ==> lines_a@.len() < i32::MAX && lines_b@.len()
            < i32::MAX,
    ensures
        res.stop_early == stop_early,
        res.r@ == diff_script(tokens(lines_a@), tokens(lines_b@), algorithm, stop_early),
        algorithm == Algorithm::ImaraHistogram ==> res.ordered() && strictly_increasing(
            res.r@,
            lines_a@.len() as int,
            lines_b@.len() as int,
        ),
        stop_early && algorithm != Algorithm::ImaraHistogram ==> res.r@.len() <= 1,
        algorithm == Algorithm::ImaraHistogram ==> applicable_from(
            res.r@,
            lines_a@.len() as int,
            lines_b@.len() as int,
            0,
        ) && patched(tokens(lines_a@), tokens(lines_b@), res.r@) == tokens(lines_b@),
{
    let result = D { r: Vec::new(), stop_early };
    match algorithm {
        Algorithm::Patience => run_patience(result, lines_a, lines_b),
        Algorithm::Myers => run_myers(result, lines_a, lines_b),
        Algorithm::ImaraHistogram => {
            let res = run_histogram(result, lines_a, lines_b);
            proof {
                assert(res.r@.subrange(0, res.r@.len() as int) == res.r@);
                lemma_increasing_applicable(
                    res.r@,
                    lines_a@.len() as int,
                    lines_b@.len() as int,
                    0,
                );
            }
            res
        },
    }
}

/// The index of the line that begins `pos_bytes` after the first line.
pub fn line_index(lines_a: &[Line], pos_bytes: usize) -> (i: usize)
    requires
        lines_ordered(lines_a@),
        is_line_start(lines_a@, pos_bytes as int),
    ensures
        i < lines_a@.len(),
        line_offset(lines_a@, i as int) == pos_bytes,
{
    let base = lines_a[0].start;
    let ghost target = choose|t: int|
        0 <= t < lines_a@.len() && #[trigger] line_offset(lines_a@, t) == pos_bytes;
    let mut lo: usize = 0;
    let mut hi: usize = lines_a.len();
    loop
        invariant
            0 <= lo <= target < hi <= lines_a@.len(),
            base == lines_a@[0].start,
            lines_ordered(lines_a@),
            line_offset(lines_a@, target) == pos_bytes,
        decreases hi - lo,
    {
        let mid = lo + (hi - lo) / 2;
        proof {
            if mid > 0 {
                assert(lines_a@[0].start < lines_a@[mid as int].start);
            }
        }
        let offset = lines_a[mid].start - base;
        if offset == pos_bytes {
            return mid;
        } else if offset < pos_bytes {
            proof {
                if target < mid {
                    assert(lines_a@[target].start < lines_a@[mid as int].start);
                }
            }
            lo = mid + 1;
        } else {
            proof {
                if target > mid {
                    assert(lines_a@[mid as int].start < lines_a@[target].start);
                }
            }
            hi = mid;
        }
    }
}

/// What became of a line of the old text that a replacement deletes.
pub struct Deleted {
    pub replaced: bool,
    pub next: usize,
}

impl D {
    /// Looks up the line of `lines_a` that begins at `pos`. Where a
    /// replacement deletes it, tells whether that replacement also inserts
    /// something, and where the following line begins.
    pub fn is_deleted(&self, lines_a: &[Line], pos: usize) -> (res: Option<Deleted>)
        requires
            self.ordered(),
            lines_ordered(lines_a@),
            is_line_start(lines_a@, pos as int),
        ensures
            res.is_some() <==> exists|k: int, line: int|
                0 <= line < lines_a@.len() && line_offset(lines_a@, line) == pos && covers(
                    self.r@,
                    k,
                    line,
                ),
            forall|k: int, line: int|
                0 <= line < lines_a@.len() && line_offset(lines_a@, line) == pos && covers(
                    self.r@,
                    k,
                    line,
                ) ==> res == Some(
                    Deleted {
                        replaced: self.r@[k].new_len > 0,
                        next: (pos + lines_a@[line].l@.len()) as usize,
                    },
                ),
    {
        let line = line_index(lines_a, pos);
        proof {
            assert forall|other: int|
                0 <= other < lines_a@.len() && line_offset(lines_a@, other) == pos implies other
                == line by {
                if other < line {
                    assert(lines_a@[other].start < lines_a@[line as int].start);
                }
                if other > line {
                    assert(lines_a@[line as int].start < lines_a@[other].start);
                }
            }
            if line > 0 {
                assert(lines_a@[0].start < lines_a@[line as int].start);
            }
            assert(lines_a@[line as int].start + lines_a@[line as int].l@.len() <= usize::MAX);
        }
        // the number of replacements that begin at or before `line`
        let mut lo: usize = 0;
        let mut hi: usize = self.r.len();
        while lo < hi
            invariant
                0 <= lo <= hi <= self.r@.len(),
                self.ordered(),
                forall|k: int| 0 <= k < lo ==> (#[trigger] self.r@[k]).old <= line,
                forall|k: int| hi <= k < self.r@.len() ==> (#[trigger] self.r@[k]).old > line,
            decreases hi - lo,
        {
            let mid = lo + (hi - lo) / 2;
            if self.r[mid].old <= line {
                proof {
                    assert forall|k: int| 0 <= k < mid + 1 implies (#[trigger] self.r@[k]).old
                        <= line by {
                        if k < mid {
                            assert(self.r@[k].old < self.r@[mid as int].old);
                        }
                    }
                }
                lo = mid + 1;
            } else {
                proof {
                    assert forall|k: int| mid <= k < self.r@.len() implies (
                    #[trigger] self.r@[k]).old > line by {
                        if k > mid {
                            assert(self.r@[mid as int].old < self.r@[k].old);
                        }
                    }
                }
                hi = mid;
            }
        }
        if lo == 0 {
            return None;
        }
        let last = self.r[lo - 1];
        proof {
            assert forall|k: int| covers(self.r@, k, line as int) implies k == lo - 1 by {
                if k < lo - 1 {
                    assert(self.r@[k].old + self.r@[k].old_len <= self.r@[lo - 1].old);
                }
            }
        }
        if line - last.old < last.old_len {
            assert(covers(self.r@, lo - 1, line as int));
            Some(Deleted { replaced: last.new_len > 0, next: pos + lines_a[line].l.len() })
        } else {
            None
        }
    }
}

} // verus!
