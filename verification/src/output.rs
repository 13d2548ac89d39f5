//! How conflicts are shown in the text of a file, and where the files of
//! changes and tags are kept.

use crate::changes;
use vstd::prelude::*;

verus! {

/// One side of a conflict: the change that wrote it, and what it wrote.
#[derive(Debug)]
pub struct Side {
    pub change: changes::ChangeId,
    pub bytes: Vec<u8>,
}

/// The line that opens a conflict.
pub open spec fn opening() -> Seq<u8> {
    seq![62u8, 62u8, 62u8, 62u8, 62u8, 62u8, 62u8, 32u8, 49u8, 10u8]
}

/// The line that stands between two sides of a conflict.
pub open spec fn separator() -> Seq<u8> {
    seq![61u8, 61u8, 61u8, 61u8, 61u8, 61u8, 61u8, 10u8]
}

/// The line that closes a conflict.
pub open spec fn closing() -> Seq<u8> {
    seq![60u8, 60u8, 60u8, 60u8, 60u8, 60u8, 60u8, 10u8]
}

/// The sides of a conflict one after the other, with a separator before
/// each but the first.
pub open spec fn sides_text(sides: Seq<Side>) -> Seq<u8>
    decreases sides.len(),
{
    if sides.len() == 0 {
        Seq::empty()
    } else if sides.len() == 1 {
        sides[0].bytes@
    } else {
        sides_text(sides.drop_last()) + separator() + sides.last().bytes@
    }
}

/// A conflict as it is shown: `>>>>>>> 1`, the sides with `=======` between
/// them, and `<<<<<<<`, each marker on a line of its own.
pub open spec fn block_text(sides: Seq<Side>) -> Seq<u8> {
    opening() + sides_text(sides) + closing()
}

fn push_all(out: &mut Vec<u8>, bytes: &[u8])
    ensures
        final(out)@ == old(out)@ + bytes@,
{
    let mut i: usize = 0;
    assert(old(out)@ + bytes@.take(0) == old(out)@);
    while i < bytes.len()
        invariant
            0 <= i <= bytes@.len(),
            out@ == old(out)@ + bytes@.take(i as int),
        decreases bytes@.len() - i,
    {
        out.push(bytes[i]);
        assert(bytes@.take(i + 1) == bytes@.take(i as int).push(bytes@[i as int]));
        i = i + 1;
    }
    assert(bytes@.take(bytes@.len() as int) == bytes@);
}

fn push_marker(out: &mut Vec<u8>, mark: u8, numbered: bool)
    ensures
        final(out)@ == old(out)@ + seq![mark, mark, mark, mark, mark, mark, mark] + (if numbered {
            seq![32u8, 49u8, 10u8]
        } else {
            seq![10u8]
        }),
{
    let mut i: usize = 0;
    while i < 7
        invariant
            0 <= i <= 7,
            out@ == old(out)@ + Seq::new(i as nat, |k: int| mark),
        decreases 7 - i,
    {
        out.push(mark);
        assert(Seq::new((i + 1) as nat, |k: int| mark) == Seq::new(i as nat, |k: int| mark).push(
            mark,
        ));
        i = i + 1;
    }
    assert(Seq::new(7, |k: int| mark) == seq![mark, mark, mark, mark, mark, mark, mark]);
    if numbered {
        out.push(32u8);
        out.push(49u8);
    }
    out.push(10u8);
    assert(out@ == old(out)@ + seq![mark, mark, mark, mark, mark, mark, mark] + (if numbered {
        seq![32u8, 49u8, 10u8]
    } else {
        seq![10u8]
    }));
}

/// Shows a conflict with its sides in the order in which they are given. A
/// conflict of one side shows lines that are alive and hang on deleted ones.
pub fn conflict_block(sides: &[Side]) -> (res: Vec<u8>)
    ensures
        res@ == block_text(sides@),
{
    let mut out: Vec<u8> = Vec::new();
    push_marker(&mut out, 62u8, true);
    assert(out@ == opening());
    let mut i: usize = 0;
    assert(sides@.take(0) == Seq::<Side>::empty());
    assert(out@ + Seq::<u8>::empty() == out@);
    while i < sides.len()
        invariant
            0 <= i <= sides@.len(),
            out@ == opening() + sides_text(sides@.take(i as int)),
        decreases sides@.len() - i,
    {
        let ghost before = out@;
        if i > 0 {
            push_marker(&mut out, 61u8, false);
        }
        push_all(&mut out, sides[i].bytes.as_slice());
        proof {
            let upto = sides@.take(i + 1);
            assert(upto.drop_last() == sides@.take(i as int));
            assert(upto.last() == sides@[i as int]);
            if i == 0 {
                assert(upto[0] == sides@[0]);
                assert(sides_text(sides@.take(0)) == Seq::<u8>::empty());
                assert(opening() + Seq::<u8>::empty() == opening());
            } else {
                assert(opening() + sides_text(sides@.take(i as int)) + separator()
                    + sides@[i as int].bytes@ == opening() + (sides_text(sides@.take(i as int))
                    + separator() + sides@[i as int].bytes@));
            }
        }
        i = i + 1;
    }
    assert(sides@.take(sides@.len() as int) == sides@);
    push_marker(&mut out, 60u8, false);
    out
}

/// Shows a conflict of two sides, the side of the change with the lower
/// number first.
pub fn conflict_of_two(a: Side, b: Side) -> (res: Vec<u8>)
    ensures
        res@ == (if b.change.0 < a.change.0 {
            block_text(seq![b, a])
        } else {
            block_text(seq![a, b])
        }),
{
    let mut sides: Vec<Side> = Vec::new();
    if b.change.0 < a.change.0 {
        sides.push(b);
        sides.push(a);
        assert(sides@ == seq![b, a]);
    } else {
        sides.push(a);
        sides.push(b);
        assert(sides@ == seq![a, b]);
    }
    conflict_block(sides.as_slice())
}

/// What a file in the store of changes holds.
#[derive(Debug, Clone, Copy, PartialEq, Eq, Structural)]
pub enum BlobKind {
    Change,
    Tag,
}

/// The suffix of the name of a file in the store of changes.
pub open spec fn suffix(kind: BlobKind) -> Seq<char> {
    match kind {
        BlobKind::Change => ".change"@,
        BlobKind::Tag => ".tag"@,
    }
}

/// Where a change or a tag is kept, given the base-32 text of its hash: in
/// the directory named by the first two characters of the text, in the file
/// named by the others, with the suffix of its kind. A text of fewer than
/// two characters names no place.
pub fn blob_path(hash_text: &str, kind: BlobKind) -> (res: Option<(String, String)>)
    ensures
        res is Some <==> hash_text@.len() >= 2,
        res matches Some((dir, file)) ==> dir@ == hash_text@.take(2) && file@ == hash_text@.skip(2)
            + suffix(kind),
{
    let n = hash_text.unicode_len();
    if n < 2 {
        return None;
    }
    let dir = hash_text.substring_char(0, 2);
    let rest = hash_text.substring_char(2, n);
    proof {
        assert(dir@ == hash_text@.take(2));
        assert(rest@ == hash_text@.skip(2));
    }
    let file = match kind {
        BlobKind::Change => crate::text::join2(rest, ".change"),
        BlobKind::Tag => crate::text::join2(rest, ".tag"),
    };
    Some((dir.to_owned(), file))
}

/// The changes of `theirs` that `ours` lacks, in the order of `theirs`.
pub open spec fn lacking(theirs: Seq<changes::Hash>, ours: Seq<changes::Hash>) -> Seq<changes::Hash>
    decreases theirs.len(),
{
    if theirs.len() == 0 {
        Seq::empty()
    } else if ours.contains(theirs.last()) {
        lacking(theirs.drop_last(), ours)
    } else {
        lacking(theirs.drop_last(), ours).push(theirs.last())
    }
}

/// Tells which changes of the other side are to be transferred: those that
/// this side lacks.
pub fn missing_changes(theirs: &[changes::Hash], ours: &[changes::Hash]) -> (res: Vec<changes::Hash>)
    ensures
        res@ == lacking(theirs@, ours@),
{
    let mut out: Vec<changes::Hash> = Vec::new();
    let mut i: usize = 0;
    assert(theirs@.take(0) == Seq::<changes::Hash>::empty());
    while i < theirs.len()
        invariant
            0 <= i <= theirs@.len(),
            out@ == lacking(theirs@.take(i as int), ours@),
        decreases theirs@.len() - i,
    {
        let h = theirs[i];
        let mut found = false;
        let mut k: usize = 0;
        while k < ours.len() && !found
            invariant
                0 <= k <= ours@.len(),
                found ==> ours@.contains(h),
                !found ==> forall|m: int| 0 <= m < k ==> ours@[m] != h,
            decreases ours@.len() - k + (if found { 0int } else { 1int }),
        {
            if ours[k] == h {
                found = true;
            } else {
                k = k + 1;
            }
        }
        proof {
            assert(theirs@.take(i + 1).drop_last() == theirs@.take(i as int));
            assert(theirs@.take(i + 1).last() == h);
        }
        if !found {
            out.push(h);
        }
        i = i + 1;
    }
    assert(theirs@.take(theirs@.len() as int) == theirs@);
    out
}

} // verus!
