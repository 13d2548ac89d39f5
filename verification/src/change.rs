//! The file of a change: what a change holds, and the canonical bytes in
//! which it is kept. The hash of a change is taken over these bytes.
//!
//! A file begins with the number of its format. The header of the change
//! follows, then the changes it depends on, the changes it knows of, its
//! hunks, and its contents. Numbers are written in eight bytes, the least
//! significant first; a hash in thirty-two bytes; a run of bytes after its
//! length; a list after the number of its entries.

use crate::changes;
use vstd::bytes::{
    lemma_auto_spec_u128_to_from_le_bytes, lemma_auto_spec_u64_to_from_le_bytes,
    spec_u128_from_le_bytes, spec_u128_to_le_bytes, spec_u64_from_le_bytes, spec_u64_to_le_bytes,
    u128_from_le_bytes, u128_to_le_bytes, u64_from_le_bytes, u64_to_le_bytes,
};
use vstd::prelude::*;
use vstd::slice::slice_subrange;

verus! {

/// The number of the format of the files.
pub const VERSION: u64 = 1;

/// Who made a change, and what for.
#[derive(Debug)]
pub struct ChangeHeader {
    /// The authors, each as the bytes under which the author is known.
    pub authors: Vec<Vec<u8>>,
    pub message: Vec<u8>,
    pub description: Option<Vec<u8>>,
    /// The time at which the change was made, in seconds.
    pub timestamp: u64,
}

/// A change: its header, the changes it depends on, the changes it knows of
/// without depending on them, its hunks, each in its own bytes, and the
/// bytes that its hunks bring in.
#[derive(Debug)]
pub struct Change {
    pub header: ChangeHeader,
    pub dependencies: Vec<changes::Hash>,
    pub extra_known: Vec<changes::Hash>,
    pub hashed: Vec<Vec<u8>>,
    pub contents: Vec<u8>,
}

pub struct ChangeHeaderView {
    pub authors: Seq<Seq<u8>>,
    pub message: Seq<u8>,
    pub description: Option<Seq<u8>>,
    pub timestamp: u64,
}

pub struct ChangeView {
    pub header: ChangeHeaderView,
    pub dependencies: Seq<changes::Hash>,
    pub extra_known: Seq<changes::Hash>,
    pub hashed: Seq<Seq<u8>>,
    pub contents: Seq<u8>,
}

pub open spec fn blocks(list: Seq<Vec<u8>>) -> Seq<Seq<u8>> {
    Seq::new(list.len(), |i: int| list[i]@)
}

pub open spec fn opt_bytes(o: Option<Vec<u8>>) -> Option<Seq<u8>> {
    match o {
        Some(b) => Some(b@),
        None => None,
    }
}

impl View for ChangeHeader {
    type V = ChangeHeaderView;

    open spec fn view(&self) -> ChangeHeaderView {
        ChangeHeaderView {
            authors: blocks(self.authors@),
            message: self.message@,
            description: opt_bytes(self.description),
            timestamp: self.timestamp,
        }
    }
}

impl View for Change {
    type V = ChangeView;

    open spec fn view(&self) -> ChangeView {
        ChangeView {
            header: self.header@,
            dependencies: self.dependencies@,
            extra_known: self.extra_known@,
            hashed: blocks(self.hashed@),
            contents: self.contents@,
        }
    }
}

// How the parts of a change are written.

pub open spec fn ser_u64(v: u64) -> Seq<u8> {
    spec_u64_to_le_bytes(v)
}

pub open spec fn ser_bytes(b: Seq<u8>) -> Seq<u8> {
    ser_u64(b.len() as u64) + b
}

pub open spec fn ser_hash(h: changes::Hash) -> Seq<u8> {
    spec_u128_to_le_bytes(h.0) + spec_u128_to_le_bytes(h.1)
}

pub open spec fn flat_hashes(list: Seq<changes::Hash>) -> Seq<u8>
    decreases list.len(),
{
    if list.len() == 0 {
        Seq::empty()
    } else {
        ser_hash(list[0]) + flat_hashes(list.skip(1))
    }
}

pub open spec fn ser_hashes(list: Seq<changes::Hash>) -> Seq<u8> {
    ser_u64(list.len() as u64) + flat_hashes(list)
}

pub open spec fn flat_blocks(list: Seq<Seq<u8>>) -> Seq<u8>
    decreases list.len(),
{
    if list.len() == 0 {
        Seq::empty()
    } else {
        ser_bytes(list[0]) + flat_blocks(list.skip(1))
    }
}

pub open spec fn ser_blocks(list: Seq<Seq<u8>>) -> Seq<u8> {
    ser_u64(list.len() as u64) + flat_blocks(list)
}

pub open spec fn ser_option(o: Option<Seq<u8>>) -> Seq<u8> {
    match o {
        None => seq![0u8],
        Some(b) => seq![1u8] + ser_bytes(b),
    }
}

pub open spec fn ser_header(h: ChangeHeaderView) -> Seq<u8> {
    ser_blocks(h.authors) + ser_bytes(h.message) + ser_option(h.description) + ser_u64(h.timestamp)
}

/// The canonical bytes of a change.
pub open spec fn ser_change(c: ChangeView) -> Seq<u8> {
    ser_u64(VERSION) + ser_header(c.header) + ser_hashes(c.dependencies) + ser_hashes(
        c.extra_known,
    ) + ser_blocks(c.hashed) + ser_bytes(c.contents)
}

// How the parts of a change are read: each gives what was read and where
// the reading ended, or nothing where the bytes do not hold the part.

pub open spec fn parse_u64(s: Seq<u8>, pos: int) -> Option<(u64, int)> {
    if 0 <= pos && pos + 8 <= s.len() {
        Some((spec_u64_from_le_bytes(s.subrange(pos, pos + 8)), pos + 8))
    } else {
        None
    }
}

pub open spec fn parse_bytes(s: Seq<u8>, pos: int) -> Option<(Seq<u8>, int)> {
    match parse_u64(s, pos) {
        Some((n, p)) => if p + n <= s.len() {
            Some((s.subrange(p, p + n), p + n))
        } else {
            None
        },
        None => None,
    }
}

pub open spec fn parse_hash(s: Seq<u8>, pos: int) -> Option<(changes::Hash, int)> {
    if 0 <= pos && pos + 32 <= s.len() {
        Some(
            (
                changes::Hash(
                    spec_u128_from_le_bytes(s.subrange(pos, pos + 16)),
                    spec_u128_from_le_bytes(s.subrange(pos + 16, pos + 32)),
                ),
                pos + 32,
            ),
        )
    } else {
        None
    }
}

pub open spec fn parse_hash_list(s: Seq<u8>, pos: int, count: nat) -> Option<
    (Seq<changes::Hash>, int),
>
    decreases count,
{
    if count == 0 {
        Some((Seq::empty(), pos))
    } else {
        match parse_hash(s, pos) {
            Some((h, p)) => match parse_hash_list(s, p, (count - 1) as nat) {
                Some((rest, q)) => Some((seq![h] + rest, q)),
                None => None,
            },
            None => None,
        }
    }
}

pub open spec fn parse_hashes(s: Seq<u8>, pos: int) -> Option<(Seq<changes::Hash>, int)> {
    match parse_u64(s, pos) {
        Some((n, p)) => parse_hash_list(s, p, n as nat),
        None => None,
    }
}

pub open spec fn parse_block_list(s: Seq<u8>, pos: int, count: nat) -> Option<(Seq<Seq<u8>>, int)>
    decreases count,
{
    if count == 0 {
        Some((Seq::empty(), pos))
    } else {
        match parse_bytes(s, pos) {
            Some((b, p)) => match parse_block_list(s, p, (count - 1) as nat) {
                Some((rest, q)) => Some((seq![b] + rest, q)),
                None => None,
            },
            None => None,
        }
    }
}

pub open spec fn parse_blocks(s: Seq<u8>, pos: int) -> Option<(Seq<Seq<u8>>, int)> {
    match parse_u64(s, pos) {
        Some((n, p)) => parse_block_list(s, p, n as nat),
        None => None,
    }
}

pub open spec fn parse_option(s: Seq<u8>, pos: int) -> Option<(Option<Seq<u8>>, int)> {
    if 0 <= pos < s.len() {
        if s[pos] == 0 {
            Some((None, pos + 1))
        } else if s[pos] == 1 {
            match parse_bytes(s, pos + 1) {
                Some((b, p)) => Some((Some(b), p)),
                None => None,
            }
        } else {
            None
        }
    } else {
        None
    }
}

pub open spec fn parse_header(s: Seq<u8>, pos: int) -> Option<(ChangeHeaderView, int)> {
    match parse_blocks(s, pos) {
        Some((authors, after_authors)) => match parse_bytes(s, after_authors) {
            Some((message, after_message)) => match parse_option(s, after_message) {
                Some((description, after_description)) => match parse_u64(s, after_description) {
                    Some((timestamp, after_timestamp)) => Some(
                        (ChangeHeaderView { authors, message, description, timestamp }, after_timestamp),
                    ),
                    None => None,
                },
                None => None,
            },
            None => None,
        },
        None => None,
    }
}

/// The change that bytes hold: the bytes must begin with the number of the
/// format, hold the parts of a change one after the other, and end with the
/// last of them.
pub open spec fn parse_change(s: Seq<u8>) -> Option<ChangeView> {
    match parse_u64(s, 0) {
        Some((version, after_version)) => if version != VERSION {
            None
        } else {
            match parse_header(s, after_version) {
                Some((header, after_header)) => match parse_hashes(s, after_header) {
                    Some((dependencies, after_dependencies)) => match parse_hashes(s, after_dependencies) {
                        Some((extra_known, after_known)) => match parse_blocks(s, after_known) {
                            Some((hashed, after_hunks)) => match parse_bytes(s, after_hunks) {
                                Some((contents, after_contents)) => if after_contents == s.len() {
                                    Some(
                                        ChangeView {
                                            header,
                                            dependencies,
                                            extra_known,
                                            hashed,
                                            contents,
                                        },
                                    )
                                } else {
                                    None
                                },
                                None => None,
                            },
                            None => None,
                        },
                        None => None,
                    },
                    None => None,
                },
                None => None,
            }
        },
        None => None,
    }
}


// What is written is read back.

/// The bytes `s` hold `part` at `pos`.
pub open spec fn at(s: Seq<u8>, pos: int, part: Seq<u8>) -> bool {
    0 <= pos && pos + part.len() <= s.len() && s.subrange(pos, pos + part.len()) == part
}

proof fn lemma_at_split(s: Seq<u8>, pos: int, a: Seq<u8>, b: Seq<u8>)
    requires
        at(s, pos, a + b),
    ensures
        at(s, pos, a),
        at(s, pos + a.len(), b),
{
    let whole = s.subrange(pos, pos + (a + b).len());
    assert(s.subrange(pos, pos + a.len()) == whole.subrange(0, a.len() as int));
    assert(whole.subrange(0, a.len() as int) == a);
    assert(s.subrange(pos + a.len(), pos + a.len() + b.len()) == whole.subrange(
        a.len() as int,
        (a + b).len() as int,
    ));
    assert(whole.subrange(a.len() as int, (a + b).len() as int) == b);
}

proof fn lemma_at_whole(s: Seq<u8>)
    ensures
        at(s, 0, s),
{
    assert(s.subrange(0, s.len() as int) == s);
}

proof fn lemma_parse_u64(s: Seq<u8>, pos: int, v: u64)
    requires
        at(s, pos, ser_u64(v)),
    ensures
        ser_u64(v).len() == 8,
        parse_u64(s, pos) == Some((v, pos + 8)),
{
    lemma_auto_spec_u64_to_from_le_bytes();
}

proof fn lemma_parse_bytes(s: Seq<u8>, pos: int, b: Seq<u8>)
    requires
        at(s, pos, ser_bytes(b)),
        b.len() <= u64::MAX,
    ensures
        ser_bytes(b).len() == 8 + b.len(),
        parse_bytes(s, pos) == Some((b, pos + 8 + b.len())),
{
    lemma_auto_spec_u64_to_from_le_bytes();
    lemma_at_split(s, pos, ser_u64(b.len() as u64), b);
    lemma_parse_u64(s, pos, b.len() as u64);
}

proof fn lemma_parse_hash(s: Seq<u8>, pos: int, h: changes::Hash)
    requires
        at(s, pos, ser_hash(h)),
    ensures
        ser_hash(h).len() == 32,
        parse_hash(s, pos) == Some((h, pos + 32)),
{
    lemma_auto_spec_u128_to_from_le_bytes();
    lemma_at_split(s, pos, spec_u128_to_le_bytes(h.0), spec_u128_to_le_bytes(h.1));
}

proof fn lemma_parse_hash_list(s: Seq<u8>, pos: int, list: Seq<changes::Hash>)
    requires
        at(s, pos, flat_hashes(list)),
    ensures
        flat_hashes(list).len() == 32 * list.len(),
        parse_hash_list(s, pos, list.len()) == Some((list, pos + 32 * list.len())),
    decreases list.len(),
{
    if list.len() > 0 {
        lemma_at_split(s, pos, ser_hash(list[0]), flat_hashes(list.skip(1)));
        lemma_parse_hash(s, pos, list[0]);
        lemma_parse_hash_list(s, pos + 32, list.skip(1));
        assert(seq![list[0]] + list.skip(1) == list);
    }
}

proof fn lemma_parse_hashes(s: Seq<u8>, pos: int, list: Seq<changes::Hash>)
    requires
        at(s, pos, ser_hashes(list)),
        list.len() <= u64::MAX,
    ensures
        ser_hashes(list).len() == 8 + 32 * list.len(),
        parse_hashes(s, pos) == Some((list, pos + 8 + 32 * list.len())),
{
    lemma_auto_spec_u64_to_from_le_bytes();
    lemma_at_split(s, pos, ser_u64(list.len() as u64), flat_hashes(list));
    lemma_parse_u64(s, pos, list.len() as u64);
    lemma_parse_hash_list(s, pos + 8, list);
}

/// The lengths of the runs of a list fit in eight bytes.
pub open spec fn blocks_fit(list: Seq<Seq<u8>>) -> bool {
    list.len() <= u64::MAX && forall|i: int| 0 <= i < list.len() ==> (#[trigger] list[i]).len()
        <= u64::MAX
}

proof fn lemma_parse_block_list(s: Seq<u8>, pos: int, list: Seq<Seq<u8>>)
    requires
        at(s, pos, flat_blocks(list)),
        blocks_fit(list),
    ensures
        parse_block_list(s, pos, list.len()) == Some((list, pos + flat_blocks(list).len())),
    decreases list.len(),
{
    if list.len() > 0 {
        let rest = list.skip(1);
        lemma_at_split(s, pos, ser_bytes(list[0]), flat_blocks(rest));
        lemma_parse_bytes(s, pos, list[0]);
        assert(blocks_fit(rest)) by {
            assert forall|i: int| 0 <= i < rest.len() implies (#[trigger] rest[i]).len()
                <= u64::MAX by {
                assert(rest[i] == list[i + 1]);
            }
        }
        lemma_parse_block_list(s, pos + 8 + list[0].len(), rest);
        assert(seq![list[0]] + rest == list);
    }
}

proof fn lemma_parse_blocks(s: Seq<u8>, pos: int, list: Seq<Seq<u8>>)
    requires
        at(s, pos, ser_blocks(list)),
        blocks_fit(list),
    ensures
        parse_blocks(s, pos) == Some((list, pos + ser_blocks(list).len())),
{
    lemma_auto_spec_u64_to_from_le_bytes();
    lemma_at_split(s, pos, ser_u64(list.len() as u64), flat_blocks(list));
    lemma_parse_u64(s, pos, list.len() as u64);
    lemma_parse_block_list(s, pos + 8, list);
}

proof fn lemma_parse_option(s: Seq<u8>, pos: int, o: Option<Seq<u8>>)
    requires
        at(s, pos, ser_option(o)),
        o matches Some(b) ==> b.len() <= u64::MAX,
    ensures
        parse_option(s, pos) == Some((o, pos + ser_option(o).len())),
{
    match o {
        None => {
            assert(s.subrange(pos, pos + 1)[0] == 0u8);
        },
        Some(b) => {
            lemma_at_split(s, pos, seq![1u8], ser_bytes(b));
            assert(s.subrange(pos, pos + 1)[0] == 1u8);
            lemma_parse_bytes(s, pos + 1, b);
        },
    }
}

/// The lengths of the parts of a header fit in eight bytes.
pub open spec fn header_fits(h: ChangeHeaderView) -> bool {
    &&& blocks_fit(h.authors)
    &&& h.message.len() <= u64::MAX
    &&& h.description matches Some(d) ==> d.len() <= u64::MAX
}

proof fn lemma_parse_header(s: Seq<u8>, pos: int, h: ChangeHeaderView)
    requires
        at(s, pos, ser_header(h)),
        header_fits(h),
    ensures
        parse_header(s, pos) == Some((h, pos + ser_header(h).len())),
{
    let a = ser_blocks(h.authors);
    let m = ser_bytes(h.message);
    let d = ser_option(h.description);
    let t = ser_u64(h.timestamp);
    lemma_at_split(s, pos, a + m + d, t);
    lemma_at_split(s, pos, a + m, d);
    lemma_at_split(s, pos, a, m);
    lemma_parse_blocks(s, pos, h.authors);
    lemma_parse_bytes(s, pos + a.len(), h.message);
    lemma_parse_option(s, pos + a.len() + m.len(), h.description);
    lemma_parse_u64(s, pos + a.len() + m.len() + d.len(), h.timestamp);
}

/// The lengths of the parts of a change fit in eight bytes.
pub open spec fn change_fits(c: ChangeView) -> bool {
    &&& header_fits(c.header)
    &&& c.dependencies.len() <= u64::MAX
    &&& c.extra_known.len() <= u64::MAX
    &&& blocks_fit(c.hashed)
    &&& c.contents.len() <= u64::MAX
}

/// A change that is written and read back is the same change.
pub proof fn lemma_round_trip(c: ChangeView)
    requires
        change_fits(c),
    ensures
        parse_change(ser_change(c)) == Some(c),
{
    let s = ser_change(c);
    let v = ser_u64(VERSION);
    let h = ser_header(c.header);
    let d = ser_hashes(c.dependencies);
    let e = ser_hashes(c.extra_known);
    let k = ser_blocks(c.hashed);
    let t = ser_bytes(c.contents);
    lemma_at_whole(s);
    lemma_at_split(s, 0, v + h + d + e + k, t);
    lemma_at_split(s, 0, v + h + d + e, k);
    lemma_at_split(s, 0, v + h + d, e);
    lemma_at_split(s, 0, v + h, d);
    lemma_at_split(s, 0, v, h);
    lemma_parse_u64(s, 0, VERSION);
    lemma_parse_header(s, 8, c.header);
    lemma_parse_hashes(s, 8 + h.len() as int, c.dependencies);
    lemma_parse_hashes(s, 8 + h.len() as int + d.len(), c.extra_known);
    lemma_parse_blocks(s, 8 + h.len() as int + d.len() + e.len(), c.hashed);
    lemma_parse_bytes(s, 8 + h.len() as int + d.len() + e.len() + k.len(), c.contents);
}


// Writing.

fn push_all(out: &mut Vec<u8>, bytes: &[u8])
    ensures
        final(out)@ == old(out)@ + bytes@,
{
    let mut i: usize = 0;
    assert(old(out)@ + bytes@.take(0) == old(out)@);
    while i < bytes.len()
        invariant
            0 <= i <= bytes@.len(),
            out@ == old(out)@ + bytes@.take(i as int),
        decreases bytes@.len() - i,
    {
        out.push(bytes[i]);
        assert(bytes@.take(i + 1) == bytes@.take(i as int).push(bytes@[i as int]));
        i = i + 1;
    }
    assert(bytes@.take(bytes@.len() as int) == bytes@);
}

fn write_u64(out: &mut Vec<u8>, v: u64)
    ensures
        final(out)@ == old(out)@ + ser_u64(v),
{
    let bytes = u64_to_le_bytes(v);
    push_all(out, bytes.as_slice());
}

fn write_bytes(out: &mut Vec<u8>, b: &[u8])
    ensures
        final(out)@ == old(out)@ + ser_bytes(b@),
{
    write_u64(out, b.len() as u64);
    push_all(out, b);
    assert(old(out)@ + ser_u64(b@.len() as u64) + b@ == old(out)@ + ser_bytes(b@));
}

fn write_hash(out: &mut Vec<u8>, h: changes::Hash)
    ensures
        final(out)@ == old(out)@ + ser_hash(h),
{
    let first = u128_to_le_bytes(h.0);
    let second = u128_to_le_bytes(h.1);
    push_all(out, first.as_slice());
    push_all(out, second.as_slice());
    assert(old(out)@ + first@ + second@ == old(out)@ + ser_hash(h));
}

proof fn lemma_flat_hashes_push(list: Seq<changes::Hash>, h: changes::Hash)
    ensures
        flat_hashes(list.push(h)) == flat_hashes(list) + ser_hash(h),
    decreases list.len(),
{
    if list.len() == 0 {
        assert(list.push(h).skip(1) == Seq::<changes::Hash>::empty());
        assert(list.push(h)[0] == h);
        assert(flat_hashes(list.push(h).skip(1)) == Seq::<u8>::empty());
        assert(flat_hashes(list) == Seq::<u8>::empty());
        assert(flat_hashes(list.push(h)) == ser_hash(h) + Seq::<u8>::empty());
        assert(ser_hash(h) + Seq::<u8>::empty() == Seq::<u8>::empty() + ser_hash(h));
    } else {
        assert(list.push(h).skip(1) == list.skip(1).push(h));
        lemma_flat_hashes_push(list.skip(1), h);
        assert(ser_hash(list[0]) + (flat_hashes(list.skip(1)) + ser_hash(h)) == ser_hash(list[0])
            + flat_hashes(list.skip(1)) + ser_hash(h));
    }
}

proof fn lemma_flat_blocks_push(list: Seq<Seq<u8>>, b: Seq<u8>)
    ensures
        flat_blocks(list.push(b)) == flat_blocks(list) + ser_bytes(b),
    decreases list.len(),
{
    if list.len() == 0 {
        assert(list.push(b).skip(1) == Seq::<Seq<u8>>::empty());
        assert(list.push(b)[0] == b);
        assert(flat_blocks(list.push(b).skip(1)) == Seq::<u8>::empty());
        assert(flat_blocks(list) == Seq::<u8>::empty());
        assert(flat_blocks(list.push(b)) == ser_bytes(b) + Seq::<u8>::empty());
        assert(ser_bytes(b) + Seq::<u8>::empty() == Seq::<u8>::empty() + ser_bytes(b));
    } else {
        assert(list.push(b).skip(1) == list.skip(1).push(b));
        lemma_flat_blocks_push(list.skip(1), b);
        assert(ser_bytes(list[0]) + (flat_blocks(list.skip(1)) + ser_bytes(b)) == ser_bytes(
            list[0],
        ) + flat_blocks(list.skip(1)) + ser_bytes(b));
    }
}

fn write_hashes(out: &mut Vec<u8>, list: &Vec<changes::Hash>)
    ensures
        final(out)@ == old(out)@ + ser_hashes(list@),
{
    write_u64(out, list.len() as u64);
    let ghost base = out@;
    let mut i: usize = 0;
    proof {
        assert(list@.take(0) == Seq::<changes::Hash>::empty());
        assert(base + Seq::<u8>::empty() == base);
    }
    while i < list.len()
        invariant
            0 <= i <= list@.len(),
            out@ == base + flat_hashes(list@.take(i as int)),
        decreases list@.len() - i,
    {
        write_hash(out, list[i]);
        proof {
            lemma_flat_hashes_push(list@.take(i as int), list@[i as int]);
            assert(list@.take(i + 1) == list@.take(i as int).push(list@[i as int]));
            assert(base + flat_hashes(list@.take(i as int)) + ser_hash(list@[i as int]) == base + (
            flat_hashes(list@.take(i as int)) + ser_hash(list@[i as int])));
        }
        i = i + 1;
    }
    proof {
        assert(list@.take(list@.len() as int) == list@);
        assert(old(out)@ + ser_u64(list@.len() as u64) + flat_hashes(list@) == old(out)@
            + ser_hashes(list@));
    }
}

fn write_blocks(out: &mut Vec<u8>, list: &Vec<Vec<u8>>)
    ensures
        final(out)@ == old(out)@ + ser_blocks(blocks(list@)),
{
    write_u64(out, list.len() as u64);
    let ghost base = out@;
    let ghost all = blocks(list@);
    let mut i: usize = 0;
    proof {
        assert(all.take(0) == Seq::<Seq<u8>>::empty());
        assert(base + Seq::<u8>::empty() == base);
    }
    while i < list.len()
        invariant
            0 <= i <= list@.len(),
            all == blocks(list@),
            out@ == base + flat_blocks(all.take(i as int)),
        decreases list@.len() - i,
    {
        write_bytes(out, list[i].as_slice());
        proof {
            lemma_flat_blocks_push(all.take(i as int), all[i as int]);
            assert(all.take(i + 1) == all.take(i as int).push(all[i as int]));
            assert(base + flat_blocks(all.take(i as int)) + ser_bytes(all[i as int]) == base + (
            flat_blocks(all.take(i as int)) + ser_bytes(all[i as int])));
        }
        i = i + 1;
    }
    proof {
        assert(all.take(all.len() as int) == all);
        assert(old(out)@ + ser_u64(list@.len() as u64) + flat_blocks(all) == old(out)@
            + ser_blocks(all));
    }
}

fn write_option(out: &mut Vec<u8>, o: &Option<Vec<u8>>)
    ensures
        final(out)@ == old(out)@ + ser_option(opt_bytes(*o)),
{
    match o {
        None => {
            out.push(0u8);
            assert(out@ == old(out)@ + seq![0u8]);
        },
        Some(b) => {
            out.push(1u8);
            write_bytes(out, b.as_slice());
            assert(old(out)@.push(1u8) + ser_bytes(b@) == old(out)@ + (seq![1u8] + ser_bytes(b@)));
        },
    }
}

fn write_header(out: &mut Vec<u8>, h: &ChangeHeader)
    ensures
        final(out)@ == old(out)@ + ser_header(h@),
{
    write_blocks(out, &h.authors);
    write_bytes(out, h.message.as_slice());
    write_option(out, &h.description);
    write_u64(out, h.timestamp);
    proof {
        let a = ser_blocks(h@.authors);
        let m = ser_bytes(h@.message);
        let d = ser_option(h@.description);
        let t = ser_u64(h@.timestamp);
        assert(old(out)@ + a + m + d + t == old(out)@ + (a + m + d + t));
    }
}

/// What is held in memory is not too long to be written.
proof fn lemma_change_fits(c: &Change)
    ensures
        change_fits(c@),
{
    assert(c.header.authors@.len() == c.header.authors.len());
    assert forall|i: int| 0 <= i < c@.header.authors.len() implies (
    #[trigger] c@.header.authors[i]).len() <= u64::MAX by {
        assert(c.header.authors@[i]@.len() == c.header.authors@[i].len());
    }
    assert(c.header.message@.len() == c.header.message.len());
    if let Some(d) = c.header.description {
        assert(d@.len() == d.len());
    }
    assert(c.dependencies@.len() == c.dependencies.len());
    assert(c.extra_known@.len() == c.extra_known.len());
    assert(c.hashed@.len() == c.hashed.len());
    assert forall|i: int| 0 <= i < c@.hashed.len() implies (#[trigger] c@.hashed[i]).len()
        <= u64::MAX by {
        assert(c.hashed@[i]@.len() == c.hashed@[i].len());
    }
    assert(c.contents@.len() == c.contents.len());
}

/// Writes a change in its canonical bytes.
pub fn serialize(c: &Change) -> (res: Vec<u8>)
    ensures
        res@ == ser_change(c@),
        parse_change(res@) == Some(c@),
{
    let mut out: Vec<u8> = Vec::new();
    write_u64(&mut out, VERSION);
    write_header(&mut out, &c.header);
    write_hashes(&mut out, &c.dependencies);
    write_hashes(&mut out, &c.extra_known);
    write_blocks(&mut out, &c.hashed);
    write_bytes(&mut out, c.contents.as_slice());
    proof {
        let v = ser_u64(VERSION);
        let h = ser_header(c@.header);
        let d = ser_hashes(c@.dependencies);
        let e = ser_hashes(c@.extra_known);
        let k = ser_blocks(c@.hashed);
        let t = ser_bytes(c@.contents);
        assert(Seq::<u8>::empty() + v + h + d + e + k + t == v + h + d + e + k + t);
        lemma_change_fits(c);
        lemma_round_trip(c@);
    }
    out
}

// Reading.

fn read_u64(bytes: &[u8], pos: usize) -> (res: Option<(u64, usize)>)
    ensures
        match res {
            Some((v, q)) => parse_u64(bytes@, pos as int) == Some((v, q as int)) && q
                <= bytes@.len(),
            None => parse_u64(bytes@, pos as int) is None,
        },
{
    if pos > bytes.len() || bytes.len() - pos < 8 {
        return None;
    }
    let part = slice_subrange(bytes, pos, pos + 8);
    Some((u64_from_le_bytes(part), pos + 8))
}

fn read_bytes(bytes: &[u8], pos: usize) -> (res: Option<(Vec<u8>, usize)>)
    ensures
        match res {
            Some((x, q)) => parse_bytes(bytes@, pos as int) == Some((x@, q as int)) && q
                <= bytes@.len(),
            None => parse_bytes(bytes@, pos as int) is None,
        },
{
    let (n, p) = match read_u64(bytes, pos) {
        Some(x) => x,
        None => {
            return None;
        },
    };
    if n > (bytes.len() - p) as u64 {
        return None;
    }
    let end = p + n as usize;
    let part = slice_subrange(bytes, p, end);
    Some((vstd::slice::slice_to_vec(part), end))
}

fn read_hash(bytes: &[u8], pos: usize) -> (res: Option<(changes::Hash, usize)>)
    ensures
        match res {
            Some((h, q)) => parse_hash(bytes@, pos as int) == Some((h, q as int)) && q
                <= bytes@.len(),
            None => parse_hash(bytes@, pos as int) is None,
        },
{
    if pos > bytes.len() || bytes.len() - pos < 32 {
        return None;
    }
    let first = slice_subrange(bytes, pos, pos + 16);
    let second = slice_subrange(bytes, pos + 16, pos + 32);
    Some((changes::Hash(u128_from_le_bytes(first), u128_from_le_bytes(second)), pos + 32))
}

/// What is read of a list after `done` entries were read up to `cur`.
spec fn hashes_from(
    s: Seq<u8>,
    done: Seq<changes::Hash>,
    cur: int,
    left: nat,
) -> Option<(Seq<changes::Hash>, int)> {
    match parse_hash_list(s, cur, left) {
        Some((rest, q)) => Some((done + rest, q)),
        None => None,
    }
}

spec fn blocks_from(s: Seq<u8>, done: Seq<Seq<u8>>, cur: int, left: nat) -> Option<
    (Seq<Seq<u8>>, int),
> {
    match parse_block_list(s, cur, left) {
        Some((rest, q)) => Some((done + rest, q)),
        None => None,
    }
}

fn read_hashes(bytes: &[u8], pos: usize) -> (res: Option<(Vec<changes::Hash>, usize)>)
    ensures
        match res {
            Some((x, q)) => parse_hashes(bytes@, pos as int) == Some((x@, q as int)) && q
                <= bytes@.len(),
            None => parse_hashes(bytes@, pos as int) is None,
        },
{
    let (n, start) = match read_u64(bytes, pos) {
        Some(x) => x,
        None => {
            return None;
        },
    };
    let mut out: Vec<changes::Hash> = Vec::new();
    let mut cur: usize = start;
    let mut i: u64 = 0;
    let ghost s = bytes@;
    proof {
        assert(match parse_hash_list(s, start as int, n as nat) {
            Some((rest, q)) => Seq::<changes::Hash>::empty() + rest == rest,
            None => true,
        });
    }
    while i < n
        invariant
            0 <= i <= n,
            s == bytes@,
            cur <= bytes@.len(),
            parse_hashes(s, pos as int) == parse_hash_list(s, start as int, n as nat),
            parse_hash_list(s, start as int, n as nat) == hashes_from(
                s,
                out@,
                cur as int,
                (n - i) as nat,
            ),
        decreases n - i,
    {
        let ghost left = (n - i) as nat;
        assert(parse_hash_list(s, cur as int, left) == (match parse_hash(s, cur as int) {
            Some((h, p)) => match parse_hash_list(s, p, (left - 1) as nat) {
                Some((rest, q)) => Some((seq![h] + rest, q)),
                None => None,
            },
            None => None,
        }));
        let (h, next) = match read_hash(bytes, cur) {
            Some(x) => x,
            None => {
                return None;
            },
        };
        proof {
            match parse_hash_list(s, next as int, (left - 1) as nat) {
                Some((rest, q)) => {
                    assert(out@ + (seq![h] + rest) == out@.push(h) + rest);
                },
                None => {},
            }
        }
        out.push(h);
        cur = next;
        i = i + 1;
    }
    proof {
        assert(parse_hash_list(s, cur as int, 0) == Some((Seq::<changes::Hash>::empty(), cur as int)));
        assert(out@ + Seq::<changes::Hash>::empty() == out@);
    }
    Some((out, cur))
}

fn read_blocks(bytes: &[u8], pos: usize) -> (res: Option<(Vec<Vec<u8>>, usize)>)
    ensures
        match res {
            Some((x, q)) => parse_blocks(bytes@, pos as int) == Some((blocks(x@), q as int)) && q
                <= bytes@.len(),
            None => parse_blocks(bytes@, pos as int) is None,
        },
{
    let (n, start) = match read_u64(bytes, pos) {
        Some(x) => x,
        None => {
            return None;
        },
    };
    let mut out: Vec<Vec<u8>> = Vec::new();
    let mut cur: usize = start;
    let mut i: u64 = 0;
    let ghost s = bytes@;
    proof {
        assert(blocks(out@) =~= Seq::<Seq<u8>>::empty());
        assert(match parse_block_list(s, start as int, n as nat) {
            Some((rest, q)) => Seq::<Seq<u8>>::empty() + rest == rest,
            None => true,
        });
    }
    while i < n
        invariant
            0 <= i <= n,
            s == bytes@,
            cur <= bytes@.len(),
            parse_blocks(s, pos as int) == parse_block_list(s, start as int, n as nat),
            parse_block_list(s, start as int, n as nat) == blocks_from(
                s,
                blocks(out@),
                cur as int,
                (n - i) as nat,
            ),
        decreases n - i,
    {
        let ghost left = (n - i) as nat;
        assert(parse_block_list(s, cur as int, left) == (match parse_bytes(s, cur as int) {
            Some((b, p)) => match parse_block_list(s, p, (left - 1) as nat) {
                Some((rest, q)) => Some((seq![b] + rest, q)),
                None => None,
            },
            None => None,
        }));
        let (b, next) = match read_bytes(bytes, cur) {
            Some(x) => x,
            None => {
                return None;
            },
        };
        let ghost before = blocks(out@);
        let ghost bv = b@;
        proof {
            match parse_block_list(s, next as int, (left - 1) as nat) {
                Some((rest, q)) => {
                    assert(before + (seq![bv] + rest) == before.push(bv) + rest);
                },
                None => {},
            }
        }
        out.push(b);
        proof {
            assert(blocks(out@) =~= before.push(bv));
        }
        cur = next;
        i = i + 1;
    }
    proof {
        assert(parse_block_list(s, cur as int, 0) == Some((Seq::<Seq<u8>>::empty(), cur as int)));
        assert(blocks(out@) + Seq::<Seq<u8>>::empty() == blocks(out@));
    }
    Some((out, cur))
}

fn read_option(bytes: &[u8], pos: usize) -> (res: Option<(Option<Vec<u8>>, usize)>)
    ensures
        match res {
            Some((x, q)) => parse_option(bytes@, pos as int) == Some((opt_bytes(x), q as int)) && q
                <= bytes@.len(),
            None => parse_option(bytes@, pos as int) is None,
        },
{
    if pos >= bytes.len() {
        return None;
    }
    let tag = bytes[pos];
    if tag == 0 {
        Some((None, pos + 1))
    } else if tag == 1 {
        match read_bytes(bytes, pos + 1) {
            Some((b, p)) => Some((Some(b), p)),
            None => None,
        }
    } else {
        None
    }
}

fn read_header(bytes: &[u8], pos: usize) -> (res: Option<(ChangeHeader, usize)>)
    ensures
        match res {
            Some((x, q)) => parse_header(bytes@, pos as int) == Some((x@, q as int)) && q
                <= bytes@.len(),
            None => parse_header(bytes@, pos as int) is None,
        },
{
    let (authors, after_authors) = match read_blocks(bytes, pos) {
        Some(x) => x,
        None => {
            return None;
        },
    };
    let (message, after_message) = match read_bytes(bytes, after_authors) {
        Some(x) => x,
        None => {
            return None;
        },
    };
    let (description, after_description) = match read_option(bytes, after_message) {
        Some(x) => x,
        None => {
            return None;
        },
    };
    let (timestamp, after_timestamp) = match read_u64(bytes, after_description) {
        Some(x) => x,
        None => {
            return None;
        },
    };
    Some((ChangeHeader { authors, message, description, timestamp }, after_timestamp))
}

/// The view of a change that was read, if one was.
pub open spec fn change_view(c: Option<Change>) -> Option<ChangeView> {
    match c {
        Some(c) => Some(c@),
        None => None,
    }
}

/// Reads a change from its canonical bytes.
pub fn parse(bytes: &[u8]) -> (res: Option<Change>)
    ensures
        change_view(res) == parse_change(bytes@),
{
    let (version, after_version) = match read_u64(bytes, 0) {
        Some(x) => x,
        None => {
            return None;
        },
    };
    if version != VERSION {
        return None;
    }
    let (header, after_header) = match read_header(bytes, after_version) {
        Some(x) => x,
        None => {
            return None;
        },
    };
    let (dependencies, after_dependencies) = match read_hashes(bytes, after_header) {
        Some(x) => x,
        None => {
            return None;
        },
    };
    let (extra_known, after_known) = match read_hashes(bytes, after_dependencies) {
        Some(x) => x,
        None => {
            return None;
        },
    };
    let (hashed, after_hunks) = match read_blocks(bytes, after_known) {
        Some(x) => x,
        None => {
            return None;
        },
    };
    let (contents, after_contents) = match read_bytes(bytes, after_hunks) {
        Some(x) => x,
        None => {
            return None;
        },
    };
    if after_contents != bytes.len() {
        return None;
    }
    Some(Change { header, dependencies, extra_known, hashed, contents })
}

} // verus!
