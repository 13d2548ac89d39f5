//! The rules of the `debug` command.

use crate::base32::{all_symbols, digits32, parse_digits32, push_digits32, value32};
use crate::changes;
use crate::commands::common_opts::RepoAndChannel;
use crate::commands::pushpull::run_before;
use crate::text::{decimal_u64, parse_u64};
use vstd::prelude::*;

verus! {

#[derive(Debug)]
pub struct Debug {
    pub base: RepoAndChannel,
    pub sanakirja_only: bool,
    pub root: Option<String>,
}

/// The number that the lowest `count` bytes of `v` make in reverse order,
/// after the digits of `acc`.
pub open spec fn bytes_reversed(v: nat, count: nat, acc: nat) -> nat
    decreases count,
{
    if count == 0 {
        acc
    } else {
        bytes_reversed(v / 256, (count - 1) as nat, acc * 256 + v % 256)
    }
}

pub open spec fn pow256(count: nat) -> nat
    decreases count,
{
    if count == 0 {
        1
    } else {
        256 * pow256((count - 1) as nat)
    }
}

proof fn lemma_bytes_reversed_bound(v: nat, count: nat, acc: nat, k: nat)
    requires
        acc < pow256(k),
    ensures
        bytes_reversed(v, count, acc) < pow256(k + count),
    decreases count,
{
    if count > 0 {
        assert(acc * 256 + v % 256 < pow256(k + 1)) by {
            assert(pow256(k + 1) == 256 * pow256(k));
        }
        lemma_bytes_reversed_bound(v / 256, (count - 1) as nat, acc * 256 + v % 256, k + 1);
    }
}

/// Reverses the order of the lowest `count` bytes of a number.
fn reverse_bytes(v: u64, count: usize) -> (res: u64)
    requires
        count <= 8,
    ensures
        res == bytes_reversed(v as nat, count as nat, 0),
{
    let mut rest: u64 = v;
    let mut acc: u128 = 0;
    let mut i: usize = 0;
    proof {
        assert(pow256(8) == 0x10000000000000000) by {
            reveal_with_fuel(pow256, 9);
        }
    }
    while i < count
        invariant
            0 <= i <= count <= 8,
            acc < pow256(i as nat),
            pow256(8) == 0x10000000000000000,
            bytes_reversed(v as nat, count as nat, 0) == bytes_reversed(
                rest as nat,
                (count - i) as nat,
                acc as nat,
            ),
        decreases count - i,
    {
        proof {
            lemma_pow256_le(i as nat, 7);
            assert(pow256(7) * 256 == pow256(8));
            assert(pow256((i + 1) as nat) == 256 * pow256(i as nat));
        }
        acc = acc * 256 + (rest % 256) as u128;
        rest = rest / 256;
        i = i + 1;
    }
    proof {
        lemma_pow256_le(count as nat, 8);
    }
    acc as u64
}

proof fn lemma_pow256_le(a: nat, b: nat)
    requires
        a <= b,
    ensures
        pow256(a) <= pow256(b),
    decreases b,
{
    if a < b {
        lemma_pow256_le(a, (b - 1) as nat);
    }
}

/// How many bytes a text of `len` base-32 digits writes, and how many bits
/// of its last digit are left over; none where no number of bytes is written
/// in so many digits.
pub open spec fn written_bytes(len: nat) -> Option<(nat, nat)> {
    if len == 0 {
        Some((0, 0))
    } else if len == 2 {
        Some((1, 2))
    } else if len == 4 {
        Some((2, 4))
    } else if len == 5 {
        Some((3, 1))
    } else if len == 7 {
        Some((4, 3))
    } else if len == 8 {
        Some((5, 0))
    } else if len == 10 {
        Some((6, 2))
    } else if len == 12 {
        Some((7, 4))
    } else if len == 13 {
        Some((8, 1))
    } else {
        None
    }
}

pub open spec fn pow2(bits: nat) -> nat {
    if bits == 0 {
        1
    } else if bits == 1 {
        2
    } else if bits == 2 {
        4
    } else if bits == 3 {
        8
    } else {
        16
    }
}

/// The text of a change's number: the base-32 digits of its eight bytes,
/// the least significant byte first.
pub open spec fn change_id_text(id: changes::ChangeId) -> Seq<char> {
    digits32(2 * bytes_reversed(id.0 as nat, 8, 0), 13)
}

/// The number of a change that a text writes: the text is made of base-32
/// digits that write at most eight bytes, with no bit left over that is set;
/// the bytes are the low bytes of the number, the least significant first.
pub open spec fn change_id_of_text(text: Seq<char>) -> Option<changes::ChangeId> {
    match written_bytes(text.len()) {
        Some((bytes, spare)) => if all_symbols(text) && value32(text) % pow2(spare) == 0 {
            Some(
                changes::ChangeId(
                    bytes_reversed(value32(text) / pow2(spare), bytes, 0) as u64,
                ),
            )
        } else {
            None
        },
        None => None,
    }
}

/// The bytes of a number that fits in eight bytes, reversed twice, make the
/// number again.
pub proof fn lemma_bytes_reversed_twice(v: nat)
    requires
        v < 0x10000000000000000,
    ensures
        bytes_reversed(bytes_reversed(v, 8, 0), 8, 0) == v,
{
    reveal_with_fuel(bytes_reversed, 9);
    let b0 = v % 256;
    let v1 = v / 256;
    let b1 = v1 % 256;
    let v2 = v1 / 256;
    let b2 = v2 % 256;
    let v3 = v2 / 256;
    let b3 = v3 % 256;
    let v4 = v3 / 256;
    let b4 = v4 % 256;
    let v5 = v4 / 256;
    let b5 = v5 % 256;
    let v6 = v5 / 256;
    let b6 = v6 % 256;
    let v7 = v6 / 256;
    let b7 = v7 % 256;
    assert(v7 / 256 == 0);
    let w = ((((((b0 * 256 + b1) * 256 + b2) * 256 + b3) * 256 + b4) * 256 + b5) * 256 + b6) * 256
        + b7;
    assert(bytes_reversed(v, 8, 0) == w);
    assert(w % 256 == b7);
    let w1 = w / 256;
    assert(w1 == (((((b0 * 256 + b1) * 256 + b2) * 256 + b3) * 256 + b4) * 256 + b5) * 256 + b6);
    let w2 = w1 / 256;
    assert(w2 == ((((b0 * 256 + b1) * 256 + b2) * 256 + b3) * 256 + b4) * 256 + b5);
    let w3 = w2 / 256;
    assert(w3 == (((b0 * 256 + b1) * 256 + b2) * 256 + b3) * 256 + b4);
    let w4 = w3 / 256;
    assert(w4 == ((b0 * 256 + b1) * 256 + b2) * 256 + b3);
    let w5 = w4 / 256;
    assert(w5 == (b0 * 256 + b1) * 256 + b2);
    let w6 = w5 / 256;
    assert(w6 == b0 * 256 + b1);
    let w7 = w6 / 256;
    assert(w7 == b0);
    let back = (((((((b7 * 256 + b6) * 256 + b5) * 256 + b4) * 256 + b3) * 256 + b2) * 256 + b1)
        * 256 + b0);
    assert(bytes_reversed(w, 8, 0) == back);
    assert(back == v);
}

/// The text of a change's number is read back as the number.
pub proof fn lemma_change_id_round_trip(id: changes::ChangeId)
    ensures
        change_id_of_text(change_id_text(id)) == Some(id),
{
    let w = bytes_reversed(id.0 as nat, 8, 0);
    lemma_bytes_reversed_bound(id.0 as nat, 8, 0, 0);
    assert(pow256(8) == 0x10000000000000000) by {
        reveal_with_fuel(pow256, 9);
    }
    let text = change_id_text(id);
    crate::base32::lemma_digits32_len(2 * w, 13);
    crate::base32::lemma_value_of_digits(2 * w, 13);
    assert(crate::base32::pow32(13) == 0x20000000000000000) by {
        reveal_with_fuel(crate::base32::pow32, 14);
    }
    assert(value32(text) == 2 * w);
    lemma_bytes_reversed_twice(id.0 as nat);
}

/// Writes the number of a change as text.
pub fn change_id_to_base32(id: changes::ChangeId) -> (res: String)
    ensures
        res@ == change_id_text(id),
{
    let swapped = reverse_bytes(id.0, 8);
    let mut out = String::new();
    push_digits32(&mut out, swapped as u128 * 2, 13);
    assert(Seq::<char>::empty() + change_id_text(id) == change_id_text(id));
    out
}

/// Reads the number of a change from its text.
pub fn change_id_from_base32(text: &str) -> (res: Option<changes::ChangeId>)
    ensures
        res == change_id_of_text(text@),
{
    let len = text.unicode_len();
    let (bytes, spare): (usize, u32) = if len == 0 {
        (0, 0)
    } else if len == 2 {
        (1, 2)
    } else if len == 4 {
        (2, 4)
    } else if len == 5 {
        (3, 1)
    } else if len == 7 {
        (4, 3)
    } else if len == 8 {
        (5, 0)
    } else if len == 10 {
        (6, 2)
    } else if len == 12 {
        (7, 4)
    } else if len == 13 {
        (8, 1)
    } else {
        return None;
    };
    let value = match parse_digits32(text) {
        Some(v) => v,
        None => {
            return None;
        },
    };
    let unit: u128 = if spare == 0 {
        1
    } else if spare == 1 {
        2
    } else if spare == 2 {
        4
    } else if spare == 3 {
        8
    } else {
        16
    };
    if value % unit != 0 {
        return None;
    }
    let number = value / unit;
    proof {
        crate::base32::lemma_value32_bound(text@);
        crate::base32::lemma_pow32_le(len as nat, 13);
        assert(crate::base32::pow32(13) == 0x20000000000000000) by {
            reveal_with_fuel(crate::base32::pow32, 14);
        }
        lemma_number_fits(value as nat, len as nat);
        lemma_bytes_reversed_bound(number as nat, bytes as nat, 0, 0);
        lemma_pow256_le(bytes as nat, 8);
        assert(pow256(8) == 0x10000000000000000) by {
            reveal_with_fuel(pow256, 9);
        }
    }
    Some(changes::ChangeId(reverse_bytes(number as u64, bytes)))
}

/// What is left of the digits' value without the spare bits fits in 64 bits.
proof fn lemma_number_fits(value: nat, len: nat)
    requires
        written_bytes(len) is Some,
        value < crate::base32::pow32(len),
    ensures
        value / pow2(written_bytes(len).unwrap().1) < 0x10000000000000000,
{
    reveal_with_fuel(crate::base32::pow32, 14);
}

/// The part of `s` between its first and its second full stop, if it has a
/// full stop.
pub open spec fn second_piece(s: Seq<char>) -> Option<Seq<char>> {
    let k = run_before(s, '.') as int;
    if k < s.len() {
        let rest = s.skip(k + 1);
        Some(rest.take(run_before(rest, '.') as int))
    } else {
        None
    }
}

/// The position that a text of the form `CHANGE.OFFSET` names.
pub open spec fn position_of(s: Seq<char>) -> Option<changes::Position> {
    match second_piece(s) {
        Some(b) => match (change_id_of_text(s.take(run_before(s, '.') as int)), decimal_u64(b)) {
            (Some(change), Some(pos)) => Some(changes::Position { change, pos }),
            _ => None,
        },
        None => None,
    }
}

fn scan_stop(s: &str, from: usize) -> (end: usize)
    requires
        from <= s@.len(),
    ensures
        from <= end <= s@.len(),
        end - from == run_before(s@.skip(from as int), '.'),
{
    let n = s.unicode_len();
    let mut i: usize = from;
    while i < n && s.get_char(i) != '.'
        invariant
            from <= i <= n,
            n == s@.len(),
            forall|k: int| from <= k < i ==> s@[k] != '.',
        decreases n - i,
    {
        i = i + 1;
    }
    proof {
        let t = s@.skip(from as int);
        assert forall|k: int| 0 <= k < i - from implies t[k] != '.' by {
            assert(t[k] == s@[k + from]);
        }
        crate::commands::pushpull::lemma_run_before(t, '.', i - from);
    }
    i
}

/// Reads a position from a text of the form `CHANGE.OFFSET`: the number of
/// a change in base 32, a full stop, and an offset in decimal. What follows
/// a second full stop is not read.
pub fn parse_pos(s: &str) -> (res: Option<changes::Position>)
    ensures
        res == position_of(s@),
{
    assert(s@.skip(0) == s@);
    let n = s.unicode_len();
    let k = scan_stop(s, 0);
    if k == n {
        return None;
    }
    let end = scan_stop(s, k + 1);
    let a = s.substring_char(0, k);
    let b = s.substring_char(k + 1, end);
    proof {
        assert(a@ == s@.take(k as int));
        assert(b@ == s@.skip(k + 1).take(end - (k + 1)));
    }
    let change = match change_id_from_base32(a) {
        Some(c) => c,
        None => {
            return None;
        },
    };
    match parse_u64(b) {
        Some(pos) => Some(changes::Position { change, pos }),
        None => None,
    }
}

} // verus!
