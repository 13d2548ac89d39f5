//! The base-32 text of identifiers: the alphabet `A`-`Z`, `2`-`7`, most
//! significant digit first, without padding characters.

use vstd::prelude::*;

verus! {

/// The character that stands for a digit.
pub open spec fn symbol(d: int) -> char {
    if d == 0 {
        'A'
    } else if d == 1 {
        'B'
    } else if d == 2 {
        'C'
    } else if d == 3 {
        'D'
    } else if d == 4 {
        'E'
    } else if d == 5 {
        'F'
    } else if d == 6 {
        'G'
    } else if d == 7 {
        'H'
    } else if d == 8 {
        'I'
    } else if d == 9 {
        'J'
    } else if d == 10 {
        'K'
    } else if d == 11 {
        'L'
    } else if d == 12 {
        'M'
    } else if d == 13 {
        'N'
    } else if d == 14 {
        'O'
    } else if d == 15 {
        'P'
    } else if d == 16 {
        'Q'
    } else if d == 17 {
        'R'
    } else if d == 18 {
        'S'
    } else if d == 19 {
        'T'
    } else if d == 20 {
        'U'
    } else if d == 21 {
        'V'
    } else if d == 22 {
        'W'
    } else if d == 23 {
        'X'
    } else if d == 24 {
        'Y'
    } else if d == 25 {
        'Z'
    } else if d == 26 {
        '2'
    } else if d == 27 {
        '3'
    } else if d == 28 {
        '4'
    } else if d == 29 {
        '5'
    } else if d == 30 {
        '6'
    } else {
        '7'
    }
}

/// The digit that a character stands for, if it stands for one.
pub open spec fn digit_of(c: char) -> Option<int> {
    let n = c as u32;
    if 0x41 <= n <= 0x5a {
        Some(n - 0x41)
    } else if 0x32 <= n <= 0x37 {
        Some(n - 0x32 + 26)
    } else {
        None
    }
}

pub proof fn lemma_symbol_digit(d: int)
    requires
        0 <= d < 32,
    ensures
        digit_of(symbol(d)) == Some(d),
{
}

pub proof fn lemma_digit_symbol(c: char)
    requires
        digit_of(c) is Some,
    ensures
        0 <= digit_of(c).unwrap() < 32,
        symbol(digit_of(c).unwrap()) == c,
{
    let n = c as u32;
    let d = digit_of(c).unwrap();
    assert(symbol(d) as u32 == n);
}

/// The last `count` base-32 digits of a number, most significant first.
pub open spec fn digits32(n: nat, count: nat) -> Seq<char>
    decreases count,
{
    if count == 0 {
        Seq::empty()
    } else {
        digits32(n / 32, (count - 1) as nat).push(symbol((n % 32) as int))
    }
}

/// Every character stands for a digit.
pub open spec fn all_symbols(s: Seq<char>) -> bool {
    forall|i: int| 0 <= i < s.len() ==> digit_of(#[trigger] s[i]) is Some
}

/// The number that base-32 digits write.
pub open spec fn value32(s: Seq<char>) -> nat
    decreases s.len(),
{
    if s.len() == 0 {
        0
    } else {
        (value32(s.drop_last()) * 32 + digit_of(s.last()).unwrap()) as nat
    }
}

pub open spec fn pow32(count: nat) -> nat
    decreases count,
{
    if count == 0 {
        1
    } else {
        32 * pow32((count - 1) as nat)
    }
}

pub proof fn lemma_digits32_len(n: nat, count: nat)
    ensures
        digits32(n, count).len() == count,
        all_symbols(digits32(n, count)),
    decreases count,
{
    if count > 0 {
        lemma_digits32_len(n / 32, (count - 1) as nat);
        let s = digits32(n, count);
        assert forall|i: int| 0 <= i < s.len() implies digit_of(#[trigger] s[i]) is Some by {
            if i < count - 1 {
                assert(s[i] == digits32(n / 32, (count - 1) as nat)[i]);
            } else {
                lemma_symbol_digit((n % 32) as int);
            }
        }
    }
}

/// Digits that are written and read back give the number, as far as the
/// digits reach.
pub proof fn lemma_value_of_digits(n: nat, count: nat)
    ensures
        value32(digits32(n, count)) == n % pow32(count),
    decreases count,
{
    if count > 0 {
        let rest = digits32(n / 32, (count - 1) as nat);
        let s = digits32(n, count);
        lemma_value_of_digits(n / 32, (count - 1) as nat);
        assert(s.drop_last() == rest);
        lemma_symbol_digit((n % 32) as int);
        let p = pow32((count - 1) as nat);
        lemma_pow32_positive((count - 1) as nat);
        lemma_mod_split(n as int, p as int);
    }
}

/// The remainder by `32 * p` is made of the remainder of the quotient by `p`
/// and the remainder by 32.
proof fn lemma_mod_split(n: int, p: int)
    requires
        n >= 0,
        p > 0,
    ensures
        n % (32 * p) == ((n / 32) % p) * 32 + n % 32,
{
    let q = n / 32;
    let r = n % 32;
    let a = q / p;
    let b = q % p;
    vstd::arithmetic::div_mod::lemma_fundamental_div_mod(q, p);
    assert(q == p * a + b);
    assert(n == a * (32 * p) + (32 * b + r)) by (nonlinear_arith)
        requires
            n == 32 * q + r,
            q == p * a + b,
    ;
    assert(0 <= 32 * b + r < 32 * p) by (nonlinear_arith)
        requires
            0 <= b < p,
            0 <= r < 32,
    ;
    vstd::arithmetic::div_mod::lemma_fundamental_div_mod_converse(n, 32 * p, a, 32 * b + r);
}

pub proof fn lemma_pow32_positive(count: nat)
    ensures
        pow32(count) > 0,
    decreases count,
{
    if count > 0 {
        lemma_pow32_positive((count - 1) as nat);
    }
}

pub proof fn lemma_value32_bound(s: Seq<char>)
    requires
        all_symbols(s),
    ensures
        value32(s) < pow32(s.len()),
    decreases s.len(),
{
    if s.len() > 0 {
        assert(all_symbols(s.drop_last())) by {
            assert forall|i: int| 0 <= i < s.drop_last().len() implies digit_of(
                #[trigger] s.drop_last()[i],
            ) is Some by {
                assert(s.drop_last()[i] == s[i]);
            }
        }
        lemma_value32_bound(s.drop_last());
        lemma_digit_symbol(s.last());
    }
}

/// Digits that are read and written back are the same digits.
pub proof fn lemma_digits_of_value(s: Seq<char>)
    requires
        all_symbols(s),
    ensures
        digits32(value32(s), s.len()) == s,
    decreases s.len(),
{
    if s.len() > 0 {
        let front = s.drop_last();
        assert(all_symbols(front)) by {
            assert forall|i: int| 0 <= i < front.len() implies digit_of(#[trigger] front[i]) is Some by {
                assert(front[i] == s[i]);
            }
        }
        lemma_digits_of_value(front);
        lemma_digit_symbol(s.last());
        let d = digit_of(s.last()).unwrap();
        let v = value32(front);
        assert((v * 32 + d) / 32 == v && (v * 32 + d) % 32 == d) by (nonlinear_arith)
            requires
                0 <= d < 32,
                v >= 0,
        ;
        assert(digits32(value32(s), s.len()) == digits32(v, front.len()).push(symbol(d)));
        assert(front.push(s.last()) == s);
    }
}

fn symbol_str(d: u8) -> (s: &'static str)
    requires
        d < 32,
    ensures
        s@ == seq![symbol(d as int)],
{
    proof {
        reveal_strlit("ABCDEFGHIJKLMNOPQRSTUVWXYZ234567");
    }
    let alphabet = "ABCDEFGHIJKLMNOPQRSTUVWXYZ234567";
    let s = alphabet.substring_char(d as usize, d as usize + 1);
    assert(s@ =~= seq![symbol(d as int)]);
    s
}

/// Appends the last `count` base-32 digits of a number to a string.
pub fn push_digits32(out: &mut String, n: u128, count: usize)
    ensures
        final(out)@ == old(out)@ + digits32(n as nat, count as nat),
    decreases count,
{
    if count == 0 {
        assert(old(out)@ + Seq::<char>::empty() == old(out)@);
        return ;
    }
    push_digits32(out, n / 32, count - 1);
    out.append(symbol_str((n % 32) as u8));
    proof {
        let front = digits32((n / 32) as nat, (count - 1) as nat);
        assert(old(out)@ + front + seq![symbol((n % 32) as int)] == old(out)@ + front.push(
            symbol((n % 32) as int),
        ));
    }
}

/// The digit that a character stands for.
pub fn char_digit(c: char) -> (res: Option<u8>)
    ensures
        match res {
            Some(d) => digit_of(c) == Some(d as int),
            None => digit_of(c) is None,
        },
{
    let n: u32 = c as u32;
    if 0x41 <= n && n <= 0x5a {
        Some((n - 0x41) as u8)
    } else if 0x32 <= n && n <= 0x37 {
        Some((n - 0x32 + 26) as u8)
    } else {
        None
    }
}

/// Reads up to 25 base-32 digits.
pub fn parse_digits32(s: &str) -> (res: Option<u128>)
    requires
        s@.len() <= 25,
    ensures
        match res {
            Some(v) => all_symbols(s@) && v == value32(s@),
            None => !all_symbols(s@),
        },
{
    let n = s.unicode_len();
    let mut value: u128 = 0;
    let mut i: usize = 0;
    assert(s@.take(0) == Seq::<char>::empty());
    while i < n
        invariant
            0 <= i <= n,
            n == s@.len(),
            n <= 25,
            all_symbols(s@.take(i as int)),
            value == value32(s@.take(i as int)),
        decreases n - i,
    {
        let c = s.get_char(i);
        let d = match char_digit(c) {
            Some(d) => d,
            None => {
                assert(digit_of(s@[i as int]) is None);
                return None;
            },
        };
        proof {
            let next = s@.take(i + 1);
            assert(next.drop_last() == s@.take(i as int));
            assert(next.last() == c);
            assert forall|k: int| 0 <= k < next.len() implies digit_of(#[trigger] next[k]) is Some by {
                if k < i {
                    assert(next[k] == s@.take(i as int)[k]);
                }
            }
            lemma_value32_bound(s@.take(i as int));
            lemma_pow32_le(i as nat, 24);
            assert(pow32(24) == 0x1000000000000000000000000000000) by {
                reveal_with_fuel(pow32, 25);
            }
        }
        value = value * 32 + d as u128;
        i = i + 1;
    }
    assert(s@.take(n as int) == s@);
    Some(value)
}

pub proof fn lemma_pow32_le(a: nat, b: nat)
    requires
        a <= b,
    ensures
        pow32(a) <= pow32(b),
    decreases b,
{
    if a < b {
        lemma_pow32_le(a, (b - 1) as nat);
    }
}

} // verus!
