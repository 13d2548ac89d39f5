//! Small text routines that the command parsers and the message builders
//! share: white space, words, decimal numbers.

use vstd::prelude::*;

verus! {

/// The characters with the Unicode property White_Space.
pub open spec fn is_space(c: char) -> bool {
    let n = c as u32;
    ||| 0x09 <= n <= 0x0d
    ||| n == 0x20
    ||| n == 0x85
    ||| n == 0xa0
    ||| n == 0x1680
    ||| 0x2000 <= n <= 0x200a
    ||| n == 0x2028
    ||| n == 0x2029
    ||| n == 0x202f
    ||| n == 0x205f
    ||| n == 0x3000
}

pub fn char_is_space(c: char) -> (b: bool)
    ensures
        b == is_space(c),
{
    let n: u32 = c as u32;
    (0x09 <= n && n <= 0x0d) || n == 0x20 || n == 0x85 || n == 0xa0 || n == 0x1680 || (0x2000 <= n
        && n <= 0x200a) || n == 0x2028 || n == 0x2029 || n == 0x202f || n == 0x205f || n == 0x3000
}

/// The length of the run of white space at the beginning of `s`.
pub open spec fn space_len(s: Seq<char>) -> nat
    decreases s.len(),
{
    if s.len() > 0 && is_space(s[0]) {
        1 + space_len(s.skip(1))
    } else {
        0
    }
}

/// The length of the run of other characters at the beginning of `s`.
pub open spec fn word_len(s: Seq<char>) -> nat
    decreases s.len(),
{
    if s.len() > 0 && !is_space(s[0]) {
        1 + word_len(s.skip(1))
    } else {
        0
    }
}

pub proof fn lemma_run_bounds(s: Seq<char>)
    ensures
        space_len(s) <= s.len(),
        word_len(s) <= s.len(),
        space_len(s) < s.len() ==> !is_space(s[space_len(s) as int]),
        word_len(s) < s.len() ==> is_space(s[word_len(s) as int]),
        forall|k: int| 0 <= k < space_len(s) ==> is_space(s[k]),
        forall|k: int| 0 <= k < word_len(s) ==> !is_space(s[k]),
    decreases s.len(),
{
    if s.len() > 0 {
        lemma_run_bounds(s.skip(1));
        assert forall|k: int| 0 <= k < space_len(s) implies is_space(s[k]) by {
            if k > 0 {
                assert(s.skip(1)[k - 1] == s[k]);
            }
        }
        assert forall|k: int| 0 <= k < word_len(s) implies !is_space(s[k]) by {
            if k > 0 {
                assert(s.skip(1)[k - 1] == s[k]);
            }
        }
        if space_len(s) > 0 && space_len(s) < s.len() {
            assert(s.skip(1)[space_len(s.skip(1)) as int] == s[space_len(s) as int]);
        }
        if word_len(s) > 0 && word_len(s) < s.len() {
            assert(s.skip(1)[word_len(s.skip(1)) as int] == s[word_len(s) as int]);
        }
    }
}

/// The words of `s`: its maximal runs of characters that are not white space,
/// in the order in which they stand.
pub open spec fn words(s: Seq<char>) -> Seq<Seq<char>>
    decreases s.len(),
{
    let t = s.skip(space_len(s) as int);
    let n = word_len(t);
    if n == 0 {
        Seq::empty()
    } else {
        proof {
            lemma_run_bounds(s);
            lemma_run_bounds(t);
        }
        seq![t.take(n as int)] + words(t.skip(n as int))
    }
}

/// The views of a list of strings.
pub open spec fn texts(v: Seq<String>) -> Seq<Seq<char>> {
    Seq::new(v.len(), |i: int| v[i]@)
}

/// A run of white space that ends at `j` and a word that begins there.
proof fn lemma_words_step(s: Seq<char>, i: int, j: int, k: int)
    requires
        0 <= i <= j < k <= s.len(),
        forall|m: int| i <= m < j ==> is_space(s[m]),
        forall|m: int| j <= m < k ==> !is_space(s[m]),
        k < s.len() ==> is_space(s[k]),
    ensures
        words(s.skip(i)) == seq![s.subrange(j, k)] + words(s.skip(k)),
{
    let u = s.skip(i);
    lemma_space_len_is(u, j - i);
    let t = u.skip(space_len(u) as int);
    assert(t == s.skip(j));
    lemma_word_len_is(t, k - j);
    assert(t.take(k - j) == s.subrange(j, k));
    assert(t.skip(k - j) == s.skip(k));
}

/// Nothing but white space from `i` on.
proof fn lemma_words_end(s: Seq<char>, i: int)
    requires
        0 <= i <= s.len(),
        forall|m: int| i <= m < s.len() ==> is_space(s[m]),
    ensures
        words(s.skip(i)) == Seq::<Seq<char>>::empty(),
{
    let u = s.skip(i);
    lemma_space_len_is(u, s.len() - i);
    let t = u.skip(space_len(u) as int);
    assert(t.len() == 0);
}

proof fn lemma_space_len_is(s: Seq<char>, n: int)
    requires
        0 <= n <= s.len(),
        forall|m: int| 0 <= m < n ==> is_space(s[m]),
        n < s.len() ==> !is_space(s[n]),
    ensures
        space_len(s) == n,
    decreases n,
{
    if n > 0 {
        assert forall|m: int| 0 <= m < n - 1 implies is_space(s.skip(1)[m]) by {
            assert(s.skip(1)[m] == s[m + 1]);
        }
        lemma_space_len_is(s.skip(1), n - 1);
    }
}

proof fn lemma_word_len_is(s: Seq<char>, n: int)
    requires
        0 <= n <= s.len(),
        forall|m: int| 0 <= m < n ==> !is_space(s[m]),
        n < s.len() ==> is_space(s[n]),
    ensures
        word_len(s) == n,
    decreases n,
{
    if n > 0 {
        assert forall|m: int| 0 <= m < n - 1 implies !is_space(s.skip(1)[m]) by {
            assert(s.skip(1)[m] == s[m + 1]);
        }
        lemma_word_len_is(s.skip(1), n - 1);
    }
}

/// Splits a string at white space, as `str::split_whitespace` does.
pub fn split_whitespace(s: &str) -> (out: Vec<String>)
    ensures
        texts(out@) == words(s@),
{
    let n = s.unicode_len();
    let mut out: Vec<String> = Vec::new();
    let mut i: usize = 0;
    assert(s@.skip(0) == s@);
    loop
        invariant
            0 <= i <= n,
            n == s@.len(),
            words(s@) == texts(out@) + words(s@.skip(i as int)),
        decreases n - i,
    {
        let mut j: usize = i;
        while j < n && char_is_space(s.get_char(j))
            invariant
                i <= j <= n,
                n == s@.len(),
                forall|m: int| i <= m < j ==> is_space(s@[m]),
            decreases n - j,
        {
            j = j + 1;
        }
        if j == n {
            proof {
                lemma_words_end(s@, i as int);
                assert(texts(out@) + Seq::<Seq<char>>::empty() == texts(out@));
            }
            return out;
        }
        let mut k: usize = j + 1;
        while k < n && !char_is_space(s.get_char(k))
            invariant
                j < k <= n,
                n == s@.len(),
                forall|m: int| j <= m < k ==> !is_space(s@[m]),
            decreases n - k,
        {
            k = k + 1;
        }
        let word = s.substring_char(j, k).to_owned();
        proof {
            lemma_words_step(s@, i as int, j as int, k as int);
            assert(texts(out@.push(word)) == texts(out@) + seq![s@.subrange(j as int, k as int)]);
        }
        out.push(word);
        i = k;
    }
}

/// The length of the run of white space at the end of `s`.
pub open spec fn trailing_space_len(s: Seq<char>) -> nat
    decreases s.len(),
{
    if s.len() > 0 && is_space(s.last()) {
        1 + trailing_space_len(s.drop_last())
    } else {
        0
    }
}

/// A text without the white space at its beginning and at its end.
pub open spec fn trimmed(s: Seq<char>) -> Seq<char> {
    let t = s.skip(space_len(s) as int);
    t.take(t.len() - trailing_space_len(t))
}

proof fn lemma_trailing_space_len_is(s: Seq<char>, n: int)
    requires
        0 <= n <= s.len(),
        forall|m: int| s.len() - n <= m < s.len() ==> is_space(s[m]),
        n < s.len() ==> !is_space(s[s.len() - n - 1]),
    ensures
        trailing_space_len(s) == n,
    decreases n,
{
    if n > 0 {
        let t = s.drop_last();
        assert forall|m: int| t.len() - (n - 1) <= m < t.len() implies is_space(t[m]) by {
            assert(t[m] == s[m]);
        }
        if n - 1 < t.len() {
            assert(t[t.len() - (n - 1) - 1] == s[s.len() - n - 1]);
        }
        lemma_trailing_space_len_is(t, n - 1);
    }
}

/// Strips the white space from both ends of a text, as `str::trim` does.
pub fn trim(s: &str) -> (res: &str)
    ensures
        res@ == trimmed(s@),
{
    let n = s.unicode_len();
    let mut i: usize = 0;
    while i < n && char_is_space(s.get_char(i))
        invariant
            0 <= i <= n,
            n == s@.len(),
            forall|m: int| 0 <= m < i ==> is_space(s@[m]),
        decreases n - i,
    {
        i = i + 1;
    }
    let mut j: usize = n;
    while j > i && char_is_space(s.get_char(j - 1))
        invariant
            i <= j <= n,
            n == s@.len(),
            forall|m: int| j <= m < n ==> is_space(s@[m]),
        decreases j,
    {
        j = j - 1;
    }
    proof {
        lemma_space_len_is(s@, i as int);
        let t = s@.skip(i as int);
        assert forall|m: int| t.len() - (n - j) <= m < t.len() implies is_space(t[m]) by {
            assert(t[m] == s@[m + i]);
        }
        if n - j < t.len() {
            assert(t[t.len() - (n - j) - 1] == s@[j - 1]);
        }
        lemma_trailing_space_len_is(t, n - j);
        assert(s@.subrange(i as int, j as int) == t.take(t.len() - (n - j)));
    }
    s.substring_char(i, j)
}

/// The value of a decimal digit.
pub open spec fn digit_value(c: char) -> int {
    c as u32 - 0x30
}

pub open spec fn is_digit(c: char) -> bool {
    0x30 <= c as u32 <= 0x39
}

/// The number that a string of decimal digits writes.
pub open spec fn digits_value(s: Seq<char>) -> nat
    decreases s.len(),
{
    if s.len() == 0 {
        0
    } else {
        (digits_value(s.drop_last()) * 10 + digit_value(s.last())) as nat
    }
}

pub open spec fn all_digits(s: Seq<char>) -> bool {
    forall|i: int| 0 <= i < s.len() ==> is_digit(#[trigger] s[i])
}

/// What `str::parse::<u64>` accepts: an optional plus sign and at least one
/// decimal digit, writing a number that fits.
pub open spec fn decimal_u64(s: Seq<char>) -> Option<u64> {
    let digits = if s.len() > 0 && s[0] == '+' {
        s.skip(1)
    } else {
        s
    };
    if digits.len() > 0 && all_digits(digits) && digits_value(digits) <= u64::MAX {
        Some(digits_value(digits) as u64)
    } else {
        None
    }
}

proof fn lemma_digits_value_grows(s: Seq<char>, n: int)
    requires
        0 <= n <= s.len(),
        all_digits(s),
    ensures
        digits_value(s.take(n)) <= digits_value(s),
    decreases s.len() - n,
{
    if n < s.len() {
        lemma_digits_value_grows(s, n + 1);
        assert(s.take(n + 1).drop_last() == s.take(n));
        assert(digits_value(s.take(n + 1)) == digits_value(s.take(n)) * 10 + digit_value(
            s.take(n + 1).last(),
        ));
        assert(is_digit(s[n]));
    } else {
        assert(s.take(n) == s);
    }
}

/// Reads a decimal number.
pub fn parse_u64(s: &str) -> (res: Option<u64>)
    ensures
        res == decimal_u64(s@),
{
    let n = s.unicode_len();
    let first: usize = if n > 0 && s.get_char(0) == '+' {
        1
    } else {
        0
    };
    if first == n {
        return None;
    }
    let ghost digits = s@.skip(first as int);
    assert(s@.skip(0) == s@);
    let mut value: u64 = 0;
    let mut i: usize = first;
    assert(digits.take(0) == Seq::<char>::empty());
    while i < n
        invariant
            first <= i <= n,
            n == s@.len(),
            digits == s@.skip(first as int),
            digits == (if s@.len() > 0 && s@[0] == '+' {
                s@.skip(1)
            } else {
                s@
            }),
            forall|m: int| 0 <= m < i - first ==> is_digit(digits[m]),
            value == digits_value(digits.take(i - first)),
        decreases n - i,
    {
        let c = s.get_char(i);
        let code: u32 = c as u32;
        assert(digits[i - first] == c);
        if code < 0x30 || code > 0x39 {
            assert(0 <= i - first < digits.len());
            assert(!is_digit(digits[i - first]));
            assert(!all_digits(digits));
            return None;
        }
        let d: u64 = (code - 0x30) as u64;
        proof {
            assert(digits.take(i - first + 1).drop_last() == digits.take(i - first));
            assert(digits.take(i - first + 1).last() == c);
        }
        if value > (u64::MAX - d) / 10 {
            proof {
                if all_digits(digits) {
                    lemma_digits_value_grows(digits, i - first + 1);
                    assert(digits_value(digits.take(i - first + 1)) == value * 10 + d);
                    assert(digits_value(digits) > u64::MAX);
                }
            }
            return None;
        }
        value = value * 10 + d;
        i = i + 1;
    }
    assert(digits.take(n - first) == digits);
    assert(all_digits(digits));
    Some(value)
}

/// The decimal digit of a number below ten.
pub open spec fn digit_char(d: nat) -> char {
    if d == 0 {
        '0'
    } else if d == 1 {
        '1'
    } else if d == 2 {
        '2'
    } else if d == 3 {
        '3'
    } else if d == 4 {
        '4'
    } else if d == 5 {
        '5'
    } else if d == 6 {
        '6'
    } else if d == 7 {
        '7'
    } else if d == 8 {
        '8'
    } else {
        '9'
    }
}

/// A number written in decimal, without sign or leading zero.
pub open spec fn decimal(n: nat) -> Seq<char>
    decreases n,
{
    if n < 10 {
        seq![digit_char(n)]
    } else {
        decimal(n / 10).push(digit_char(n % 10))
    }
}

fn digit_str(d: u64) -> (s: &'static str)
    requires
        d < 10,
    ensures
        s@ == seq![digit_char(d as nat)],
{
    proof {
        reveal_strlit("0");
        reveal_strlit("1");
        reveal_strlit("2");
        reveal_strlit("3");
        reveal_strlit("4");
        reveal_strlit("5");
        reveal_strlit("6");
        reveal_strlit("7");
        reveal_strlit("8");
        reveal_strlit("9");
    }
    let s = if d == 0 {
        "0"
    } else if d == 1 {
        "1"
    } else if d == 2 {
        "2"
    } else if d == 3 {
        "3"
    } else if d == 4 {
        "4"
    } else if d == 5 {
        "5"
    } else if d == 6 {
        "6"
    } else if d == 7 {
        "7"
    } else if d == 8 {
        "8"
    } else {
        "9"
    };
    assert(s@ =~= seq![digit_char(d as nat)]);
    s
}

/// Appends a number in decimal to a string.
pub fn push_decimal(out: &mut String, n: u64)
    ensures
        final(out)@ == old(out)@ + decimal(n as nat),
    decreases n,
{
    if n >= 10 {
        push_decimal(out, n / 10);
    }
    out.append(digit_str(n % 10));
    proof {
        if n >= 10 {
            assert(old(out)@ + decimal((n / 10) as nat) + seq![digit_char((n % 10) as nat)]
                == old(out)@ + decimal(n as nat));
        } else {
            assert(decimal(n as nat) == seq![digit_char(n as nat)]);
        }
    }
}

/// Tells whether two strings hold the same characters.
pub fn same_text(a: &str, b: &str) -> (res: bool)
    ensures
        res == (a@ == b@),
{
    let x = a.to_owned();
    let y = b.to_owned();
    x == y
}

/// The concatenation of two strings.
pub fn join2(a: &str, b: &str) -> (res: String)
    ensures
        res@ == a@ + b@,
{
    let mut out = a.to_owned();
    out.append(b);
    out
}

/// The concatenation of three strings.
pub fn join3(a: &str, b: &str, c: &str) -> (res: String)
    ensures
        res@ == a@ + b@ + c@,
{
    let mut out = a.to_owned();
    out.append(b);
    out.append(c);
    out
}


/// The form in which std's `Debug` shows a string: between double quotes,
/// with what cannot be shown as it is escaped.
pub uninterp spec fn debug_form(s: Seq<char>) -> Seq<char>;

/// Formats a string with `{:?}`. Trusted: the result is a function of the
/// string.
#[verifier::external_body]
pub(crate) fn debug_text(s: &str) -> (res: String)
    ensures
        res@ == debug_form(s@),
{
    format!("{:?}", s)
}

/// The form in which std's `Debug` shows a list of strings.
pub uninterp spec fn debug_list_form(list: Seq<Seq<char>>) -> Seq<char>;

/// Formats a list of strings with `{:?}`. Trusted: the result is a function
/// of the strings.
#[verifier::external_body]
pub(crate) fn debug_list_text(list: &Vec<String>) -> (res: String)
    ensures
        res@ == debug_list_form(texts(list@)),
{
    format!("{:?}", list)
}

} // verus!
