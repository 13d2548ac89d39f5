//! Finding a change by the beginning of its name.

use crate::changes;
use crate::text::same_text;
use vstd::prelude::*;

verus! {

/// `text` begins with `prefix`.
pub open spec fn begins_with(text: Seq<char>, prefix: Seq<char>) -> bool {
    prefix.len() <= text.len() && text.take(prefix.len() as int) == prefix
}

/// Why a prefix names no change.
#[derive(Debug, Clone, Copy, PartialEq, Eq, Structural)]
pub enum PrefixError {
    /// No change has a name that begins so.
    NotFound,
    /// The names of several changes begin so.
    Ambiguous,
}

/// Tells whether a text begins with a prefix.
pub fn has_prefix(text: &str, prefix: &str) -> (res: bool)
    ensures
        res == begins_with(text@, prefix@),
{
    let n = prefix.unicode_len();
    if n <= text.unicode_len() {
        let front = text.substring_char(0, n);
        assert(front@ == text@.take(n as int));
        same_text(front, prefix)
    } else {
        false
    }
}

/// Finds the change whose name begins with `prefix` among the changes that
/// are known, each given with its name. There must be one such change and
/// one only: where there is none, or where there are several, that is what
/// is returned.
pub fn hash_from_prefix(known: &[(String, changes::Hash)], prefix: &str) -> (res: Result<
    changes::Hash,
    PrefixError,
>)
    ensures
        match res {
            Ok(h) => (exists|i: int|
                0 <= i < known@.len() && begins_with((#[trigger] known@[i]).0@, prefix@)
                    && known@[i].1 == h) && (forall|j: int|
                0 <= j < known@.len() && begins_with((#[trigger] known@[j]).0@, prefix@)
                    ==> known@[j].1 == h),
            Err(PrefixError::NotFound) => forall|j: int|
                0 <= j < known@.len() ==> !begins_with((#[trigger] known@[j]).0@, prefix@),
            Err(PrefixError::Ambiguous) => exists|i: int, j: int|
                0 <= i < j < known@.len() && begins_with((#[trigger] known@[i]).0@, prefix@)
                    && begins_with((#[trigger] known@[j]).0@, prefix@) && known@[i].1
                    != known@[j].1,
        },
{
    let mut found: Option<usize> = None;
    let mut k: usize = 0;
    while k < known.len()
        invariant
            0 <= k <= known@.len(),
            match found {
                Some(i) => i < k && begins_with(known@[i as int].0@, prefix@) && forall|j: int|
                    0 <= j < k && begins_with((#[trigger] known@[j]).0@, prefix@) ==> known@[j].1
                        == known@[i as int].1,
                None => forall|j: int|
                    0 <= j < k ==> !begins_with((#[trigger] known@[j]).0@, prefix@),
            },
        decreases known@.len() - k,
    {
        if has_prefix(known[k].0.as_str(), prefix) {
            match found {
                Some(i) => {
                    if known[i].1 != known[k].1 {
                        return Err(PrefixError::Ambiguous);
                    }
                },
                None => {
                    found = Some(k);
                },
            }
        }
        k = k + 1;
    }
    match found {
        Some(i) => Ok(known[i].1),
        None => Err(PrefixError::NotFound),
    }
}

} // verus!
