//! The order of strings, and a map from strings that keeps its keys in that
//! order.

use vstd::prelude::*;
use vstd::utf8::{encode_utf8, encode_utf8_decode_utf8};

verus! {

/// Lexicographic order on bytes.
pub open spec fn bytes_lt(a: Seq<u8>, b: Seq<u8>) -> bool
    decreases a.len(),
{
    if b.len() == 0 {
        false
    } else if a.len() == 0 {
        true
    } else {
        a[0] < b[0] || (a[0] == b[0] && bytes_lt(a.skip(1), b.skip(1)))
    }
}

/// The order of strings: that of their UTF-8 bytes, which is the order that
/// std gives `str`.
pub open spec fn text_lt(a: Seq<char>, b: Seq<char>) -> bool {
    bytes_lt(encode_utf8(a), encode_utf8(b))
}

pub proof fn lemma_bytes_lt_irreflexive(a: Seq<u8>)
    ensures
        !bytes_lt(a, a),
    decreases a.len(),
{
    if a.len() > 0 {
        lemma_bytes_lt_irreflexive(a.skip(1));
    }
}

pub proof fn lemma_bytes_lt_transitive(a: Seq<u8>, b: Seq<u8>, c: Seq<u8>)
    requires
        bytes_lt(a, b),
        bytes_lt(b, c),
    ensures
        bytes_lt(a, c),
    decreases a.len(),
{
    if a.len() > 0 && b.len() > 0 && c.len() > 0 {
        if a[0] == b[0] && b[0] == c[0] {
            lemma_bytes_lt_transitive(a.skip(1), b.skip(1), c.skip(1));
        }
    }
}

pub proof fn lemma_bytes_lt_total(a: Seq<u8>, b: Seq<u8>)
    ensures
        a == b || bytes_lt(a, b) || bytes_lt(b, a),
    decreases a.len(),
{
    if a.len() > 0 && b.len() > 0 {
        lemma_bytes_lt_total(a.skip(1), b.skip(1));
        if a[0] == b[0] && a.skip(1) == b.skip(1) {
            assert(a =~= seq![a[0]] + a.skip(1));
            assert(b =~= seq![b[0]] + b.skip(1));
        }
    } else if a.len() == 0 && b.len() == 0 {
        assert(a =~= b);
    }
}

/// Strings are told apart by their bytes.
pub proof fn lemma_same_bytes(a: Seq<char>, b: Seq<char>)
    requires
        encode_utf8(a) == encode_utf8(b),
    ensures
        a == b,
{
    encode_utf8_decode_utf8(a);
    encode_utf8_decode_utf8(b);
}

pub proof fn lemma_text_lt_irreflexive(a: Seq<char>)
    ensures
        !text_lt(a, a),
{
    lemma_bytes_lt_irreflexive(encode_utf8(a));
}

pub proof fn lemma_text_lt_transitive(a: Seq<char>, b: Seq<char>, c: Seq<char>)
    requires
        text_lt(a, b),
        text_lt(b, c),
    ensures
        text_lt(a, c),
{
    lemma_bytes_lt_transitive(encode_utf8(a), encode_utf8(b), encode_utf8(c));
}

pub proof fn lemma_text_lt_total(a: Seq<char>, b: Seq<char>)
    ensures
        a == b || text_lt(a, b) || text_lt(b, a),
{
    lemma_bytes_lt_total(encode_utf8(a), encode_utf8(b));
    if encode_utf8(a) == encode_utf8(b) {
        lemma_same_bytes(a, b);
    }
}

/// How two values stand to each other in an order.
#[derive(Debug, Clone, Copy, PartialEq, Eq, Structural)]
pub enum Rank {
    Before,
    Same,
    After,
}

proof fn lemma_bytes_lt_step(a: Seq<u8>, b: Seq<u8>, i: int)
    requires
        0 <= i < a.len(),
        i < b.len(),
        a[i] == b[i],
    ensures
        bytes_lt(a.skip(i), b.skip(i)) == bytes_lt(a.skip(i + 1), b.skip(i + 1)),
{
    assert(a.skip(i).skip(1) == a.skip(i + 1));
    assert(b.skip(i).skip(1) == b.skip(i + 1));
    assert(a.skip(i)[0] == a[i]);
    assert(b.skip(i)[0] == b[i]);
}

/// Compares two strings.
pub fn text_rank(a: &str, b: &str) -> (res: Rank)
    ensures
        res == Rank::Before <==> text_lt(a@, b@),
        res == Rank::Same <==> a@ == b@,
        res == Rank::After <==> text_lt(b@, a@),
{
    let x = a.as_bytes();
    let y = b.as_bytes();
    let mut i: usize = 0;
    proof {
        assert(x@.skip(0) == x@);
        assert(y@.skip(0) == y@);
        lemma_text_lt_irreflexive(a@);
        lemma_text_lt_total(a@, b@);
        if text_lt(a@, b@) && text_lt(b@, a@) {
            lemma_text_lt_transitive(a@, b@, a@);
        }
    }
    while i < x.len() && i < y.len()
        invariant
            0 <= i <= x@.len(),
            i <= y@.len(),
            x@ == encode_utf8(a@),
            y@ == encode_utf8(b@),
            bytes_lt(x@, y@) == bytes_lt(x@.skip(i as int), y@.skip(i as int)),
            bytes_lt(y@, x@) == bytes_lt(y@.skip(i as int), x@.skip(i as int)),
        decreases x@.len() - i,
    {
        proof {
            assert(x@.skip(i as int)[0] == x@[i as int]);
            assert(y@.skip(i as int)[0] == y@[i as int]);
        }
        if x[i] < y[i] {
            return Rank::Before;
        }
        if x[i] > y[i] {
            return Rank::After;
        }
        proof {
            lemma_bytes_lt_step(x@, y@, i as int);
            lemma_bytes_lt_step(y@, x@, i as int);
        }
        i = i + 1;
    }
    if x.len() < y.len() {
        Rank::Before
    } else if x.len() > y.len() {
        Rank::After
    } else {
        Rank::Same
    }
}

/// A map from strings, its entries in the order of their keys.
#[derive(Debug)]
pub struct TextMap<V> {
    pub entries: Vec<(String, V)>,
}

/// The keys of a list of entries.
pub open spec fn keys_of<V>(entries: Seq<(String, V)>) -> Seq<Seq<char>> {
    Seq::new(entries.len(), |i: int| entries[i].0@)
}

/// The keys stand in strictly increasing order.
pub open spec fn increasing(keys: Seq<Seq<char>>) -> bool {
    forall|i: int, j: int| 0 <= i < j < keys.len() ==> text_lt(#[trigger] keys[i], #[trigger] keys[j])
}

impl<V> TextMap<V> {
    pub open spec fn keys(&self) -> Seq<Seq<char>> {
        keys_of(self.entries@)
    }

    pub open spec fn wf(&self) -> bool {
        increasing(self.keys())
    }

    pub open spec fn has(&self, key: Seq<char>) -> bool {
        exists|i: int| 0 <= i < self.keys().len() && #[trigger] self.keys()[i] == key
    }

    /// The place of a key that the map has.
    pub open spec fn place(&self, key: Seq<char>) -> int {
        choose|i: int| 0 <= i < self.keys().len() && #[trigger] self.keys()[i] == key
    }

    /// The value under a key that the map has.
    pub open spec fn value(&self, key: Seq<char>) -> V {
        self.entries@[self.place(key)].1
    }

    pub fn new() -> (res: Self)
        ensures
            res.wf(),
            res.entries@.len() == 0,
    {
        TextMap { entries: Vec::new() }
    }

    pub fn len(&self) -> (n: usize)
        ensures
            n == self.entries@.len(),
    {
        self.entries.len()
    }

    pub fn is_empty(&self) -> (b: bool)
        ensures
            b == (self.entries@.len() == 0),
    {
        self.entries.len() == 0
    }

    /// No key stands at two places.
    pub proof fn lemma_place(&self, i: int)
        requires
            self.wf(),
            0 <= i < self.entries@.len(),
        ensures
            self.has(self.keys()[i]),
            self.place(self.keys()[i]) == i,
    {
        let key = self.keys()[i];
        let p = self.place(key);
        lemma_text_lt_irreflexive(key);
        if p < i {
            assert(text_lt(self.keys()[p], self.keys()[i]));
        } else if i < p {
            assert(text_lt(self.keys()[i], self.keys()[p]));
        }
    }

    /// Where a key stands, or where it would have to go.
    pub fn position(&self, key: &str) -> (res: Result<usize, usize>)
        requires
            self.wf(),
        ensures
            match res {
                Ok(i) => i < self.entries@.len() && self.keys()[i as int] == key@ && self.has(key@)
                    && self.place(key@) == i,
                Err(i) => i <= self.entries@.len() && !self.has(key@) && (forall|j: int|
                    0 <= j < i ==> text_lt(#[trigger] self.keys()[j], key@)) && (forall|j: int|
                    i <= j < self.entries@.len() ==> text_lt(key@, #[trigger] self.keys()[j])),
            },
    {
        let mut i: usize = 0;
        while i < self.entries.len()
            invariant
                0 <= i <= self.entries@.len(),
                self.wf(),
                forall|j: int| 0 <= j < i ==> text_lt(#[trigger] self.keys()[j], key@),
            decreases self.entries@.len() - i,
        {
            match text_rank(self.entries[i].0.as_str(), key) {
                Rank::Before => {
                    assert(self.keys()[i as int] == self.entries@[i as int].0@);
                },
                Rank::Same => {
                    proof {
                        assert(self.keys()[i as int] == key@);
                        self.lemma_place(i as int);
                    }
                    return Ok(i);
                },
                Rank::After => {
                    proof {
                        assert(self.keys()[i as int] == self.entries@[i as int].0@);
                        assert forall|j: int| i <= j < self.entries@.len() implies text_lt(
                            key@,
                            #[trigger] self.keys()[j],
                        ) by {
                            if j > i {
                                assert(text_lt(self.keys()[i as int], self.keys()[j]));
                                lemma_text_lt_transitive(key@, self.keys()[i as int], self.keys()[j]);
                            }
                        }
                        assert(!self.has(key@)) by {
                            if self.has(key@) {
                                let p = self.place(key@);
                                lemma_text_lt_irreflexive(key@);
                            }
                        }
                    }
                    return Err(i);
                },
            }
            i = i + 1;
        }
        proof {
            if self.has(key@) {
                let p = self.place(key@);
                lemma_text_lt_irreflexive(key@);
            }
        }
        Err(i)
    }

    /// Tells whether the map has a key.
    pub fn contains_key(&self, key: &str) -> (b: bool)
        requires
            self.wf(),
        ensures
            b == self.has(key@),
    {
        self.position(key).is_ok()
    }

    /// The value under a key.
    pub fn get(&self, key: &str) -> (res: Option<&V>)
        requires
            self.wf(),
        ensures
            match res {
                Some(v) => self.has(key@) && *v == self.value(key@),
                None => !self.has(key@),
            },
    {
        match self.position(key) {
            Ok(i) => Some(&self.entries[i].1),
            Err(_) => None,
        }
    }

    /// Puts a value under a key, in place of the value that was there, if
    /// any. The other entries stay as they are.
    pub fn insert(&mut self, key: String, value: V)
        requires
            old(self).wf(),
        ensures
            final(self).wf(),
            final(self).has(key@),
            final(self).value(key@) == value,
            forall|k: Seq<char>| k != key@ ==> final(self).has(k) == old(self).has(k),
            forall|k: Seq<char>|
                k != key@ && old(self).has(k) ==> final(self).value(k) == old(self).value(k),
            final(self).entries@.len() == old(self).entries@.len() + (if old(self).has(key@) {
                0int
            } else {
                1int
            }),
    {
        let ghost before = *self;
        let ghost k0 = key@;
        match self.position(key.as_str()) {
            Ok(i) => {
                self.entries.set(i, (key, value));
                proof {
                    assert(self.keys() == before.keys());
                    self.lemma_place(i as int);
                    assert forall|k: Seq<char>| k != k0 && before.has(k) implies self.value(k)
                        == before.value(k) by {
                        let p = before.place(k);
                        before.lemma_place(p);
                        self.lemma_place(p);
                    }
                }
            },
            Err(i) => {
                self.entries.insert(i, (key, value));
                proof {
                    let old_keys = before.keys();
                    let new_keys = self.keys();
                    assert(new_keys == old_keys.insert(i as int, k0));
                    assert forall|a: int, b: int| 0 <= a < b < new_keys.len() implies text_lt(
                        #[trigger] new_keys[a],
                        #[trigger] new_keys[b],
                    ) by {
                        if b < i {
                            assert(text_lt(old_keys[a], old_keys[b]));
                        } else if b == i {
                            assert(text_lt(old_keys[a], k0));
                        } else if a < i {
                            assert(text_lt(old_keys[a], old_keys[b - 1]));
                        } else if a == i {
                            assert(text_lt(k0, old_keys[b - 1]));
                        } else {
                            assert(text_lt(old_keys[a - 1], old_keys[b - 1]));
                        }
                    }
                    assert(new_keys[i as int] == k0);
                    self.lemma_place(i as int);
                    assert forall|k: Seq<char>| k != k0 implies self.has(k) == before.has(k) by {
                        if before.has(k) {
                            let p = before.place(k);
                            if p < i {
                                assert(new_keys[p] == k);
                            } else {
                                assert(new_keys[p + 1] == k);
                            }
                        }
                        if self.has(k) {
                            let p = self.place(k);
                            if p < i {
                                assert(old_keys[p] == k);
                            } else {
                                assert(old_keys[p - 1] == k);
                            }
                        }
                    }
                    assert forall|k: Seq<char>| k != k0 && before.has(k) implies self.value(k)
                        == before.value(k) by {
                        let p = before.place(k);
                        before.lemma_place(p);
                        if p < i {
                            assert(new_keys[p] == k);
                            self.lemma_place(p);
                        } else {
                            assert(new_keys[p + 1] == k);
                            self.lemma_place(p + 1);
                        }
                    }
                }
            },
        }
    }
}

} // verus!
