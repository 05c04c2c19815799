//! The values that bencode can carry, and the dictionary type that keeps its
//! keys in ascending byte order.

use vstd::prelude::*;
use crate::encode::{
    encoding, lemma_entries_encoding_congruent, lemma_items_encoding_congruent,
};
use crate::order::{
    bytes_less, bytes_lt, lemma_bytes_lt_irreflexive, lemma_bytes_lt_total,
    lemma_bytes_lt_transitive,
};

verus! {

/// A value of one of the four bencode kinds. Every container owns its
/// children, so values nest to any depth and `clone` copies the whole tree.
#[derive(Debug, PartialEq, Eq)]
pub enum BencodeValue {
    /// A byte string, written with its length in front.
    ByteString(Vec<u8>),
    /// A signed 64-bit integer.
    Integer(i64),
    /// An ordered list of values of any kinds.
    List(Vec<BencodeValue>),
    /// A dictionary from byte-string keys to values.
    Dictionary(Dict),
}

impl BencodeValue {
    /// A deep copy: the copy owns its own children, shares nothing with
    /// this value, and has the same encoding.
    pub fn duplicate(&self) -> (r: BencodeValue)
        ensures
            encoding(r) == encoding(*self),
        decreases self,
    {
        match self {
            BencodeValue::ByteString(b) => {
                let c = b.clone();
                assert(c@ =~= b@);
                BencodeValue::ByteString(c)
            },
            BencodeValue::Integer(n) => BencodeValue::Integer(*n),
            BencodeValue::List(items) => {
                let mut copies: Vec<BencodeValue> = Vec::new();
                let mut i: usize = 0;
                while i < items.len()
                    invariant
                        *self == BencodeValue::List(*items),
                        i <= items@.len(),
                        copies@.len() == i,
                        forall|j: int| 0 <= j < i ==> encoding(#[trigger] copies@[j]) == encoding(items@[j]),
                    decreases items@.len() - i,
                {
                    proof {
                        assert(decreases_to!(*self => (*self)->List_0));
                        assert(decreases_to!(*items => items[i as int]));
                    }
                    let c = items[i].duplicate();
                    copies.push(c);
                    i = i + 1;
                }
                proof {
                    lemma_items_encoding_congruent(copies@, items@);
                }
                BencodeValue::List(copies)
            },
            BencodeValue::Dictionary(d) => {
                let c = d.duplicate();
                proof {
                    lemma_entries_encoding_congruent(c, *d, d@.len());
                }
                BencodeValue::Dictionary(c)
            },
        }
    }
}

impl Clone for BencodeValue {
    /// A deep copy, as `duplicate` makes it.
    fn clone(&self) -> Self {
        self.duplicate()
    }
}

impl Clone for Dict {
    /// A deep copy, as `duplicate` makes it.
    fn clone(&self) -> Self {
        self.duplicate()
    }
}

/// The keys of `s` ascend strictly in byte order; in particular they are
/// pairwise distinct.
pub open spec fn keys_ascending(s: Seq<(Seq<u8>, BencodeValue)>) -> bool {
    forall|i: int, j: int| 0 <= i < j < s.len() ==> bytes_lt(#[trigger] s[i].0, #[trigger] s[j].0)
}

/// A map from byte-string keys to values whose entries are held in
/// ascending byte order of their keys, so that they can be written out in
/// the order the format demands.
#[derive(Debug, PartialEq, Eq)]
pub struct Dict {
    entries: Vec<(Vec<u8>, BencodeValue)>,
}

impl View for Dict {
    type V = Seq<(Seq<u8>, BencodeValue)>;

    /// The entries in key order, each key as its bytes.
    closed spec fn view(&self) -> Seq<(Seq<u8>, BencodeValue)> {
        entries_view(self.entries@)
    }
}

spec fn entries_view(s: Seq<(Vec<u8>, BencodeValue)>) -> Seq<(Seq<u8>, BencodeValue)> {
    s.map_values(|e: (Vec<u8>, BencodeValue)| (e.0@, e.1))
}

proof fn lemma_entries_view_insert(s: Seq<(Vec<u8>, BencodeValue)>, j: int, e: (Vec<u8>, BencodeValue))
    requires
        0 <= j <= s.len(),
    ensures
        entries_view(s.insert(j, e)) == entries_view(s).insert(j, (e.0@, e.1)),
{
    assert(entries_view(s.insert(j, e)) =~= entries_view(s).insert(j, (e.0@, e.1)));
}

proof fn lemma_entries_view_update(s: Seq<(Vec<u8>, BencodeValue)>, j: int, e: (Vec<u8>, BencodeValue))
    requires
        0 <= j < s.len(),
    ensures
        entries_view(s.update(j, e)) == entries_view(s).update(j, (e.0@, e.1)),
{
    assert(entries_view(s.update(j, e)) =~= entries_view(s).update(j, (e.0@, e.1)));
}

/// Some entry of `s` has the key `k`.
pub open spec fn has_key(s: Seq<(Seq<u8>, BencodeValue)>, k: Seq<u8>) -> bool {
    exists|j: int| 0 <= j < s.len() && #[trigger] s[j].0 == k
}

impl Dict {
    #[verifier::type_invariant]
    pub(crate) open spec fn keys_in_order(self) -> bool {
        keys_ascending(self@)
    }

    /// Each value held is structurally smaller than the dictionary, which is
    /// what makes recursion over nested values terminate.
    pub proof fn lemma_value_decreases(&self, i: int)
        requires
            0 <= i < self@.len(),
        ensures
            decreases_to!(self => self@[i].1),
    {
        assert(decreases_to!(self => self.entries));
        assert(decreases_to!(self.entries => self.entries@));
        assert(decreases_to!(self.entries@ => self.entries@[i]));
        assert(decreases_to!(self.entries@[i] => self.entries@[i].1));
    }

    /// An empty dictionary.
    pub fn new() -> (d: Dict)
        ensures
            d@ == Seq::<(Seq<u8>, BencodeValue)>::empty(),
    {
        let d = Dict { entries: Vec::new() };
        assert(d@ =~= Seq::<(Seq<u8>, BencodeValue)>::empty());
        d
    }

    /// The number of entries.
    pub fn len(&self) -> (r: usize)
        ensures
            r == self@.len(),
    {
        self.entries.len()
    }

    /// The key of the `i`-th entry in key order.
    pub fn key(&self, i: usize) -> (r: &Vec<u8>)
        requires
            i < self@.len(),
        ensures
            r@ == self@[i as int].0,
    {
        &self.entries[i].0
    }

    /// The value of the `i`-th entry in key order.
    pub fn value(&self, i: usize) -> (r: &BencodeValue)
        requires
            i < self@.len(),
        ensures
            *r == self@[i as int].1,
    {
        &self.entries[i].1
    }

    /// A deep copy: the same keys in the same order, each value a deep copy
    /// with the same encoding.
    pub fn duplicate(&self) -> (r: Dict)
        ensures
            r@.len() == self@.len(),
            forall|i: int|
                0 <= i < self@.len() ==> (#[trigger] r@[i]).0 == self@[i].0 && encoding(r@[i].1)
                    == encoding(self@[i].1),
        decreases self,
    {
        proof {
            use_type_invariant(self);
        }
        let ghost s = self@;
        let mut copies: Vec<(Vec<u8>, BencodeValue)> = Vec::new();
        let mut i: usize = 0;
        while i < self.entries.len()
            invariant
                s == self@,
                keys_ascending(s),
                i <= s.len(),
                entries_view(copies@).len() == i,
                forall|j: int|
                    0 <= j < i ==> (#[trigger] entries_view(copies@)[j]).0 == s[j].0 && encoding(
                        entries_view(copies@)[j].1,
                    ) == encoding(s[j].1),
            decreases s.len() - i,
        {
            let key = self.entries[i].0.clone();
            assert(key@ =~= s[i as int].0);
            proof {
                self.lemma_value_decreases(i as int);
            }
            let value = self.entries[i].1.duplicate();
            let ghost before = copies@;
            let ghost entry = (key, value);
            assert(s[i as int].1 == self.entries@[i as int].1);
            copies.push((key, value));
            proof {
                assert(copies@[i as int] == entry);
                assert forall|j: int| 0 <= j <= i implies (#[trigger] entries_view(copies@)[j]).0
                    == s[j].0 && encoding(entries_view(copies@)[j].1) == encoding(s[j].1) by {
                    if j < i {
                        assert(copies@[j] == before[j]);
                        assert(entries_view(copies@)[j] == entries_view(before)[j]);
                    } else {
                        assert(entries_view(copies@)[j] == (entry.0@, entry.1));
                        assert(entry.0@ == s[j].0);
                        assert(encoding(entry.1) == encoding(s[j].1));
                    }
                }
            }
            i = i + 1;
        }
        proof {
            let t = entries_view(copies@);
            assert forall|a: int, b: int| 0 <= a < b < t.len() implies bytes_lt(
                #[trigger] t[a].0,
                #[trigger] t[b].0,
            ) by {
                assert(t[a].0 == s[a].0);
                assert(t[b].0 == s[b].0);
            }
        }
        Dict { entries: copies }
    }

    /// Sets the value under `key`: an entry with that key has its value
    /// replaced in place; otherwise a new entry goes where its key keeps the
    /// keys ascending.
    pub fn insert(&mut self, key: Vec<u8>, value: BencodeValue)
        ensures
            keys_ascending(final(self)@),
            has_key(old(self)@, key@) ==> exists|j: int|
                0 <= j < old(self)@.len() && old(self)@[j].0 == key@ && final(self)@ == old(
                    self,
                )@.update(j, (key@, value)),
            !has_key(old(self)@, key@) ==> exists|j: int|
                0 <= j <= old(self)@.len() && final(self)@ == old(self)@.insert(j, (key@, value)),
    {
        proof {
            use_type_invariant(&*self);
        }
        let ghost s = self@;
        let ghost k = key@;
        let n = self.entries.len();
        let mut j: usize = 0;
        while j < n
            invariant
                j <= n,
                n == s.len(),
                self@ == s,
                k == key@,
                forall|i: int| 0 <= i < j ==> bytes_lt(#[trigger] s[i].0, k),
            ensures
                j <= n,
                self@ == s,
                k == key@,
                forall|i: int| 0 <= i < j ==> bytes_lt(#[trigger] s[i].0, k),
                j < n ==> !bytes_lt(s[j as int].0, k),
            decreases n - j,
        {
            assert(s[j as int].0 == self.entries@[j as int].0@);
            let less = bytes_less(self.entries[j].0.as_slice(), key.as_slice());
            if !less {
                break;
            }
            j = j + 1;
        }
        let ghost e = (key, value);
        assert(j < n ==> s[j as int].0 == self.entries@[j as int].0@);
        if j < n && !bytes_less(key.as_slice(), self.entries[j].0.as_slice()) {
            proof {
                lemma_bytes_lt_total(s[j as int].0, k);
                lemma_entries_view_update(self.entries@, j as int, e);
                assert forall|a: int, b: int| 0 <= a < b < s.len() implies bytes_lt(
                    #[trigger] s.update(j as int, (k, value))[a].0,
                    #[trigger] s.update(j as int, (k, value))[b].0,
                ) by {
                    assert(s.update(j as int, (k, value))[a].0 == s[a].0);
                    assert(s.update(j as int, (k, value))[b].0 == s[b].0);
                }
            }
            let mut entries: Vec<(Vec<u8>, BencodeValue)> = Vec::new();
            std::mem::swap(&mut self.entries, &mut entries);
            entries[j] = (key, value);
            self.entries = entries;
            assert(old(self)@[j as int].0 == k && self@ == old(self)@.update(j as int, (k, e.1)));
        } else {
            proof {
                if j < n {
                    lemma_bytes_lt_total(s[j as int].0, k);
                }
                assert forall|l: int| j <= l < s.len() implies bytes_lt(k, #[trigger] s[l].0) by {
                    if l > j {
                        lemma_bytes_lt_transitive(k, s[j as int].0, s[l].0);
                    }
                }
                assert forall|l: int| 0 <= l < s.len() implies #[trigger] s[l].0 != k by {
                    lemma_bytes_lt_irreflexive(k);
                }
                lemma_entries_view_insert(self.entries@, j as int, e);
                let t = s.insert(j as int, (k, value));
                assert forall|a: int, b: int| 0 <= a < b < t.len() implies bytes_lt(
                    #[trigger] t[a].0,
                    #[trigger] t[b].0,
                ) by {
                    if b < j {
                    } else if b == j {
                    } else if a < j {
                        lemma_bytes_lt_transitive(t[a].0, k, t[b].0);
                    } else if a == j {
                    } else {
                    }
                }
            }
            let mut entries: Vec<(Vec<u8>, BencodeValue)> = Vec::new();
            std::mem::swap(&mut self.entries, &mut entries);
            entries.insert(j, (key, value));
            self.entries = entries;
            assert(!has_key(s, k));
            assert(self@ == old(self)@.insert(j as int, (k, e.1)));
        }
    }
}

} // verus!
