//! Properties of the encoding that relate several values or several calls.

use vstd::prelude::*;
use crate::decimal::{
    decimal_int, decimal_nat, is_digit, lemma_decimal_int_injective, lemma_decimal_nat_injective,
    lemma_decimal_nat_well_formed,
};
use crate::encode::{
    bytes_encoding, encoding, entries_encoding, integer_encoding, items_encoding, COLON,
    DICT_START, END, LIST_START,
};
use crate::value::{BencodeValue, Dict};

verus! {

/// The encoding of each value of `s`, in order.
pub open spec fn encodings(s: Seq<BencodeValue>) -> Seq<Seq<u8>> {
    s.map_values(|x: BencodeValue| encoding(x))
}

/// Each entry of `s` written as its key's byte-string encoding followed by
/// its value's encoding, in order.
pub open spec fn entry_encodings(s: Seq<(Seq<u8>, BencodeValue)>) -> Seq<Seq<u8>> {
    s.map_values(|e: (Seq<u8>, BencodeValue)| bytes_encoding(e.0) + encoding(e.1))
}

pub(crate) proof fn lemma_items_encoding_flatten(s: Seq<BencodeValue>)
    ensures
        items_encoding(s) == encodings(s).flatten(),
    decreases s.len(),
{
    if s.len() == 0 {
        assert(encodings(s) =~= Seq::<Seq<u8>>::empty());
    } else {
        lemma_items_encoding_flatten(s.drop_last());
        assert(encodings(s) =~= encodings(s.drop_last()).push(encoding(s.last())));
        encodings(s.drop_last()).lemma_flatten_push(encoding(s.last()));
    }
}

pub(crate) proof fn lemma_entries_encoding_flatten(d: Dict, n: nat)
    requires
        n <= d@.len(),
    ensures
        entries_encoding(d, n) == entry_encodings(d@.subrange(0, n as int)).flatten(),
    decreases n,
{
    if n == 0 {
        assert(entry_encodings(d@.subrange(0, 0)) =~= Seq::<Seq<u8>>::empty());
    } else {
        let m = (n - 1) as nat;
        lemma_entries_encoding_flatten(d, m);
        let e = d@[m as int];
        let piece = bytes_encoding(e.0) + encoding(e.1);
        assert(entry_encodings(d@.subrange(0, n as int)) =~= entry_encodings(
            d@.subrange(0, m as int),
        ).push(piece));
        entry_encodings(d@.subrange(0, m as int)).lemma_flatten_push(piece);
        assert(entries_encoding(d, n) =~= entries_encoding(d, m) + piece);
    }
}

/// A list is written as `l`, then the encodings of its items concatenated
/// in their original order with nothing between them, then `e`.
pub proof fn lemma_list_encoding(items: Vec<BencodeValue>)
    ensures
        encoding(BencodeValue::List(items)) == seq![LIST_START] + encodings(items@).flatten()
            + seq![END],
{
    lemma_items_encoding_flatten(items@);
}

/// A dictionary is written as `d`, then for each entry in the order the
/// dictionary holds them (ascending byte order of the keys) the key's
/// byte-string encoding followed by the value's encoding, then `e`.
pub proof fn lemma_dict_encoding(d: Dict)
    ensures
        encoding(BencodeValue::Dictionary(d)) == seq![DICT_START] + entry_encodings(d@).flatten()
            + seq![END],
{
    lemma_entries_encoding_flatten(d, d@.len());
    assert(d@.subrange(0, d@.len() as int) =~= d@);
}

/// Encoding is a function of the value alone: equal values, or the same
/// value encoded twice, give the same text.
pub proof fn lemma_encoding_deterministic(a: BencodeValue, b: BencodeValue)
    requires
        a == b,
    ensures
        encoding(a) == encoding(b),
{
}

/// Distinct byte strings of the same length have distinct encodings.
pub proof fn lemma_bytes_encoding_injective(a: Seq<u8>, b: Seq<u8>)
    requires
        a.len() == b.len(),
        a != b,
    ensures
        bytes_encoding(a) != bytes_encoding(b),
{
    let p = decimal_nat(a.len()).len() as int + 1;
    assert(bytes_encoding(a).subrange(p, bytes_encoding(a).len() as int) =~= a);
    assert(bytes_encoding(b).subrange(p, bytes_encoding(b).len() as int) =~= b);
}

/// When two byte strings differ in length, neither encoding is a prefix of
/// the other, so a sequence of encodings splits in only one way.
pub proof fn lemma_bytes_encoding_prefix_free(a: Seq<u8>, b: Seq<u8>)
    requires
        a.len() != b.len(),
    ensures
        !bytes_encoding(a).is_prefix_of(bytes_encoding(b)),
{
    let da = decimal_nat(a.len());
    let db = decimal_nat(b.len());
    let ea = bytes_encoding(a);
    let eb = bytes_encoding(b);
    lemma_decimal_nat_well_formed(a.len());
    lemma_decimal_nat_well_formed(b.len());
    lemma_decimal_nat_injective(a.len(), b.len());
    if ea.is_prefix_of(eb) {
        assert forall|i: int| 0 <= i < ea.len() implies ea[i] == eb[i] by {
            assert(ea[i] == eb.subrange(0, ea.len() as int)[i]);
        }
        if da.len() == db.len() {
            assert forall|i: int| 0 <= i < da.len() implies da[i] == db[i] by {
                assert(ea[i] == da[i]);
                assert(eb[i] == db[i]);
            }
            assert(da =~= db);
        } else if da.len() < db.len() {
            let i = da.len() as int;
            assert(ea[i] == COLON);
            assert(eb[i] == db[i]);
            assert(is_digit(db[i]));
        } else {
            let i = db.len() as int;
            assert(eb[i] == COLON);
            assert(ea[i] == da[i]);
            assert(is_digit(da[i]));
        }
    }
}

/// Distinct integers have distinct encodings.
pub proof fn lemma_integer_encoding_injective(m: int, n: int)
    requires
        m != n,
    ensures
        integer_encoding(m) != integer_encoding(n),
{
    lemma_decimal_int_injective(m, n);
    let em = integer_encoding(m);
    let en = integer_encoding(n);
    assert(em.subrange(1, em.len() - 1) =~= decimal_int(m));
    assert(en.subrange(1, en.len() - 1) =~= decimal_int(n));
}

} // verus!
