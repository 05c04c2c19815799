//! The bencode grammar as spec functions over bytes, and the encoders that
//! produce it.

use vstd::prelude::*;
use crate::decimal::{decimal_int, decimal_nat, push_decimal_int, push_decimal_nat};
use crate::value::{keys_ascending, BencodeValue, Dict};

verus! {

/// ASCII `:`, between a byte string's length and its bytes.
pub const COLON: u8 = 58;

/// ASCII `i`, the start of an integer.
pub const INTEGER_START: u8 = 105;

/// ASCII `l`, the start of a list.
pub const LIST_START: u8 = 108;

/// ASCII `d`, the start of a dictionary.
pub const DICT_START: u8 = 100;

/// ASCII `e`, the end of an integer, a list or a dictionary.
pub const END: u8 = 101;

/// A byte string: its length in decimal, a colon, then its bytes.
pub open spec fn bytes_encoding(s: Seq<u8>) -> Seq<u8> {
    decimal_nat(s.len()) + seq![COLON] + s
}

/// An integer: `i`, its decimal rendering, `e`.
pub open spec fn integer_encoding(n: int) -> Seq<u8> {
    seq![INTEGER_START] + decimal_int(n) + seq![END]
}

/// The bencode text of a value.
pub open spec fn encoding(v: BencodeValue) -> Seq<u8>
    decreases v, 0nat,
{
    match v {
        BencodeValue::ByteString(b) => bytes_encoding(b@),
        BencodeValue::Integer(n) => integer_encoding(n as int),
        BencodeValue::List(items) => seq![LIST_START] + items_encoding(items@) + seq![END],
        BencodeValue::Dictionary(d) => seq![DICT_START] + entries_encoding(d, d@.len()) + seq![END],
    }
}

/// The encodings of the values of `s`, one after the other, in order.
pub open spec fn items_encoding(s: Seq<BencodeValue>) -> Seq<u8>
    decreases s, 0nat,
{
    if s.len() == 0 {
        Seq::empty()
    } else {
        items_encoding(s.drop_last()) + encoding(s.last())
    }
}

/// The first `n` entries of `d` in key order, each written as its key's
/// byte-string encoding followed by its value's encoding.
pub open spec fn entries_encoding(d: Dict, n: nat) -> Seq<u8>
    decreases d, n,
    via entries_encoding_decreases
{
    if n == 0 || n > d@.len() {
        Seq::empty()
    } else {
        entries_encoding(d, (n - 1) as nat) + bytes_encoding(d@[n - 1].0) + encoding(d@[n - 1].1)
    }
}

/// Sequences of values whose items encode alike, position by position,
/// encode alike.
pub proof fn lemma_items_encoding_congruent(s: Seq<BencodeValue>, t: Seq<BencodeValue>)
    requires
        s.len() == t.len(),
        forall|i: int| 0 <= i < s.len() ==> encoding(#[trigger] s[i]) == encoding(t[i]),
    ensures
        items_encoding(s) == items_encoding(t),
    decreases s.len(),
{
    if s.len() > 0 {
        lemma_items_encoding_congruent(s.drop_last(), t.drop_last());
    }
}

/// Dictionaries with the same keys in the same order, whose values encode
/// alike, position by position, encode their first `n` entries alike.
pub proof fn lemma_entries_encoding_congruent(a: Dict, b: Dict, n: nat)
    requires
        a@.len() == b@.len(),
        forall|i: int|
            0 <= i < a@.len() ==> (#[trigger] a@[i]).0 == b@[i].0 && encoding(a@[i].1) == encoding(
                b@[i].1,
            ),
    ensures
        entries_encoding(a, n) == entries_encoding(b, n),
    decreases n,
{
    if n > 0 && n <= a@.len() {
        lemma_entries_encoding_congruent(a, b, (n - 1) as nat);
        assert(a@[n - 1].0 == b@[n - 1].0);
    }
}

#[via_fn]
proof fn entries_encoding_decreases(d: Dict, n: nat) {
    if n != 0 && n <= d@.len() {
        d.lemma_value_decreases(n - 1);
    }
}

/// Appends the encoding of the byte string `s` to `out`.
fn push_bytes(s: &[u8], out: &mut Vec<u8>)
    ensures
        final(out)@ == old(out)@ + bytes_encoding(s@),
{
    push_decimal_nat(s.len() as u64, out);
    out.push(COLON);
    let ghost start = out@;
    let mut i: usize = 0;
    while i < s.len()
        invariant
            i <= s@.len(),
            start == old(out)@ + decimal_nat(s@.len()) + seq![COLON],
            out@ == start + s@.subrange(0, i as int),
        decreases s@.len() - i,
    {
        out.push(s[i]);
        i = i + 1;
        assert(out@ =~= start + s@.subrange(0, i as int));
    }
    assert(s@.subrange(0, s@.len() as int) =~= s@);
    assert(out@ =~= old(out)@ + bytes_encoding(s@));
}

/// Appends the encodings of `items`, in order, to `out`.
fn push_items(items: &[BencodeValue], out: &mut Vec<u8>)
    ensures
        final(out)@ == old(out)@ + items_encoding(items@),
    decreases items@,
{
    let mut i: usize = 0;
    assert(items@.subrange(0, 0) =~= Seq::<BencodeValue>::empty());
    assert(out@ =~= old(out)@ + items_encoding(items@.subrange(0, 0)));
    while i < items.len()
        invariant
            i <= items@.len(),
            out@ == old(out)@ + items_encoding(items@.subrange(0, i as int)),
        decreases items@.len() - i,
    {
        let ghost before = out@;
        items[i].encode_into(out);
        proof {
            let next = items@.subrange(0, i + 1);
            assert(next.drop_last() =~= items@.subrange(0, i as int));
            assert(next.last() == items@[i as int]);
        }
        i = i + 1;
        assert(out@ =~= old(out)@ + items_encoding(items@.subrange(0, i as int)));
    }
    assert(items@.subrange(0, items@.len() as int) =~= items@);
}

impl BencodeValue {
    /// Appends the encoding of this value to `out`.
    pub fn encode_into(&self, out: &mut Vec<u8>)
        ensures
            final(out)@ == old(out)@ + encoding(*self),
        decreases self,
    {
        match self {
            BencodeValue::ByteString(b) => {
                push_bytes(b.as_slice(), out);
            },
            BencodeValue::Integer(n) => {
                out.push(INTEGER_START);
                push_decimal_int(*n, out);
                out.push(END);
                assert(out@ =~= old(out)@ + encoding(*self));
            },
            BencodeValue::List(items) => {
                out.push(LIST_START);
                proof {
                    assert(decreases_to!(*items => items@));
                }
                push_items(items.as_slice(), out);
                out.push(END);
                assert(out@ =~= old(out)@ + encoding(*self));
            },
            BencodeValue::Dictionary(d) => {
                out.push(DICT_START);
                d.push_entries(out);
                out.push(END);
                assert(out@ =~= old(out)@ + encoding(*self));
            },
        }
    }

    /// The bencode text of this value.
    pub fn encode(&self) -> (r: Vec<u8>)
        ensures
            r@ == encoding(*self),
    {
        let mut out: Vec<u8> = Vec::new();
        self.encode_into(&mut out);
        assert(out@ =~= encoding(*self));
        out
    }
}

impl Dict {
    /// Appends the entries, in key order, each as its key's encoding
    /// followed by its value's encoding.
    fn push_entries(&self, out: &mut Vec<u8>)
        ensures
            final(out)@ == old(out)@ + entries_encoding(*self, self@.len()),
        decreases self,
    {
        let n = self.len();
        let mut i: usize = 0;
        assert(out@ =~= old(out)@ + entries_encoding(*self, 0));
        while i < n
            invariant
                n == self@.len(),
                i <= n,
                out@ == old(out)@ + entries_encoding(*self, i as nat),
            decreases n - i,
        {
            push_bytes(self.key(i).as_slice(), out);
            proof {
                self.lemma_value_decreases(i as int);
            }
            self.value(i).encode_into(out);
            i = i + 1;
            assert(out@ =~= old(out)@ + entries_encoding(*self, i as nat));
        }
    }

    /// The bencode text of this dictionary; its entries come out in
    /// strictly ascending byte order of their keys.
    pub fn encode(&self) -> (r: Vec<u8>)
        ensures
            r@ == seq![DICT_START] + entries_encoding(*self, self@.len()) + seq![END],
            keys_ascending(self@),
    {
        proof {
            use_type_invariant(self);
        }
        let mut out: Vec<u8> = Vec::new();
        out.push(DICT_START);
        self.push_entries(&mut out);
        out.push(END);
        assert(out@ =~= seq![DICT_START] + entries_encoding(*self, self@.len()) + seq![END]);
        out
    }
}

/// The encoding of a byte string: its length in decimal, `:`, its bytes.
pub fn encode_bytes(s: &[u8]) -> (r: Vec<u8>)
    ensures
        r@ == bytes_encoding(s@),
{
    let mut out: Vec<u8> = Vec::new();
    push_bytes(s, &mut out);
    assert(out@ =~= bytes_encoding(s@));
    out
}

/// The encoding of an integer: `i`, its decimal rendering, `e`.
pub fn encode_integer(n: i64) -> (r: Vec<u8>)
    ensures
        r@ == integer_encoding(n as int),
{
    let mut out: Vec<u8> = Vec::new();
    out.push(INTEGER_START);
    push_decimal_int(n, &mut out);
    out.push(END);
    assert(out@ =~= integer_encoding(n as int));
    out
}

/// The encoding of a list: `l`, the encodings of the items in order, `e`.
pub fn encode_list(items: &[BencodeValue]) -> (r: Vec<u8>)
    ensures
        r@ == seq![LIST_START] + items_encoding(items@) + seq![END],
{
    let mut out: Vec<u8> = Vec::new();
    out.push(LIST_START);
    push_items(items, &mut out);
    out.push(END);
    assert(out@ =~= seq![LIST_START] + items_encoding(items@) + seq![END]);
    out
}

} // verus!
