//! Encodings are self-delimiting: no encoding is a proper prefix of
//! another, so a run of concatenated encodings splits in exactly one way.

use vstd::prelude::*;
use crate::decimal::{
    decimal_int, decimal_nat, is_digit, lemma_decimal_int_injective, lemma_decimal_nat_well_formed,
};
use crate::encode::{
    bytes_encoding, encoding, integer_encoding, COLON, DICT_START, END, INTEGER_START,
    LIST_START,
};
use crate::laws::{
    encodings, entry_encodings, lemma_dict_encoding, lemma_items_encoding_flatten,
};
use crate::value::{BencodeValue, Dict};

verus! {

proof fn lemma_split(p: Seq<u8>, x: Seq<u8>, q: Seq<u8>, y: Seq<u8>)
    requires
        p + x == q + y,
        p.len() == q.len(),
    ensures
        p == q,
        x == y,
{
    assert(p =~= (p + x).subrange(0, p.len() as int));
    assert(q =~= (q + y).subrange(0, q.len() as int));
    assert(x =~= (p + x).subrange(p.len() as int, (p + x).len() as int));
    assert(y =~= (q + y).subrange(q.len() as int, (q + y).len() as int));
}

/// The first byte of an encoding tells its kind: a digit for a byte
/// string, `i`, `l` or `d` otherwise; it is never `e`.
proof fn lemma_first_byte(v: BencodeValue)
    ensures
        encoding(v).len() > 0,
        encoding(v)[0] != END,
        match v {
            BencodeValue::ByteString(_) => is_digit(encoding(v)[0]),
            BencodeValue::Integer(_) => encoding(v)[0] == INTEGER_START,
            BencodeValue::List(_) => encoding(v)[0] == LIST_START,
            BencodeValue::Dictionary(_) => encoding(v)[0] == DICT_START,
        },
{
    if let BencodeValue::ByteString(b) = v {
        lemma_decimal_nat_well_formed(b@.len());
        assert(encoding(v)[0] == decimal_nat(b@.len())[0]);
    }
}

proof fn lemma_bytes_prefix(a: Seq<u8>, x: Seq<u8>, b: Seq<u8>, y: Seq<u8>)
    requires
        bytes_encoding(a) + x == bytes_encoding(b) + y,
    ensures
        a == b,
        x == y,
{
    let da = decimal_nat(a.len());
    let db = decimal_nat(b.len());
    let w = bytes_encoding(a) + x;
    lemma_decimal_nat_well_formed(a.len());
    lemma_decimal_nat_well_formed(b.len());
    assert forall|i: int| 0 <= i < da.len() implies w[i] == da[i] by {}
    assert forall|i: int| 0 <= i < db.len() implies w[i] == db[i] by {}
    assert(w[da.len() as int] == COLON);
    assert(w[db.len() as int] == COLON);
    if da.len() < db.len() {
        assert(is_digit(db[da.len() as int]));
    } else if db.len() < da.len() {
        assert(is_digit(da[db.len() as int]));
    } else {
        assert(da =~= db);
        lemma_split(bytes_encoding(a), x, bytes_encoding(b), y);
        let p = da.len() as int + 1;
        assert(bytes_encoding(a).subrange(p, bytes_encoding(a).len() as int) =~= a);
        assert(bytes_encoding(b).subrange(p, bytes_encoding(b).len() as int) =~= b);
    }
}

proof fn lemma_decimal_int_no_end(n: int)
    ensures
        forall|i: int| 0 <= i < decimal_int(n).len() ==> #[trigger] decimal_int(n)[i] != END,
{
    if n < 0 {
        lemma_decimal_nat_well_formed((-n) as nat);
        assert forall|i: int| 0 <= i < decimal_int(n).len() implies #[trigger] decimal_int(n)[i] != END by {
            if i > 0 {
                assert(decimal_int(n)[i] == decimal_nat((-n) as nat)[i - 1]);
            }
        }
    } else {
        lemma_decimal_nat_well_formed(n as nat);
    }
}

proof fn lemma_integer_prefix(m: int, x: Seq<u8>, n: int, y: Seq<u8>)
    requires
        integer_encoding(m) + x == integer_encoding(n) + y,
    ensures
        m == n,
        x == y,
{
    let dm = decimal_int(m);
    let dn = decimal_int(n);
    let w = integer_encoding(m) + x;
    lemma_decimal_int_no_end(m);
    lemma_decimal_int_no_end(n);
    assert forall|i: int| 0 <= i < dm.len() implies w[i + 1] == dm[i] by {}
    assert forall|i: int| 0 <= i < dn.len() implies w[i + 1] == dn[i] by {}
    assert(w[dm.len() as int + 1] == END);
    assert(w[dn.len() as int + 1] == END);
    if dm.len() < dn.len() {
        assert(dn[dm.len() as int] != END);
    } else if dn.len() < dm.len() {
        assert(dm[dn.len() as int] != END);
    } else {
        lemma_split(integer_encoding(m), x, integer_encoding(n), y);
        if m != n {
            lemma_decimal_int_injective(m, n);
            assert(dm =~= integer_encoding(m).subrange(1, dm.len() as int + 1));
            assert(dn =~= integer_encoding(n).subrange(1, dn.len() as int + 1));
        }
    }
}

proof fn lemma_value_prefix(a: BencodeValue, x: Seq<u8>, b: BencodeValue, y: Seq<u8>)
    requires
        encoding(a) + x == encoding(b) + y,
    ensures
        encoding(a) == encoding(b),
        x == y,
    decreases a, 0nat,
{
    lemma_first_byte(a);
    lemma_first_byte(b);
    assert((encoding(a) + x)[0] == encoding(a)[0]);
    assert((encoding(b) + y)[0] == encoding(b)[0]);
    match a {
        BencodeValue::ByteString(ba) => {
            if let BencodeValue::ByteString(bb) = b {
                lemma_bytes_prefix(ba@, x, bb@, y);
            }
        },
        BencodeValue::Integer(ma) => {
            if let BencodeValue::Integer(mb) = b {
                lemma_integer_prefix(ma as int, x, mb as int, y);
            }
        },
        BencodeValue::List(la) => {
            if let BencodeValue::List(lb) = b {
                lemma_items_encoding_flatten(la@);
                lemma_items_encoding_flatten(lb@);
                let fa = encodings(la@).flatten();
                let fb = encodings(lb@).flatten();
                assert(encoding(a) + x =~= seq![LIST_START] + (fa + (seq![END] + x)));
                assert(encoding(b) + y =~= seq![LIST_START] + (fb + (seq![END] + y)));
                lemma_split(seq![LIST_START], fa + (seq![END] + x), seq![LIST_START], fb + (seq![END] + y));
                assert(decreases_to!(a => la@));
                lemma_items_prefix(la@, x, lb@, y);
            }
        },
        BencodeValue::Dictionary(da) => {
            if let BencodeValue::Dictionary(db) = b {
                lemma_dict_encoding(da);
                lemma_dict_encoding(db);
                let fa = entry_encodings(da@).flatten();
                let fb = entry_encodings(db@).flatten();
                assert(encoding(a) + x =~= seq![DICT_START] + (fa + (seq![END] + x)));
                assert(encoding(b) + y =~= seq![DICT_START] + (fb + (seq![END] + y)));
                lemma_split(seq![DICT_START], fa + (seq![END] + x), seq![DICT_START], fb + (seq![END] + y));
                assert(da@.subrange(0, da@.len() as int) =~= da@);
                assert(db@.subrange(0, db@.len() as int) =~= db@);
                lemma_entries_prefix(da, 0, x, db, 0, y);
            }
        },
    }
}

proof fn lemma_items_prefix(s: Seq<BencodeValue>, x: Seq<u8>, t: Seq<BencodeValue>, y: Seq<u8>)
    requires
        encodings(s).flatten() + (seq![END] + x) == encodings(t).flatten() + (seq![END] + y),
    ensures
        encodings(s).flatten() == encodings(t).flatten(),
        x == y,
    decreases s, 0nat,
{
    let fs = encodings(s).flatten();
    let ft = encodings(t).flatten();
    if s.len() > 0 {
        assert(encodings(s).drop_first() =~= encodings(s.drop_first()));
        lemma_first_byte(s[0]);
    }
    if t.len() > 0 {
        assert(encodings(t).drop_first() =~= encodings(t.drop_first()));
        lemma_first_byte(t[0]);
    }
    if s.len() == 0 && t.len() == 0 {
        lemma_split(seq![END], x, seq![END], y);
    } else if s.len() == 0 {
        assert((fs + (seq![END] + x))[0] == END);
        assert((ft + (seq![END] + y))[0] == encoding(t[0])[0]);
    } else if t.len() == 0 {
        assert((fs + (seq![END] + x))[0] == encoding(s[0])[0]);
        assert((ft + (seq![END] + y))[0] == END);
    } else {
        let rs = encodings(s.drop_first()).flatten();
        let rt = encodings(t.drop_first()).flatten();
        assert(fs + (seq![END] + x) =~= encoding(s[0]) + (rs + (seq![END] + x)));
        assert(ft + (seq![END] + y) =~= encoding(t[0]) + (rt + (seq![END] + y)));
        lemma_value_prefix(s[0], rs + (seq![END] + x), t[0], rt + (seq![END] + y));
        assert(decreases_to!(s => s.subrange(1, s.len() as int)));
        lemma_items_prefix(s.drop_first(), x, t.drop_first(), y);
    }
}

proof fn lemma_entries_prefix(d: Dict, i: nat, x: Seq<u8>, e: Dict, j: nat, y: Seq<u8>)
    requires
        i <= d@.len(),
        j <= e@.len(),
        entry_encodings(d@.subrange(i as int, d@.len() as int)).flatten() + (seq![END] + x)
            == entry_encodings(e@.subrange(j as int, e@.len() as int)).flatten() + (seq![END] + y),
    ensures
        entry_encodings(d@.subrange(i as int, d@.len() as int)).flatten() == entry_encodings(
            e@.subrange(j as int, e@.len() as int),
        ).flatten(),
        x == y,
    decreases d, d@.len() - i,
{
    let ps = entry_encodings(d@.subrange(i as int, d@.len() as int));
    let pt = entry_encodings(e@.subrange(j as int, e@.len() as int));
    let fs = ps.flatten();
    let ft = pt.flatten();
    if i < d@.len() {
        assert(ps.drop_first() =~= entry_encodings(d@.subrange(i as int + 1, d@.len() as int)));
        assert(ps[0] == bytes_encoding(d@[i as int].0) + encoding(d@[i as int].1));
        lemma_decimal_nat_well_formed(d@[i as int].0.len());
        assert(fs[0] == decimal_nat(d@[i as int].0.len())[0]);
    }
    if j < e@.len() {
        assert(pt.drop_first() =~= entry_encodings(e@.subrange(j as int + 1, e@.len() as int)));
        assert(pt[0] == bytes_encoding(e@[j as int].0) + encoding(e@[j as int].1));
        lemma_decimal_nat_well_formed(e@[j as int].0.len());
        assert(ft[0] == decimal_nat(e@[j as int].0.len())[0]);
    }
    if i == d@.len() && j == e@.len() {
        assert(fs =~= Seq::<u8>::empty());
        assert(ft =~= Seq::<u8>::empty());
        lemma_split(seq![END], x, seq![END], y);
    } else if i == d@.len() {
        assert(fs =~= Seq::<u8>::empty());
        assert((fs + (seq![END] + x))[0] == END);
        assert((ft + (seq![END] + y))[0] == ft[0]);
    } else if j == e@.len() {
        assert(ft =~= Seq::<u8>::empty());
        assert((ft + (seq![END] + y))[0] == END);
        assert((fs + (seq![END] + x))[0] == fs[0]);
    } else {
        let rs = entry_encodings(d@.subrange(i as int + 1, d@.len() as int)).flatten();
        let rt = entry_encodings(e@.subrange(j as int + 1, e@.len() as int)).flatten();
        let ks = d@[i as int].0;
        let kt = e@[j as int].0;
        let vs = d@[i as int].1;
        let vt = e@[j as int].1;
        assert(fs + (seq![END] + x) =~= bytes_encoding(ks) + (encoding(vs) + (rs + (seq![END] + x))));
        assert(ft + (seq![END] + y) =~= bytes_encoding(kt) + (encoding(vt) + (rt + (seq![END] + y))));
        lemma_bytes_prefix(ks, encoding(vs) + (rs + (seq![END] + x)), kt, encoding(vt) + (rt + (seq![END] + y)));
        d.lemma_value_decreases(i as int);
        lemma_value_prefix(vs, rs + (seq![END] + x), vt, rt + (seq![END] + y));
        lemma_entries_prefix(d, i + 1, x, e, j + 1, y);
    }
}

/// Encodings form a prefix code: where the encodings of two values, each
/// followed by further bytes, spell the same bytes, the two encodings are
/// equal and so are the bytes that follow. A run of concatenated encodings
/// therefore splits back into its parts in exactly one way.
pub proof fn lemma_encoding_self_delimiting(a: BencodeValue, x: Seq<u8>, b: BencodeValue, y: Seq<u8>)
    requires
        encoding(a) + x == encoding(b) + y,
    ensures
        encoding(a) == encoding(b),
        x == y,
{
    lemma_value_prefix(a, x, b, y);
}

} // verus!
