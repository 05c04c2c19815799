//! Decimal rendering of integers, as used by both the length prefix of a
//! byte string and the body of an integer.

use vstd::prelude::*;

verus! {

/// ASCII `-`, the sign of a negative integer.
pub const MINUS: u8 = 45;

/// ASCII `0`; the digit `d` is the byte `ZERO + d`.
pub const ZERO: u8 = 48;

/// The ASCII byte for the decimal digit `d` (`d < 10`).
pub open spec fn digit_byte(d: nat) -> u8 {
    (ZERO + d) as u8
}

/// The decimal digits of `m`, most significant first, with no leading zero
/// (zero itself is the single digit `0`).
pub open spec fn decimal_nat(m: nat) -> Seq<u8>
    decreases m,
{
    if m < 10 {
        seq![digit_byte(m)]
    } else {
        decimal_nat(m / 10).push(digit_byte(m % 10))
    }
}

/// The decimal rendering of `n`: a `-` before the magnitude when `n` is
/// negative, and no sign otherwise.
pub open spec fn decimal_int(n: int) -> Seq<u8> {
    if n < 0 {
        seq![MINUS] + decimal_nat((-n) as nat)
    } else {
        decimal_nat(n as nat)
    }
}

/// `b` is one of the ASCII digits `0` to `9`.
pub open spec fn is_digit(b: u8) -> bool {
    ZERO <= b <= ZERO + 9
}

/// The number that the ASCII digits `s` spell, most significant first.
pub open spec fn digits_value(s: Seq<u8>) -> nat
    decreases s.len(),
{
    if s.len() == 0 {
        0
    } else {
        digits_value(s.drop_last()) * 10 + (s.last() - ZERO) as nat
    }
}

/// The rendering of `m` is a non-empty run of digits that spells `m`, and
/// it starts with `0` only for zero itself.
pub proof fn lemma_decimal_nat_well_formed(m: nat)
    ensures
        decimal_nat(m).len() >= 1,
        forall|i: int| 0 <= i < decimal_nat(m).len() ==> is_digit(#[trigger] decimal_nat(m)[i]),
        digits_value(decimal_nat(m)) == m,
        decimal_nat(m)[0] == ZERO <==> m == 0,
    decreases m,
{
    if m < 10 {
        assert(seq![digit_byte(m)].drop_last() =~= Seq::<u8>::empty());
        assert(digit_byte(m) - ZERO == m);
        assert(digits_value(Seq::<u8>::empty()) == 0);
    } else {
        let q = m / 10;
        let r = m % 10;
        lemma_decimal_nat_well_formed(q);
        let d = decimal_nat(q);
        assert(decimal_nat(m) == d.push(digit_byte(r)));
        assert(d.push(digit_byte(r)).drop_last() =~= d);
        assert(m == q * 10 + r) by (nonlinear_arith)
            requires
                q == m / 10,
                r == m % 10,
        ;
        assert(digit_byte(r) - ZERO == r);
        assert(digits_value(decimal_nat(m)) == digits_value(d) * 10 + r);
    }
}

/// Distinct numbers have distinct renderings.
pub proof fn lemma_decimal_nat_injective(a: nat, b: nat)
    requires
        a != b,
    ensures
        decimal_nat(a) != decimal_nat(b),
{
    lemma_decimal_nat_well_formed(a);
    lemma_decimal_nat_well_formed(b);
}

/// Distinct integers have distinct renderings.
pub proof fn lemma_decimal_int_injective(a: int, b: int)
    requires
        a != b,
    ensures
        decimal_int(a) != decimal_int(b),
{
    if a < 0 && b < 0 {
        lemma_decimal_nat_injective((-a) as nat, (-b) as nat);
        assert(decimal_int(a).drop_first() =~= decimal_nat((-a) as nat));
        assert(decimal_int(b).drop_first() =~= decimal_nat((-b) as nat));
    } else if a >= 0 && b >= 0 {
        lemma_decimal_nat_injective(a as nat, b as nat);
    } else if a < 0 {
        lemma_decimal_nat_well_formed(b as nat);
        assert(decimal_int(a)[0] == MINUS);
        assert(is_digit(decimal_int(b)[0]));
    } else {
        lemma_decimal_nat_well_formed(a as nat);
        assert(decimal_int(b)[0] == MINUS);
        assert(is_digit(decimal_int(a)[0]));
    }
}

/// Appends the decimal digits of `m` to `out`.
pub fn push_decimal_nat(m: u64, out: &mut Vec<u8>)
    ensures
        final(out)@ == old(out)@ + decimal_nat(m as nat),
    decreases m,
{
    if m >= 10 {
        push_decimal_nat(m / 10, out);
    }
    let d: u8 = (m % 10) as u8;
    out.push(ZERO + d);
    proof {
        if m >= 10 {
            assert(decimal_nat(m as nat) == decimal_nat((m / 10) as nat).push(digit_byte((m % 10) as nat)));
        }
    }
    assert(out@ =~= old(out)@ + decimal_nat(m as nat));
}

/// Appends the decimal rendering of `n` to `out`; the whole range of `i64`
/// is handled, the most negative value included.
pub fn push_decimal_int(n: i64, out: &mut Vec<u8>)
    ensures
        final(out)@ == old(out)@ + decimal_int(n as int),
{
    if n < 0 {
        out.push(MINUS);
        let magnitude: u64 = ((-(n + 1)) as u64) + 1;
        push_decimal_nat(magnitude, out);
        assert(out@ =~= old(out)@ + decimal_int(n as int));
    } else {
        push_decimal_nat(n as u64, out);
    }
}

} // verus!
