//! ASCII decimal numerals: the spec-level digit sequences and verified
//! emitters shared by the codec, the diagnostic renderer and the tracker
//! query builder.
use vstd::prelude::*;

verus! {

/// Byte value of the ASCII digit `0`.
pub const DIGIT_ZERO: u8 = 48;

/// Byte value of the ASCII minus sign.
pub const MINUS: u8 = 45;

pub open spec fn is_digit(b: u8) -> bool {
    48 <= b <= 57
}

/// The canonical decimal numeral of a natural number: no leading zeros,
/// and `0` itself is the single byte `48`.
pub open spec fn dec_of(n: nat) -> Seq<u8>
    decreases n,
{
    if n < 10 {
        seq![(48 + n) as u8]
    } else {
        dec_of(n / 10).push((48 + n % 10) as u8)
    }
}

/// The canonical decimal numeral of a signed integer: a minus sign before
/// the numeral of the magnitude when negative.
pub open spec fn int_dec_of(i: int) -> Seq<u8> {
    if i < 0 {
        seq![MINUS] + dec_of((-i) as nat)
    } else {
        dec_of(i as nat)
    }
}

/// The numeric value of a run of ASCII digit bytes, most significant first.
pub open spec fn dec_val(digits: Seq<u8>) -> nat
    decreases digits.len(),
{
    if digits.len() == 0 {
        0
    } else {
        dec_val(digits.drop_last()) * 10 + (digits.last() - 48) as nat
    }
}

/// A numeral is canonical when it is non-empty, all digits, and has no
/// superfluous leading zero.
pub open spec fn canonical_digits(digits: Seq<u8>) -> bool {
    &&& digits.len() >= 1
    &&& forall|k: int| 0 <= k < digits.len() ==> is_digit(#[trigger] digits[k])
    &&& (digits.len() > 1 ==> digits[0] != 48)
}

/// `dec_of` produces a canonical numeral.
pub proof fn lemma_dec_of_canonical(n: nat)
    ensures
        canonical_digits(dec_of(n)),
        n == 0 ==> dec_of(n) == seq![48u8],
        n > 0 ==> dec_of(n)[0] != 48,
    decreases n,
{
    if n < 10 {
        assert(dec_of(n) =~= seq![(48 + n) as u8]);
    } else {
        lemma_dec_of_canonical(n / 10);
        let prefix = dec_of(n / 10);
        let whole = dec_of(n);
        assert(whole =~= prefix.push((48 + n % 10) as u8));
        assert(forall|k: int|
            0 <= k < whole.len() ==> is_digit(#[trigger] whole[k])) by {
            assert(forall|k: int| 0 <= k < prefix.len() ==> is_digit(#[trigger] prefix[k]));
        }
    }
}

/// Reading back the canonical numeral of `n` yields `n` again.
pub proof fn lemma_dec_val_of(n: nat)
    ensures
        dec_val(dec_of(n)) == n,
    decreases n,
{
    if n < 10 {
        let d = dec_of(n);
        assert(d.drop_last() =~= Seq::<u8>::empty());
        assert(dec_val(Seq::<u8>::empty()) == 0);
        assert(d.last() == (48 + n) as u8);
        assert(((48 + n) as u8 - 48) as nat == n);
        assert(dec_val(d) == dec_val(d.drop_last()) * 10 + (d.last() - 48) as nat);
        assert(dec_val(d) == n);
    } else {
        lemma_dec_val_of(n / 10);
        let d = dec_of(n);
        assert(d.drop_last() =~= dec_of(n / 10));
        assert(d.last() == (48 + n % 10) as u8);
        assert(((48 + n % 10) as u8 - 48) as nat == n % 10);
        assert(dec_val(d) == (n / 10) * 10 + n % 10);
        vstd::arithmetic::div_mod::lemma_fundamental_div_mod(n as int, 10);
        assert(10 * (n as int / 10) == (n as int / 10) * 10) by (nonlinear_arith);
    }
}

/// A canonical numeral without a leading zero denotes at least one.
pub proof fn lemma_dec_val_positive(digits: Seq<u8>)
    requires
        canonical_digits(digits),
        digits[0] != 48,
    ensures
        dec_val(digits) >= 1,
    decreases digits.len(),
{
    if digits.len() == 1 {
        assert(digits.last() >= 49);
    } else {
        let butlast = digits.drop_last();
        assert(canonical_digits(butlast)) by {
            assert(forall|k: int| 0 <= k < butlast.len() ==> butlast[k] == digits[k]);
        }
        lemma_dec_val_positive(butlast);
    }
}

/// Writing out the value of a canonical numeral yields that numeral.
pub proof fn lemma_dec_of_val(digits: Seq<u8>)
    requires
        canonical_digits(digits),
    ensures
        dec_of(dec_val(digits)) == digits,
    decreases digits.len(),
{
    let n = dec_val(digits);
    if digits.len() == 1 {
        assert(is_digit(digits[0]));
        assert(n == (digits.last() - 48) as nat);
        assert(n < 10);
        assert(dec_of(n) =~= digits);
    } else {
        let butlast = digits.drop_last();
        assert(canonical_digits(butlast)) by {
            assert(forall|k: int| 0 <= k < butlast.len() ==> butlast[k] == digits[k]);
        }
        lemma_dec_of_val(butlast);
        lemma_dec_val_positive(butlast);
        let q = dec_val(butlast);
        let r = (digits.last() - 48) as nat;
        assert(n == q * 10 + r);
        assert(n >= 10) by {
            assert(q >= 1);
            assert(q * 10 >= 10) by (nonlinear_arith)
                requires
                    q >= 1,
            ;
        }
        assert(n / 10 == q && n % 10 == r) by {
            vstd::arithmetic::div_mod::lemma_fundamental_div_mod_converse(
                n as int,
                10,
                q as int,
                r as int,
            );
        }
        assert(dec_of(n) == dec_of(q).push((48 + r) as u8));
        assert((48 + r) as u8 == digits.last());
        assert(dec_of(n) =~= digits);
    }
}

/// Appends the canonical decimal numeral of `n` to `out`.
pub fn dec_into(n: u64, out: &mut Vec<u8>)
    ensures
        final(out)@ == old(out)@ + dec_of(n as nat),
    decreases n,
{
    if n >= 10 {
        dec_into(n / 10, out);
    }
    out.push(48 + (n % 10) as u8);
    proof {
        if n < 10 {
            assert(out@ =~= old(out)@ + dec_of(n as nat));
        } else {
            assert(out@ =~= old(out)@ + dec_of(n as nat));
        }
    }
}

/// Appends the canonical decimal numeral of the signed integer `i` to `out`.
pub fn int_dec_into(i: i64, out: &mut Vec<u8>)
    ensures
        final(out)@ == old(out)@ + int_dec_of(i as int),
{
    if i < 0 {
        out.push(MINUS);
        let magnitude: u64 = if i == i64::MIN {
            9223372036854775808u64
        } else {
            (-i) as u64
        };
        assert(magnitude as nat == (-(i as int)) as nat);
        dec_into(magnitude, out);
        assert(out@ =~= old(out)@ + int_dec_of(i as int));
    } else {
        dec_into(i as u64, out);
    }
}

} // verus!
