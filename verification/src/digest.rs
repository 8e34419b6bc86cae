//! The 160-bit content digest and lowercase hexadecimal rendering.
use vstd::prelude::*;
use vstd::string::StringSliceAdditionalSpecFns;

use sha1::Digest;

verus! {

/// The 20-byte SHA-1 digest of a byte sequence.  The result depends on
/// the bytes alone.
pub uninterp spec fn sha1_of(bytes: Seq<u8>) -> Seq<u8>;

/// Relies on `sha1::Sha1` (`Digest::new`/`update`/`finalize`): the
/// digest is 20 bytes and a function of the input bytes alone.
#[verifier::external_body]
pub fn sha1_digest(bytes: &Vec<u8>) -> (r: Vec<u8>)
    ensures
        r@ == sha1_of(bytes@),
        r@.len() == 20,
{
    let mut hasher = sha1::Sha1::new();
    hasher.update(bytes.as_slice());
    hasher.finalize().to_vec()
}

/// The lowercase hexadecimal digit for a value below sixteen.
pub open spec fn hex_digit(n: int) -> u8 {
    if n < 10 {
        (48 + n) as u8
    } else {
        (87 + n) as u8
    }
}

/// Hexadecimal rendering of `b` from index `i` on: each byte as two
/// lowercase digits, with `sep` before every byte.
pub open spec fn hex_sep_from(b: Seq<u8>, sep: Seq<u8>, i: int) -> Seq<u8>
    decreases b.len() - i,
{
    if 0 <= i < b.len() {
        sep + seq![hex_digit(b[i] as int / 16), hex_digit(b[i] as int % 16)] + hex_sep_from(b, sep, i + 1)
    } else {
        Seq::empty()
    }
}

/// Hexadecimal rendering of a whole byte sequence.
pub open spec fn hex_sep(b: Seq<u8>, sep: Seq<u8>) -> Seq<u8> {
    hex_sep_from(b, sep, 0)
}

/// A hexadecimal rendering with an ASCII separator is all ASCII.
pub proof fn lemma_hex_ascii(b: Seq<u8>, sep: Seq<u8>, i: int)
    requires
        crate::text::all_ascii(sep),
    ensures
        crate::text::all_ascii(hex_sep_from(b, sep, i)),
    decreases b.len() - i,
{
    if 0 <= i < b.len() {
        lemma_hex_ascii(b, sep, i + 1);
        let piece = sep + seq![hex_digit(b[i] as int / 16), hex_digit(b[i] as int % 16)];
        let rest = hex_sep_from(b, sep, i + 1);
        assert forall|k: int|
            0 <= k < hex_sep_from(b, sep, i).len() implies #[trigger] hex_sep_from(b, sep, i)[k]
            < 128 by {
            if k < piece.len() {
                assert(hex_sep_from(b, sep, i)[k] == piece[k]);
                if k < sep.len() {
                    assert(piece[k] == sep[k]);
                }
            } else {
                assert(hex_sep_from(b, sep, i)[k] == rest[k - piece.len()]);
            }
        }
    }
}

/// The executable lowercase hexadecimal digit.
pub fn hex_digit_of(d: u8) -> (r: u8)
    requires
        d < 16,
    ensures
        r == hex_digit(d as int),
{
    if d < 10 {
        48 + d
    } else {
        87 + d
    }
}

/// Appends the hexadecimal rendering of `bytes[from..to]` to `out`,
/// with `sep` before every byte.
pub fn hex_range_into(out: &mut Vec<u8>, bytes: &Vec<u8>, from: usize, to: usize, sep: &str)
    requires
        from <= to <= bytes@.len(),
    ensures
        final(out)@ == old(out)@ + hex_sep(bytes@.subrange(from as int, to as int), sep.spec_bytes()),
{
    let ghost sub = bytes@.subrange(from as int, to as int);
    let ghost sepb = sep.spec_bytes();
    let mut t = from;
    while t < to
        invariant
            from <= t <= to <= bytes@.len(),
            sub == bytes@.subrange(from as int, to as int),
            sepb == sep.spec_bytes(),
            out@ + hex_sep_from(sub, sepb, t - from) == old(out)@ + hex_sep(sub, sepb),
        decreases to - t,
    {
        proof {
            assert(sub[t - from] == bytes@[t as int]);
        }
        crate::text::push_str_bytes(out, sep);
        let c = bytes[t];
        out.push(hex_digit_of(c / 16));
        out.push(hex_digit_of(c % 16));
        proof {
            assert(out@ + hex_sep_from(sub, sepb, t + 1 - from) =~= old(out)@ + hex_sep(
                sub,
                sepb,
            ));
        }
        t = t + 1;
    }
    proof {
        assert(hex_sep_from(sub, sepb, to - from) == Seq::<u8>::empty());
        assert(out@ =~= old(out)@ + hex_sep(sub, sepb));
    }
}

} // verus!
