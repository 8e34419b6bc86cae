//! Text helpers: byte-level building blocks for the human-readable
//! output, and the one conversion from assembled bytes to `String`.
use vstd::prelude::*;
use vstd::string::StringSliceAdditionalSpecFns;

verus! {

/// Every byte is ASCII.
pub open spec fn all_ascii(b: Seq<u8>) -> bool {
    forall|k: int| 0 <= k < b.len() ==> #[trigger] b[k] < 128
}

/// The characters of an ASCII byte sequence, one per byte.
pub open spec fn ascii_chars_of(b: Seq<u8>) -> Seq<char> {
    Seq::new(b.len(), |k: int| b[k] as char)
}

/// The bytes of an ASCII string are all ASCII.
pub proof fn lemma_ascii_str_bytes(s: &str)
    requires
        vstd::string::is_ascii(s),
    ensures
        all_ascii(s.spec_bytes()),
{
    vstd::string::is_ascii_spec_bytes(s);
    assert forall|k: int| 0 <= k < s.spec_bytes().len() implies #[trigger] s.spec_bytes()[k]
        < 128 by {
        assert(s.spec_bytes()[k] == s@[k] as u8);
        assert(s@[k] <= '\u{7f}');
    }
}

/// What `String::from_utf8_lossy` makes of a byte sequence.  The result
/// depends on the bytes alone.
pub uninterp spec fn lossy_of(bytes: Seq<u8>) -> Seq<char>;

/// Relies on `String::from_utf8_lossy`: the result is a function of the
/// bytes alone; valid UTF-8 passes through unchanged, so an ASCII byte
/// sequence becomes exactly its characters.
#[verifier::external_body]
pub fn utf8_lossy(bytes: &Vec<u8>) -> (r: String)
    ensures
        r@ == lossy_of(bytes@),
        all_ascii(bytes@) ==> r@ == ascii_chars_of(bytes@),
{
    String::from_utf8_lossy(bytes.as_slice()).into_owned()
}

/// Appends the bytes of a string literal to `out`.
pub fn push_str_bytes(out: &mut Vec<u8>, lit: &str)
    ensures
        final(out)@ == old(out)@ + lit.spec_bytes(),
{
    let bs = lit.as_bytes();
    let mut t: usize = 0;
    while t < bs.len()
        invariant
            t <= bs@.len(),
            bs@ == lit.spec_bytes(),
            out@ == old(out)@ + bs@.subrange(0, t as int),
        decreases bs@.len() - t,
    {
        out.push(bs[t]);
        proof {
            assert(out@ =~= old(out)@ + bs@.subrange(0, t + 1 as int));
        }
        t = t + 1;
    }
    proof {
        assert(bs@.subrange(0, bs@.len() as int) =~= bs@);
    }
}

/// Copies a byte vector.
pub fn copy_bytes(v: &Vec<u8>) -> (r: Vec<u8>)
    ensures
        r@ == v@,
{
    let mut r: Vec<u8> = Vec::new();
    let mut t: usize = 0;
    while t < v.len()
        invariant
            t <= v@.len(),
            r@ == v@.subrange(0, t as int),
        decreases v@.len() - t,
    {
        r.push(v[t]);
        proof {
            assert(r@ =~= v@.subrange(0, t + 1 as int));
        }
        t = t + 1;
    }
    proof {
        assert(v@.subrange(0, v@.len() as int) =~= v@);
    }
    r
}

/// Whether two byte vectors hold the same bytes.
pub fn bytes_eq(a: &Vec<u8>, b: &Vec<u8>) -> (r: bool)
    ensures
        r == (a@ == b@),
{
    if a.len() != b.len() {
        return false;
    }
    let mut t: usize = 0;
    while t < a.len()
        invariant
            t <= a@.len(),
            a@.len() == b@.len(),
            forall|m: int| 0 <= m < t ==> a@[m] == b@[m],
        decreases a@.len() - t,
    {
        if a[t] != b[t] {
            return false;
        }
        t = t + 1;
    }
    proof {
        assert(a@ =~= b@);
    }
    true
}

/// Whether the bytes of `k` are exactly the bytes of the literal `lit`.
pub fn key_is(k: &Vec<u8>, lit: &str) -> (r: bool)
    ensures
        r == (k@ == lit.spec_bytes()),
{
    let bs = lit.as_bytes();
    if k.len() != bs.len() {
        proof {
            assert(k@.len() != lit.spec_bytes().len());
        }
        return false;
    }
    let mut t: usize = 0;
    while t < k.len()
        invariant
            t <= k@.len(),
            k@.len() == bs@.len(),
            bs@ == lit.spec_bytes(),
            forall|m: int| 0 <= m < t ==> k@[m] == bs@[m],
        decreases k@.len() - t,
    {
        if k[t] != bs[t] {
            proof {
                assert(k@[t as int] != lit.spec_bytes()[t as int]);
            }
            return false;
        }
        t = t + 1;
    }
    proof {
        assert(k@ =~= lit.spec_bytes());
    }
    true
}

} // verus!
