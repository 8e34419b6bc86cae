//! The codec's round-trip law: the canonical encoding of any decoded
//! value parses back to that value, with dictionary keys in ascending
//! order.  The proof is by mutual induction over the value, against the
//! specification parser that the executable decoder is pinned to.
use vstd::prelude::*;
use vstd::assert_seqs_equal;

use crate::bencode::{
    bytes_enc, digit_run_at, enc, enc_entries, enc_list, insert_entry, lemma_digit_run_bounds,
    norm, norm_entries, norm_list, parse_bytes_at, parse_entries_at, parse_int_at, parse_items_at,
    parse_value_at, sort_entries, valid_encoding, vm, vm_entries, vm_list, wf, Value, ValueModel,
    COLON, TOK_DICT, TOK_END, TOK_INT, TOK_LIST,
};
use crate::decimal::{
    dec_of, dec_val, int_dec_of, is_digit, lemma_dec_of_canonical, lemma_dec_val_of,
};

verus! {

/// A digit run ends exactly where the digits end.
pub proof fn lemma_digit_run_exact(s: Seq<u8>, i: int, j: int)
    requires
        0 <= i <= j <= s.len(),
        forall|k: int| i <= k < j ==> is_digit(#[trigger] s[k]),
        j < s.len() ==> !is_digit(s[j]),
    ensures
        digit_run_at(s, i) == j,
    decreases j - i,
{
    if i < j {
        lemma_digit_run_exact(s, i + 1, j);
    }
}

/// The first byte of an encoding identifies the variant encoded.
pub proof fn lemma_enc_head(v: ValueModel)
    ensures
        enc(v).len() >= 1,
        v is Bytes ==> is_digit(enc(v)[0]),
        v is Int ==> enc(v)[0] == TOK_INT,
        v is List ==> enc(v)[0] == TOK_LIST,
        v is Dict ==> enc(v)[0] == TOK_DICT,
{
    match v {
        ValueModel::Bytes(b) => {
            lemma_dec_of_canonical(b.len());
            assert(enc(v)[0] == dec_of(b.len())[0]);
        },
        ValueModel::Int(x) => {
            assert(enc(v)[0] == TOK_INT);
        },
        ValueModel::List(items) => {
            assert(enc(v)[0] == TOK_LIST);
        },
        ValueModel::Dict(entries) => {
            assert(enc(v)[0] == TOK_DICT);
        },
    }
}

/// A byte-string encoding placed at `i` parses back to its raw bytes.
pub proof fn lemma_parse_enc_bytes(s: Seq<u8>, i: int, b: Seq<u8>)
    requires
        0 <= i,
        i + bytes_enc(b).len() <= s.len(),
        s.subrange(i, i + bytes_enc(b).len()) == bytes_enc(b),
    ensures
        parse_bytes_at(s, i) == Some((b, i + bytes_enc(b).len())),
{
    let d = dec_of(b.len());
    let dlen = d.len() as int;
    let total = bytes_enc(b).len() as int;
    lemma_dec_of_canonical(b.len());
    assert(total == dlen + 1 + b.len());
    assert(forall|k: int| i <= k < i + total ==> #[trigger] s[k] == bytes_enc(b)[k - i]) by {
        assert(forall|k: int|
            i <= k < i + total ==> s.subrange(i, i + total)[k - i] == #[trigger] s[k]);
    }
    assert(forall|t: int| 0 <= t < dlen ==> #[trigger] bytes_enc(b)[t] == d[t]);
    assert(forall|k: int| i <= k < i + dlen ==> is_digit(#[trigger] s[k])) by {
        assert(forall|k: int|
            i <= k < i + dlen ==> #[trigger] bytes_enc(b)[k - i] == d[k - i]);
    }
    assert(bytes_enc(b)[dlen] == COLON);
    assert(s[i + dlen] == COLON);
    assert(!is_digit(COLON));
    lemma_digit_run_exact(s, i, i + dlen);
    let j = digit_run_at(s, i);
    assert(j == i + dlen);
    assert(j > i);
    assert(bytes_enc(b)[0] == d[0]);
    assert(s[i] == d[0]);
    assert(dlen > 1 ==> s[i] != 48);
    assert(s.subrange(i, j) =~= d);
    lemma_dec_val_of(b.len());
    assert(dec_val(s.subrange(i, j)) == b.len());
    assert(j + 1 + b.len() <= s.len());
    assert(s.subrange(j + 1, j + 1 + b.len() as int) =~= b) by {
        assert(forall|t: int|
            0 <= t < b.len() ==> bytes_enc(b)[dlen + 1 + t] == #[trigger] b[t]);
    }
}

/// An integer encoding placed at `i` parses back to its value.
pub proof fn lemma_parse_enc_int(s: Seq<u8>, i: int, x: int)
    requires
        0 <= i,
        -0x8000000000000000 <= x <= 0x7fffffffffffffff,
        i + enc(ValueModel::Int(x)).len() <= s.len(),
        s.subrange(i, i + enc(ValueModel::Int(x)).len()) == enc(ValueModel::Int(x)),
    ensures
        parse_int_at(s, i) == Some((ValueModel::Int(x), i + enc(ValueModel::Int(x)).len())),
{
    let e = enc(ValueModel::Int(x));
    let total = e.len() as int;
    let mag: nat = if x < 0 {
        (-x) as nat
    } else {
        x as nat
    };
    let d = dec_of(mag);
    let dlen = d.len() as int;
    lemma_dec_of_canonical(mag);
    assert(e =~= seq![TOK_INT] + int_dec_of(x) + seq![TOK_END]);
    assert(forall|k: int| i <= k < i + total ==> #[trigger] s[k] == e[k - i]) by {
        assert(forall|k: int|
            i <= k < i + total ==> s.subrange(i, i + total)[k - i] == #[trigger] s[k]);
    }
    let d0 = if x < 0 {
        i + 2
    } else {
        i + 1
    };
    if x < 0 {
        assert(int_dec_of(x) =~= seq![45u8] + d);
        assert(total == 3 + dlen);
        assert(e[1] == 45);
        assert(s[i + 1] == 45);
        assert(forall|t: int| 0 <= t < dlen ==> #[trigger] e[2 + t] == d[t]);
        assert(forall|k: int| d0 <= k < d0 + dlen ==> is_digit(#[trigger] s[k])) by {
            assert(forall|k: int| d0 <= k < d0 + dlen ==> #[trigger] e[k - i] == d[k - d0]);
        }
    } else {
        assert(int_dec_of(x) =~= d);
        assert(total == 2 + dlen);
        assert(e[1] == d[0]);
        assert(s[i + 1] == d[0]);
        assert(is_digit(d[0]));
        assert(s[i + 1] != 45);
        assert(forall|t: int| 0 <= t < dlen ==> #[trigger] e[1 + t] == d[t]);
        assert(forall|k: int| d0 <= k < d0 + dlen ==> is_digit(#[trigger] s[k])) by {
            assert(forall|k: int| d0 <= k < d0 + dlen ==> #[trigger] e[k - i] == d[k - d0]);
        }
    }
    assert(forall|k: int| d0 <= k < d0 + dlen ==> is_digit(#[trigger] s[k]));
    assert(e[total - 1] == TOK_END);
    assert(s[d0 + dlen] == TOK_END);
    assert(!is_digit(TOK_END));
    lemma_digit_run_exact(s, d0, d0 + dlen);
    let j = digit_run_at(s, d0);
    assert(j == d0 + dlen);
    assert(e[d0 - i] == d[0]);
    assert(s[d0] == d[0]);
    assert(dlen > 1 ==> s[d0] != 48);
    if x < 0 {
        assert(mag > 0);
        assert(s[d0] != 48);
    }
    assert(s.subrange(d0, j) =~= d);
    lemma_dec_val_of(mag);
    assert(dec_val(s.subrange(d0, j)) == mag);
    assert(j + 1 == i + total);
}

/// A value's encoding placed at `i` parses back to that value.
pub proof fn lemma_parse_enc_value(s: Seq<u8>, i: int, v: ValueModel)
    requires
        0 <= i,
        wf(v),
        i + enc(v).len() <= s.len(),
        s.subrange(i, i + enc(v).len()) == enc(v),
    ensures
        parse_value_at(s, i) == Some((v, i + enc(v).len())),
    decreases v, 0int,
{
    lemma_enc_head(v);
    assert(s[i] == enc(v)[0]) by {
        assert(s.subrange(i, i + enc(v).len() as int)[0] == s[i]);
    }
    match v {
        ValueModel::Bytes(b) => {
            assert(enc(v) == bytes_enc(b));
            lemma_parse_enc_bytes(s, i, b);
        },
        ValueModel::Int(x) => {
            lemma_parse_enc_int(s, i, x);
        },
        ValueModel::List(items) => {
            let inner = enc_list(items, 0);
            let l = inner.len() as int;
            let total = enc(v).len() as int;
            assert(enc(v) == seq![TOK_LIST] + inner + seq![TOK_END]);
            assert(total == l + 2);
            assert(forall|t: int| i <= t < i + total ==> #[trigger] s[t] == enc(v)[t - i]) by {
                assert(forall|t: int|
                    i <= t < i + total ==> s.subrange(i, i + total)[t - i] == #[trigger] s[t]);
            }
            assert(s.subrange(i + 1, i + 1 + l) =~= inner) by {
                assert(forall|t: int| 0 <= t < l ==> #[trigger] enc(v)[1 + t] == inner[t]);
            }
            assert(enc(v)[total - 1] == TOK_END);
            assert(s[i + 1 + l] == TOK_END);
            lemma_parse_enc_items(s, i + 1, items, 0);
            assert(items.subrange(0, items.len() as int) =~= items);
        },
        ValueModel::Dict(entries) => {
            let inner = enc_entries(entries, 0);
            let l = inner.len() as int;
            let total = enc(v).len() as int;
            assert(enc(v) == seq![TOK_DICT] + inner + seq![TOK_END]);
            assert(total == l + 2);
            assert(forall|t: int| i <= t < i + total ==> #[trigger] s[t] == enc(v)[t - i]) by {
                assert(forall|t: int|
                    i <= t < i + total ==> s.subrange(i, i + total)[t - i] == #[trigger] s[t]);
            }
            assert(s.subrange(i + 1, i + 1 + l) =~= inner) by {
                assert(forall|t: int| 0 <= t < l ==> #[trigger] enc(v)[1 + t] == inner[t]);
            }
            assert(enc(v)[total - 1] == TOK_END);
            assert(s[i + 1 + l] == TOK_END);
            lemma_parse_enc_entries(s, i + 1, entries, 0);
            assert(entries.subrange(0, entries.len() as int) =~= entries);
        },
    }
}

/// The concatenated encodings of a list's elements, followed by the
/// terminator, parse back to those elements.
#[verifier::rlimit(50)]
pub proof fn lemma_parse_enc_items(s: Seq<u8>, i: int, items: Seq<ValueModel>, k: int)
    requires
        0 <= i,
        0 <= k <= items.len(),
        forall|j: int| 0 <= j < items.len() ==> wf(#[trigger] items[j]),
        i + enc_list(items, k).len() + 1 <= s.len(),
        s.subrange(i, i + enc_list(items, k).len()) == enc_list(items, k),
        s[i + enc_list(items, k).len()] == TOK_END,
    ensures
        parse_items_at(s, i) == Some(
            (items.subrange(k, items.len() as int), i + enc_list(items, k).len() + 1),
        ),
    decreases items, items.len() - k + 1,
{
    let whole = enc_list(items, k);
    let ll = whole.len() as int;
    if k == items.len() {
        assert(ll == 0);
        assert(s[i] == TOK_END);
        assert(items.subrange(k, items.len() as int) =~= Seq::<ValueModel>::empty());
    } else {
        let e0 = enc(items[k]);
        let l0 = e0.len() as int;
        let rest = enc_list(items, k + 1);
        assert(whole == e0 + rest);
        assert(ll == l0 + rest.len());
        lemma_enc_head(items[k]);
        assert(forall|t: int| i <= t < i + ll ==> #[trigger] s[t] == whole[t - i]) by {
            assert(forall|t: int|
                i <= t < i + ll ==> s.subrange(i, i + ll)[t - i] == #[trigger] s[t]);
        }
        assert(s.subrange(i, i + l0) =~= e0) by {
            assert(forall|t: int| 0 <= t < l0 ==> #[trigger] whole[t] == e0[t]);
        }
        assert(whole[0] == e0[0]);
        assert(s[i] == e0[0]);
        assert(s[i] != TOK_END);
        lemma_parse_enc_value(s, i, items[k]);
        assert(s.subrange(i + l0, i + ll) =~= rest) by {
            assert(forall|t: int| 0 <= t < rest.len() ==> #[trigger] whole[l0 + t] == rest[t]);
        }
        lemma_parse_enc_items(s, i + l0, items, k + 1);
        assert(seq![items[k]] + items.subrange(k + 1, items.len() as int) =~= items.subrange(
            k,
            items.len() as int,
        ));
    }
}

/// The concatenated encodings of a dictionary's entries, followed by the
/// terminator, parse back to those entries.
#[verifier::rlimit(50)]
pub proof fn lemma_parse_enc_entries(s: Seq<u8>, i: int, entries: Seq<(Seq<u8>, ValueModel)>, k: int)
    requires
        0 <= i,
        0 <= k <= entries.len(),
        forall|j: int| 0 <= j < entries.len() ==> wf(#[trigger] entries[j].1),
        i + enc_entries(entries, k).len() + 1 <= s.len(),
        s.subrange(i, i + enc_entries(entries, k).len()) == enc_entries(entries, k),
        s[i + enc_entries(entries, k).len()] == TOK_END,
    ensures
        parse_entries_at(s, i) == Some(
            (entries.subrange(k, entries.len() as int), i + enc_entries(entries, k).len() + 1),
        ),
    decreases entries, entries.len() - k + 1,
{
    let whole = enc_entries(entries, k);
    let ll = whole.len() as int;
    if k == entries.len() {
        assert(ll == 0);
        assert(s[i] == TOK_END);
        assert(entries.subrange(k, entries.len() as int) =~= Seq::<(Seq<u8>, ValueModel)>::empty());
    } else {
        let key = entries[k].0;
        let ek = bytes_enc(key);
        let lk = ek.len() as int;
        let ev = enc(entries[k].1);
        let lv = ev.len() as int;
        let rest = enc_entries(entries, k + 1);
        assert(whole == ek + ev + rest);
        assert(ll == lk + lv + rest.len());
        lemma_enc_head(entries[k].1);
        lemma_dec_of_canonical(key.len());
        assert(forall|t: int| i <= t < i + ll ==> #[trigger] s[t] == whole[t - i]) by {
            assert(forall|t: int|
                i <= t < i + ll ==> s.subrange(i, i + ll)[t - i] == #[trigger] s[t]);
        }
        assert(s.subrange(i, i + lk) =~= ek) by {
            assert(forall|t: int| 0 <= t < lk ==> #[trigger] whole[t] == ek[t]);
        }
        assert(ek[0] == dec_of(key.len())[0]);
        assert(whole[0] == ek[0]);
        assert(s[i] == ek[0]);
        assert(is_digit(s[i]));
        assert(s[i] != TOK_END);
        lemma_parse_enc_bytes(s, i, key);
        assert(s.subrange(i + lk, i + lk + lv) =~= ev) by {
            assert(forall|t: int| 0 <= t < lv ==> #[trigger] whole[lk + t] == ev[t]);
        }
        lemma_parse_enc_value(s, i + lk, entries[k].1);
        assert(s.subrange(i + lk + lv, i + ll) =~= rest) by {
            assert(forall|t: int|
                0 <= t < rest.len() ==> #[trigger] whole[lk + lv + t] == rest[t]);
        }
        lemma_parse_enc_entries(s, i + lk + lv, entries, k + 1);
        assert(seq![(key, entries[k].1)] + entries.subrange(k + 1, entries.len() as int)
            =~= entries.subrange(k, entries.len() as int));
    }
}

/// Consing an element onto a list shifts its suffix encodings by one.
proof fn lemma_enc_list_shift(v: ValueModel, rest: Seq<ValueModel>, k: int)
    requires
        0 <= k <= rest.len(),
    ensures
        enc_list(seq![v] + rest, k + 1) == enc_list(rest, k),
    decreases rest.len() - k,
{
    if k < rest.len() {
        lemma_enc_list_shift(v, rest, k + 1);
        assert((seq![v] + rest)[k + 1] == rest[k]);
        assert(enc_list(seq![v] + rest, k + 1) =~= enc_list(rest, k));
    } else {
        assert(enc_list(seq![v] + rest, k + 1) == Seq::<u8>::empty());
        assert(enc_list(rest, k) == Seq::<u8>::empty());
    }
}

/// Consing an entry onto a dictionary shifts its suffix encodings by one.
proof fn lemma_enc_entries_shift(
    e0: (Seq<u8>, ValueModel),
    rest: Seq<(Seq<u8>, ValueModel)>,
    k: int,
)
    requires
        0 <= k <= rest.len(),
    ensures
        enc_entries(seq![e0] + rest, k + 1) == enc_entries(rest, k),
    decreases rest.len() - k,
{
    if k < rest.len() {
        lemma_enc_entries_shift(e0, rest, k + 1);
        assert((seq![e0] + rest)[k + 1] == rest[k]);
        assert(enc_entries(seq![e0] + rest, k + 1) =~= enc_entries(rest, k));
    } else {
        assert(enc_entries(seq![e0] + rest, k + 1) == Seq::<u8>::empty());
        assert(enc_entries(rest, k) == Seq::<u8>::empty());
    }
}

/// What the byte-string parser consumed is exactly the encoding of what
/// it returned.
pub proof fn lemma_parse_bytes_sound(s: Seq<u8>, i: int)
    requires
        0 <= i <= s.len(),
        parse_bytes_at(s, i) is Some,
    ensures
        ({
            let p = parse_bytes_at(s, i).unwrap();
            &&& i < p.1 <= s.len()
            &&& s.subrange(i, p.1) == bytes_enc(p.0)
        }),
{
    let j = digit_run_at(s, i);
    lemma_digit_run_bounds(s, i);
    let d = s.subrange(i, j);
    assert(crate::decimal::canonical_digits(d)) by {
        assert(forall|k: int| 0 <= k < d.len() ==> d[k] == s[i + k]);
        assert(d[0] == s[i]);
    }
    crate::decimal::lemma_dec_of_val(d);
    let n = dec_val(d) as int;
    let b = s.subrange(j + 1, j + 1 + n);
    let e = j + 1 + n;
    assert(b.len() == n);
    assert(bytes_enc(b) == d + seq![COLON] + b);
    assert(s.subrange(i, e) =~= d + seq![COLON] + b) by {
        assert(forall|k: int| 0 <= k < j - i ==> s.subrange(i, e)[k] == #[trigger] d[k]);
        assert(s.subrange(i, e)[j - i] == s[j]);
        assert(forall|k: int| 0 <= k < n ==> s.subrange(i, e)[j + 1 - i + k] == #[trigger] b[k]);
    }
}

/// What the integer parser consumed is exactly the encoding of what it
/// returned, and the value fits in a signed 64-bit word.
pub proof fn lemma_parse_int_sound(s: Seq<u8>, i: int)
    requires
        0 <= i < s.len(),
        s[i] == TOK_INT,
        parse_int_at(s, i) is Some,
    ensures
        ({
            let p = parse_int_at(s, i).unwrap();
            &&& i < p.1 <= s.len()
            &&& s.subrange(i, p.1) == enc(p.0)
            &&& wf(p.0)
        }),
{
    let neg = i + 1 < s.len() && s[i + 1] == 45;
    let d0 = if neg {
        i + 2
    } else {
        i + 1
    };
    let j = digit_run_at(s, d0);
    lemma_digit_run_bounds(s, d0);
    let d = s.subrange(d0, j);
    assert(crate::decimal::canonical_digits(d)) by {
        assert(forall|k: int| 0 <= k < d.len() ==> d[k] == s[d0 + k]);
        assert(d[0] == s[d0]);
    }
    crate::decimal::lemma_dec_of_val(d);
    let m = dec_val(d) as int;
    let val = if neg {
        -m
    } else {
        m
    };
    let e = j + 1;
    assert(dec_of(m as nat) == d);
    if neg {
        assert(d[0] != 48);
        crate::decimal::lemma_dec_val_positive(d);
        assert(m >= 1);
        assert(int_dec_of(val) == seq![45u8] + d);
        assert(enc(ValueModel::Int(val)) == seq![TOK_INT] + (seq![45u8] + d) + seq![TOK_END]);
        assert(s.subrange(i, e) =~= enc(ValueModel::Int(val))) by {
            assert(s.subrange(i, e)[0] == s[i]);
            assert(s.subrange(i, e)[1] == s[i + 1]);
            assert(forall|k: int| 0 <= k < d.len() ==> s.subrange(i, e)[2 + k] == #[trigger] d[k]);
            assert(s.subrange(i, e)[e - i - 1] == s[j]);
        }
    } else {
        assert(int_dec_of(val) == d);
        assert(enc(ValueModel::Int(val)) == seq![TOK_INT] + d + seq![TOK_END]);
        assert(s.subrange(i, e) =~= enc(ValueModel::Int(val))) by {
            assert(s.subrange(i, e)[0] == s[i]);
            assert(forall|k: int| 0 <= k < d.len() ==> s.subrange(i, e)[1 + k] == #[trigger] d[k]);
            assert(s.subrange(i, e)[e - i - 1] == s[j]);
        }
    }
}

/// What the value parser consumed is exactly the stored-order encoding
/// of the value it returned, and that value is well formed.
pub proof fn lemma_parse_sound(s: Seq<u8>, i: int)
    requires
        0 <= i <= s.len(),
        parse_value_at(s, i) is Some,
    ensures
        ({
            let p = parse_value_at(s, i).unwrap();
            &&& i < p.1 <= s.len()
            &&& s.subrange(i, p.1) == enc(p.0)
            &&& wf(p.0)
        }),
    decreases s.len() - i, 0int,
{
    if s[i] == TOK_INT {
        lemma_parse_int_sound(s, i);
    } else if s[i] == TOK_LIST {
        lemma_parse_items_sound(s, i + 1);
        let q = parse_items_at(s, i + 1).unwrap();
        let items = q.0;
        let e = q.1;
        assert(s.subrange(i, e) =~= seq![TOK_LIST] + s.subrange(i + 1, e)) by {
            assert(s.subrange(i, e)[0] == s[i]);
            assert(forall|k: int|
                0 <= k < e - i - 1 ==> s.subrange(i, e)[1 + k] == #[trigger] s.subrange(
                    i + 1,
                    e,
                )[k]);
        }
        assert(s.subrange(i, e) =~= enc(ValueModel::List(items)));
    } else if s[i] == TOK_DICT {
        lemma_parse_entries_sound(s, i + 1);
        let q = parse_entries_at(s, i + 1).unwrap();
        let entries = q.0;
        let e = q.1;
        assert(s.subrange(i, e) =~= seq![TOK_DICT] + s.subrange(i + 1, e)) by {
            assert(s.subrange(i, e)[0] == s[i]);
            assert(forall|k: int|
                0 <= k < e - i - 1 ==> s.subrange(i, e)[1 + k] == #[trigger] s.subrange(
                    i + 1,
                    e,
                )[k]);
        }
        assert(s.subrange(i, e) =~= enc(ValueModel::Dict(entries)));
    } else {
        lemma_parse_bytes_sound(s, i);
    }
}

/// What the list-suffix parser consumed is exactly the concatenated
/// encodings of the elements it returned, plus the terminator.
pub proof fn lemma_parse_items_sound(s: Seq<u8>, i: int)
    requires
        0 <= i <= s.len(),
        parse_items_at(s, i) is Some,
    ensures
        ({
            let q = parse_items_at(s, i).unwrap();
            &&& i < q.1 <= s.len()
            &&& s.subrange(i, q.1) == enc_list(q.0, 0) + seq![TOK_END]
            &&& forall|j: int| 0 <= j < q.0.len() ==> wf(#[trigger] q.0[j])
        }),
    decreases s.len() - i, 1int,
{
    if s[i] == TOK_END {
        assert(s.subrange(i, i + 1) =~= enc_list(Seq::<ValueModel>::empty(), 0) + seq![TOK_END]);
    } else {
        lemma_parse_sound(s, i);
        let p = parse_value_at(s, i).unwrap();
        let v = p.0;
        let n = p.1;
        lemma_parse_items_sound(s, n);
        let q = parse_items_at(s, n).unwrap();
        let rest = q.0;
        let e = q.1;
        lemma_enc_list_shift(v, rest, 0);
        assert(enc_list(seq![v] + rest, 0) == enc(v) + enc_list(rest, 0)) by {
            assert((seq![v] + rest)[0] == v);
        }
        let combined = enc_list(seq![v] + rest, 0) + seq![TOK_END];
        assert(enc(v).len() == n - i);
        assert(s.subrange(n, e) == enc_list(rest, 0) + seq![TOK_END]);
        assert(s.subrange(n, e).len() == e - n);
        assert((enc_list(rest, 0) + seq![TOK_END]).len() == enc_list(rest, 0).len() + 1);
        assert(enc_list(rest, 0).len() == e - n - 1);
        assert(combined.len() == e - i);
        assert_seqs_equal!(s.subrange(i, e) == combined, k => {
            assert(s.subrange(i, e)[k] == s[i + k]);
            if k < n - i {
                assert(combined[k] == enc_list(seq![v] + rest, 0)[k]);
                assert((enc(v) + enc_list(rest, 0))[k] == enc(v)[k]);
                assert(s.subrange(i, n)[k] == s[i + k]);
            } else if k < e - i - 1 {
                assert(combined[k] == enc_list(seq![v] + rest, 0)[k]);
                assert((enc(v) + enc_list(rest, 0))[k] == enc_list(rest, 0)[k - (n - i)]);
                assert((enc_list(rest, 0) + seq![TOK_END])[k - (n - i)] == enc_list(
                    rest,
                    0,
                )[k - (n - i)]);
                assert(s.subrange(n, e)[k - (n - i)] == s[i + k]);
            } else {
                assert(combined[k] == TOK_END);
                assert((enc_list(rest, 0) + seq![TOK_END])[e - n - 1] == TOK_END);
                assert(s.subrange(n, e)[e - n - 1] == s[i + k]);
            }
        });
        assert(forall|j: int|
            0 <= j < (seq![v] + rest).len() ==> wf(#[trigger] (seq![v] + rest)[j])) by {
            assert(forall|j: int| 1 <= j < (seq![v] + rest).len() ==> (seq![v] + rest)[j]
                == rest[j - 1]);
        }
    }
}

/// What the entry-suffix parser consumed is exactly the concatenated
/// encodings of the entries it returned, plus the terminator.
#[verifier::rlimit(50)]
pub proof fn lemma_parse_entries_sound(s: Seq<u8>, i: int)
    requires
        0 <= i <= s.len(),
        parse_entries_at(s, i) is Some,
    ensures
        ({
            let q = parse_entries_at(s, i).unwrap();
            &&& i < q.1 <= s.len()
            &&& s.subrange(i, q.1) == enc_entries(q.0, 0) + seq![TOK_END]
            &&& forall|j: int| 0 <= j < q.0.len() ==> wf(#[trigger] q.0[j].1)
        }),
    decreases s.len() - i, 1int,
{
    if s[i] == TOK_END {
        assert(s.subrange(i, i + 1) =~= enc_entries(Seq::<(Seq<u8>, ValueModel)>::empty(), 0)
            + seq![TOK_END]);
    } else {
        lemma_parse_bytes_sound(s, i);
        let kp = parse_bytes_at(s, i).unwrap();
        let key = kp.0;
        let kend = kp.1;
        lemma_parse_sound(s, kend);
        let vp = parse_value_at(s, kend).unwrap();
        let v = vp.0;
        let vend = vp.1;
        lemma_parse_entries_sound(s, vend);
        let q = parse_entries_at(s, vend).unwrap();
        let rest = q.0;
        let e = q.1;
        let e0 = (key, v);
        lemma_enc_entries_shift(e0, rest, 0);
        assert(enc_entries(seq![e0] + rest, 0) == bytes_enc(key) + enc(v) + enc_entries(rest, 0))
            by {
            assert((seq![e0] + rest)[0] == e0);
        }
        let chunk = bytes_enc(key) + enc(v) + enc_entries(rest, 0);
        let combined = enc_entries(seq![e0] + rest, 0) + seq![TOK_END];
        assert(s.subrange(i, kend) == bytes_enc(key));
        assert(bytes_enc(key).len() == kend - i);
        assert(s.subrange(kend, vend) == enc(v));
        assert(enc(v).len() == vend - kend);
        assert(s.subrange(vend, e) == enc_entries(rest, 0) + seq![TOK_END]);
        assert(s.subrange(vend, e).len() == e - vend);
        assert((enc_entries(rest, 0) + seq![TOK_END]).len() == enc_entries(rest, 0).len() + 1);
        assert(enc_entries(rest, 0).len() == e - vend - 1);
        assert(combined.len() == e - i);
        assert_seqs_equal!(s.subrange(i, e) == combined, k => {
            assert(s.subrange(i, e)[k] == s[i + k]);
            if k < kend - i {
                assert(combined[k] == enc_entries(seq![e0] + rest, 0)[k]);
                assert(chunk[k] == (bytes_enc(key) + enc(v))[k]);
                assert((bytes_enc(key) + enc(v))[k] == bytes_enc(key)[k]);
                assert(s.subrange(i, kend)[k] == s[i + k]);
            } else if k < vend - i {
                assert(combined[k] == enc_entries(seq![e0] + rest, 0)[k]);
                assert(chunk[k] == (bytes_enc(key) + enc(v))[k]);
                assert((bytes_enc(key) + enc(v))[k] == enc(v)[k - (kend - i)]);
                assert(s.subrange(kend, vend)[k - (kend - i)] == s[i + k]);
            } else if k < e - i - 1 {
                assert(combined[k] == enc_entries(seq![e0] + rest, 0)[k]);
                assert(chunk[k] == enc_entries(rest, 0)[k - (vend - i)]);
                assert((enc_entries(rest, 0) + seq![TOK_END])[k - (vend - i)] == enc_entries(
                    rest,
                    0,
                )[k - (vend - i)]);
                assert(s.subrange(vend, e)[k - (vend - i)] == s[i + k]);
            } else {
                assert(combined[k] == TOK_END);
                assert((enc_entries(rest, 0) + seq![TOK_END])[e - vend - 1] == TOK_END);
                assert(s.subrange(vend, e)[e - vend - 1] == s[i + k]);
            }
        });
        assert(forall|j: int|
            0 <= j < (seq![e0] + rest).len() ==> wf(#[trigger] (seq![e0] + rest)[j].1)) by {
            assert(forall|j: int| 1 <= j < (seq![e0] + rest).len() ==> (seq![e0] + rest)[j]
                == rest[j - 1]);
        }
    }
}

/// Stored-order re-encoding is the exact inverse of decoding: the
/// encoding of a decoded value is, byte for byte, the input it was
/// decoded from.  The content identifier depends on this: hashing the
/// re-encoded `info` value is hashing the original source span.
pub proof fn lemma_decode_encode_raw_identity(s: Seq<u8>, v: ValueModel)
    requires
        parse_value_at(s, 0) == Some((v, s.len() as int)),
    ensures
        enc(v) == s,
        wf(v),
{
    lemma_parse_sound(s, 0);
    assert(s.subrange(0, s.len() as int) =~= s);
}

/// The model of any machine value is well formed.
pub proof fn lemma_vm_wf(v: Value)
    ensures
        wf(vm(v)),
    decreases v, 0int,
{
    match v {
        Value::Bytes(_) => {
        },
        Value::Int(_) => {
        },
        Value::List(items) => {
            lemma_vm_wf_list(items@, 0);
            crate::bencode::lemma_vm_list_len(items@, 0);
            let ms = vm_list(items@, 0);
            assert forall|j: int| 0 <= j < ms.len() implies wf(#[trigger] ms[j]) by {
                crate::bencode::lemma_vm_list_index(items@, 0, j);
            }
        },
        Value::Dict(entries) => {
            lemma_vm_wf_entries(entries@, 0);
            crate::bencode::lemma_vm_entries_len(entries@, 0);
            let ms = vm_entries(entries@, 0);
            assert forall|j: int| 0 <= j < ms.len() implies wf(#[trigger] ms[j].1) by {
                crate::bencode::lemma_vm_entries_index(entries@, 0, j);
            }
        },
    }
}

/// The models of a vector's elements are all well formed.
proof fn lemma_vm_wf_list(items: Seq<Value>, k: int)
    requires
        0 <= k <= items.len(),
    ensures
        forall|j: int| k <= j < items.len() ==> wf(vm(#[trigger] items[j])),
    decreases items, items.len() - k,
{
    if k < items.len() {
        lemma_vm_wf(items[k]);
        lemma_vm_wf_list(items, k + 1);
    }
}

/// The models of an entry vector's values are all well formed.
proof fn lemma_vm_wf_entries(entries: Seq<(Vec<u8>, Value)>, k: int)
    requires
        0 <= k <= entries.len(),
    ensures
        forall|j: int| k <= j < entries.len() ==> wf(vm(#[trigger] entries[j].1)),
    decreases entries, entries.len() - k,
{
    if k < entries.len() {
        lemma_vm_wf(entries[k].1);
        lemma_vm_wf_entries(entries, k + 1);
    }
}

/// Every element of `insert_entry(s, e)` is `e` or an element of `s`.
proof fn lemma_insert_entry_elems(s: Seq<(Seq<u8>, ValueModel)>, e: (Seq<u8>, ValueModel))
    ensures
        insert_entry(s, e).len() == s.len() + 1,
        forall|j: int|
            0 <= j < insert_entry(s, e).len() ==> (#[trigger] insert_entry(s, e)[j] == e
                || exists|m: int| 0 <= m < s.len() && insert_entry(s, e)[j] == s[m]),
    decreases s.len(),
{
    if s.len() == 0 {
    } else if crate::bencode::lex_lt(e.0, s[0].0) {
        assert forall|j: int| 0 <= j < insert_entry(s, e).len() implies (
            #[trigger] insert_entry(s, e)[j] == e || exists|m: int|
                0 <= m < s.len() && insert_entry(s, e)[j] == s[m]) by {
            if j > 0 {
                assert(insert_entry(s, e)[j] == s[j - 1]);
            }
        }
    } else {
        let tail = s.drop_first();
        lemma_insert_entry_elems(tail, e);
        assert forall|j: int| 0 <= j < insert_entry(s, e).len() implies (
            #[trigger] insert_entry(s, e)[j] == e || exists|m: int|
                0 <= m < s.len() && insert_entry(s, e)[j] == s[m]) by {
            if j == 0 {
                assert(insert_entry(s, e)[0] == s[0]);
            } else {
                assert(insert_entry(s, e)[j] == insert_entry(tail, e)[j - 1]);
                if insert_entry(tail, e)[j - 1] != e {
                    let m = choose|m: int|
                        0 <= m < tail.len() && insert_entry(tail, e)[j - 1] == tail[m];
                    assert(tail[m] == s[m + 1]);
                }
            }
        }
    }
}

/// Every element of `sort_entries(s)` is an element of `s`.
proof fn lemma_sort_entries_elems(s: Seq<(Seq<u8>, ValueModel)>)
    ensures
        sort_entries(s).len() == s.len(),
        forall|j: int|
            0 <= j < sort_entries(s).len() ==> exists|m: int|
                0 <= m < s.len() && #[trigger] sort_entries(s)[j] == s[m],
    decreases s.len(),
{
    if s.len() > 0 {
        let butlast = s.drop_last();
        lemma_sort_entries_elems(butlast);
        lemma_insert_entry_elems(sort_entries(butlast), s.last());
        assert forall|j: int| 0 <= j < sort_entries(s).len() implies exists|m: int|
            0 <= m < s.len() && #[trigger] sort_entries(s)[j] == s[m] by {
            let ins = insert_entry(sort_entries(butlast), s.last());
            assert(sort_entries(s) == ins);
            if ins[j] == s.last() {
                assert(sort_entries(s)[j] == s[s.len() - 1]);
            } else {
                let m = choose|m: int|
                    0 <= m < sort_entries(butlast).len() && ins[j] == sort_entries(butlast)[m];
                let m2 = choose|m2: int|
                    0 <= m2 < butlast.len() && sort_entries(butlast)[m] == butlast[m2];
                assert(butlast[m2] == s[m2]);
                assert(sort_entries(s)[j] == s[m2]);
            }
        }
    }
}

/// Normalization keeps a value well formed.
pub proof fn lemma_norm_wf(v: ValueModel)
    requires
        wf(v),
    ensures
        wf(norm(v)),
    decreases v, 0int,
{
    match v {
        ValueModel::Bytes(_) => {
        },
        ValueModel::Int(_) => {
        },
        ValueModel::List(items) => {
            lemma_norm_wf_list(items, 0);
            crate::bencode::lemma_norm_list_len(items, 0);
            let ms = norm_list(items, 0);
            assert forall|j: int| 0 <= j < ms.len() implies wf(#[trigger] ms[j]) by {
                crate::bencode::lemma_norm_list_index(items, 0, j);
            }
        },
        ValueModel::Dict(entries) => {
            lemma_norm_wf_entries(entries, 0);
            let normed = norm_entries(entries, 0);
            crate::bencode::lemma_norm_entries_len(entries, 0);
            assert forall|j: int| 0 <= j < normed.len() implies wf(#[trigger] normed[j].1) by {
                crate::bencode::lemma_norm_entries_index(entries, 0, j);
            }
            lemma_sort_entries_elems(normed);
            let sorted = sort_entries(normed);
            assert forall|j: int| 0 <= j < sorted.len() implies wf(#[trigger] sorted[j].1) by {
                let m = choose|m: int| 0 <= m < normed.len() && sorted[j] == normed[m];
                assert(wf(normed[m].1));
            }
        },
    }
}

/// Normalization keeps every element of a list well formed.
proof fn lemma_norm_wf_list(items: Seq<ValueModel>, k: int)
    requires
        0 <= k <= items.len(),
        forall|j: int| 0 <= j < items.len() ==> wf(#[trigger] items[j]),
    ensures
        forall|j: int| k <= j < items.len() ==> wf(norm(#[trigger] items[j])),
    decreases items, items.len() - k,
{
    if k < items.len() {
        lemma_norm_wf(items[k]);
        lemma_norm_wf_list(items, k + 1);
    }
}

/// Normalization keeps every entry value well formed.
proof fn lemma_norm_wf_entries(entries: Seq<(Seq<u8>, ValueModel)>, k: int)
    requires
        0 <= k <= entries.len(),
        forall|j: int| 0 <= j < entries.len() ==> wf(#[trigger] entries[j].1),
    ensures
        forall|j: int| k <= j < entries.len() ==> wf(norm(#[trigger] entries[j].1)),
    decreases entries, entries.len() - k,
{
    if k < entries.len() {
        lemma_norm_wf(entries[k].1);
        lemma_norm_wf_entries(entries, k + 1);
    }
}

/// Normalization yields the canonical form: every dictionary, at every
/// depth, ends up with its entries in ascending key order.
pub proof fn lemma_norm_canonical(v: ValueModel)
    ensures
        crate::bencode::canonical(norm(v)),
    decreases v, 0int,
{
    match v {
        ValueModel::Bytes(_) => {
        },
        ValueModel::Int(_) => {
        },
        ValueModel::List(items) => {
            lemma_norm_canonical_list(items, 0);
            crate::bencode::lemma_norm_list_len(items, 0);
            let ms = norm_list(items, 0);
            assert forall|j: int|
                0 <= j < ms.len() implies crate::bencode::canonical(#[trigger] ms[j]) by {
                crate::bencode::lemma_norm_list_index(items, 0, j);
            }
        },
        ValueModel::Dict(entries) => {
            lemma_norm_canonical_entries(entries, 0);
            crate::bencode::lemma_norm_entries_len(entries, 0);
            let normed = norm_entries(entries, 0);
            assert forall|j: int|
                0 <= j < normed.len() implies crate::bencode::canonical(
                #[trigger] normed[j].1,
            ) by {
                crate::bencode::lemma_norm_entries_index(entries, 0, j);
            }
            crate::bencode::lemma_sort_entries_sorted(normed);
            lemma_sort_entries_elems(normed);
            let sorted = sort_entries(normed);
            assert forall|j: int|
                0 <= j < sorted.len() implies crate::bencode::canonical(
                #[trigger] sorted[j].1,
            ) by {
                let m = choose|m: int| 0 <= m < normed.len() && sorted[j] == normed[m];
                assert(crate::bencode::canonical(normed[m].1));
            }
        },
    }
}

/// Normalization makes every element of a list canonical.
proof fn lemma_norm_canonical_list(items: Seq<ValueModel>, k: int)
    requires
        0 <= k <= items.len(),
    ensures
        forall|j: int|
            k <= j < items.len() ==> crate::bencode::canonical(norm(#[trigger] items[j])),
    decreases items, items.len() - k,
{
    if k < items.len() {
        lemma_norm_canonical(items[k]);
        lemma_norm_canonical_list(items, k + 1);
    }
}

/// Normalization makes every entry value canonical.
proof fn lemma_norm_canonical_entries(entries: Seq<(Seq<u8>, ValueModel)>, k: int)
    requires
        0 <= k <= entries.len(),
    ensures
        forall|j: int|
            k <= j < entries.len() ==> crate::bencode::canonical(norm(#[trigger] entries[j].1)),
    decreases entries, entries.len() - k,
{
    if k < entries.len() {
        lemma_norm_canonical(entries[k].1);
        lemma_norm_canonical_entries(entries, k + 1);
    }
}

/// Round trip: a value decoded from a syntactically valid encoding,
/// re-encoded canonically, decodes again to the same value with every
/// dictionary's key order normalized to ascending.
pub proof fn lemma_round_trip(s: Seq<u8>, v: ValueModel)
    requires
        parse_value_at(s, 0) == Some((v, s.len() as int)),
    ensures
        valid_encoding(enc(norm(v))),
        parse_value_at(enc(norm(v)), 0) == Some((norm(v), enc(norm(v)).len() as int)),
{
    lemma_parse_sound(s, 0);
    lemma_norm_wf(v);
    let canon = enc(norm(v));
    assert(canon.subrange(0, canon.len() as int) =~= canon);
    lemma_parse_enc_value(canon, 0, norm(v));
}

} // verus!
