//! The executable decoder for the canonical value codec.  Each function's
//! result is pinned, success and failure alike, to the specification
//! parser of `bencode`.
use vstd::prelude::*;

use crate::bencode::{
    digit_run_at, lemma_dec_val_step, lemma_digit_run_bounds,
    lemma_vm_entries_snoc, lemma_vm_list_snoc, parse_bytes_at, parse_entries_at, parse_int_at,
    parse_items_at, parse_value_at, valid_encoding, vm, vm_entries, vm_list, ParseError, Value,
    ValueModel, COLON, TOK_DICT, TOK_END, TOK_INT, TOK_LIST,
};
use crate::decimal::dec_val;

verus! {

/// Scans the run of ASCII digits that starts at `i`.
fn scan_digits(s: &Vec<u8>, i: usize) -> (j: usize)
    requires
        i <= s@.len(),
    ensures
        j == digit_run_at(s@, i as int),
        i <= j <= s@.len(),
        forall|k: int| i <= k < j ==> crate::decimal::is_digit(#[trigger] s@[k]),
{
    let mut j = i;
    while j < s.len() && s[j] >= 48 && s[j] <= 57
        invariant
            i <= j <= s@.len(),
            digit_run_at(s@, i as int) == digit_run_at(s@, j as int),
        decreases s@.len() - j,
    {
        j = j + 1;
    }
    proof {
        assert(digit_run_at(s@, j as int) == j);
        lemma_digit_run_bounds(s@, i as int);
    }
    j
}

/// Decodes the byte string whose length prefix starts at `i`.
pub fn decode_bytes_at(s: &Vec<u8>, i: usize) -> (r: Result<(Vec<u8>, usize), ParseError>)
    requires
        i <= s@.len(),
    ensures
        (match r {
            Ok(p) => parse_bytes_at(s@, i as int) == Some((p.0@, p.1 as int)) && i < p.1 <= s@.len(),
            Err(_) => parse_bytes_at(s@, i as int) is None,
        }),
{
    if i >= s.len() {
        return Err(ParseError { pos: i });
    }
    let j = scan_digits(s, i);
    if j == i {
        return Err(ParseError { pos: i });
    }
    if s[i] == 48 && j > i + 1 {
        return Err(ParseError { pos: i });
    }
    if j >= s.len() || s[j] != COLON {
        return Err(ParseError { pos: j });
    }
    let remaining: usize = s.len() - (j + 1);
    let ghost full: nat = dec_val(s@.subrange(i as int, j as int));
    let mut acc: u128 = 0;
    let mut too_big = false;
    let mut k = i;
    while k < j
        invariant
            i <= k <= j < s@.len(),
            remaining == s@.len() - (j + 1),
            forall|t: int| i <= t < j ==> crate::decimal::is_digit(#[trigger] s@[t]),
            too_big ==> dec_val(s@.subrange(i as int, k as int)) > remaining,
            !too_big ==> acc == dec_val(s@.subrange(i as int, k as int)),
            acc <= (remaining as u128) * 10 + 9,
        decreases j - k,
    {
        proof {
            lemma_dec_val_step(s@, i as int, k as int);
        }
        if !too_big {
            if acc > remaining as u128 {
                too_big = true;
            } else {
                acc = acc * 10 + (s[k] - 48) as u128;
            }
        }
        k = k + 1;
    }
    proof {
        assert(s@.subrange(i as int, j as int) =~= s@.subrange(i as int, k as int));
    }
    if too_big || acc > remaining as u128 {
        proof {
            assert(full > remaining);
            assert(j + 1 + full > s@.len());
        }
        return Err(ParseError { pos: i });
    }
    let len = acc as usize;
    let start = j + 1;
    let end = start + len;
    let mut b: Vec<u8> = Vec::new();
    let mut t = start;
    while t < end
        invariant
            start <= t <= end <= s@.len(),
            b@ == s@.subrange(start as int, t as int),
        decreases end - t,
    {
        b.push(s[t]);
        proof {
            assert(b@ =~= s@.subrange(start as int, t + 1 as int));
        }
        t = t + 1;
    }
    Ok((b, end))
}

/// Decodes the integer whose opening tag stands at `i`.
fn decode_int_at(s: &Vec<u8>, i: usize) -> (r: Result<(i64, usize), ParseError>)
    requires
        i < s@.len(),
        s@[i as int] == TOK_INT,
    ensures
        (match r {
            Ok(p) => parse_int_at(s@, i as int) == Some((ValueModel::Int(p.0 as int), p.1 as int))
                && i < p.1 <= s@.len(),
            Err(_) => parse_int_at(s@, i as int) is None,
        }),
{
    let n = s.len();
    let neg = i + 1 < n && s[i + 1] == 45;
    let d0 = if neg {
        i + 2
    } else {
        i + 1
    };
    if d0 > s.len() {
        proof {
            assert(digit_run_at(s@, d0 as int) == d0);
        }
        return Err(ParseError { pos: i });
    }
    let j = scan_digits(s, d0);
    if j == d0 {
        return Err(ParseError { pos: d0 });
    }
    if s[d0] == 48 && (neg || j > d0 + 1) {
        return Err(ParseError { pos: d0 });
    }
    if j >= s.len() || s[j] != TOK_END {
        return Err(ParseError { pos: j });
    }
    // One past the largest magnitude that fits in a signed 64-bit value.
    let cap: u128 = 9223372036854775808;
    let ghost full: nat = dec_val(s@.subrange(d0 as int, j as int));
    let mut acc: u128 = 0;
    let mut too_big = false;
    let mut k = d0;
    while k < j
        invariant
            d0 <= k <= j < s@.len(),
            cap == 9223372036854775808,
            forall|t: int| d0 <= t < j ==> crate::decimal::is_digit(#[trigger] s@[t]),
            too_big ==> dec_val(s@.subrange(d0 as int, k as int)) > cap,
            !too_big ==> acc == dec_val(s@.subrange(d0 as int, k as int)),
            acc <= cap * 10 + 9,
        decreases j - k,
    {
        proof {
            lemma_dec_val_step(s@, d0 as int, k as int);
        }
        if !too_big {
            if acc > cap {
                too_big = true;
            } else {
                acc = acc * 10 + (s[k] - 48) as u128;
            }
        }
        k = k + 1;
    }
    proof {
        assert(s@.subrange(d0 as int, j as int) =~= s@.subrange(d0 as int, k as int));
    }
    if too_big || acc > cap || (!neg && acc == cap) {
        return Err(ParseError { pos: d0 });
    }
    let v: i64 = if neg {
        if acc == cap {
            i64::MIN
        } else {
            -(acc as i64)
        }
    } else {
        acc as i64
    };
    Ok((v, j + 1))
}

/// Decodes one value starting at `i`; yields the value and the position
/// just past its encoding.
pub fn decode_at(s: &Vec<u8>, i: usize) -> (r: Result<(Value, usize), ParseError>)
    requires
        i <= s@.len(),
    ensures
        (match r {
            Ok(p) => parse_value_at(s@, i as int) == Some((vm(p.0), p.1 as int)) && i < p.1
                <= s@.len(),
            Err(_) => parse_value_at(s@, i as int) is None,
        }),
    decreases s@.len() - i, 1int,
{
    if i >= s.len() {
        return Err(ParseError { pos: i });
    }
    let c = s[i];
    if c == TOK_INT {
        match decode_int_at(s, i) {
            Ok((v, end)) => Ok((Value::Int(v), end)),
            Err(e) => Err(e),
        }
    } else if c == TOK_LIST {
        let mut items: Vec<Value> = Vec::new();
        let mut pos = i + 1;
        loop
            invariant
                i < s@.len(),
                s@[i as int] == TOK_LIST,
                i + 1 <= pos <= s@.len(),
                (match parse_items_at(s@, pos as int) {
                    Some(q) => parse_items_at(s@, i + 1) == Some(
                        (vm_list(items@, 0) + q.0, q.1),
                    ),
                    None => parse_items_at(s@, i + 1) is None,
                }),
            decreases s@.len() - pos, 0int,
        {
            if pos >= s.len() {
                return Err(ParseError { pos });
            }
            if s[pos] == TOK_END {
                proof {
                    assert(parse_items_at(s@, pos as int) == Some(
                        (Seq::<ValueModel>::empty(), pos + 1 as int),
                    ));
                    assert(vm_list(items@, 0) + Seq::<ValueModel>::empty() =~= vm_list(
                        items@,
                        0,
                    ));
                    assert(parse_value_at(s@, i as int) == Some(
                        (ValueModel::List(vm_list(items@, 0)), pos + 1 as int),
                    ));
                }
                return Ok((Value::List(items), pos + 1));
            }
            let (v, vend) = match decode_at(s, pos) {
                Ok(p) => p,
                Err(e) => {
                    proof {
                        assert(parse_items_at(s@, pos as int) is None);
                    }
                    return Err(e);
                },
            };
            proof {
                lemma_vm_list_snoc(items@, v, 0);
                match parse_items_at(s@, vend as int) {
                    Some(q) => {
                        assert(parse_items_at(s@, pos as int) == Some(
                            (seq![vm(v)] + q.0, q.1),
                        ));
                        assert(vm_list(items@, 0) + (seq![vm(v)] + q.0) =~= vm_list(
                            items@.push(v),
                            0,
                        ) + q.0);
                    },
                    None => {
                        assert(parse_items_at(s@, pos as int) is None);
                    },
                }
            }
            items.push(v);
            pos = vend;
        }
    } else if c == TOK_DICT {
        let mut entries: Vec<(Vec<u8>, Value)> = Vec::new();
        let mut pos = i + 1;
        loop
            invariant
                i < s@.len(),
                s@[i as int] == TOK_DICT,
                i + 1 <= pos <= s@.len(),
                (match parse_entries_at(s@, pos as int) {
                    Some(q) => parse_entries_at(s@, i + 1) == Some(
                        (vm_entries(entries@, 0) + q.0, q.1),
                    ),
                    None => parse_entries_at(s@, i + 1) is None,
                }),
            decreases s@.len() - pos, 0int,
        {
            if pos >= s.len() {
                return Err(ParseError { pos });
            }
            if s[pos] == TOK_END {
                proof {
                    assert(parse_entries_at(s@, pos as int) == Some(
                        (Seq::<(Seq<u8>, ValueModel)>::empty(), pos + 1 as int),
                    ));
                    assert(vm_entries(entries@, 0) + Seq::<(Seq<u8>, ValueModel)>::empty()
                        =~= vm_entries(entries@, 0));
                    assert(parse_value_at(s@, i as int) == Some(
                        (ValueModel::Dict(vm_entries(entries@, 0)), pos + 1 as int),
                    ));
                }
                return Ok((Value::Dict(entries), pos + 1));
            }
            let (key, kend) = match decode_bytes_at(s, pos) {
                Ok(p) => p,
                Err(e) => {
                    proof {
                        assert(parse_entries_at(s@, pos as int) is None);
                    }
                    return Err(e);
                },
            };
            let (v, vend) = match decode_at(s, kend) {
                Ok(p) => p,
                Err(e) => {
                    proof {
                        assert(parse_entries_at(s@, pos as int) is None);
                    }
                    return Err(e);
                },
            };
            proof {
                lemma_vm_entries_snoc(entries@, (key, v), 0);
                match parse_entries_at(s@, vend as int) {
                    Some(q) => {
                        assert(parse_entries_at(s@, pos as int) == Some(
                            (seq![(key@, vm(v))] + q.0, q.1),
                        ));
                        assert(vm_entries(entries@, 0) + (seq![(key@, vm(v))] + q.0)
                            =~= vm_entries(entries@.push((key, v)), 0) + q.0);
                    },
                    None => {
                        assert(parse_entries_at(s@, pos as int) is None);
                    },
                }
            }
            entries.push((key, v));
            pos = vend;
        }
    } else {
        match decode_bytes_at(s, i) {
            Ok((b, end)) => Ok((Value::Bytes(b), end)),
            Err(e) => Err(e),
        }
    }
}

/// Decodes a whole input as one canonical value.  Succeeds exactly when
/// the input is one syntactically valid encoding with nothing after it,
/// and then returns the value that the specification parser gives.
pub fn decode(s: &Vec<u8>) -> (r: Result<Value, ParseError>)
    ensures
        r is Ok <==> valid_encoding(s@),
        (r matches Ok(v) ==> parse_value_at(s@, 0) == Some((vm(v), s@.len() as int))),
{
    match decode_at(s, 0) {
        Ok((v, end)) => {
            if end == s.len() {
                proof {
                    assert(valid_encoding(s@)) by {
                        assert(parse_value_at(s@, 0) == Some((vm(v), s@.len() as int)));
                    }
                }
                Ok(v)
            } else {
                Err(ParseError { pos: end })
            }
        },
        Err(e) => Err(e),
    }
}

} // verus!
