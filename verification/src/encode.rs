//! The executable encoder for the canonical value codec.  It emits the
//! canonical form: every dictionary's entries are sorted by key in
//! ascending byte order, whatever order they are stored in.
use vstd::prelude::*;

use crate::bencode::{
    enc, enc_entries, enc_list, insert_entry, lemma_insert_entry_at, lemma_norm_entries_index,
    lemma_norm_list_index, lemma_vm_entries_index, lemma_vm_entries_len, lemma_vm_list_index,
    lemma_vm_list_len, lex_lt, norm, norm_entries, norm_list, sort_entries, vm, vm_entries,
    vm_list, Value, ValueModel, COLON, TOK_DICT, TOK_END, TOK_INT, TOK_LIST,
};
use crate::decimal::{dec_into, int_dec_into};

verus! {

broadcast use vstd::std_specs::vec::group_vec_axioms;

/// Appends all of `data` to `out`.
pub fn push_bytes(out: &mut Vec<u8>, data: &Vec<u8>)
    ensures
        final(out)@ == old(out)@ + data@,
{
    let mut t: usize = 0;
    while t < data.len()
        invariant
            t <= data@.len(),
            out@ == old(out)@ + data@.subrange(0, t as int),
        decreases data@.len() - t,
    {
        out.push(data[t]);
        proof {
            assert(out@ =~= old(out)@ + data@.subrange(0, t + 1 as int));
        }
        t = t + 1;
    }
    proof {
        assert(data@.subrange(0, data@.len() as int) =~= data@);
    }
}

/// Whether `a` is lexicographically smaller than `b`, by raw byte value.
pub fn bytes_lt(a: &Vec<u8>, b: &Vec<u8>) -> (r: bool)
    ensures
        r == lex_lt(a@, b@),
{
    proof {
        assert(a@.skip(0) =~= a@);
        assert(b@.skip(0) =~= b@);
    }
    let mut k: usize = 0;
    while k < a.len() && k < b.len() && a[k] == b[k]
        invariant
            k <= a@.len(),
            k <= b@.len(),
            lex_lt(a@, b@) == lex_lt(a@.skip(k as int), b@.skip(k as int)),
        decreases a@.len() - k,
    {
        proof {
            let x = a@.skip(k as int);
            let y = b@.skip(k as int);
            assert(x[0] == a@[k as int]);
            assert(y[0] == b@[k as int]);
            assert(x.drop_first() =~= a@.skip(k + 1 as int));
            assert(y.drop_first() =~= b@.skip(k + 1 as int));
        }
        k = k + 1;
    }
    proof {
        let x = a@.skip(k as int);
        let y = b@.skip(k as int);
        if k < a@.len() && k < b@.len() {
            assert(x[0] == a@[k as int]);
            assert(y[0] == b@[k as int]);
        }
    }
    if k >= b.len() {
        false
    } else if k >= a.len() {
        true
    } else {
        a[k] < b[k]
    }
}

/// The entry models of `entries` taken in the index order `order`:
/// each chosen entry's key together with its normalized value.
pub open spec fn spec_models_by(entries: Seq<(Vec<u8>, Value)>, order: Seq<usize>) -> Seq<
    (Seq<u8>, ValueModel),
> {
    Seq::new(order.len(), |k: int| (entries[order[k] as int].0@, norm(vm(entries[order[k] as int].1))))
}

/// Computes the order in which the entries of a dictionary are emitted:
/// ascending by key, equal keys kept in stored order.
pub(crate) fn sorted_entry_order(entries: &Vec<(Vec<u8>, Value)>) -> (order: Vec<usize>)
    ensures
        order@.len() == entries@.len(),
        forall|k: int| 0 <= k < order@.len() ==> #[trigger] order@[k] < entries@.len(),
        spec_models_by(entries@, order@) == sort_entries(norm_entries(vm_entries(entries@, 0), 0)),
{
    let ghost nes = norm_entries(vm_entries(entries@, 0), 0);
    proof {
        lemma_vm_entries_len(entries@, 0);
        crate::bencode::lemma_norm_entries_len(vm_entries(entries@, 0), 0);
    }
    let mut order: Vec<usize> = Vec::new();
    let mut idx: usize = 0;
    while idx < entries.len()
        invariant
            idx <= entries@.len(),
            nes == norm_entries(vm_entries(entries@, 0), 0),
            nes.len() == entries@.len(),
            order@.len() == idx,
            forall|k: int| 0 <= k < order@.len() ==> #[trigger] order@[k] < entries@.len(),
            spec_models_by(entries@, order@) == sort_entries(nes.subrange(0, idx as int)),
        decreases entries@.len() - idx,
    {
        let ghost em = nes[idx as int];
        proof {
            lemma_vm_entries_index(entries@, 0, idx as int);
            lemma_norm_entries_index(vm_entries(entries@, 0), 0, idx as int);
            assert(em == (entries@[idx as int].0@, norm(vm(entries@[idx as int].1))));
        }
        let mut p: usize = 0;
        while p < order.len() && !bytes_lt(&entries[idx].0, &entries[order[p]].0)
            invariant
                p <= order@.len(),
                idx < entries@.len(),
                forall|k: int| 0 <= k < order@.len() ==> #[trigger] order@[k] < entries@.len(),
                forall|m: int|
                    0 <= m < p ==> !lex_lt(
                        entries@[idx as int].0@,
                        #[trigger] entries@[order@[m] as int].0@,
                    ),
            decreases order@.len() - p,
        {
            p = p + 1;
        }
        proof {
            let sorted = spec_models_by(entries@, order@);
            assert(forall|m: int| 0 <= m < p ==> !lex_lt(em.0, #[trigger] sorted[m].0));
            assert(p < sorted.len() ==> lex_lt(em.0, sorted[p as int].0));
            lemma_insert_entry_at(sorted, em, p as int);
            assert(nes.subrange(0, idx + 1 as int).drop_last() =~= nes.subrange(0, idx as int));
            assert(sort_entries(nes.subrange(0, idx + 1 as int)) == insert_entry(
                sort_entries(nes.subrange(0, idx as int)),
                em,
            ));
        }
        order.insert(p, idx);
        proof {
            assert(spec_models_by(entries@, order@) =~= sort_entries(
                nes.subrange(0, idx + 1 as int),
            ));
        }
        idx = idx + 1;
    }
    proof {
        assert(nes.subrange(0, nes.len() as int) =~= nes);
    }
    order
}

/// Appends the canonical encoding of `v` to `out`.
fn encode_into(v: &Value, out: &mut Vec<u8>)
    ensures
        final(out)@ == old(out)@ + enc(norm(vm(*v))),
    decreases *v,
{
    match v {
        Value::Bytes(b) => {
            dec_into(b.len() as u64, out);
            out.push(COLON);
            push_bytes(out, b);
            proof {
                assert(out@ =~= old(out)@ + enc(norm(vm(*v))));
            }
        },
        Value::Int(x) => {
            out.push(TOK_INT);
            int_dec_into(*x, out);
            out.push(TOK_END);
            proof {
                assert(out@ =~= old(out)@ + enc(norm(vm(*v))));
            }
        },
        Value::List(items) => {
            let ghost ms = norm_list(vm_list(items@, 0), 0);
            proof {
                lemma_vm_list_len(items@, 0);
                crate::bencode::lemma_norm_list_len(vm_list(items@, 0), 0);
            }
            out.push(TOK_LIST);
            let mut j: usize = 0;
            while j < items.len()
                invariant
                    j <= items@.len(),
                    *v is List,
                    v->List_0 == *items,
                    ms == norm_list(vm_list(items@, 0), 0),
                    ms.len() == items@.len(),
                    out@ + enc_list(ms, j as int) == old(out)@ + seq![TOK_LIST] + enc_list(
                        ms,
                        0,
                    ),
                decreases items@.len() - j,
            {
                proof {
                    lemma_vm_list_index(items@, 0, j as int);
                    lemma_norm_list_index(vm_list(items@, 0), 0, j as int);
                    assert(ms[j as int] == norm(vm(items@[j as int])));
                    assert(decreases_to!(*v => *items));
                    assert(decreases_to!(*items => items@));
                    assert(decreases_to!(items@ => items@[j as int]));
                }
                encode_into(&items[j], out);
                proof {
                    assert(out@ + enc_list(ms, j + 1 as int) =~= old(out)@ + seq![TOK_LIST]
                        + enc_list(ms, 0));
                }
                j = j + 1;
            }
            out.push(TOK_END);
            proof {
                assert(enc_list(ms, ms.len() as int) == Seq::<u8>::empty());
                assert(out@ =~= old(out)@ + enc(norm(vm(*v))));
            }
        },
        Value::Dict(entries) => {
            let ghost sms = sort_entries(norm_entries(vm_entries(entries@, 0), 0));
            let order = sorted_entry_order(entries);
            proof {
                assert(sms.len() == order@.len());
            }
            out.push(TOK_DICT);
            let mut k: usize = 0;
            while k < order.len()
                invariant
                    k <= order@.len(),
                    *v is Dict,
                    v->Dict_0 == *entries,
                    order@.len() == entries@.len(),
                    forall|t: int| 0 <= t < order@.len() ==> #[trigger] order@[t] < entries@.len(),
                    sms == sort_entries(norm_entries(vm_entries(entries@, 0), 0)),
                    spec_models_by(entries@, order@) == sms,
                    sms.len() == order@.len(),
                    out@ + enc_entries(sms, k as int) == old(out)@ + seq![TOK_DICT] + enc_entries(
                        sms,
                        0,
                    ),
                decreases order@.len() - k,
            {
                let idx = order[k];
                proof {
                    assert(sms[k as int] == (entries@[idx as int].0@, norm(
                        vm(entries@[idx as int].1),
                    )));
                }
                proof {
                    assert(decreases_to!(*v => *entries));
                    assert(decreases_to!(*entries => entries@));
                    assert(decreases_to!(entries@ => entries@[idx as int]));
                    assert(decreases_to!(entries@[idx as int] => entries@[idx as int].1));
                }
                dec_into(entries[idx].0.len() as u64, out);
                out.push(COLON);
                push_bytes(out, &entries[idx].0);
                encode_into(&entries[idx].1, out);
                proof {
                    assert(out@ + enc_entries(sms, k + 1 as int) =~= old(out)@ + seq![TOK_DICT]
                        + enc_entries(sms, 0));
                }
                k = k + 1;
            }
            out.push(TOK_END);
            proof {
                assert(enc_entries(sms, sms.len() as int) == Seq::<u8>::empty());
                assert(out@ =~= old(out)@ + enc(norm(vm(*v))));
            }
        },
    }
}

/// Serializes a value into its canonical byte encoding: the grammar of
/// the codec, with every dictionary's entries emitted in ascending key
/// order regardless of stored order.
pub fn encode(v: &Value) -> (r: Vec<u8>)
    ensures
        r@ == enc(norm(vm(*v))),
{
    let mut out: Vec<u8> = Vec::new();
    encode_into(v, &mut out);
    proof {
        assert(Seq::<u8>::empty() + enc(norm(vm(*v))) =~= enc(norm(vm(*v))));
    }
    out
}

/// Serializes a value in its stored entry order, reproducing the exact
/// bytes it was decoded from.
pub fn encode_raw(v: &Value) -> (r: Vec<u8>)
    ensures
        r@ == enc(vm(*v)),
{
    let mut out: Vec<u8> = Vec::new();
    encode_raw_into(v, &mut out);
    proof {
        assert(Seq::<u8>::empty() + enc(vm(*v)) =~= enc(vm(*v)));
    }
    out
}

/// Appends the stored-order encoding of `v` to `out`.
fn encode_raw_into(v: &Value, out: &mut Vec<u8>)
    ensures
        final(out)@ == old(out)@ + enc(vm(*v)),
    decreases *v,
{
    match v {
        Value::Bytes(b) => {
            dec_into(b.len() as u64, out);
            out.push(COLON);
            push_bytes(out, b);
            proof {
                assert(out@ =~= old(out)@ + enc(vm(*v)));
            }
        },
        Value::Int(x) => {
            out.push(TOK_INT);
            int_dec_into(*x, out);
            out.push(TOK_END);
            proof {
                assert(out@ =~= old(out)@ + enc(vm(*v)));
            }
        },
        Value::List(items) => {
            let ghost ms = vm_list(items@, 0);
            proof {
                lemma_vm_list_len(items@, 0);
            }
            out.push(TOK_LIST);
            let mut j: usize = 0;
            while j < items.len()
                invariant
                    j <= items@.len(),
                    *v is List,
                    v->List_0 == *items,
                    ms == vm_list(items@, 0),
                    ms.len() == items@.len(),
                    out@ + enc_list(ms, j as int) == old(out)@ + seq![TOK_LIST] + enc_list(
                        ms,
                        0,
                    ),
                decreases items@.len() - j,
            {
                proof {
                    lemma_vm_list_index(items@, 0, j as int);
                    assert(ms[j as int] == vm(items@[j as int]));
                    assert(decreases_to!(*v => *items));
                    assert(decreases_to!(*items => items@));
                    assert(decreases_to!(items@ => items@[j as int]));
                }
                encode_raw_into(&items[j], out);
                proof {
                    assert(out@ + enc_list(ms, j + 1 as int) =~= old(out)@ + seq![TOK_LIST]
                        + enc_list(ms, 0));
                }
                j = j + 1;
            }
            out.push(TOK_END);
            proof {
                assert(enc_list(ms, ms.len() as int) == Seq::<u8>::empty());
                assert(out@ =~= old(out)@ + enc(vm(*v)));
            }
        },
        Value::Dict(entries) => {
            let ghost ems = vm_entries(entries@, 0);
            proof {
                lemma_vm_entries_len(entries@, 0);
            }
            out.push(TOK_DICT);
            let mut k: usize = 0;
            while k < entries.len()
                invariant
                    k <= entries@.len(),
                    *v is Dict,
                    v->Dict_0 == *entries,
                    ems == vm_entries(entries@, 0),
                    ems.len() == entries@.len(),
                    out@ + enc_entries(ems, k as int) == old(out)@ + seq![TOK_DICT] + enc_entries(
                        ems,
                        0,
                    ),
                decreases entries@.len() - k,
            {
                proof {
                    lemma_vm_entries_index(entries@, 0, k as int);
                    assert(ems[k as int] == (entries@[k as int].0@, vm(entries@[k as int].1)));
                }
                proof {
                    assert(decreases_to!(*v => *entries));
                    assert(decreases_to!(*entries => entries@));
                    assert(decreases_to!(entries@ => entries@[k as int]));
                    assert(decreases_to!(entries@[k as int] => entries@[k as int].1));
                }
                dec_into(entries[k].0.len() as u64, out);
                out.push(COLON);
                push_bytes(out, &entries[k].0);
                encode_raw_into(&entries[k].1, out);
                proof {
                    assert(out@ + enc_entries(ems, k + 1 as int) =~= old(out)@ + seq![TOK_DICT]
                        + enc_entries(ems, 0));
                }
                k = k + 1;
            }
            out.push(TOK_END);
            proof {
                assert(enc_entries(ems, ems.len() as int) == Seq::<u8>::empty());
                assert(out@ =~= old(out)@ + enc(vm(*v)));
            }
        },
    }
}

} // verus!
