//! The diagnostic renderer: a decoded value as human-readable text.
//! Byte strings appear quoted (lossy UTF-8), integers in decimal, lists
//! bracketed and comma-joined, dictionaries braced with keys sorted
//! ascending.  This output is observational only; nothing decodes it.
use vstd::prelude::*;

use crate::bencode::{
    lemma_norm_list_index, lemma_norm_list_len, lemma_vm_list_index, lemma_vm_list_len, norm,
    norm_entries, norm_list, sort_entries, vm, vm_entries, vm_list, Value, ValueModel,
};
use crate::decimal::int_dec_of;
use crate::encode::{push_bytes, sorted_entry_order, spec_models_by};
use crate::text::{lossy_of, utf8_lossy};

verus! {

/// The `"` byte.
pub const QUOTE: u8 = 34;

/// The `,` byte.
pub const COMMA: u8 = 44;

/// The rendered text of a value, as bytes, with dictionary entries taken
/// in stored order: rendering is applied to normalized values.
pub open spec fn rendered(v: ValueModel) -> Seq<u8>
    decreases v, 0int,
{
    match v {
        ValueModel::Bytes(b) => seq![QUOTE] + b + seq![QUOTE],
        ValueModel::Int(x) => int_dec_of(x),
        ValueModel::List(items) => seq![91u8] + rendered_items(items, 0) + seq![93u8],
        ValueModel::Dict(entries) => seq![123u8] + rendered_entries(entries, 0) + seq![125u8],
    }
}

/// The comma-joined renderings of the elements of `items` from `i` on.
pub open spec fn rendered_items(items: Seq<ValueModel>, i: int) -> Seq<u8>
    decreases items, items.len() - i,
{
    if 0 <= i < items.len() {
        if i == items.len() - 1 {
            rendered(items[i])
        } else {
            rendered(items[i]) + seq![COMMA] + rendered_items(items, i + 1)
        }
    } else {
        Seq::empty()
    }
}

/// The comma-joined renderings of the entries of `entries` from `i` on:
/// each entry as its quoted key, a colon, and its rendered value.
pub open spec fn rendered_entries(entries: Seq<(Seq<u8>, ValueModel)>, i: int) -> Seq<u8>
    decreases entries, entries.len() - i,
{
    if 0 <= i < entries.len() {
        let piece = seq![QUOTE] + entries[i].0 + seq![QUOTE, 58u8] + rendered(entries[i].1);
        if i == entries.len() - 1 {
            piece
        } else {
            piece + seq![COMMA] + rendered_entries(entries, i + 1)
        }
    } else {
        Seq::empty()
    }
}

/// Appends the rendered text of the normalized value to `out`.
fn render_into(v: &Value, out: &mut Vec<u8>)
    ensures
        final(out)@ == old(out)@ + rendered(norm(vm(*v))),
    decreases *v,
{
    match v {
        Value::Bytes(b) => {
            out.push(QUOTE);
            push_bytes(out, b);
            out.push(QUOTE);
            proof {
                assert(out@ =~= old(out)@ + rendered(norm(vm(*v))));
            }
        },
        Value::Int(x) => {
            crate::decimal::int_dec_into(*x, out);
        },
        Value::List(items) => {
            let ghost ms = norm_list(vm_list(items@, 0), 0);
            proof {
                lemma_vm_list_len(items@, 0);
                lemma_norm_list_len(vm_list(items@, 0), 0);
            }
            out.push(91);
            let mut j: usize = 0;
            while j < items.len()
                invariant
                    j <= items@.len(),
                    *v is List,
                    v->List_0 == *items,
                    ms == norm_list(vm_list(items@, 0), 0),
                    ms.len() == items@.len(),
                    out@ + rendered_items(ms, j as int) == old(out)@ + seq![91u8]
                        + rendered_items(ms, 0),
                decreases items@.len() - j,
            {
                proof {
                    lemma_vm_list_index(items@, 0, j as int);
                    lemma_norm_list_index(vm_list(items@, 0), 0, j as int);
                    assert(ms[j as int] == norm(vm(items@[j as int])));
                    assert(decreases_to!(*v => *items));
                    assert(decreases_to!(*items => items@));
                    assert(decreases_to!(items@ => items@[j as int]));
                }
                render_into(&items[j], out);
                if j + 1 < items.len() {
                    out.push(COMMA);
                }
                proof {
                    assert(out@ + rendered_items(ms, j + 1 as int) =~= old(out)@ + seq![91u8]
                        + rendered_items(ms, 0));
                }
                j = j + 1;
            }
            out.push(93);
            proof {
                assert(rendered_items(ms, ms.len() as int) == Seq::<u8>::empty());
                assert(out@ =~= old(out)@ + rendered(norm(vm(*v))));
            }
        },
        Value::Dict(entries) => {
            let ghost sms = sort_entries(norm_entries(vm_entries(entries@, 0), 0));
            let order = sorted_entry_order(entries);
            out.push(123);
            let mut k: usize = 0;
            while k < order.len()
                invariant
                    k <= order@.len(),
                    *v is Dict,
                    v->Dict_0 == *entries,
                    order@.len() == entries@.len(),
                    forall|t: int| 0 <= t < order@.len() ==> #[trigger] order@[t] < entries@.len(),
                    sms == sort_entries(norm_entries(vm_entries(entries@, 0), 0)),
                    spec_models_by(entries@, order@) == sms,
                    sms.len() == order@.len(),
                    out@ + rendered_entries(sms, k as int) == old(out)@ + seq![123u8]
                        + rendered_entries(sms, 0),
                decreases order@.len() - k,
            {
                let idx = order[k];
                proof {
                    assert(sms[k as int] == (entries@[idx as int].0@, norm(
                        vm(entries@[idx as int].1),
                    )));
                    assert(decreases_to!(*v => *entries));
                    assert(decreases_to!(*entries => entries@));
                    assert(decreases_to!(entries@ => entries@[idx as int]));
                    assert(decreases_to!(entries@[idx as int] => entries@[idx as int].1));
                }
                out.push(QUOTE);
                push_bytes(out, &entries[idx].0);
                out.push(QUOTE);
                out.push(58);
                render_into(&entries[idx].1, out);
                if k + 1 < order.len() {
                    out.push(COMMA);
                }
                proof {
                    assert(out@ + rendered_entries(sms, k + 1 as int) =~= old(out)@ + seq![123u8]
                        + rendered_entries(sms, 0));
                }
                k = k + 1;
            }
            out.push(125);
            proof {
                assert(rendered_entries(sms, sms.len() as int) == Seq::<u8>::empty());
                assert(out@ =~= old(out)@ + rendered(norm(vm(*v))));
            }
        },
    }
}

/// Renders a value as human-readable text: quoted lossy byte strings,
/// decimal integers, bracketed lists, braced dictionaries with keys
/// sorted ascending.  An empty dictionary renders as an empty brace
/// pair.
pub fn render(v: &Value) -> (r: String)
    ensures
        r@ == lossy_of(rendered(norm(vm(*v)))),
{
    let mut out: Vec<u8> = Vec::new();
    render_into(v, &mut out);
    proof {
        assert(Seq::<u8>::empty() + rendered(norm(vm(*v))) =~= rendered(norm(vm(*v))));
    }
    utf8_lossy(&out)
}

} // verus!
