//! The canonical value codec's data model and its mathematical
//! specification: the grammar's encoding function, the parsing function,
//! and key-order normalization.
//!
//! Grammar: a byte string is `<decimal length>:<raw bytes>`, an integer is
//! `i<decimal>e`, a list is `l<values>e`, a dictionary is
//! `d<key value pairs>e` with byte-string keys.  Decimal numerals are
//! strict: no superfluous leading zeros and no negative zero.
use vstd::prelude::*;

use crate::decimal::{dec_of, dec_val, int_dec_of, is_digit};

verus! {

/// Tag byte `i` opening an integer.
pub const TOK_INT: u8 = 105;

/// Tag byte `l` opening a list.
pub const TOK_LIST: u8 = 108;

/// Tag byte `d` opening a dictionary.
pub const TOK_DICT: u8 = 100;

/// Terminator byte `e`.
pub const TOK_END: u8 = 101;

/// The `:` separating a length prefix from the raw bytes.
pub const COLON: u8 = 58;

/// A malformed canonical encoding, with the byte position at which
/// decoding gave up.
#[derive(Debug, Clone, Copy, PartialEq, Eq, Structural)]
pub struct ParseError {
    pub pos: usize,
}

/// A decoded value of the canonical serialization format.  Dictionary
/// entries keep the order in which they appeared in the source bytes, so
/// that re-serializing in stored order reproduces the source exactly.
#[derive(Debug, PartialEq, Eq)]
pub enum Value {
    Bytes(Vec<u8>),
    Int(i64),
    List(Vec<Value>),
    Dict(Vec<(Vec<u8>, Value)>),
}

/// The mathematical shadow of `Value`, used by all contracts.
pub enum ValueModel {
    Bytes(Seq<u8>),
    Int(int),
    List(Seq<ValueModel>),
    Dict(Seq<(Seq<u8>, ValueModel)>),
}

/// The model of a value: byte vectors become byte sequences, machine
/// integers become mathematical integers.
pub open spec fn vm(v: Value) -> ValueModel
    decreases v, 0int,
{
    match v {
        Value::Bytes(b) => ValueModel::Bytes(b@),
        Value::Int(i) => ValueModel::Int(i as int),
        Value::List(items) => ValueModel::List(vm_list(items@, 0)),
        Value::Dict(entries) => ValueModel::Dict(vm_entries(entries@, 0)),
    }
}

/// Models of the elements of `items` from index `i` on.
pub open spec fn vm_list(items: Seq<Value>, i: int) -> Seq<ValueModel>
    decreases items, items.len() - i,
{
    if 0 <= i < items.len() {
        seq![vm(items[i])] + vm_list(items, i + 1)
    } else {
        Seq::empty()
    }
}

/// Models of the dictionary entries of `entries` from index `i` on.
pub open spec fn vm_entries(entries: Seq<(Vec<u8>, Value)>, i: int) -> Seq<(Seq<u8>, ValueModel)>
    decreases entries, entries.len() - i,
{
    if 0 <= i < entries.len() {
        seq![(entries[i].0@, vm(entries[i].1))] + vm_entries(entries, i + 1)
    } else {
        Seq::empty()
    }
}

/// The encoding of a byte string: decimal length, colon, raw bytes.
pub open spec fn bytes_enc(b: Seq<u8>) -> Seq<u8> {
    dec_of(b.len()) + seq![COLON] + b
}

/// The encoding of a value, dictionary entries emitted in stored order.
pub open spec fn enc(v: ValueModel) -> Seq<u8>
    decreases v, 0int,
{
    match v {
        ValueModel::Bytes(b) => bytes_enc(b),
        ValueModel::Int(i) => seq![TOK_INT] + int_dec_of(i) + seq![TOK_END],
        ValueModel::List(items) => seq![TOK_LIST] + enc_list(items, 0) + seq![TOK_END],
        ValueModel::Dict(entries) => seq![TOK_DICT] + enc_entries(entries, 0) + seq![TOK_END],
    }
}

/// The concatenated encodings of the elements of `items` from index `i` on.
pub open spec fn enc_list(items: Seq<ValueModel>, i: int) -> Seq<u8>
    decreases items, items.len() - i,
{
    if 0 <= i < items.len() {
        enc(items[i]) + enc_list(items, i + 1)
    } else {
        Seq::empty()
    }
}

/// The concatenated encodings of the entries of `entries` from index `i`
/// on: each entry is its key as a byte string followed by its value.
pub open spec fn enc_entries(entries: Seq<(Seq<u8>, ValueModel)>, i: int) -> Seq<u8>
    decreases entries, entries.len() - i,
{
    if 0 <= i < entries.len() {
        bytes_enc(entries[i].0) + enc(entries[i].1) + enc_entries(entries, i + 1)
    } else {
        Seq::empty()
    }
}

/// Strict lexicographic order on byte sequences.
pub open spec fn lex_lt(a: Seq<u8>, b: Seq<u8>) -> bool
    decreases a.len(),
{
    if b.len() == 0 {
        false
    } else if a.len() == 0 {
        true
    } else if a[0] < b[0] {
        true
    } else if a[0] > b[0] {
        false
    } else {
        lex_lt(a.drop_first(), b.drop_first())
    }
}

/// The lexicographic order is asymmetric.
pub proof fn lemma_lex_asym(a: Seq<u8>, b: Seq<u8>)
    requires
        lex_lt(a, b),
    ensures
        !lex_lt(b, a),
    decreases a.len(),
{
    if b.len() == 0 {
    } else if a.len() == 0 {
    } else if a[0] < b[0] {
    } else if a[0] > b[0] {
    } else {
        lemma_lex_asym(a.drop_first(), b.drop_first());
    }
}

/// A run of entries whose keys never decrease.
pub open spec fn entries_sorted(entries: Seq<(Seq<u8>, ValueModel)>) -> bool {
    forall|j: int|
        0 <= j < entries.len() - 1 ==> !lex_lt(entries[j + 1].0, #[trigger] entries[j].0)
}

/// A value in canonical form: every dictionary, at every depth, has its
/// entries in ascending key order.
pub open spec fn canonical(v: ValueModel) -> bool
    decreases v,
{
    match v {
        ValueModel::Bytes(_) => true,
        ValueModel::Int(_) => true,
        ValueModel::List(items) => forall|j: int|
            0 <= j < items.len() ==> canonical(#[trigger] items[j]),
        ValueModel::Dict(entries) => entries_sorted(entries) && forall|j: int|
            0 <= j < entries.len() ==> canonical(#[trigger] entries[j].1),
    }
}

/// Inserts `e` into `sorted` before the first entry whose key is
/// lexicographically greater than `e`'s; after any equal key.
pub open spec fn insert_entry(sorted: Seq<(Seq<u8>, ValueModel)>, e: (Seq<u8>, ValueModel)) -> Seq<
    (Seq<u8>, ValueModel),
>
    decreases sorted.len(),
{
    if sorted.len() == 0 {
        seq![e]
    } else if lex_lt(e.0, sorted[0].0) {
        seq![e] + sorted
    } else {
        seq![sorted[0]] + insert_entry(sorted.drop_first(), e)
    }
}

/// Stable insertion sort of dictionary entries by key, ascending.
pub open spec fn sort_entries(entries: Seq<(Seq<u8>, ValueModel)>) -> Seq<(Seq<u8>, ValueModel)>
    decreases entries.len(),
{
    if entries.len() == 0 {
        Seq::empty()
    } else {
        insert_entry(sort_entries(entries.drop_last()), entries.last())
    }
}

/// Insertion keeps the entries in ascending key order.
pub proof fn lemma_insert_entry_sorted(s: Seq<(Seq<u8>, ValueModel)>, e: (Seq<u8>, ValueModel))
    requires
        entries_sorted(s),
    ensures
        entries_sorted(insert_entry(s, e)),
        insert_entry(s, e).len() == s.len() + 1,
        insert_entry(s, e)[0] == e || (s.len() > 0 && insert_entry(s, e)[0] == s[0]),
    decreases s.len(),
{
    let r = insert_entry(s, e);
    if s.len() == 0 {
    } else if lex_lt(e.0, s[0].0) {
        lemma_lex_asym(e.0, s[0].0);
        assert forall|j: int| 0 <= j < r.len() - 1 implies !lex_lt(
            r[j + 1].0,
            #[trigger] r[j].0,
        ) by {
            if j == 0 {
                assert(r[0] == e);
                assert(r[1] == s[0]);
            } else {
                assert(r[j] == s[j - 1]);
                assert(r[j + 1] == s[j]);
                assert(!lex_lt(s[j].0, s[j - 1].0));
            }
        }
    } else {
        let tail = s.drop_first();
        assert(entries_sorted(tail)) by {
            assert(forall|j: int| 0 <= j < tail.len() ==> #[trigger] tail[j] == s[j + 1]);
        }
        lemma_insert_entry_sorted(tail, e);
        let rt = insert_entry(tail, e);
        assert forall|j: int| 0 <= j < r.len() - 1 implies !lex_lt(
            r[j + 1].0,
            #[trigger] r[j].0,
        ) by {
            if j == 0 {
                assert(r[0] == s[0]);
                assert(r[1] == rt[0]);
                if rt[0] == e {
                    assert(!lex_lt(e.0, s[0].0));
                } else {
                    assert(rt[0] == tail[0]);
                    assert(tail[0] == s[1]);
                    assert(!lex_lt(s[1].0, s[0].0));
                }
            } else {
                assert(r[j] == rt[j - 1]);
                assert(r[j + 1] == rt[j]);
                assert(!lex_lt(rt[j].0, rt[j - 1].0));
            }
        }
    }
}

/// Sorting produces entries in ascending key order.
pub proof fn lemma_sort_entries_sorted(s: Seq<(Seq<u8>, ValueModel)>)
    ensures
        entries_sorted(sort_entries(s)),
    decreases s.len(),
{
    if s.len() > 0 {
        lemma_sort_entries_sorted(s.drop_last());
        lemma_insert_entry_sorted(sort_entries(s.drop_last()), s.last());
    }
}

/// The canonical form of a value: every dictionary, at every depth, has
/// its entries sorted by key in ascending byte order.
pub open spec fn norm(v: ValueModel) -> ValueModel
    decreases v, 1int,
{
    match v {
        ValueModel::Bytes(b) => ValueModel::Bytes(b),
        ValueModel::Int(i) => ValueModel::Int(i),
        ValueModel::List(items) => ValueModel::List(norm_list(items, 0)),
        ValueModel::Dict(entries) => ValueModel::Dict(sort_entries(norm_entries(entries, 0))),
    }
}

/// `norm` applied to each element of `items` from index `i` on.
pub open spec fn norm_list(items: Seq<ValueModel>, i: int) -> Seq<ValueModel>
    decreases items, items.len() - i,
{
    if 0 <= i < items.len() {
        seq![norm(items[i])] + norm_list(items, i + 1)
    } else {
        Seq::empty()
    }
}

/// `norm` applied to the value of each entry of `entries` from `i` on.
pub open spec fn norm_entries(entries: Seq<(Seq<u8>, ValueModel)>, i: int) -> Seq<
    (Seq<u8>, ValueModel),
>
    decreases entries, entries.len() - i,
{
    if 0 <= i < entries.len() {
        seq![(entries[i].0, norm(entries[i].1))] + norm_entries(entries, i + 1)
    } else {
        Seq::empty()
    }
}

/// End of the run of ASCII digits that starts at `i`.
pub open spec fn digit_run_at(s: Seq<u8>, i: int) -> int
    decreases s.len() - i,
{
    if 0 <= i < s.len() && is_digit(s[i]) {
        digit_run_at(s, i + 1)
    } else {
        i
    }
}

/// Parses the byte string whose length prefix starts at `i`.  Yields the
/// raw bytes and the position just past them.  Fails when there is no
/// digit, the numeral has a superfluous leading zero, the colon is
/// missing, or the declared length exceeds the remaining input.
pub open spec fn parse_bytes_at(s: Seq<u8>, i: int) -> Option<(Seq<u8>, int)> {
    let j = digit_run_at(s, i);
    if !(0 <= i < s.len()) || j == i {
        None
    } else if s[i] == 48 && j > i + 1 {
        None
    } else if j >= s.len() || s[j] != COLON {
        None
    } else {
        let n = dec_val(s.subrange(i, j)) as int;
        if j + 1 + n > s.len() {
            None
        } else {
            Some((s.subrange(j + 1, j + 1 + n), j + 1 + n))
        }
    }
}

/// Parses the integer whose opening `i` tag stands at `i`.  Fails on an
/// empty or malformed digit sequence, a negative zero, a superfluous
/// leading zero, a missing terminator, or a value outside the signed
/// 64-bit range.
pub open spec fn parse_int_at(s: Seq<u8>, i: int) -> Option<(ValueModel, int)> {
    let neg = i + 1 < s.len() && s[i + 1] == 45;
    let d0 = if neg {
        i + 2
    } else {
        i + 1
    };
    let j = digit_run_at(s, d0);
    if j == d0 {
        None
    } else if s[d0] == 48 && (neg || j > d0 + 1) {
        None
    } else if j >= s.len() || s[j] != TOK_END {
        None
    } else {
        let m = dec_val(s.subrange(d0, j)) as int;
        let val = if neg {
            -m
        } else {
            m
        };
        if -0x8000000000000000 <= val <= 0x7fffffffffffffff {
            Some((ValueModel::Int(val), j + 1))
        } else {
            None
        }
    }
}

/// Parses one value starting at `i`; yields its model and the position
/// just past it.
pub open spec fn parse_value_at(s: Seq<u8>, i: int) -> Option<(ValueModel, int)>
    decreases s.len() - i, 0int,
{
    if !(0 <= i < s.len()) {
        None
    } else if s[i] == TOK_INT {
        parse_int_at(s, i)
    } else if s[i] == TOK_LIST {
        match parse_items_at(s, i + 1) {
            Some((items, end)) => Some((ValueModel::List(items), end)),
            None => None,
        }
    } else if s[i] == TOK_DICT {
        match parse_entries_at(s, i + 1) {
            Some((entries, end)) => Some((ValueModel::Dict(entries), end)),
            None => None,
        }
    } else {
        match parse_bytes_at(s, i) {
            Some((b, end)) => Some((ValueModel::Bytes(b), end)),
            None => None,
        }
    }
}

/// Parses list elements from `i` up to and including the terminator.
pub open spec fn parse_items_at(s: Seq<u8>, i: int) -> Option<(Seq<ValueModel>, int)>
    decreases s.len() - i, 1int,
{
    if !(0 <= i < s.len()) {
        None
    } else if s[i] == TOK_END {
        Some((Seq::empty(), i + 1))
    } else {
        match parse_value_at(s, i) {
            Some((v, end)) => if i < end <= s.len() {
                match parse_items_at(s, end) {
                    Some((rest, end2)) => Some((seq![v] + rest, end2)),
                    None => None,
                }
            } else {
                None
            },
            None => None,
        }
    }
}

/// Parses dictionary entries from `i` up to and including the terminator.
/// Each key must be a byte string.
pub open spec fn parse_entries_at(s: Seq<u8>, i: int) -> Option<(Seq<(Seq<u8>, ValueModel)>, int)>
    decreases s.len() - i, 1int,
{
    if !(0 <= i < s.len()) {
        None
    } else if s[i] == TOK_END {
        Some((Seq::empty(), i + 1))
    } else {
        match parse_bytes_at(s, i) {
            Some((key, kend)) => if i < kend <= s.len() {
                match parse_value_at(s, kend) {
                    Some((v, vend)) => if kend < vend <= s.len() {
                        match parse_entries_at(s, vend) {
                            Some((rest, end2)) => Some((seq![(key, v)] + rest, end2)),
                            None => None,
                        }
                    } else {
                        None
                    },
                    None => None,
                }
            } else {
                None
            },
            None => None,
        }
    }
}

/// A well-formed model: every integer in it fits in a signed 64-bit
/// machine word.  The model of any machine value is well formed, and
/// parsing only produces well-formed models.
pub open spec fn wf(v: ValueModel) -> bool
    decreases v,
{
    match v {
        ValueModel::Bytes(_) => true,
        ValueModel::Int(x) => -0x8000000000000000 <= x <= 0x7fffffffffffffff,
        ValueModel::List(items) => forall|j: int|
            0 <= j < items.len() ==> wf(#[trigger] items[j]),
        ValueModel::Dict(entries) => forall|j: int|
            0 <= j < entries.len() ==> wf(#[trigger] entries[j].1),
    }
}

/// A whole input is a valid encoding when one value spans it exactly.
pub open spec fn valid_encoding(s: Seq<u8>) -> bool {
    exists|m: ValueModel| parse_value_at(s, 0) == Some((m, s.len() as int))
}

/// Appending an element to a vector of values appends its model.
pub proof fn lemma_vm_list_snoc(items: Seq<Value>, x: Value, i: int)
    requires
        0 <= i <= items.len(),
    ensures
        vm_list(items.push(x), i) == vm_list(items, i) + seq![vm(x)],
    decreases items.len() - i,
{
    if i < items.len() {
        lemma_vm_list_snoc(items, x, i + 1);
        assert(items.push(x)[i] == items[i]);
        assert(vm_list(items.push(x), i) == seq![vm(items[i])] + vm_list(items.push(x), i + 1));
        assert(vm_list(items, i) == seq![vm(items[i])] + vm_list(items, i + 1));
        assert(vm_list(items.push(x), i) =~= vm_list(items, i) + seq![vm(x)]);
    } else {
        assert(items.push(x)[i] == x);
        assert(vm_list(items.push(x), i) == seq![vm(x)] + vm_list(items.push(x), i + 1));
        assert(vm_list(items.push(x), i + 1) == Seq::<ValueModel>::empty());
        assert(vm_list(items, i) == Seq::<ValueModel>::empty());
        assert(vm_list(items.push(x), i) =~= vm_list(items, i) + seq![vm(x)]);
    }
}

/// Appending an entry to a vector of entries appends its model.
pub proof fn lemma_vm_entries_snoc(entries: Seq<(Vec<u8>, Value)>, e: (Vec<u8>, Value), i: int)
    requires
        0 <= i <= entries.len(),
    ensures
        vm_entries(entries.push(e), i) == vm_entries(entries, i) + seq![(e.0@, vm(e.1))],
    decreases entries.len() - i,
{
    if i < entries.len() {
        lemma_vm_entries_snoc(entries, e, i + 1);
        assert(entries.push(e)[i] == entries[i]);
        assert(vm_entries(entries.push(e), i) == seq![(entries[i].0@, vm(entries[i].1))]
            + vm_entries(entries.push(e), i + 1));
        assert(vm_entries(entries, i) == seq![(entries[i].0@, vm(entries[i].1))] + vm_entries(
            entries,
            i + 1,
        ));
        assert(vm_entries(entries.push(e), i) =~= vm_entries(entries, i) + seq![
            (e.0@, vm(e.1)),
        ]);
    } else {
        assert(entries.push(e)[i] == e);
        assert(vm_entries(entries.push(e), i) == seq![(e.0@, vm(e.1))] + vm_entries(
            entries.push(e),
            i + 1,
        ));
        assert(vm_entries(entries.push(e), i + 1) == Seq::<(Seq<u8>, ValueModel)>::empty());
        assert(vm_entries(entries, i) == Seq::<(Seq<u8>, ValueModel)>::empty());
        assert(vm_entries(entries.push(e), i) =~= vm_entries(entries, i) + seq![
            (e.0@, vm(e.1)),
        ]);
    }
}

/// Length of the model sequence of a list suffix.
pub proof fn lemma_vm_list_len(items: Seq<Value>, i: int)
    requires
        0 <= i <= items.len(),
    ensures
        vm_list(items, i).len() == items.len() - i,
    decreases items.len() - i,
{
    if i < items.len() {
        lemma_vm_list_len(items, i + 1);
    }
}

/// Element of the model sequence of a list suffix.
pub proof fn lemma_vm_list_index(items: Seq<Value>, i: int, j: int)
    requires
        0 <= i <= j < items.len(),
    ensures
        vm_list(items, i).len() == items.len() - i,
        vm_list(items, i)[j - i] == vm(items[j]),
    decreases j - i,
{
    lemma_vm_list_len(items, i);
    if i < j {
        lemma_vm_list_index(items, i + 1, j);
    }
}

/// Length of the model sequence of an entry suffix.
pub proof fn lemma_vm_entries_len(entries: Seq<(Vec<u8>, Value)>, i: int)
    requires
        0 <= i <= entries.len(),
    ensures
        vm_entries(entries, i).len() == entries.len() - i,
    decreases entries.len() - i,
{
    if i < entries.len() {
        lemma_vm_entries_len(entries, i + 1);
    }
}

/// Element of the model sequence of an entry suffix.
pub proof fn lemma_vm_entries_index(entries: Seq<(Vec<u8>, Value)>, i: int, j: int)
    requires
        0 <= i <= j < entries.len(),
    ensures
        vm_entries(entries, i).len() == entries.len() - i,
        vm_entries(entries, i)[j - i] == (entries[j].0@, vm(entries[j].1)),
    decreases j - i,
{
    lemma_vm_entries_len(entries, i);
    if i < j {
        lemma_vm_entries_index(entries, i + 1, j);
    }
}

/// Length of the normalized form of a list suffix.
pub proof fn lemma_norm_list_len(items: Seq<ValueModel>, i: int)
    requires
        0 <= i <= items.len(),
    ensures
        norm_list(items, i).len() == items.len() - i,
    decreases items.len() - i,
{
    if i < items.len() {
        lemma_norm_list_len(items, i + 1);
    }
}

/// Element of the normalized form of a list suffix.
pub proof fn lemma_norm_list_index(items: Seq<ValueModel>, i: int, j: int)
    requires
        0 <= i <= j < items.len(),
    ensures
        norm_list(items, i).len() == items.len() - i,
        norm_list(items, i)[j - i] == norm(items[j]),
    decreases j - i,
{
    lemma_norm_list_len(items, i);
    if i < j {
        lemma_norm_list_index(items, i + 1, j);
    }
}

/// Length of the normalized form of an entry suffix.
pub proof fn lemma_norm_entries_len(entries: Seq<(Seq<u8>, ValueModel)>, i: int)
    requires
        0 <= i <= entries.len(),
    ensures
        norm_entries(entries, i).len() == entries.len() - i,
    decreases entries.len() - i,
{
    if i < entries.len() {
        lemma_norm_entries_len(entries, i + 1);
    }
}

/// Element of the normalized form of an entry suffix.
pub proof fn lemma_norm_entries_index(entries: Seq<(Seq<u8>, ValueModel)>, i: int, j: int)
    requires
        0 <= i <= j < entries.len(),
    ensures
        norm_entries(entries, i).len() == entries.len() - i,
        norm_entries(entries, i)[j - i] == (entries[j].0, norm(entries[j].1)),
    decreases j - i,
{
    lemma_norm_entries_len(entries, i);
    if i < j {
        lemma_norm_entries_index(entries, i + 1, j);
    }
}

/// Where an entry lands under `insert_entry`: before the first entry
/// whose key is greater, after every entry whose key is not.
pub proof fn lemma_insert_entry_at(
    s: Seq<(Seq<u8>, ValueModel)>,
    e: (Seq<u8>, ValueModel),
    p: int,
)
    requires
        0 <= p <= s.len(),
        forall|m: int| 0 <= m < p ==> !lex_lt(e.0, #[trigger] s[m].0),
        p < s.len() ==> lex_lt(e.0, s[p].0),
    ensures
        insert_entry(s, e) == s.subrange(0, p) + seq![e] + s.subrange(p, s.len() as int),
    decreases s.len(),
{
    if s.len() == 0 {
        assert(insert_entry(s, e) =~= s.subrange(0, p) + seq![e] + s.subrange(
            p,
            s.len() as int,
        ));
    } else if p == 0 {
        assert(lex_lt(e.0, s[0].0));
        assert(insert_entry(s, e) =~= s.subrange(0, p) + seq![e] + s.subrange(
            p,
            s.len() as int,
        ));
    } else {
        assert(!lex_lt(e.0, s[0].0));
        let tail = s.drop_first();
        assert(forall|m: int| 0 <= m < p - 1 ==> !lex_lt(e.0, #[trigger] tail[m].0)) by {
            assert(forall|m: int| 0 <= m < p - 1 ==> tail[m] == s[m + 1]);
        }
        assert(p - 1 < tail.len() ==> lex_lt(e.0, tail[p - 1].0));
        lemma_insert_entry_at(tail, e, p - 1);
        assert(insert_entry(s, e) =~= s.subrange(0, p) + seq![e] + s.subrange(
            p,
            s.len() as int,
        ));
    }
}

/// The digit run starting at `i` ends within bounds, and everything
/// before its end is a digit.
pub proof fn lemma_digit_run_bounds(s: Seq<u8>, i: int)
    requires
        0 <= i <= s.len(),
    ensures
        i <= digit_run_at(s, i) <= s.len(),
        forall|k: int| i <= k < digit_run_at(s, i) ==> is_digit(#[trigger] s[k]),
    decreases s.len() - i,
{
    if i < s.len() && is_digit(s[i]) {
        lemma_digit_run_bounds(s, i + 1);
    }
}

/// Reading one more digit multiplies the value by ten and adds the digit.
pub proof fn lemma_dec_val_step(s: Seq<u8>, i: int, k: int)
    requires
        0 <= i <= k < s.len(),
    ensures
        dec_val(s.subrange(i, k + 1)) == dec_val(s.subrange(i, k)) * 10 + (s[k] - 48) as nat,
{
    assert(s.subrange(i, k + 1).drop_last() =~= s.subrange(i, k));
    assert(s.subrange(i, k + 1).last() == s[k]);
}


} // verus!
