//! The typed values of a manifest and the decoding limits.

use vstd::prelude::*;

verus! {

/// Bounds used while decoding untrusted manifest bytes.
#[derive(Clone, Copy, Debug, PartialEq, Eq)]
pub struct Limits {
    pub max_payload: usize,
    pub max_entries: usize,
    pub max_key_len: usize,
    pub max_value_len: usize,
    pub max_depth: usize,
}

impl Limits {
    /// The default bounds: a payload of at most 1 MiB, 4096 entries per map
    /// or list, keys of at most 256 bytes, values of at most 512 KiB and a
    /// nesting depth of at most 32.
    pub open spec fn spec_default() -> Limits {
        Limits {
            max_payload: 1048576,
            max_entries: 4096,
            max_key_len: 256,
            max_value_len: 524288,
            max_depth: 32,
        }
    }
}

impl Default for Limits {
    fn default() -> (res: Self)
        ensures
            res == Limits::spec_default(),
    {
        Limits {
            max_payload: 1024 * 1024,
            max_entries: 4096,
            max_key_len: 256,
            max_value_len: 512 * 1024,
            max_depth: 32,
        }
    }
}

/// The typed values supported by the v0.1 canonical map.
///
/// A `Dict` holds its entries in strictly increasing byte order of their keys,
/// the order in which they are encoded.
#[derive(Debug, PartialEq, Eq, PartialOrd, Ord)]
pub enum Value {
    U64(u64),
    I64(i64),
    Bool(bool),
    String(String),
    Bytes(Vec<u8>),
    Digest([u8; 32]),
    List(Vec<Value>),
    Dict(Vec<(String, Value)>),
}

/// The mathematical content of a [`Value`].
pub enum ValueView {
    U64(u64),
    I64(i64),
    Bool(bool),
    String(Seq<char>),
    Bytes(Seq<u8>),
    Digest(Seq<u8>),
    List(Seq<ValueView>),
    Dict(Seq<(Seq<char>, ValueView)>),
}

pub open spec fn value_view(v: Value) -> ValueView
    decreases v, 0nat,
{
    match v {
        Value::U64(x) => ValueView::U64(x),
        Value::I64(x) => ValueView::I64(x),
        Value::Bool(b) => ValueView::Bool(b),
        Value::String(s) => ValueView::String(s@),
        Value::Bytes(b) => ValueView::Bytes(b@),
        Value::Digest(d) => ValueView::Digest(d@),
        Value::List(vs) => ValueView::List(values_view(vs@)),
        Value::Dict(es) => ValueView::Dict(entries_view(es@)),
    }
}

pub open spec fn values_view(vs: Seq<Value>) -> Seq<ValueView>
    decreases vs,
{
    if vs.len() == 0 {
        Seq::empty()
    } else {
        values_view(vs.drop_last()).push(value_view(vs.last()))
    }
}

pub open spec fn entries_view(es: Seq<(String, Value)>) -> Seq<(Seq<char>, ValueView)>
    decreases es,
{
    if es.len() == 0 {
        Seq::empty()
    } else {
        entries_view(es.drop_last()).push((es.last().0@, value_view(es.last().1)))
    }
}

impl View for Value {
    type V = ValueView;

    open spec fn view(&self) -> ValueView {
        value_view(*self)
    }
}

} // verus!

verus! {

/// The view of a sequence of values is the sequence of their views.
pub proof fn lemma_values_view(s: Seq<Value>)
    ensures
        values_view(s).len() == s.len(),
        forall|i: int| 0 <= i < s.len() ==> #[trigger] values_view(s)[i] == value_view(s[i]),
    decreases s.len(),
{
    if s.len() > 0 {
        lemma_values_view(s.drop_last());
    }
}

/// The view of a sequence of entries is the sequence of their views.
pub proof fn lemma_entries_view(s: Seq<(String, Value)>)
    ensures
        entries_view(s).len() == s.len(),
        forall|i: int|
            0 <= i < s.len() ==> #[trigger] entries_view(s)[i] == (s[i].0@, value_view(s[i].1)),
    decreases s.len(),
{
    if s.len() > 0 {
        lemma_entries_view(s.drop_last());
    }
}

/// Viewing a prefix is taking a prefix of the view.
pub proof fn lemma_values_view_take(s: Seq<Value>, i: int)
    requires
        0 <= i <= s.len(),
    ensures
        values_view(s.take(i)) == values_view(s).take(i),
{
    lemma_values_view(s);
    lemma_values_view(s.take(i));
    assert(values_view(s.take(i)) =~= values_view(s).take(i));
}

/// Viewing a prefix is taking a prefix of the view.
pub proof fn lemma_entries_view_take(s: Seq<(String, Value)>, i: int)
    requires
        0 <= i <= s.len(),
    ensures
        entries_view(s.take(i)) == entries_view(s).take(i),
{
    lemma_entries_view(s);
    lemma_entries_view(s.take(i));
    assert(entries_view(s.take(i)) =~= entries_view(s).take(i));
}

} // verus!

