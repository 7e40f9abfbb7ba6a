//! Values — immutable and interned: equal values share one handle, so value
//! equality is a comparison of handles.

use std::rc::Rc;

use crate::rational::{frac_wf, same_value, Rational};
use vstd::prelude::*;

verus! {

/// A handle to an interned value. Handles from one [`crate::interner::Interner`]
/// are equal exactly when their values are.
#[derive(Debug)]
pub struct ValueRef {
    id: usize,
    data: Rc<ValueData>,
}

/// The payload of a value. Compound values hold canonical child handles.
#[derive(Debug, PartialEq)]
pub enum ValueData {
    Boolean(bool),
    Null,
    Number(Rational),
    /// UTF-16 code units.
    Str(Vec<u16>),
    Tuple(Vec<ValueRef>),
    /// Entries sorted by key, keys distinct.
    Record(Vec<RecordEntry>),
    Indeterminate(IndeterminateForm),
}

/// One record field.
#[derive(Debug, PartialEq)]
pub struct RecordEntry {
    pub key: Vec<u16>,
    pub value: ValueRef,
}

/// An unresolved arithmetic result: division or remainder by zero of the
/// (number) operand.
#[derive(Debug, PartialEq)]
pub enum IndeterminateForm {
    DivZero(ValueRef),
    ModZero(ValueRef),
}

/// The shallow identity of a value: its leaf content, with children as handles.
pub enum ValueKey {
    Boolean(bool),
    Null,
    Number((int, int)),
    Str(Seq<u16>),
    Tuple(Seq<nat>),
    Record(Seq<(Seq<u16>, nat)>),
    DivZero(nat),
    ModZero(nat),
}

/// The size of a value: one more than the sizes of its elements or entry
/// values together.
pub closed spec fn size(v: ValueRef) -> nat
    decreases v, 1nat, 0nat,
{
    match *v.data {
        ValueData::Tuple(items) => 1 + items_size(v, items@.len() as int),
        ValueData::Record(es) => 1 + entries_size(v, es@.len() as int),
        _ => 1,
    }
}

/// The sizes of the first `k` elements of the tuple `v`.
pub closed spec fn items_size(v: ValueRef, k: int) -> nat
    decreases v, 0nat, k,
{
    match *v.data {
        ValueData::Tuple(items) => if 0 < k <= items@.len() {
            items_size(v, k - 1) + size(items@[k - 1])
        } else {
            0
        },
        _ => 0,
    }
}

/// The sizes of the values of the first `k` entries of the record `v`.
pub closed spec fn entries_size(v: ValueRef, k: int) -> nat
    decreases v, 0nat, k,
{
    match *v.data {
        ValueData::Record(es) => if 0 < k <= es@.len() {
            entries_size(v, k - 1) + size(es@[k - 1].value)
        } else {
            0
        },
        _ => 0,
    }
}

proof fn lemma_items_size(v: ValueRef, i: int, k: int)
    requires
        v.data_spec() is Tuple,
        0 <= i < k <= v.data_spec()->Tuple_0@.len(),
    ensures
        size(v.data_spec()->Tuple_0@[i]) <= items_size(v, k),
    decreases k,
{
    if i < k - 1 {
        lemma_items_size(v, i, k - 1);
    }
}

proof fn lemma_entries_size(v: ValueRef, i: int, k: int)
    requires
        v.data_spec() is Record,
        0 <= i < k <= v.data_spec()->Record_0@.len(),
    ensures
        size(v.data_spec()->Record_0@[i].value) <= entries_size(v, k),
    decreases k,
{
    if i < k - 1 {
        lemma_entries_size(v, i, k - 1);
    }
}

/// A tuple's elements are smaller than the tuple.
pub broadcast proof fn lemma_item_smaller(v: ValueRef, i: int)
    requires
        v.data_spec() is Tuple,
        0 <= i < v.data_spec()->Tuple_0@.len(),
    ensures
        #[trigger] size(v.data_spec()->Tuple_0@[i]) < size(v),
{
    lemma_items_size(v, i, v.data_spec()->Tuple_0@.len() as int);
}

/// A record's entry values are smaller than the record.
pub broadcast proof fn lemma_entry_smaller(v: ValueRef, i: int)
    requires
        v.data_spec() is Record,
        0 <= i < v.data_spec()->Record_0@.len(),
    ensures
        #[trigger] size(v.data_spec()->Record_0@[i].value) < size(v),
{
    lemma_entries_size(v, i, v.data_spec()->Record_0@.len() as int);
}

/// Two keys denote the same value: numbers by value, all else exactly.
pub open spec fn key_equiv(a: ValueKey, b: ValueKey) -> bool {
    match (a, b) {
        (ValueKey::Number(p), ValueKey::Number(q)) => same_value(p, q),
        _ => a == b,
    }
}

/// Numbers in a key have positive denominators.
pub open spec fn key_wf(k: ValueKey) -> bool {
    match k {
        ValueKey::Number(p) => frac_wf(p),
        _ => true,
    }
}

impl ValueRef {
    /// The handle's identity.
    pub closed spec fn handle(&self) -> nat {
        self.id as nat
    }

    /// The value the handle refers to.
    pub closed spec fn data_spec(&self) -> ValueData {
        *self.data
    }

    /// The shallow key of the referenced value.
    pub open spec fn key(&self) -> ValueKey {
        value_key(self.data_spec())
    }

    /// A handle with identity `id` over `data`.
    pub(crate) fn from_parts(id: usize, data: ValueData) -> (r: ValueRef)
        ensures
            r.handle() == id,
            r.data_spec() == data,
    {
        ValueRef { id, data: Rc::new(data) }
    }

    /// The referenced value.
    pub fn data(&self) -> (r: &ValueData)
        ensures
            *r == self.data_spec(),
    {
        &self.data
    }

    /// Whether two handles are the same interned value.
    pub fn ptr_eq(&self, other: &ValueRef) -> (r: bool)
        ensures
            r == (self.handle() == other.handle()),
    {
        self.id == other.id
    }

    /// The handle's identity as a number.
    pub fn addr(&self) -> (r: usize)
        ensures
            r == self.handle(),
    {
        self.id
    }

    /// The number, when the value is one.
    pub fn as_number(&self) -> (r: Option<&Rational>)
        ensures
            r matches Some(n) ==> self.data_spec() == ValueData::Number(*n),
            r is None ==> !(self.data_spec() is Number),
    {
        match &*self.data {
            ValueData::Number(n) => Some(n),
            _ => None,
        }
    }

    /// The elements, when the value is a tuple.
    pub fn as_tuple(&self) -> (r: Option<&Vec<ValueRef>>)
        ensures
            r matches Some(t) ==> self.data_spec() == ValueData::Tuple(*t),
            r is None ==> !(self.data_spec() is Tuple),
    {
        match &*self.data {
            ValueData::Tuple(t) => Some(t),
            _ => None,
        }
    }

    /// The entries, when the value is a record.
    pub fn as_record(&self) -> (r: Option<&Vec<RecordEntry>>)
        ensures
            r matches Some(t) ==> self.data_spec() == ValueData::Record(*t),
            r is None ==> !(self.data_spec() is Record),
    {
        match &*self.data {
            ValueData::Record(t) => Some(t),
            _ => None,
        }
    }
}

impl Clone for ValueRef {
    fn clone(&self) -> (r: Self)
        ensures
            r == *self,
    {
        ValueRef { id: self.id, data: Rc::clone(&self.data) }
    }
}

impl PartialEq for ValueRef {
    fn eq(&self, other: &ValueRef) -> (r: bool) {
        self.id == other.id
    }
}

impl vstd::std_specs::cmp::PartialEqSpecImpl for ValueRef {
    open spec fn obeys_eq_spec() -> bool {
        true
    }

    open spec fn eq_spec(&self, other: &ValueRef) -> bool {
        self.handle() == other.handle()
    }
}

impl Eq for ValueRef {
}

/// The key of a record entry.
pub open spec fn entry_key(e: RecordEntry) -> (Seq<u16>, nat) {
    (e.key@, e.value.handle())
}

/// The handles of a sequence of values.
pub open spec fn handles(s: Seq<ValueRef>) -> Seq<nat> {
    s.map_values(|v: ValueRef| v.handle())
}

/// The keys of a sequence of record entries.
pub open spec fn entry_keys(s: Seq<RecordEntry>) -> Seq<(Seq<u16>, nat)> {
    s.map_values(|e: RecordEntry| entry_key(e))
}

/// The shallow key of a value payload.
pub open spec fn value_key(d: ValueData) -> ValueKey {
    match d {
        ValueData::Boolean(b) => ValueKey::Boolean(b),
        ValueData::Null => ValueKey::Null,
        ValueData::Number(n) => ValueKey::Number(n@),
        ValueData::Str(u) => ValueKey::Str(u@),
        ValueData::Tuple(items) => ValueKey::Tuple(handles(items@)),
        ValueData::Record(es) => ValueKey::Record(entry_keys(es@)),
        ValueData::Indeterminate(IndeterminateForm::DivZero(v)) => ValueKey::DivZero(v.handle()),
        ValueData::Indeterminate(IndeterminateForm::ModZero(v)) => ValueKey::ModZero(v.handle()),
    }
}

/// Numbers in a payload are well formed.
pub open spec fn data_wf(d: ValueData) -> bool {
    key_wf(value_key(d))
}

/// Whether two payloads have equivalent keys.
pub fn data_equiv(a: &ValueData, b: &ValueData) -> (r: bool)
    ensures
        r == key_equiv(value_key(*a), value_key(*b)),
{
    match (a, b) {
        (ValueData::Boolean(x), ValueData::Boolean(y)) => *x == *y,
        (ValueData::Null, ValueData::Null) => true,
        (ValueData::Number(x), ValueData::Number(y)) => x.eq_value(y),
        (ValueData::Str(x), ValueData::Str(y)) => crate::text::units_eq(x, y),
        (ValueData::Tuple(x), ValueData::Tuple(y)) => {
            if x.len() != y.len() {
                assert(handles(x@).len() != handles(y@).len());
                return false;
            }
            let mut i: usize = 0;
            while i < x.len()
                invariant
                    i <= x@.len(),
                    x@.len() == y@.len(),
                    forall|k: int| 0 <= k < i ==> x@[k].handle() == y@[k].handle(),
                    value_key(*a) == ValueKey::Tuple(handles(x@)),
                    value_key(*b) == ValueKey::Tuple(handles(y@)),
                decreases x@.len() - i,
            {
                if !x[i].ptr_eq(&y[i]) {
                    assert(handles(x@)[i as int] != handles(y@)[i as int]);
                    return false;
                }
                i = i + 1;
            }
            assert(handles(x@) =~= handles(y@));
            true
        },
        (ValueData::Record(x), ValueData::Record(y)) => {
            if x.len() != y.len() {
                assert(entry_keys(x@).len() != entry_keys(y@).len());
                return false;
            }
            let mut i: usize = 0;
            while i < x.len()
                invariant
                    i <= x@.len(),
                    x@.len() == y@.len(),
                    forall|k: int| 0 <= k < i ==> entry_key(x@[k]) == entry_key(y@[k]),
                    value_key(*a) == ValueKey::Record(entry_keys(x@)),
                    value_key(*b) == ValueKey::Record(entry_keys(y@)),
                decreases x@.len() - i,
            {
                if !crate::text::units_eq(&x[i].key, &y[i].key) || !x[i].value.ptr_eq(
                    &y[i].value,
                ) {
                    assert(entry_keys(x@)[i as int] != entry_keys(y@)[i as int]);
                    return false;
                }
                i = i + 1;
            }
            assert(entry_keys(x@) =~= entry_keys(y@));
            true
        },
        (
            ValueData::Indeterminate(IndeterminateForm::DivZero(x)),
            ValueData::Indeterminate(IndeterminateForm::DivZero(y)),
        ) => x.ptr_eq(y),
        (
            ValueData::Indeterminate(IndeterminateForm::ModZero(x)),
            ValueData::Indeterminate(IndeterminateForm::ModZero(y)),
        ) => x.ptr_eq(y),
        _ => false,
    }
}

} // verus!
