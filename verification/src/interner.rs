//! The value interner — hash-consing that makes value equality a comparison of
//! handles.
//!
//! All values are constructed here. [`Interner::intern`] looks for a stored
//! value with an equivalent shallow key (leaf content, child handles) and
//! returns its handle, or stores the new value under a fresh handle. Because
//! children are already canonical, this is exact structural deduplication.

use crate::ast::Lambda;
use crate::intern::{has_same, EnumInterner, Interned};
use crate::intern::lemma_distinct_terms_distinct_handles;
use crate::shape::{lambda_same, lemma_lambda_same_refl, lemma_lambda_same_sym, lemma_lambda_same_trans};
use crate::rational::{lemma_same_value_transitive, same_value, Rational};
use crate::text::{lemma_units_lt_irreflexive, lemma_units_lt_total, lemma_units_lt_transitive, str_utf16, units_eq, units_less, units_lt, utf16_of};
use crate::value::{
    data_equiv, data_wf, key_equiv, key_wf, value_key, IndeterminateForm, RecordEntry, ValueData,
    ValueKey, ValueRef,
};
use vstd::prelude::*;

verus! {

/// Owns every interned value of a program, and the canonical handles of the
/// function shapes (kernel lambdas) that closures are built from.
pub struct Interner {
    values: Vec<ValueRef>,
    codes: EnumInterner<Lambda>,
}

/// Record entries strictly ascending by key.
pub open spec fn entries_sorted(es: Seq<RecordEntry>) -> bool {
    forall|a: int, b: int| 0 <= a < b < es.len() ==> units_lt(#[trigger] es[a].key@, #[trigger] es[b].key@)
}

/// The value the last field with key `k` carries (later fields win).
pub open spec fn last_value(fields: Seq<(Vec<u16>, ValueRef)>, k: Seq<u16>) -> Option<ValueRef>
    decreases fields.len(),
{
    if fields.len() == 0 {
        None
    } else if fields.last().0@ == k {
        Some(fields.last().1)
    } else {
        last_value(fields.drop_last(), k)
    }
}

/// The record denoted by `fields`: one entry per distinct key, carrying the
/// last value given for it, in ascending key order.
pub open spec fn record_of(fields: Seq<(Vec<u16>, ValueRef)>, es: Seq<RecordEntry>) -> bool {
    &&& entries_sorted(es)
    &&& forall|j: int| 0 <= j < es.len() ==> (#[trigger] last_value(fields, es[j].key@) matches Some(v)
        && v.handle() == es[j].value.handle())
    &&& forall|k: Seq<u16>| #[trigger] last_value(fields, k) is Some ==> exists|j: int| 0 <= j < es.len() && es[j].key@ == k
}

/// The shallow key of the record denoted by `fields`: entries strictly
/// ascending by key, one per distinct key, each carrying the handle of the
/// last value given for that key.
pub open spec fn record_key_of(fields: Seq<(Vec<u16>, ValueRef)>, ks: Seq<(Seq<u16>, nat)>) -> bool {
    &&& forall|a: int, b: int| 0 <= a < b < ks.len() ==> units_lt(#[trigger] ks[a].0, #[trigger] ks[b].0)
    &&& forall|j: int| 0 <= j < ks.len() ==> (#[trigger] last_value(fields, ks[j].0) matches Some(v)
        && v.handle() == ks[j].1)
    &&& forall|k: Seq<u16>| #[trigger] last_value(fields, k) is Some ==> exists|j: int| 0 <= j < ks.len() && ks[j].0 == k
}

impl Interner {
    /// The keys of the stored values, by handle.
    pub closed spec fn keys(&self) -> Seq<ValueKey> {
        self.values@.map_values(|v: ValueRef| v.key())
    }

    /// Whether `v` is a handle this interner issued.
    pub closed spec fn holds(&self, v: ValueRef) -> bool {
        v.handle() < self.values@.len() && self.values@[v.handle() as int] == v
    }

    /// Whether a stored value's key is equivalent to `k`.
    pub open spec fn has_key(&self, k: ValueKey) -> bool {
        exists|j: int| 0 <= j < self.keys().len() && key_equiv(#[trigger] self.keys()[j], k)
    }

    /// The table of function shapes.
    pub closed spec fn codes(&self) -> EnumInterner<Lambda> {
        self.codes
    }

    /// The interner's invariant: handle `i` is the `i`-th stored value, every
    /// stored number is well formed, no two stored values are equivalent, and
    /// the table of function shapes is well formed.
    pub closed spec fn wf(&self) -> bool {
        &&& self.codes.wf()
        &&& forall|i: int| 0 <= i < self.values@.len() ==> (#[trigger] self.values@[i]).handle() == i
        &&& forall|i: int| 0 <= i < self.values@.len() ==> key_wf(#[trigger] self.values@[i].key())
        &&& forall|i: int, j: int|
            0 <= i < j < self.values@.len() ==> !key_equiv(
                #[trigger] self.values@[i].key(),
                #[trigger] self.values@[j].key(),
            )
    }

    /// Handles issued earlier stay valid.
    pub open spec fn extends(&self, old: &Interner) -> bool {
        forall|v: ValueRef| old.holds(v) ==> #[trigger] self.holds(v)
    }

    /// An empty interner.
    pub fn new() -> (r: Interner)
        ensures
            r.wf(),
    {
        Interner { values: Vec::new(), codes: EnumInterner::new() }
    }

    /// The canonical handle for `data`: an existing handle whose value is
    /// equivalent, or a fresh one.
    pub fn intern(&mut self, data: ValueData) -> (r: ValueRef)
        requires
            old(self).wf(),
            data_wf(data),
        ensures
            final(self).wf(),
            final(self).extends(old(self)),
            final(self).holds(r),
            key_equiv(r.key(), value_key(data)),
            old(self).has_key(value_key(data)) ==> final(self).keys() == old(self).keys() && old(self).holds(r),
            !old(self).has_key(value_key(data)) ==> final(self).keys() == old(self).keys().push(value_key(data))
                && r.data_spec() == data && r.handle() == old(self).keys().len(),
    {
        let mut i: usize = 0;
        while i < self.values.len()
            invariant
                i <= self.values@.len(),
                self.wf(),
                forall|j: int| 0 <= j < i ==> !key_equiv(#[trigger] self.values@[j].key(), value_key(data)),
            decreases self.values@.len() - i,
        {
            if data_equiv(self.values[i].data(), &data) {
                let r = self.values[i].clone();
                proof {
                    lemma_key_equiv_symmetric(value_key(data), r.key());
                    assert(self.keys()[i as int] == r.key());
                }
                return r;
            }
            i = i + 1;
        }
        let n = self.values.len();
        let v = ValueRef::from_parts(n, data);
        let ghost old_values = self.values@;
        self.values.push(v.clone());
        proof {
            assert forall|a: int, b: int| 0 <= a < b < self.values@.len() implies !key_equiv(
                #[trigger] self.values@[a].key(),
                #[trigger] self.values@[b].key(),
            ) by {
                if b == n {
                    assert(self.values@[a] == old_values[a]);
                }
            }
            assert forall|w: ValueRef| old(self).holds(w) implies #[trigger] self.holds(w) by {
                assert(self.values@[w.handle() as int] == old_values[w.handle() as int]);
            }
            assert(self.keys() =~= old(self).keys().push(value_key(data)));
            assert forall|j: int| 0 <= j < old(self).keys().len() implies !key_equiv(
                #[trigger] old(self).keys()[j],
                value_key(data),
            ) by {
                assert(old(self).keys()[j] == old_values[j].key());
            }
        }
        v
    }

    /// How many distinct values are interned.
    pub fn len(&self) -> (r: usize)
        ensures
            r == self.keys().len(),
    {
        self.values.len()
    }

    /// The canonical handle for a function shape, created if absent: shapes
    /// are compared once, here, and by handle from then on.
    pub fn intern_code(&mut self, code: Lambda) -> (r: Interned<Lambda>)
        requires
            old(self).wf(),
        ensures
            final(self).wf(),
            final(self).keys() == old(self).keys(),
            final(self).extends(old(self)),
            final(self).codes().extends(&old(self).codes()),
            final(self).codes().holds(r),
            has_same(old(self).codes().terms(), code) ==> final(self).codes().size() == old(self).codes().size()
                && final(self).codes().terms() == old(self).codes().terms() && old(self).codes().holds(r)
                && lambda_same(r.term(), code),
            !has_same(old(self).codes().terms(), code) ==> final(self).codes().size() == old(self).codes().size() + 1
                && r.handle() == old(self).codes().size() && r.term() == code && final(self).codes().terms()
                == old(self).codes().terms().push(code),
    {
        self.codes.intern(code)
    }

    /// How many distinct function shapes are interned.
    pub fn interned_count(&self) -> (r: usize)
        ensures
            r == self.codes().size(),
    {
        self.codes.count()
    }

    // ── Leaf constructors ────────────────────────────────────────────────────

    pub fn boolean(&mut self, b: bool) -> (r: ValueRef)
        requires
            old(self).wf(),
        ensures
            final(self).wf(),
            final(self).extends(old(self)),
            final(self).holds(r),
            r.key() == ValueKey::Boolean(b),
    {
        self.intern(ValueData::Boolean(b))
    }

    pub fn null(&mut self) -> (r: ValueRef)
        requires
            old(self).wf(),
        ensures
            final(self).wf(),
            final(self).extends(old(self)),
            final(self).holds(r),
            r.key() == ValueKey::Null,
    {
        self.intern(ValueData::Null)
    }

    /// The number `n` (any fraction of the same value yields the same handle).
    pub fn number(&mut self, n: Rational) -> (r: ValueRef)
        requires
            old(self).wf(),
            n.wf(),
        ensures
            final(self).wf(),
            final(self).extends(old(self)),
            final(self).holds(r),
            r.key() matches ValueKey::Number(p) && same_value(p, n@),
    {
        let ghost nv = n@;
        self.intern(ValueData::Number(n))
    }

    pub fn integer(&mut self, n: i64) -> (r: ValueRef)
        requires
            old(self).wf(),
        ensures
            final(self).wf(),
            final(self).extends(old(self)),
            final(self).holds(r),
            r.key() matches ValueKey::Number(p) && same_value(p, (n as int, 1int)),
    {
        self.number(Rational::from(n))
    }

    /// A string value from Rust text (stored as UTF-16).
    pub fn string(&mut self, s: &str) -> (r: ValueRef)
        requires
            old(self).wf(),
        ensures
            final(self).wf(),
            final(self).extends(old(self)),
            final(self).holds(r),
            r.key() == ValueKey::Str(utf16_of(s@)),
    {
        self.intern(ValueData::Str(str_utf16(s)))
    }

    /// A string value from raw UTF-16 code units.
    pub fn string_units(&mut self, units: Vec<u16>) -> (r: ValueRef)
        requires
            old(self).wf(),
        ensures
            final(self).wf(),
            final(self).extends(old(self)),
            final(self).holds(r),
            r.key() == ValueKey::Str(units@),
    {
        self.intern(ValueData::Str(units))
    }

    /// `Indeterminate(DivZero(operand))`.
    pub fn div_zero(&mut self, operand: Rational) -> (r: ValueRef)
        requires
            old(self).wf(),
            operand.wf(),
        ensures
            final(self).wf(),
            final(self).extends(old(self)),
            final(self).holds(r),
            r.key() matches ValueKey::DivZero(h) && exists|n: ValueRef|
                final(self).holds(n) && n.handle() == h && (n.key() matches ValueKey::Number(p)
                    && same_value(p, operand@)),
    {
        let operand = self.number(operand);
        let r = self.intern(ValueData::Indeterminate(IndeterminateForm::DivZero(operand.clone())));
        assert(final(self).holds(operand));
        r
    }

    /// `Indeterminate(ModZero(operand))`.
    pub fn mod_zero(&mut self, operand: Rational) -> (r: ValueRef)
        requires
            old(self).wf(),
            operand.wf(),
        ensures
            final(self).wf(),
            final(self).extends(old(self)),
            final(self).holds(r),
            r.key() matches ValueKey::ModZero(h) && exists|n: ValueRef|
                final(self).holds(n) && n.handle() == h && (n.key() matches ValueKey::Number(p)
                    && same_value(p, operand@)),
    {
        let operand = self.number(operand);
        let r = self.intern(ValueData::Indeterminate(IndeterminateForm::ModZero(operand.clone())));
        assert(final(self).holds(operand));
        r
    }

    // ── Compound constructors ────────────────────────────────────────────────

    /// A tuple of already-interned elements (order preserved).
    pub fn tuple(&mut self, items: Vec<ValueRef>) -> (r: ValueRef)
        requires
            old(self).wf(),
        ensures
            final(self).wf(),
            final(self).extends(old(self)),
            final(self).holds(r),
            r.key() == ValueKey::Tuple(crate::value::handles(items@)),
    {
        let ghost k = crate::value::handles(items@);
        self.intern(ValueData::Tuple(items))
    }

    /// A record from `(key, value)` pairs. A later duplicate key wins, and
    /// entries are ordered by key, so field order is not observable.
    pub fn record(&mut self, fields: Vec<(Vec<u16>, ValueRef)>) -> (r: ValueRef)
        requires
            old(self).wf(),
        ensures
            final(self).wf(),
            final(self).extends(old(self)),
            final(self).holds(r),
            r.key() matches ValueKey::Record(ks) && record_key_of(fields@, ks),
    {
        let es = record_entries(&fields);
        let ghost esv = es@;
        let ghost ks = crate::value::entry_keys(esv);
        proof {
            assert forall|k: Seq<u16>| #[trigger] last_value(fields@, k) is Some implies exists|j: int|
                0 <= j < ks.len() && ks[j].0 == k by {
                let j = choose|j: int| 0 <= j < esv.len() && esv[j].key@ == k;
                assert(ks[j].0 == k);
            }
        }
        self.intern(ValueData::Record(es))
    }

    /// A record from `(&str, value)` pairs.
    pub fn record_str(&mut self, fields: Vec<(&str, ValueRef)>) -> (r: ValueRef)
        requires
            old(self).wf(),
        ensures
            final(self).wf(),
            final(self).extends(old(self)),
            final(self).holds(r),
            r.key() matches ValueKey::Record(ks) && exists|enc: Seq<(Vec<u16>, ValueRef)>|
                enc.len() == fields@.len() && (forall|i: int| 0 <= i < enc.len() ==> #[trigger] enc[i].0@
                    == utf16_of(fields@[i].0@) && enc[i].1 == fields@[i].1) && record_key_of(enc, ks),
    {
        let mut encoded: Vec<(Vec<u16>, ValueRef)> = Vec::new();
        let mut i: usize = 0;
        while i < fields.len()
            invariant
                i <= fields@.len(),
                encoded@.len() == i,
                forall|j: int| 0 <= j < i ==> #[trigger] encoded@[j].0@ == utf16_of(fields@[j].0@)
                    && encoded@[j].1 == fields@[j].1,
            decreases fields@.len() - i,
        {
            let (k, v) = &fields[i];
            encoded.push((str_utf16(k), v.clone()));
            i = i + 1;
        }
        let ghost enc = encoded@;
        self.record(encoded)
    }
}

proof fn lemma_key_equiv_symmetric(a: ValueKey, b: ValueKey)
    requires
        key_equiv(a, b),
    ensures
        key_equiv(b, a),
{
}

/// The entries of the record denoted by `fields`.
fn record_entries(fields: &Vec<(Vec<u16>, ValueRef)>) -> (r: Vec<RecordEntry>)
    ensures
        record_of(fields@, r@),
{
    let mut es: Vec<RecordEntry> = Vec::new();
    let mut i: usize = 0;
    while i < fields.len()
        invariant
            i <= fields@.len(),
            record_of(fields@.subrange(0, i as int), es@),
        decreases fields@.len() - i,
    {
        let (k, v) = &fields[i];
        let mut j: usize = 0;
        while j < es.len() && units_less(&es[j].key, k)
            invariant
                j <= es@.len(),
                forall|a: int| 0 <= a < j ==> units_lt(#[trigger] es@[a].key@, k@),
            decreases es@.len() - j,
        {
            j = j + 1;
        }
        let ghost prev = fields@.subrange(0, i as int);
        let ghost next = fields@.subrange(0, i + 1);
        assert(next.drop_last() == prev);
        assert(next.last() == fields@[i as int]);
        assert(*k == fields@[i as int].0 && *v == fields@[i as int].1);
        assert(forall|kk: Seq<u16>| #[trigger] last_value(next, kk) == if kk == k@ {
            Some(*v)
        } else {
            last_value(prev, kk)
        });
        if j < es.len() && units_eq(&es[j].key, k) {
            let ghost old_es = es@;
            es.set(j, RecordEntry { key: k.clone(), value: v.clone() });
            proof {
                assert forall|a: int, b: int| 0 <= a < b < es@.len() implies units_lt(
                    #[trigger] es@[a].key@,
                    #[trigger] es@[b].key@,
                ) by {
                    assert(es@[a].key@ == old_es[a].key@);
                    assert(es@[b].key@ == old_es[b].key@);
                }
                assert forall|q: int| 0 <= q < es@.len() implies (last_value(
                    next,
                    #[trigger] es@[q].key@,
                ) matches Some(vv) && vv.handle() == es@[q].value.handle()) by {
                    if q != j {
                        assert(es@[q] == old_es[q]);
                        if es@[q].key@ == k@ {
                            if q < j {
                                lemma_units_lt_transitive(old_es[q].key@, old_es[j as int].key@, old_es[q].key@);
                            } else {
                                lemma_units_lt_transitive(old_es[j as int].key@, old_es[q].key@, old_es[j as int].key@);
                            }
                            lemma_units_lt_irreflexive(old_es[q].key@);
                        }
                    }
                }
                assert forall|kk: Seq<u16>| #[trigger] last_value(next, kk) is Some implies exists|q: int|
                    0 <= q < es@.len() && es@[q].key@ == kk by {
                    if kk == k@ {
                        assert(es@[j as int].key@ == kk);
                    } else {
                        assert(last_value(prev, kk) is Some);
                        let q = choose|q: int| 0 <= q < old_es.len() && old_es[q].key@ == kk;
                        assert(es@[q].key@ == kk);
                    }
                }
            }
        } else {
            let ghost old_es = es@;
            proof {
                if j < es@.len() {
                    lemma_units_lt_total(es@[j as int].key@, k@);
                }
            }
            es.insert(j, RecordEntry { key: k.clone(), value: v.clone() });
            proof {
                assert forall|a: int, b: int| 0 <= a < b < es@.len() implies units_lt(
                    #[trigger] es@[a].key@,
                    #[trigger] es@[b].key@,
                ) by {
                    if b < j {
                        assert(es@[a] == old_es[a] && es@[b] == old_es[b]);
                    } else if b == j {
                        assert(es@[a] == old_es[a]);
                    } else if a == j {
                        assert(es@[b] == old_es[b - 1]);
                        if b - 1 > j {
                            lemma_units_lt_transitive(k@, old_es[j as int].key@, old_es[b - 1].key@);
                        }
                    } else if a < j {
                        assert(es@[a] == old_es[a] && es@[b] == old_es[b - 1]);
                    } else {
                        assert(es@[a] == old_es[a - 1] && es@[b] == old_es[b - 1]);
                    }
                }
                assert forall|q: int| 0 <= q < es@.len() implies (last_value(
                    next,
                    #[trigger] es@[q].key@,
                ) matches Some(vv) && vv.handle() == es@[q].value.handle()) by {
                    if q < j {
                        assert(es@[q] == old_es[q]);
                        lemma_units_lt_irreflexive(k@);
                    } else if q > j {
                        assert(es@[q] == old_es[q - 1]);
                        if old_es[q - 1].key@ == k@ {
                            if q - 1 > j {
                                lemma_units_lt_transitive(k@, old_es[j as int].key@, old_es[q - 1].key@);
                            }
                            lemma_units_lt_irreflexive(k@);
                        }
                    }
                }
                assert forall|kk: Seq<u16>| #[trigger] last_value(next, kk) is Some implies exists|q: int|
                    0 <= q < es@.len() && es@[q].key@ == kk by {
                    if kk == k@ {
                        assert(es@[j as int].key@ == kk);
                    } else {
                        assert(last_value(prev, kk) is Some);
                        let q = choose|q: int| 0 <= q < old_es.len() && old_es[q].key@ == kk;
                        if q < j {
                            assert(es@[q].key@ == kk);
                        } else {
                            assert(es@[q + 1].key@ == kk);
                        }
                    }
                }
            }
        }
        i = i + 1;
    }
    assert(fields@.subrange(0, fields@.len() as int) == fields@);
    es
}

/// Interning is hash-consing: two handles issued by one interner are the same
/// handle exactly when their values are equivalent (numbers by value, all
/// else by leaf content and child handles).
pub proof fn lemma_same_value_same_handle(i: &Interner, a: ValueRef, b: ValueRef)
    requires
        i.wf(),
        i.holds(a),
        i.holds(b),
    ensures
        key_equiv(a.key(), b.key()) <==> a.handle() == b.handle(),
{
    if a.handle() < b.handle() {
        assert(i.values@[a.handle() as int] == a);
        assert(!key_equiv(i.values@[a.handle() as int].key(), i.values@[b.handle() as int].key()));
    } else if b.handle() < a.handle() {
        assert(!key_equiv(i.values@[b.handle() as int].key(), i.values@[a.handle() as int].key()));
        if key_equiv(a.key(), b.key()) {
            lemma_key_equiv_symmetric(a.key(), b.key());
        }
    } else {
        assert(a == b);
    }
}

/// What a held handle tells: its key is the stored one at its position, and
/// a number in it is well formed.
pub proof fn lemma_held(i: &Interner, v: ValueRef)
    requires
        i.wf(),
        i.holds(v),
    ensures
        v.handle() < i.keys().len(),
        i.keys()[v.handle() as int] == v.key(),
        key_wf(v.key()),
{
}

/// A handle names one value: two held values with the same handle are the
/// same value.
pub proof fn lemma_one_value_per_handle(i: &Interner, a: ValueRef, b: ValueRef)
    requires
        i.holds(a),
        i.holds(b),
        a.handle() == b.handle(),
    ensures
        a == b,
{
}

/// Function shapes are interned one handle each: two handles of one
/// interner are the same handle exactly when their shapes are the same.
pub proof fn lemma_shapes_by_handle(i: &Interner, a: Interned<Lambda>, b: Interned<Lambda>)
    requires
        i.wf(),
        i.codes().holds(a),
        i.codes().holds(b),
    ensures
        a.handle() == b.handle() <==> lambda_same(a.term(), b.term()),
{
    let t = i.codes();
    lemma_distinct_terms_distinct_handles(&t, a, b);
    lemma_distinct_terms_distinct_handles(&t, b, a);
    if a.handle() == b.handle() {
        lemma_lambda_same_refl(a.term());
    } else if b.handle() < a.handle() {
        if lambda_same(a.term(), b.term()) {
            lemma_lambda_same_sym(a.term(), b.term());
        }
    }
}

/// Two shapes interned into one interner get one handle exactly when they
/// are the same shape.
pub proof fn lemma_interned_shapes(i: &Interner, a: Interned<Lambda>, b: Interned<Lambda>, l1: Lambda, l2: Lambda)
    requires
        i.wf(),
        i.codes().holds(a),
        i.codes().holds(b),
        lambda_same(a.term(), l1) || a.term() == l1,
        lambda_same(b.term(), l2) || b.term() == l2,
    ensures
        a.handle() == b.handle() <==> lambda_same(l1, l2),
{
    lemma_shapes_by_handle(i, a, b);
    lemma_lambda_same_refl(l1);
    lemma_lambda_same_refl(l2);
    let (x, y) = (a.term(), b.term());
    // x ~ l1 and y ~ l2 in both directions.
    if lambda_same(x, l1) {
        lemma_lambda_same_sym(x, l1);
    }
    if lambda_same(y, l2) {
        lemma_lambda_same_sym(y, l2);
    }
    assert(lambda_same(x, l1) && lambda_same(l1, x));
    assert(lambda_same(y, l2) && lambda_same(l2, y));
    if lambda_same(x, y) {
        lemma_lambda_same_trans(l1, x, y);
        lemma_lambda_same_trans(l1, y, l2);
    }
    if lambda_same(l1, l2) {
        lemma_lambda_same_trans(x, l1, l2);
        lemma_lambda_same_trans(x, l2, y);
    }
}

/// Two held numbers share a handle exactly when they are the same number.
pub proof fn lemma_numbers_share_a_handle(i: &Interner, a: ValueRef, b: ValueRef, p: (int, int), q: (int, int))
    requires
        i.wf(),
        i.holds(a),
        i.holds(b),
        a.key() == ValueKey::Number(p),
        b.key() == ValueKey::Number(q),
    ensures
        a.handle() == b.handle() <==> same_value(p, q),
{
    lemma_same_value_same_handle(i, a, b);
}

/// Two held integers share a handle exactly when they are the same integer.
pub proof fn lemma_integers_share_a_handle(i: &Interner, a: ValueRef, b: ValueRef, m: int, n: int)
    requires
        i.wf(),
        i.holds(a),
        i.holds(b),
        a.key() matches ValueKey::Number(p) && same_value(p, (m, 1int)),
        b.key() matches ValueKey::Number(q) && same_value(q, (n, 1int)),
    ensures
        a.handle() == b.handle() <==> m == n,
{
    let (p, q) = (a.key()->Number_0, b.key()->Number_0);
    lemma_held(i, a);
    lemma_held(i, b);
    lemma_numbers_share_a_handle(i, a, b, p, q);
    assert(p.0 == m * p.1);
    assert(q.0 == n * q.1);
    assert(same_value(p, q) <==> m == n) by (nonlinear_arith)
        requires
            p.0 == m * p.1,
            q.0 == n * q.1,
            p.1 > 0,
            q.1 > 0,
    {
        assert(p.0 * q.1 == m * p.1 * q.1);
        assert(q.0 * p.1 == n * q.1 * p.1);
    }
}

/// A strictly sorted key sequence is determined by its entries.
proof fn lemma_sorted_keys_unique(ks1: Seq<(Seq<u16>, nat)>, ks2: Seq<(Seq<u16>, nat)>)
    requires
        forall|a: int, b: int| 0 <= a < b < ks1.len() ==> units_lt(#[trigger] ks1[a].0, #[trigger] ks1[b].0),
        forall|a: int, b: int| 0 <= a < b < ks2.len() ==> units_lt(#[trigger] ks2[a].0, #[trigger] ks2[b].0),
        forall|a: int| 0 <= a < ks1.len() ==> ks2.contains(#[trigger] ks1[a]),
        forall|b: int| 0 <= b < ks2.len() ==> ks1.contains(#[trigger] ks2[b]),
    ensures
        ks1 == ks2,
    decreases ks1.len(),
{
    if ks1.len() == 0 {
        if ks2.len() > 0 {
            assert(ks1.contains(ks2[0]));
        }
        assert(ks1 =~= ks2);
    } else {
        if ks2.len() == 0 {
            assert(ks2.contains(ks1[0]));
        }
        assert(ks2.contains(ks1[0]));
        assert(ks1.contains(ks2[0]));
        let b0 = choose|b: int| 0 <= b < ks2.len() && ks2[b] == ks1[0];
        let a0 = choose|a: int| 0 <= a < ks1.len() && ks1[a] == ks2[0];
        if b0 != 0 && a0 != 0 {
            assert(units_lt(ks2[0].0, ks2[b0].0));
            assert(units_lt(ks1[0].0, ks1[a0].0));
            lemma_units_lt_transitive(ks1[0].0, ks2[0].0, ks1[0].0);
            lemma_units_lt_irreflexive(ks1[0].0);
        } else if b0 != 0 {
            assert(units_lt(ks2[0].0, ks2[b0].0));
            lemma_units_lt_irreflexive(ks1[0].0);
        } else if a0 != 0 {
            assert(units_lt(ks1[0].0, ks1[a0].0));
            lemma_units_lt_irreflexive(ks1[0].0);
        }
        assert(ks1[0] == ks2[0]);
        let t1 = ks1.drop_first();
        let t2 = ks2.drop_first();
        assert forall|a: int| 0 <= a < t1.len() implies t2.contains(#[trigger] t1[a]) by {
            assert(ks2.contains(ks1[a + 1]));
            let b = choose|b: int| 0 <= b < ks2.len() && ks2[b] == ks1[a + 1];
            assert(units_lt(ks1[0].0, ks1[a + 1].0));
            if b == 0 {
                lemma_units_lt_irreflexive(ks1[0].0);
            }
            assert(t2[b - 1] == t1[a]);
        }
        assert forall|b: int| 0 <= b < t2.len() implies t1.contains(#[trigger] t2[b]) by {
            assert(ks1.contains(ks2[b + 1]));
            let a = choose|a: int| 0 <= a < ks1.len() && ks1[a] == ks2[b + 1];
            assert(units_lt(ks2[0].0, ks2[b + 1].0));
            if a == 0 {
                lemma_units_lt_irreflexive(ks2[0].0);
            }
            assert(t1[a - 1] == t2[b]);
        }
        lemma_sorted_keys_unique(t1, t2);
        assert(ks1 =~= seq![ks1[0]] + t1);
        assert(ks2 =~= seq![ks2[0]] + t2);
    }
}

/// Record field order is not observable: two field lists that give every key
/// the same final value (by handle) intern to the same record handle.
pub proof fn lemma_record_order_not_observable(
    i: &Interner,
    f1: Seq<(Vec<u16>, ValueRef)>,
    f2: Seq<(Vec<u16>, ValueRef)>,
    r1: ValueRef,
    r2: ValueRef,
)
    requires
        i.wf(),
        i.holds(r1),
        i.holds(r2),
        r1.key() matches ValueKey::Record(ks1) && record_key_of(f1, ks1),
        r2.key() matches ValueKey::Record(ks2) && record_key_of(f2, ks2),
        forall|k: Seq<u16>|
            (#[trigger] last_value(f1, k) is Some) == (last_value(f2, k) is Some) && (last_value(f1, k) is Some
                ==> last_value(f1, k)->0.handle() == last_value(f2, k)->0.handle()),
    ensures
        r1.handle() == r2.handle(),
{
    let ks1 = r1.key()->Record_0;
    let ks2 = r2.key()->Record_0;
    assert forall|a: int| 0 <= a < ks1.len() implies ks2.contains(#[trigger] ks1[a]) by {
        let k = ks1[a].0;
        assert(last_value(f1, k) is Some);
        assert(last_value(f2, k) is Some);
        let b = choose|b: int| 0 <= b < ks2.len() && ks2[b].0 == k;
        assert(last_value(f2, ks2[b].0) is Some);
        assert(ks2[b] == ks1[a]);
    }
    assert forall|b: int| 0 <= b < ks2.len() implies ks1.contains(#[trigger] ks2[b]) by {
        let k = ks2[b].0;
        assert(last_value(f2, k) is Some);
        assert(last_value(f1, k) is Some);
        let a = choose|a: int| 0 <= a < ks1.len() && ks1[a].0 == k;
        assert(last_value(f1, ks1[a].0) is Some);
        assert(ks1[a] == ks2[b]);
    }
    lemma_sorted_keys_unique(ks1, ks2);
    lemma_same_value_same_handle(i, r1, r2);
}

} // verus!
