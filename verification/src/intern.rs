//! Generic hash-consing for tagged data (kernel code, contracts, enums), so
//! that identity is a comparison of handles.
//!
//! An [`Interned<T>`] compares by handle. An [`EnumInterner<T>`] issues one
//! handle per distinct term: structural equality is decided once, when the
//! term is interned, and every later comparison is a handle test.

use std::rc::Rc;

use vstd::prelude::*;

verus! {

/// A handle to an interned `T`.
#[derive(Debug)]
pub struct Interned<T> {
    id: usize,
    value: Rc<T>,
}

impl<T> Interned<T> {
    /// The handle's identity.
    pub closed spec fn handle(&self) -> nat {
        self.id as nat
    }

    /// The interned term.
    pub closed spec fn term(&self) -> T {
        *self.value
    }

    /// The handle's identity as a number.
    pub fn as_ptr(&self) -> (r: usize)
        ensures
            r == self.handle(),
    {
        self.id
    }

    /// Whether two handles are the same interned term.
    pub fn ptr_eq(&self, other: &Interned<T>) -> (r: bool)
        ensures
            r == (self.handle() == other.handle()),
    {
        self.id == other.id
    }

    /// The interned term.
    pub fn get(&self) -> (r: &T)
        ensures
            *r == self.term(),
    {
        &self.value
    }
}

impl<T> Clone for Interned<T> {
    fn clone(&self) -> (r: Self)
        ensures
            r == *self,
    {
        Interned { id: self.id, value: Rc::clone(&self.value) }
    }
}

impl<T> std::ops::Deref for Interned<T> {
    type Target = T;

    fn deref(&self) -> (r: &T)
        ensures
            *r == self.term(),
    {
        &self.value
    }
}

impl<T> PartialEq for Interned<T> {
    fn eq(&self, other: &Interned<T>) -> (r: bool) {
        self.id == other.id
    }
}

impl<T> vstd::std_specs::cmp::PartialEqSpecImpl for Interned<T> {
    open spec fn obeys_eq_spec() -> bool {
        true
    }

    open spec fn eq_spec(&self, other: &Interned<T>) -> bool {
        self.handle() == other.handle()
    }
}

impl<T> Eq for Interned<T> {
}

/// A term an interner can compare: `same_as` is an equivalence (every term
/// is the same as itself, so equal terms are the same), and `same_term`
/// decides it.
pub trait Term: Sized {
    spec fn same_as(&self, other: &Self) -> bool;

    proof fn lemma_same_refl(a: &Self)
        ensures
            a.same_as(a);

    proof fn lemma_same_sym(a: &Self, b: &Self)
        requires
            a.same_as(b),
        ensures
            b.same_as(a);

    proof fn lemma_same_trans(a: &Self, b: &Self, c: &Self)
        requires
            a.same_as(b),
            b.same_as(c),
        ensures
            a.same_as(c);

    fn same_term(&self, other: &Self) -> (r: bool)
        ensures
            r == self.same_as(other);
}

/// The hash-consing table for one type of term.
pub struct EnumInterner<T> {
    table: Vec<Interned<T>>,
}

/// Some stored term is the same as `value`.
pub open spec fn has_same<T: Term>(terms: Seq<T>, value: T) -> bool {
    exists|j: int| 0 <= j < terms.len() && (#[trigger] terms[j]).same_as(&value)
}

impl<T: Term> EnumInterner<T> {
    /// Whether `h` is a handle this table issued.
    pub closed spec fn holds(&self, h: Interned<T>) -> bool {
        h.handle() < self.table@.len() && self.table@[h.handle() as int] == h
    }

    /// The number of distinct terms.
    pub closed spec fn size(&self) -> nat {
        self.table@.len()
    }

    /// The stored terms, by handle.
    pub closed spec fn terms(&self) -> Seq<T> {
        self.table@.map_values(|h: Interned<T>| h.term())
    }

    /// Handle `i` is the `i`-th entry, and no stored term is the same as a
    /// later one.
    pub closed spec fn wf(&self) -> bool {
        &&& forall|i: int| 0 <= i < self.table@.len() ==> (#[trigger] self.table@[i]).handle() == i
        &&& forall|i: int, j: int|
            0 <= i < j < self.table@.len() ==> !(#[trigger] self.table@[i]).term().same_as(&(#[trigger] self.table@[j]).term())
    }

    /// Handles issued earlier stay valid.
    pub open spec fn extends(&self, old: &EnumInterner<T>) -> bool {
        forall|h: Interned<T>| old.holds(h) ==> #[trigger] self.holds(h)
    }

    /// An empty table.
    pub fn new() -> (r: EnumInterner<T>)
        ensures
            r.wf(),
            r.size() == 0,
            r.terms() == Seq::<T>::empty(),
    {
        let r = EnumInterner { table: Vec::new() };
        assert(r.terms() =~= Seq::<T>::empty());
        r
    }

    /// The canonical handle for `value`: the first stored term that is the
    /// same, or a new entry when there is none.
    pub fn intern(&mut self, value: T) -> (r: Interned<T>)
        requires
            old(self).wf(),
        ensures
            final(self).wf(),
            final(self).extends(old(self)),
            final(self).holds(r),
            r.term().same_as(&value) || r.term() == value,
            forall|j: int| 0 <= j < r.handle() ==> !(#[trigger] final(self).terms()[j]).same_as(&value),
            has_same(old(self).terms(), value) ==> final(self).size() == old(self).size() && final(self).terms()
                == old(self).terms() && old(self).holds(r) && r.term().same_as(&value),
            !has_same(old(self).terms(), value) ==> final(self).size() == old(self).size() + 1 && r.handle()
                == old(self).size() && r.term() == value && final(self).terms() == old(self).terms().push(value),
    {
        let mut i: usize = 0;
        while i < self.table.len()
            invariant
                i <= self.table@.len(),
                self.wf(),
                forall|j: int| 0 <= j < i ==> !(#[trigger] self.table@[j]).term().same_as(&value),
            decreases self.table@.len() - i,
        {
            if self.table[i].get().same_term(&value) {
                proof {
                    assert(self.terms()[i as int] == self.table@[i as int].term());
                    assert forall|j: int| 0 <= j < i implies !(#[trigger] self.terms()[j]).same_as(&value) by {
                        assert(self.terms()[j] == self.table@[j].term());
                    }
                }
                return self.table[i].clone();
            }
            i = i + 1;
        }
        proof {
            assert forall|j: int| 0 <= j < old(self).terms().len() implies !(#[trigger] old(self).terms()[j]).same_as(
                &value,
            ) by {
                assert(old(self).terms()[j] == self.table@[j].term());
            }
        }
        let n = self.table.len();
        let h = Interned { id: n, value: Rc::new(value) };
        let ghost old_table = self.table@;
        self.table.push(h.clone());
        proof {
            assert forall|w: Interned<T>| old(self).holds(w) implies #[trigger] self.holds(w) by {
                assert(self.table@[w.handle() as int] == old_table[w.handle() as int]);
            }
            assert forall|a: int, b: int| 0 <= a < b < self.table@.len() implies !(#[trigger] self.table@[a]).term().same_as(
                &(#[trigger] self.table@[b]).term(),
            ) by {
                assert(self.table@[a] == old_table[a]);
                if b < n {
                    assert(self.table@[b] == old_table[b]);
                }
            }
            assert(self.terms() =~= old(self).terms().push(value));
            assert forall|j: int| 0 <= j < n implies !(#[trigger] self.terms()[j]).same_as(&value) by {
                assert(self.terms()[j] == old(self).terms()[j]);
            }
        }
        h
    }

    /// How many distinct terms are interned.
    pub fn count(&self) -> (r: usize)
        ensures
            r == self.size(),
    {
        self.table.len()
    }
}

/// One table gives two of its handles the same handle exactly when their
/// terms are the same.
pub proof fn lemma_same_terms_share_a_handle<T: Term>(t: &EnumInterner<T>, a: Interned<T>, b: Interned<T>)
    requires
        t.wf(),
        t.holds(a),
        t.holds(b),
    ensures
        a.handle() == b.handle() <==> a.term().same_as(&b.term()),
{
    if a.handle() == b.handle() {
        assert(a == b);
        T::lemma_same_refl(&a.term());
    } else if b.handle() < a.handle() {
        assert(!t.table@[b.handle() as int].term().same_as(&t.table@[a.handle() as int].term()));
        if a.term().same_as(&b.term()) {
            T::lemma_same_sym(&a.term(), &b.term());
        }
    } else {
        assert(!t.table@[a.handle() as int].term().same_as(&t.table@[b.handle() as int].term()));
    }
}

/// Two terms interned into one table get one handle exactly when they are
/// the same term; in particular equal terms share a handle.
pub proof fn lemma_interned_terms<T: Term>(t: &EnumInterner<T>, a: Interned<T>, b: Interned<T>, x: T, y: T)
    requires
        t.wf(),
        t.holds(a),
        t.holds(b),
        a.term().same_as(&x) || a.term() == x,
        b.term().same_as(&y) || b.term() == y,
    ensures
        a.handle() == b.handle() <==> x.same_as(&y),
{
    lemma_same_terms_share_a_handle(t, a, b);
    let (p, q) = (a.term(), b.term());
    T::lemma_same_refl(&x);
    T::lemma_same_refl(&y);
    if p.same_as(&x) {
        T::lemma_same_sym(&p, &x);
    }
    if q.same_as(&y) {
        T::lemma_same_sym(&q, &y);
    }
    assert(p.same_as(&x) && x.same_as(&p));
    assert(q.same_as(&y) && y.same_as(&q));
    if p.same_as(&q) {
        T::lemma_same_trans(&x, &p, &q);
        T::lemma_same_trans(&x, &q, &y);
    }
    if x.same_as(&y) {
        T::lemma_same_trans(&p, &x, &y);
        T::lemma_same_trans(&p, &y, &q);
    }
}

/// The stored terms: one per handle, each handle's own term.
pub proof fn lemma_terms_by_handle<T: Term>(t: &EnumInterner<T>, h: Interned<T>)
    requires
        t.wf(),
        t.holds(h),
    ensures
        t.size() == t.terms().len(),
        h.handle() < t.size(),
        t.terms()[h.handle() as int] == h.term(),
{
}

/// Two handles issued by one table for terms of which the earlier is not
/// the same as the later are different handles; one handle has one term.
pub proof fn lemma_distinct_terms_distinct_handles<T: Term>(t: &EnumInterner<T>, a: Interned<T>, b: Interned<T>)
    requires
        t.wf(),
        t.holds(a),
        t.holds(b),
    ensures
        a.handle() == b.handle() ==> a == b,
        a.handle() < b.handle() ==> !a.term().same_as(&b.term()),
{
}

} // verus!
