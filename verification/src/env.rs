//! Runtime environments: a chain of lexical frames mapping names to bindings.
//!
//! A [`Scope`] is a frame; bindings are added as they are established, and a
//! later binding of a name in the same frame shadows the earlier one. A name
//! resolves in the innermost frame that binds it. Frames are shared through
//! [`Env`] handles once they are complete; a frame is extended through a
//! mutable borrow while it is being built.

use std::rc::Rc;

use crate::value::ValueRef;
use vstd::prelude::*;

verus! {

/// A runtime store slot (a location). Locations are never values.
#[derive(Clone, Copy, PartialEq, Eq, Hash, Debug)]
pub struct SlotId(pub u32);

/// What a name is bound to: an immutable value, a location, an open
/// construction graph, or an under-initialization marker.
#[derive(Debug)]
pub enum Binding {
    Value(ValueRef),
    /// A value graph still inside its construction window.
    Open(ValueRef),
    Slot(SlotId),
    UnderInit,
}

/// A copy of a binding.
pub fn clone_binding(b: &Binding) -> (r: Binding)
    ensures
        r == *b,
{
    match b {
        Binding::Value(v) => Binding::Value(v.clone()),
        Binding::Open(v) => Binding::Open(v.clone()),
        Binding::Slot(s) => Binding::Slot(*s),
        Binding::UnderInit => Binding::UnderInit,
    }
}

/// A lexical scope frame: its own bindings, in the order they were made, and
/// the enclosing chain.
#[derive(Debug)]
pub struct Scope {
    parent: Option<Env>,
    vars: Vec<(String, Binding)>,
}

/// A shared, chainable environment handle.
pub type Env = Rc<Scope>;

/// The binding a frame's own entries give `n`: the latest one.
pub open spec fn frame_lookup(vars: Seq<(String, Binding)>, n: Seq<char>) -> Option<Binding>
    decreases vars.len(),
{
    if vars.len() == 0 {
        None
    } else if vars.last().0@ == n {
        Some(vars.last().1)
    } else {
        frame_lookup(vars.drop_last(), n)
    }
}

/// Looking a name up in `a` followed by `b`: `b` first, then `a`.
pub proof fn lemma_frame_lookup_append(a: Seq<(String, Binding)>, b: Seq<(String, Binding)>, n: Seq<char>)
    ensures
        frame_lookup(a + b, n) == match frame_lookup(b, n) {
            Some(x) => Some(x),
            None => frame_lookup(a, n),
        },
    decreases b.len(),
{
    if b.len() == 0 {
        assert(a + b =~= a);
    } else {
        assert((a + b).drop_last() =~= a + b.drop_last());
        assert((a + b).last() == b.last());
        lemma_frame_lookup_append(a, b.drop_last(), n);
    }
}

impl Scope {
    /// What `n` resolves to from this frame up the chain.
    pub closed spec fn resolve(self, n: Seq<char>) -> Option<Binding>
        decreases self,
    {
        match frame_lookup(self.vars@, n) {
            Some(b) => Some(b),
            None => match self.parent {
                Some(p) => (*p).resolve(n),
                None => None,
            },
        }
    }

    /// A fresh root frame: nothing is bound.
    pub fn root() -> (r: Scope)
        ensures
            forall|n: Seq<char>| (#[trigger] r.resolve(n)) is None,
    {
        Scope { parent: None, vars: Vec::new() }
    }

    /// A fresh frame extending `parent`: it resolves every name as `parent`
    /// does.
    pub fn child(parent: &Env) -> (r: Scope)
        ensures
            forall|n: Seq<char>| #[trigger] r.resolve(n) == (**parent).resolve(n),
    {
        let r = Scope { parent: Some(Rc::clone(parent)), vars: Vec::new() };
        assert forall|n: Seq<char>| #[trigger] r.resolve(n) == (**parent).resolve(n) by {
            assert(frame_lookup(r.vars@, n) is None);
        }
        r
    }

    /// Binds (or rebinds, shadowing) `name` in this frame.
    pub fn define(&mut self, name: &str, binding: Binding)
        ensures
            forall|m: Seq<char>| #[trigger] final(self).resolve(m) == if m == name@ {
                Some(binding)
            } else {
                old(self).resolve(m)
            },
    {
        self.vars.push((name.to_owned(), binding));
        assert forall|m: Seq<char>| #[trigger] self.resolve(m) == if m == name@ {
            Some(binding)
        } else {
            old(self).resolve(m)
        } by {
            assert(self.vars@.drop_last() =~= old(self).vars@);
        }
    }

    /// Resolves `name` up the chain, returning a copy of its binding.
    pub fn lookup(&self, name: &str) -> (r: Option<Binding>)
        ensures
            r == self.resolve(name@),
        decreases self,
    {
        let mut i: usize = self.vars.len();
        assert(self.vars@.take(self.vars@.len() as int) =~= self.vars@);
        while i > 0
            invariant
                i <= self.vars@.len(),
                frame_lookup(self.vars@, name@) == frame_lookup(self.vars@.take(i as int), name@),
            decreases i,
        {
            proof {
                assert(self.vars@.take(i as int).drop_last() =~= self.vars@.take(i - 1));
            }
            if crate::text::str_is(&self.vars[i - 1].0, name) {
                return Some(clone_binding(&self.vars[i - 1].1));
            }
            i = i - 1;
        }
        match &self.parent {
            Some(p) => p.lookup(name),
            None => None,
        }
    }

    /// The bindings visible from this frame, innermost last: looking a name
    /// up in them (the latest entry wins) agrees with [`Scope::lookup`].
    pub(crate) fn visible_bindings(&self) -> (r: Vec<(String, Binding)>)
        ensures
            forall|n: Seq<char>| #[trigger] frame_lookup(r@, n) == self.resolve(n),
        decreases self,
    {
        let mut out: Vec<(String, Binding)> = match &self.parent {
            Some(p) => p.visible_bindings(),
            None => Vec::new(),
        };
        let ghost before = out@;
        let mut i: usize = 0;
        while i < self.vars.len()
            invariant
                i <= self.vars@.len(),
                out@ == before + self.vars@.take(i as int),
            decreases self.vars@.len() - i,
        {
            out.push((self.vars[i].0.clone(), clone_binding(&self.vars[i].1)));
            proof {
                assert(self.vars@.take(i + 1) =~= self.vars@.take(i as int).push(self.vars@[i as int]));
                assert(out@ =~= before + self.vars@.take(i + 1));
            }
            i = i + 1;
        }
        proof {
            assert(self.vars@.take(self.vars@.len() as int) =~= self.vars@);
            assert forall|n: Seq<char>| #[trigger] frame_lookup(out@, n) == self.resolve(n) by {
                lemma_frame_lookup_append(before, self.vars@, n);
                if self.parent is None {
                    assert(frame_lookup(before, n) is None);
                }
            }
        }
        out
    }
}

} // verus!
