//! The normal forms of tuple concatenation: nested concatenations flatten,
//! an uninhabited segment empties the whole, empty-tuple segments erase, and
//! adjacent exact segments fuse.

use super::Contract;
use crate::rational::value_lt;
use vstd::prelude::*;

verus! {

/// A contract that is empty by its structure alone.
pub open spec fn uninhabited(c: Contract) -> bool
    decreases c,
{
    match c {
        Contract::Bottom => true,
        Contract::Range(lo, hi) => value_lt(hi@, lo@),
        Contract::Tuple(es) => exists|j: int| 0 <= j < es@.len() && uninhabited(#[trigger] es@[j]),
        Contract::Concat(ss) => exists|j: int| 0 <= j < ss@.len() && uninhabited(#[trigger] ss@[j]),
        Contract::Record(fs) => exists|j: int| 0 <= j < fs@.len() && uninhabited((#[trigger] fs@[j]).1),
        Contract::Union(a, b) => uninhabited(*a) && uninhabited(*b),
        Contract::Intersection(a, b) => uninhabited(*a) || uninhabited(*b),
        _ => false,
    }
}

/// A segment as the fusing step sees it: an exact tuple by its elements, or
/// any other segment as it is.
pub ghost enum SegView {
    Exact(Seq<Contract>),
    Other(Contract),
}

pub open spec fn seg_view(c: Contract) -> SegView {
    match c {
        Contract::Tuple(es) => SegView::Exact(es@),
        _ => SegView::Other(c),
    }
}

/// The segments with nested concatenations spliced in, in order.
pub open spec fn flatten(segs: Seq<Contract>) -> Seq<Contract>
    decreases segs.len(),
{
    if segs.len() == 0 {
        Seq::empty()
    } else {
        let rest = flatten(segs.drop_last());
        match segs.last() {
            Contract::Concat(inner) => rest + inner@,
            other => rest.push(other),
        }
    }
}

/// The segments without the empty-tuple ones.
pub open spec fn erase_empty(segs: Seq<Contract>) -> Seq<Contract>
    decreases segs.len(),
{
    if segs.len() == 0 {
        Seq::empty()
    } else {
        let rest = erase_empty(segs.drop_last());
        if seg_view(segs.last()) == SegView::Exact(Seq::<Contract>::empty()) {
            rest
        } else {
            rest.push(segs.last())
        }
    }
}

/// The segments with each exact segment fused into an exact one just before
/// it.
pub open spec fn fuse(segs: Seq<SegView>) -> Seq<SegView>
    decreases segs.len(),
{
    if segs.len() == 0 {
        Seq::empty()
    } else {
        let out = fuse(segs.drop_last());
        match segs.last() {
            SegView::Exact(cur) => if out.len() > 0 && out.last() is Exact {
                out.drop_last().push(SegView::Exact(out.last()->Exact_0 + cur))
            } else {
                out.push(SegView::Exact(cur))
            },
            other => out.push(other),
        }
    }
}

/// `r` is the normal form of the concatenation of `segs`.
pub open spec fn concat_of(segs: Seq<Contract>, r: Contract) -> bool {
    let flat = flatten(segs);
    let fused = fuse(erase_empty(flat).map_values(|c: Contract| seg_view(c)));
    if exists|j: int| 0 <= j < flat.len() && uninhabited(#[trigger] flat[j]) {
        r == Contract::Bottom
    } else if fused.len() == 0 {
        r matches Contract::Tuple(es) && es@.len() == 0
    } else if fused.len() == 1 {
        seg_view(r) == fused[0]
    } else {
        r matches Contract::Concat(out) && out@.map_values(|c: Contract| seg_view(c)) == fused
    }
}

/// Whether some contract of `cs` is empty by its structure.
fn any_uninhabited(cs: &Vec<Contract>, Ghost(whole): Ghost<Contract>) -> (r: bool)
    requires
        forall|j: int| 0 <= j < cs@.len() ==> decreases_to!(whole => #[trigger] cs@[j]),
    ensures
        r == exists|j: int| 0 <= j < cs@.len() && uninhabited(#[trigger] cs@[j]),
    decreases whole, 0nat,
{
    let mut i: usize = 0;
    while i < cs.len()
        invariant
            i <= cs@.len(),
            forall|j: int| 0 <= j < cs@.len() ==> decreases_to!(whole => #[trigger] cs@[j]),
            forall|j: int| 0 <= j < i ==> !uninhabited(#[trigger] cs@[j]),
        decreases cs@.len() - i,
    {
        assert(decreases_to!(whole => cs@[i as int]));
        if structurally_uninhabited(&cs[i]) {
            return true;
        }
        i = i + 1;
    }
    false
}

/// Whether the contract is empty by its structure.
pub fn structurally_uninhabited(c: &Contract) -> (r: bool)
    ensures
        r == uninhabited(*c),
    decreases *c, 1nat,
{
    broadcast use vstd::std_specs::vec::axiom_vec_index_decreases;
    match c {
        Contract::Bottom => true,
        Contract::Range(lo, hi) => hi.lt(lo),
        Contract::Tuple(es) => {
            proof {
                assert forall|j: int| 0 <= j < es@.len() implies decreases_to!(*c => #[trigger] es@[j]) by {
                    assert(decreases_to!(*es => es[j]));
                    assert(decreases_to!(*c => c->Tuple_0));
                }
            }
            any_uninhabited(es, Ghost(*c))
        },
        Contract::Concat(ss) => {
            proof {
                assert forall|j: int| 0 <= j < ss@.len() implies decreases_to!(*c => #[trigger] ss@[j]) by {
                    assert(decreases_to!(*ss => ss[j]));
                    assert(decreases_to!(*c => c->Concat_0));
                }
            }
            any_uninhabited(ss, Ghost(*c))
        },
        Contract::Record(fs) => {
            let mut i: usize = 0;
            while i < fs.len()
                invariant
                    i <= fs@.len(),
                    *c == Contract::Record(*fs),
                    forall|j: int| 0 <= j < i ==> !uninhabited((#[trigger] fs@[j]).1),
                decreases fs@.len() - i,
            {
                proof {
                    assert(decreases_to!(*fs => fs[i as int]));
                    assert(decreases_to!(*c => c->Record_0));
                    assert(decreases_to!(*c => fs[i as int].1));
                }
                if structurally_uninhabited(&fs[i].1) {
                    return true;
                }
                i = i + 1;
            }
            false
        },
        Contract::Union(a, b) => structurally_uninhabited(a) && structurally_uninhabited(b),
        Contract::Intersection(a, b) => structurally_uninhabited(a) || structurally_uninhabited(b),
        _ => false,
    }
}

proof fn lemma_flatten_step(segs: Seq<Contract>, k: int)
    requires
        0 <= k < segs.len(),
    ensures
        flatten(segs.take(k + 1)) == match segs[k] {
            Contract::Concat(inner) => flatten(segs.take(k)) + inner@,
            other => flatten(segs.take(k)).push(other),
        },
{
    assert(segs.take(k + 1).drop_last() =~= segs.take(k));
}

impl Contract {
    /// The concatenation of `segments` in normal form (see [`concat_of`]).
    pub fn concat(segments: Vec<Contract>) -> (r: Contract)
        ensures
            concat_of(segments@, r),
    {
        // Flatten nested concatenations.
        let mut rest = segments;
        let mut flat: Vec<Contract> = Vec::new();
        let ghost k: int = 0;
        while rest.len() > 0
            invariant
                0 <= k <= segments@.len(),
                rest@ == segments@.skip(k),
                flat@ == flatten(segments@.take(k)),
            decreases rest@.len(),
        {
            let s = rest.remove(0);
            proof {
                lemma_flatten_step(segments@, k);
                assert(s == segments@[k]);
            }
            match s {
                Contract::Concat(inner) => {
                    let mut inner = inner;
                    flat.append(&mut inner);
                },
                other => flat.push(other),
            }
            proof {
                k = k + 1;
                assert(rest@ =~= segments@.skip(k));
            }
        }
        proof {
            assert(segments@.take(k) =~= segments@);
        }
        // An uninhabited segment empties the whole concatenation.
        let mut i: usize = 0;
        while i < flat.len()
            invariant
                i <= flat@.len(),
                flat@ == flatten(segments@),
                forall|j: int| 0 <= j < i ==> !uninhabited(#[trigger] flat@[j]),
            decreases flat@.len() - i,
        {
            if structurally_uninhabited(&flat[i]) {
                assert(uninhabited(flat@[i as int]));
                return Contract::Bottom;
            }
            i = i + 1;
        }
        // Erase the empty-tuple segments and fuse adjacent exact ones.
        let ghost flat0 = flat@;
        let ghost m: int = 0;
        let mut out: Vec<Contract> = Vec::new();
        while flat.len() > 0
            invariant
                0 <= m <= flat0.len(),
                flat@ == flat0.skip(m),
                out@.map_values(|c: Contract| seg_view(c)) == fuse(
                    erase_empty(flat0.take(m)).map_values(|c: Contract| seg_view(c)),
                ),
            decreases flat@.len(),
        {
            let s = flat.remove(0);
            let ghost before = erase_empty(flat0.take(m)).map_values(|c: Contract| seg_view(c));
            proof {
                assert(s == flat0[m]);
                assert(flat0.take(m + 1).drop_last() =~= flat0.take(m));
                assert(flat0.take(m + 1).last() == s);
            }
            let empty_tuple = match &s {
                Contract::Tuple(es) => es.len() == 0,
                _ => false,
            };
            if empty_tuple {
                proof {
                    assert(seg_view(s) == SegView::Exact(Seq::<Contract>::empty())) by {
                        assert(s->Tuple_0@ =~= Seq::<Contract>::empty());
                    }
                }
            } else {
                proof {
                    assert(erase_empty(flat0.take(m + 1)) == erase_empty(flat0.take(m)).push(s));
                    assert(erase_empty(flat0.take(m + 1)).map_values(|c: Contract| seg_view(c)) =~= before.push(
                        seg_view(s),
                    ));
                    assert(before.push(seg_view(s)).drop_last() =~= before);
                }
                let last_exact = match out.last() {
                    Some(Contract::Tuple(_)) => true,
                    _ => false,
                };
                match s {
                    Contract::Tuple(cur) => {
                        if last_exact {
                            let ghost o = out@;
                            let prev = out.pop();
                            match prev {
                                Some(Contract::Tuple(prev)) => {
                                    let mut prev = prev;
                                    let mut cur = cur;
                                    let ghost (p0, c0) = (prev@, cur@);
                                    prev.append(&mut cur);
                                    out.push(Contract::Tuple(prev));
                                    proof {
                                        let f = fuse(before);
                                        assert(o.map_values(|c: Contract| seg_view(c)) == f);
                                        assert(f.last() == SegView::Exact(p0));
                                        assert(out@.map_values(|c: Contract| seg_view(c)) =~= f.drop_last().push(
                                            SegView::Exact(p0 + c0),
                                        ));
                                    }
                                },
                                _ => {},
                            }
                        } else {
                            let ghost o = out@;
                            out.push(Contract::Tuple(cur));
                            proof {
                                assert(out@.map_values(|c: Contract| seg_view(c)) =~= o.map_values(
                                    |c: Contract| seg_view(c),
                                ).push(seg_view(s)));
                            }
                        }
                    },
                    other => {
                        let ghost o = out@;
                        out.push(other);
                        proof {
                            assert(out@.map_values(|c: Contract| seg_view(c)) =~= o.map_values(
                                |c: Contract| seg_view(c),
                            ).push(seg_view(s)));
                        }
                    },
                }
            }
            proof {
                m = m + 1;
                assert(flat@ =~= flat0.skip(m));
            }
        }
        proof {
            assert(flat0.take(m) =~= flat0);
        }
        let n = out.len();
        if n == 0 {
            Contract::Tuple(Vec::new())
        } else if n == 1 {
            let single = out.pop();
            match single {
                Some(c) => c,
                None => Contract::Bottom,
            }
        } else {
            Contract::Concat(out)
        }
    }
}

} // verus!
