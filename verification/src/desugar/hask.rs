//! Hask lowering: `# body` becomes a `Lambda` over the hole positions.
//!
//! Holes are collected while the body is desugared: entering a `#` pushes a
//! [`HaskScope`], each hole registers a synthetic parameter against the top
//! scope, and popping the scope builds the parameter pattern. A nested `#`
//! pushes its own scope, so inner holes belong to the inner hask.
//!
//! Supported shapes: all plain (`# f(_, _)`), all indexed (`# f(_1, _2)`), and
//! one rest (`#([..._1])`, `# f(_, ..._)`). Mixing plain and indexed holes, or
//! rests of different kinds, is an error.

use crate::ast::{Pat, PatElem};
use crate::desugar::rules::{
    combine, fixed_params, hask_ok, hask_params, hole_use, no_holes, rest_position, rest_use, synthetic,
    HoleSum,
};
use crate::desugar::DesugarError;
use crate::surface::Hole;
use crate::text::{decimal, push_decimal, str_chars, string_from_chars};
use vstd::prelude::*;

verus! {

/// The holes gathered for one `#` scope.
pub struct HaskScope {
    /// Plain `_` parameters, one per occurrence, in source order.
    anon: Vec<String>,
    /// Indexed `_n` parameters; a repeated index reuses its parameter.
    indexed: Vec<(u32, String)>,
    /// The first rest hole (`..._` / `..._n`) and its generated name.
    rest: Option<(Hole, String)>,
    /// Whether a rest hole of another kind followed the first.
    conflict: bool,
    /// What the registered holes add up to.
    sum: Ghost<HoleSum>,
}

impl HaskScope {
    /// The registered holes, summed.
    pub closed spec fn total(&self) -> HoleSum {
        self.sum@
    }

    /// The names of the plain holes, one per occurrence, in order.
    pub closed spec fn anon_names(&self) -> Seq<Seq<char>> {
        self.anon@.map_values(|s: String| s@)
    }

    /// The name of the indexed hole `_n`, once registered.
    pub closed spec fn index_name(&self, n: u32) -> Option<Seq<char>> {
        if exists|j: int| 0 <= j < self.indexed@.len() && (#[trigger] self.indexed@[j]).0 == n {
            Some(self.indexed@[choose|j: int| 0 <= j < self.indexed@.len() && (#[trigger] self.indexed@[j]).0 == n].1@)
        } else {
            None
        }
    }

    /// The name of the rest hole, once registered.
    pub closed spec fn rest_name(&self) -> Option<Seq<char>> {
        match self.rest {
            Some((_, s)) => Some(s@),
            None => None,
        }
    }

    /// The scope's parameters agree with its hole summary, and all are
    /// synthetic names.
    pub closed spec fn wf(&self) -> bool {
        let u = self.sum@;
        &&& self.anon@.len() == u.anon
        &&& (self.indexed@.len() > 0) == u.idx
        &&& forall|i: int| 0 <= i < self.indexed@.len() ==> (#[trigger] self.indexed@[i]).0 <= u.max
        &&& u.idx ==> exists|i: int| 0 <= i < self.indexed@.len() && (#[trigger] self.indexed@[i]).0 == u.max
        &&& !u.idx ==> u.max == 0
        &&& (self.rest is Some ==> u.rest == Some((self.rest->0).0) && synthetic((self.rest->0).1@))
        &&& (self.rest is None ==> u.rest is None)
        &&& self.conflict == u.clash
        &&& forall|i: int| 0 <= i < self.anon@.len() ==> synthetic((#[trigger] self.anon@[i])@)
        &&& forall|i: int| 0 <= i < self.indexed@.len() ==> synthetic((#[trigger] self.indexed@[i]).1@)
        &&& forall|i: int, j: int|
            0 <= i < j < self.indexed@.len() ==> (#[trigger] self.indexed@[i]).0 != (#[trigger] self.indexed@[j]).0
    }

    /// A scope with no holes yet.
    pub fn empty() -> (r: HaskScope)
        ensures
            r.wf(),
            r.total() == no_holes(),
    {
        HaskScope { anon: Vec::new(), indexed: Vec::new(), rest: None, conflict: false, sum: Ghost(no_holes()) }
    }
}

/// Every scope of a hask stack is well formed.
pub open spec fn stack_wf(s: Seq<HaskScope>) -> bool {
    forall|i: int| 0 <= i < s.len() ==> (#[trigger] s[i]).wf()
}

/// After registering into the top scope: same depth, lower scopes untouched,
/// and the top's summary grown by `u`.
pub open spec fn grown(new: Seq<HaskScope>, old: Seq<HaskScope>, u: HoleSum) -> bool {
    &&& new.len() == old.len()
    &&& forall|i: int| 0 <= i < old.len() - 1 ==> #[trigger] new[i] == old[i]
    &&& new.last().total() == combine(old.last().total(), u)
}

/// `%` + `tag` + the counter's value; the counter advances (wrapping).
pub fn next_name(counter: &mut u32, tag: &str) -> (r: String)
    ensures
        synthetic(r@),
        r@ == seq!['%'] + tag@ + decimal(*old(counter) as nat),
        *final(counter) as int == (*old(counter) as int + 1) % 0x1_0000_0000,
{
    let n = *counter;
    *counter = counter.wrapping_add(1);
    let mut out: Vec<char> = Vec::new();
    out.push('%');
    let t = str_chars(tag);
    let mut i: usize = 0;
    while i < t.len()
        invariant
            i <= t@.len(),
            out@ == seq!['%'] + t@.subrange(0, i as int),
        decreases t@.len() - i,
    {
        out.push(t[i]);
        i = i + 1;
        assert(out@ =~= seq!['%'] + t@.subrange(0, i as int));
    }
    assert(t@.subrange(0, t@.len() as int) =~= t@);
    push_decimal(&mut out, n);
    string_from_chars(&out)
}

/// Registers a plain hole in the top scope and returns its parameter name;
/// an error outside any hask.
pub fn register_hole(stack: &mut Vec<HaskScope>, counter: &mut u32, h: Hole) -> (r: Result<String, DesugarError>)
    requires
        stack_wf(old(stack)@),
    ensures
        stack_wf(final(stack)@),
        r is Ok <==> old(stack)@.len() > 0,
        r matches Ok(n) ==> synthetic(n@) && grown(final(stack)@, old(stack)@, hole_use(h)),
        r matches Ok(n) ==> (h is Anon ==> final(stack)@.last().anon_names() == old(stack)@.last().anon_names().push(n@)),
        r matches Ok(n) ==> (h matches Hole::Indexed(i) ==> final(stack)@.last().index_name(i) == Some(n@)),
{
    if stack.len() == 0 {
        return Err(DesugarError { message: crate::text::string_of("a hole `_`/`_n` is only legal inside a hask `#`") });
    }
    let ghost before = stack@;
    let mut sc = stack.pop().unwrap();
    let ghost u = sc.sum@;
    let name = match h {
        Hole::Anon => {
            let name = next_name(counter, "h");
            sc.anon.push(name.clone());
            sc.sum = Ghost(combine(u, hole_use(h)));
            name
        },
        Hole::Indexed(n) => {
            let mut i: usize = 0;
            let mut found: Option<String> = None;
            while i < sc.indexed.len()
                invariant
                    i <= sc.indexed@.len(),
                    found matches Some(s) ==> exists|j: int| 0 <= j < sc.indexed@.len() && (#[trigger] sc.indexed@[j]).0 == n && sc.indexed@[j].1@ == s@,
                    found is None ==> forall|j: int| 0 <= j < i ==> (#[trigger] sc.indexed@[j]).0 != n,
                ensures
                    found matches Some(s) ==> exists|j: int| 0 <= j < sc.indexed@.len() && (#[trigger] sc.indexed@[j]).0 == n && sc.indexed@[j].1@ == s@,
                    found is None ==> forall|j: int| 0 <= j < sc.indexed@.len() ==> (#[trigger] sc.indexed@[j]).0 != n,
                decreases sc.indexed@.len() - i,
            {
                if sc.indexed[i].0 == n {
                    found = Some(sc.indexed[i].1.clone());
                    break;
                }
                i = i + 1;
            }
            match found {
                Some(existing) => {
                    assert(combine(u, hole_use(h)) == u);
                    proof {
                        let j = choose|j: int| 0 <= j < sc.indexed@.len() && (#[trigger] sc.indexed@[j]).0 == n && sc.indexed@[j].1@ == existing@;
                        let k = choose|k: int| 0 <= k < sc.indexed@.len() && (#[trigger] sc.indexed@[k]).0 == n;
                        assert(j == k) by {
                            if j < k {
                                assert(sc.indexed@[j].0 != sc.indexed@[k].0);
                            } else if k < j {
                                assert(sc.indexed@[k].0 != sc.indexed@[j].0);
                            }
                        }
                        assert(sc.index_name(n) == Some(existing@));
                    }
                    existing
                },
                None => {
                    let name = next_name(counter, "h");
                    let ghost old_idx = sc.indexed@;
                    assert(forall|j: int| 0 <= j < old_idx.len() ==> (#[trigger] old_idx[j]).0 != n);
                    sc.indexed.push((n, name.clone()));
                    sc.sum = Ghost(combine(u, hole_use(h)));
                    proof {
                        let v = combine(u, hole_use(h));
                        assert forall|j: int| 0 <= j < sc.indexed@.len() implies (#[trigger] sc.indexed@[j]).0 <= v.max by {
                            if j < old_idx.len() {
                                assert(sc.indexed@[j] == old_idx[j]);
                            }
                        }
                        if v.max == n as nat {
                            assert(sc.indexed@[old_idx.len() as int].0 == v.max);
                        } else {
                            let w = choose|j: int| 0 <= j < old_idx.len() && (#[trigger] old_idx[j]).0 == u.max;
                            assert(sc.indexed@[w] == old_idx[w]);
                        }
                        assert forall|j: int| 0 <= j < sc.indexed@.len() implies synthetic((#[trigger] sc.indexed@[j]).1@) by {
                            if j < old_idx.len() {
                                assert(sc.indexed@[j] == old_idx[j]);
                            }
                        }
                        assert forall|a: int, b: int| 0 <= a < b < sc.indexed@.len() implies (#[trigger] sc.indexed@[a]).0
                            != (#[trigger] sc.indexed@[b]).0 by {
                            assert(sc.indexed@[a] == old_idx[a]);
                            if b < old_idx.len() {
                                assert(sc.indexed@[b] == old_idx[b]);
                            } else {
                                assert(old_idx[a].0 != n);
                            }
                        }
                        let last = old_idx.len() as int;
                        assert(sc.indexed@[last].0 == n);
                        let k = choose|k: int| 0 <= k < sc.indexed@.len() && (#[trigger] sc.indexed@[k]).0 == n;
                        assert(k == last) by {
                            if k < last {
                                assert(sc.indexed@[k] == old_idx[k]);
                            }
                        }
                        assert(sc.index_name(n) == Some(name@));
                    }
                    name
                },
            }
        },
    };
    stack.push(sc);
    assert(stack@.drop_last() =~= before.drop_last());
    assert forall|i: int| 0 <= i < stack@.len() implies (#[trigger] stack@[i]).wf() by {
        if i < stack@.len() - 1 {
            assert(stack@[i] == before[i]);
        }
    }
    Ok(name)
}

/// Registers a rest hole (from a `...<hole>` spread) in the top scope and
/// returns its name; an error outside any hask. A rest of another kind than
/// the first is remembered as a conflict, reported when the hask closes.
pub fn register_rest_hole(stack: &mut Vec<HaskScope>, counter: &mut u32, h: Hole) -> (r: Result<String, DesugarError>)
    requires
        stack_wf(old(stack)@),
    ensures
        stack_wf(final(stack)@),
        r is Ok <==> old(stack)@.len() > 0,
        r matches Ok(n) ==> synthetic(n@) && grown(final(stack)@, old(stack)@, rest_use(h)),
        r matches Ok(n) ==> final(stack)@.last().rest_name() == Some(n@),
{
    if stack.len() == 0 {
        return Err(DesugarError { message: crate::text::string_of("a rest hole `..._`/`..._n` is only legal inside a hask `#`") });
    }
    let ghost before = stack@;
    let mut sc = stack.pop().unwrap();
    let ghost u = sc.sum@;
    let name = match sc.rest.take() {
        Some((kind, existing)) => {
            let same = match (kind, h) {
                (Hole::Anon, Hole::Anon) => true,
                (Hole::Indexed(a), Hole::Indexed(b)) => a == b,
                _ => false,
            };
            assert(same == (kind == h));
            if !same {
                sc.conflict = true;
            }
            let n = existing.clone();
            sc.rest = Some((kind, existing));
            n
        },
        None => {
            let n = next_name(counter, "hrest");
            sc.rest = Some((h, n.clone()));
            n
        },
    };
    sc.sum = Ghost(combine(u, rest_use(h)));
    proof {
        let v = sc.sum@;
        assert(sc.anon@.len() == v.anon);
        assert((sc.indexed@.len() > 0) == v.idx);
        assert(sc.rest is Some ==> v.rest == Some((sc.rest->0).0) && synthetic((sc.rest->0).1@));
        assert(sc.conflict == v.clash);
    }
    assert(sc.wf());
    stack.push(sc);
    assert(stack@.drop_last() =~= before.drop_last());
    assert forall|i: int| 0 <= i < stack@.len() implies (#[trigger] stack@[i]).wf() by {
        if i < stack@.len() - 1 {
            assert(stack@[i] == before[i]);
        }
    }
    Ok(name)
}

/// `%h` followed by the counter value `k` steps after `c`, wrapping like the
/// counter.
pub open spec fn fresh_h(c: u32, k: nat) -> Seq<char> {
    seq!['%', 'h'] + decimal(((c as int + k) % 0x1_0000_0000) as nat)
}

impl HaskScope {
    /// How many of the indices `1..=p` have no hole.
    pub closed spec fn missing_before(&self, p: nat) -> nat
        decreases p,
    {
        if p == 0 {
            0
        } else {
            self.missing_before((p - 1) as nat) + if self.index_name(p as u32) is None {
                1nat
            } else {
                0nat
            }
        }
    }

    /// The name of parameter `p` of the closed scope, the counter at `c`
    /// when it closes: a registered hole's own name, and for a position no
    /// hole took, a fresh name, taken in position order.
    pub closed spec fn param_name(&self, c: u32, p: nat) -> Seq<char> {
        let u = self.sum@;
        let fixed = fixed_params(u);
        if p < fixed {
            if u.idx {
                match self.index_name((p + 1) as u32) {
                    Some(x) => x,
                    None => fresh_h(c, self.missing_before(p)),
                }
            } else {
                self.anon_names()[p as int]
            }
        } else {
            fresh_h(c, (if u.idx { self.missing_before(fixed) } else { 0 }) + (p - fixed) as nat)
        }
    }
}

/// The first registered name of index `want`.
fn find_index(indexed: &Vec<(u32, String)>, want: u32) -> (r: Option<String>)
    ensures
        r matches Some(s) ==> exists|j: int| 0 <= j < indexed@.len() && (#[trigger] indexed@[j]).0 == want && indexed@[j].1@ == s@,
        r is None ==> forall|j: int| 0 <= j < indexed@.len() ==> (#[trigger] indexed@[j]).0 != want,
{
    let mut k: usize = 0;
    while k < indexed.len()
        invariant
            k <= indexed@.len(),
            forall|j: int| 0 <= j < k ==> (#[trigger] indexed@[j]).0 != want,
        decreases indexed@.len() - k,
    {
        if indexed[k].0 == want {
            return Some(indexed[k].1.clone());
        }
        k = k + 1;
    }
    None
}

/// The parameter pattern of a closed hask scope: the fixed holes in order
/// (dense up to the largest index), padded up to an indexed rest's position,
/// then the rest.
pub fn build_hask_params(scope: HaskScope, counter: &mut u32) -> (r: Result<Pat, DesugarError>)
    requires
        scope.wf(),
    ensures
        r is Ok <==> hask_ok(scope.total()),
        r matches Ok(p) ==> hask_params(scope.total(), p),
        r matches Ok(p) ==> (p matches Pat::Tuple(es) && (forall|i: int|
            0 <= i < rest_position(scope.total()) ==> (#[trigger] es@[i] matches PatElem::Pat(Pat::Bind(x)) && x@
                == scope.param_name(*old(counter), i as nat))) && (scope.total().rest is Some ==> (es@[rest_position(
            scope.total(),
        ) as int] matches PatElem::Rest(Some(x)) && scope.rest_name() == Some(x@)))),
{
    let ghost u = scope.sum@;
    let ghost sc = scope;
    let ghost c0 = *counter;
    proof {
        reveal_strlit("h");
        assert(seq!['%'] + "h"@ =~= seq!['%', 'h']);
    }
    let HaskScope { anon, indexed, rest, conflict, sum: _ } = scope;
    if conflict {
        return Err(DesugarError { message: crate::text::string_of("a hask may have at most one distinct rest hole") });
    }
    if anon.len() > 0 && indexed.len() > 0 {
        return Err(DesugarError { message: crate::text::string_of("mixing plain `_` and indexed `_n` holes is not supported") });
    }
    let mut elems: Vec<PatElem> = Vec::new();
    if indexed.len() > 0 {
        let mut max: u32 = 0;
        let mut j: usize = 0;
        while j < indexed.len()
            invariant
                j <= indexed@.len(),
                forall|k: int| 0 <= k < j ==> (#[trigger] indexed@[k]).0 <= max,
                j > 0 ==> exists|k: int| 0 <= k < j && (#[trigger] indexed@[k]).0 == max,
                j == 0 ==> max == 0,
            decreases indexed@.len() - j,
        {
            if indexed[j].0 > max {
                max = indexed[j].0;
            }
            j = j + 1;
        }
        assert(max as nat == u.max) by {
            let w = choose|k: int| 0 <= k < indexed@.len() && (#[trigger] indexed@[k]).0 == u.max;
            assert(indexed@[w].0 <= max);
        }
        let mut i: u32 = 0;
        while i < max
            invariant
                i <= max,
                max == u.max,
                u == sc.sum@,
                u.idx,
                indexed == sc.indexed,
                sc.wf(),
                elems@.len() == i,
                *counter as int == (c0 as int + sc.missing_before(i as nat)) % 0x1_0000_0000,
                seq!['%'] + "h"@ == seq!['%', 'h'],
                forall|m: int| 0 <= m < indexed@.len() ==> synthetic((#[trigger] indexed@[m]).1@),
                forall|k: int| 0 <= k < elems@.len() ==> (#[trigger] elems@[k] matches PatElem::Pat(Pat::Bind(x)) && synthetic(x@)
                    && x@ == sc.param_name(c0, k as nat)),
            decreases max - i,
        {
            let want = i + 1;
            let found = find_index(&indexed, want);
            let ghost before = *counter;
            let name = match found {
                Some(name) => {
                    proof {
                        let j = choose|j: int| 0 <= j < indexed@.len() && (#[trigger] indexed@[j]).0 == want && indexed@[j].1@ == name@;
                        let k = choose|k: int| 0 <= k < sc.indexed@.len() && (#[trigger] sc.indexed@[k]).0 == want;
                        assert(j == k) by {
                            if j < k {
                                assert(sc.indexed@[j].0 != sc.indexed@[k].0);
                            } else if k < j {
                                assert(sc.indexed@[k].0 != sc.indexed@[j].0);
                            }
                        }
                        assert(sc.index_name(want) == Some(name@));
                    }
                    name
                },
                None => {
                    assert(sc.index_name(want) is None);
                    next_name(counter, "h")
                },
            };
            proof {
                assert(sc.missing_before(want as nat) == sc.missing_before(i as nat) + if sc.index_name(want) is None {
                    1nat
                } else {
                    0nat
                });
                assert(name@ == sc.param_name(c0, i as nat));
            }
            elems.push(PatElem::Pat(Pat::Bind(name)));
            i = i + 1;
        }
        assert(elems@.len() == fixed_params(u));
    } else {
        let mut k: usize = 0;
        while k < anon.len()
            invariant
                k <= anon@.len(),
                anon == sc.anon,
                u == sc.sum@,
                sc.wf(),
                !u.idx,
                elems@.len() == k,
                *counter == c0,
                forall|m: int| 0 <= m < anon@.len() ==> synthetic((#[trigger] anon@[m])@),
                forall|m: int| 0 <= m < elems@.len() ==> (#[trigger] elems@[m] matches PatElem::Pat(Pat::Bind(x)) && synthetic(x@)
                    && x@ == sc.param_name(c0, m as nat)),
            decreases anon@.len() - k,
        {
            proof {
                assert(sc.anon_names()[k as int] == anon@[k as int]@);
                assert(anon@[k as int]@ == sc.param_name(c0, k as nat));
            }
            elems.push(PatElem::Pat(Pat::Bind(anon[k].clone())));
            k = k + 1;
        }
        assert(elems@.len() == fixed_params(u));
    }
    let ghost fixed = fixed_params(u);
    let ghost base: nat = if u.idx { sc.missing_before(fixed) } else { 0 };
    assert(*counter as int == (c0 as int + base) % 0x1_0000_0000);
    match rest {
        Some((kind, name)) => {
            match kind {
                Hole::Indexed(n) => {
                    let need: u32 = if n == 0 { 0 } else { n - 1 };
                    if elems.len() > need as usize {
                        return Err(DesugarError { message: crate::text::string_of("a rest hole's position conflicts with the fixed holes") });
                    }
                    while elems.len() < need as usize
                        invariant
                            fixed <= elems@.len() <= need,
                            *counter as int == (c0 as int + base + (elems@.len() - fixed)) % 0x1_0000_0000,
                            seq!['%'] + "h"@ == seq!['%', 'h'],
                            u == sc.sum@,
                            base == if u.idx { sc.missing_before(fixed) } else { 0 },
                            fixed == fixed_params(u),
                            forall|m: int| 0 <= m < elems@.len() ==> (#[trigger] elems@[m] matches PatElem::Pat(Pat::Bind(x)) && synthetic(x@)
                                && x@ == sc.param_name(c0, m as nat)),
                        decreases need - elems@.len(),
                    {
                        let filler = next_name(counter, "h");
                        proof {
                            assert(filler@ == sc.param_name(c0, elems@.len() as nat));
                        }
                        elems.push(PatElem::Pat(Pat::Bind(filler)));
                    }
                },
                Hole::Anon => {},
            }
            elems.push(PatElem::Rest(Some(name)));
        },
        None => {},
    }
    Ok(Pat::Tuple(elems))
}

} // verus!
