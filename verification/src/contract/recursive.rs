//! Recursive contracts: a group of named contracts that mention one another
//! through `Ref`, and the two admissibility laws a group must obey to
//! denote a least fixpoint — positivity (no reference under a `Difference`
//! exclusion) and structural guardedness (every reference cycle crosses a
//! `Tuple` or `Record` constructor).

use super::membership::{denotes, find_entry, first_entry};
use super::{Contract, Kind};
use crate::text::{concat3, str_is, str_utf16, utf16_of};
use crate::value::{size, ValueData, ValueRef};
use vstd::prelude::*;

verus! {

broadcast use crate::value::lemma_item_smaller, crate::value::lemma_entry_smaller;

// ── Names ────────────────────────────────────────────────────────────────────

/// Code-point order on names, the order in which `String`s compare.
pub open spec fn name_lt(a: Seq<char>, b: Seq<char>) -> bool
    decreases a.len(),
{
    if a.len() == 0 {
        b.len() > 0
    } else if b.len() == 0 {
        false
    } else if a[0] != b[0] {
        (a[0] as int) < (b[0] as int)
    } else {
        name_lt(a.drop_first(), b.drop_first())
    }
}

proof fn lemma_name_lt_irreflexive(a: Seq<char>)
    ensures
        !name_lt(a, a),
    decreases a.len(),
{
    if a.len() > 0 {
        lemma_name_lt_irreflexive(a.drop_first());
    }
}

proof fn lemma_name_lt_transitive(a: Seq<char>, b: Seq<char>, c: Seq<char>)
    requires
        name_lt(a, b),
        name_lt(b, c),
    ensures
        name_lt(a, c),
    decreases a.len(),
{
    if a.len() > 0 && b.len() > 0 && c.len() > 0 && a[0] == b[0] && b[0] == c[0] {
        lemma_name_lt_transitive(a.drop_first(), b.drop_first(), c.drop_first());
    }
}

proof fn lemma_name_lt_total(a: Seq<char>, b: Seq<char>)
    ensures
        a == b || name_lt(a, b) || name_lt(b, a),
    decreases a.len(),
{
    if a.len() > 0 && b.len() > 0 && a[0] == b[0] {
        lemma_name_lt_total(a.drop_first(), b.drop_first());
        if a.drop_first() == b.drop_first() {
            assert(a =~= seq![a[0]] + a.drop_first());
            assert(b =~= seq![b[0]] + b.drop_first());
        }
    } else if a.len() > 0 && b.len() > 0 {
        assert(a[0] as int != b[0] as int);
    } else if a.len() == 0 && b.len() == 0 {
        assert(a =~= b);
    }
}

/// Whether `a` sorts strictly before `b`.
fn name_less(a: &String, b: &String) -> (r: bool)
    ensures
        r == name_lt(a@, b@),
{
    let x = a.as_str();
    let y = b.as_str();
    let n = x.unicode_len();
    let m = y.unicode_len();
    let mut i: usize = 0;
    assert(a@.skip(0) =~= a@);
    assert(b@.skip(0) =~= b@);
    while i < n && i < m
        invariant
            i <= n,
            i <= m,
            n == x@.len(),
            m == y@.len(),
            x@ == a@,
            y@ == b@,
            name_lt(a@, b@) == name_lt(a@.skip(i as int), b@.skip(i as int)),
        decreases n - i,
    {
        let c = x.get_char(i);
        let d = y.get_char(i);
        if c != d {
            assert(a@.skip(i as int)[0] == c && b@.skip(i as int)[0] == d);
            return (c as u32) < (d as u32);
        }
        assert(a@.skip(i as int).drop_first() =~= a@.skip(i as int + 1));
        assert(b@.skip(i as int).drop_first() =~= b@.skip(i as int + 1));
        i = i + 1;
    }
    i == n && i < m
}

// ── Groups ───────────────────────────────────────────────────────────────────

/// A mutual group of named contracts; `Ref(name)` inside a definition
/// resolves against `defs`, which is ordered by name with no name twice.
#[derive(Debug)]
pub struct RecGroup {
    pub defs: Vec<(String, Contract)>,
}

/// The definitions are strictly ascending by name.
pub open spec fn names_sorted(defs: Seq<(String, Contract)>) -> bool {
    forall|a: int, b: int| 0 <= a < b < defs.len() ==> name_lt(#[trigger] defs[a].0@, #[trigger] defs[b].0@)
}

/// The last definition of `n` among `defs` (a later one wins).
pub open spec fn last_def(defs: Seq<(String, Contract)>, n: Seq<char>) -> Option<Contract>
    decreases defs.len(),
{
    if defs.len() == 0 {
        None
    } else if defs.last().0@ == n {
        Some(defs.last().1)
    } else {
        last_def(defs.drop_last(), n)
    }
}

/// `n` names a definition of the group.
pub open spec fn member(defs: Seq<(String, Contract)>, n: Seq<char>) -> bool {
    exists|i: int| 0 <= i < defs.len() && #[trigger] defs[i].0@ == n
}

/// `defs` is the group the list `given` defines: each name once, in name
/// order, carrying its last definition.
pub open spec fn group_of(given: Seq<(String, Contract)>, defs: Seq<(String, Contract)>) -> bool {
    &&& names_sorted(defs)
    &&& forall|i: int| 0 <= i < defs.len() ==> #[trigger] last_def(given, defs[i].0@) == Some(defs[i].1)
    &&& forall|n: Seq<char>| #[trigger] last_def(given, n) is Some ==> member(defs, n)
}

impl RecGroup {
    pub open spec fn wf(&self) -> bool {
        names_sorted(self.defs@)
    }

    /// The group of the given definitions; a later definition of a name
    /// replaces an earlier one.
    pub fn new(given: Vec<(String, Contract)>) -> (r: RecGroup)
        ensures
            r.wf(),
            group_of(given@, r.defs@),
    {
        let ghost all = given@;
        let mut defs: Vec<(String, Contract)> = Vec::new();
        let mut rest = given;
        assert(rest@ =~= all.subrange(0, all.len() as int));
        // Take the definitions from the back, so the first one met of a name
        // is its last definition.
        while rest.len() > 0
            invariant
                rest@.len() <= all.len(),
                rest@ == all.subrange(0, rest@.len() as int),
                names_sorted(defs@),
                forall|i: int| 0 <= i < defs@.len() ==> #[trigger] last_def(all, defs@[i].0@) == Some(defs@[i].1),
                forall|n: Seq<char>| #[trigger] last_def(all, n) is Some ==> member(defs@, n) || last_def(rest@, n) is Some,
                forall|n: Seq<char>| !member(defs@, n) ==> #[trigger] last_def(all, n) == last_def(rest@, n),
            decreases rest@.len(),
        {
            let ghost before = rest@;
            let (name, c) = rest.pop().unwrap();
            proof {
                assert(rest@ =~= before.drop_last());
                assert(rest@ =~= all.subrange(0, rest@.len() as int));
                assert(before.last() == (name, c));
            }
            // Position: the first definition not before `name`.
            let mut p: usize = 0;
            while p < defs.len() && name_less(&defs[p].0, &name)
                invariant
                    p <= defs@.len(),
                    forall|j: int| 0 <= j < p ==> name_lt(#[trigger] defs@[j].0@, name@),
                decreases defs@.len() - p,
            {
                p = p + 1;
            }
            let present = p < defs.len() && str_is(&defs[p].0, name.as_str());
            let ghost old_defs = defs@;
            proof {
                assert forall|j: int| 0 <= j < old_defs.len() && j != p implies #[trigger] old_defs[j].0@ != name@ by {
                    lemma_name_lt_irreflexive(name@);
                    if j > p && p < old_defs.len() {
                        lemma_name_lt_total(old_defs[p as int].0@, name@);
                        if old_defs[j].0@ == name@ && old_defs[p as int].0@ != name@ {
                            assert(name_lt(old_defs[p as int].0@, name@));
                        }
                    }
                }
                if present {
                    assert(old_defs[p as int].0@ == name@);
                    assert(member(old_defs, name@));
                } else {
                    assert(!member(old_defs, name@));
                }
                assert forall|n: Seq<char>| #[trigger] last_def(before, n) == (if n == name@ {
                    Some(c)
                } else {
                    last_def(rest@, n)
                }) by {}
            }
            if !present {
                defs.insert(p, (name, c));
                proof {
                    assert forall|a: int, b: int| 0 <= a < b < defs@.len() implies name_lt(
                        #[trigger] defs@[a].0@,
                        #[trigger] defs@[b].0@,
                    ) by {
                        if b == p {
                        } else if a == p {
                            if p < old_defs.len() {
                                lemma_name_lt_total(old_defs[p as int].0@, name@);
                                if b - 1 > p {
                                    lemma_name_lt_transitive(name@, old_defs[p as int].0@, old_defs[b - 1].0@);
                                }
                            }
                        } else if a < p && b > p {
                            lemma_name_lt_total(old_defs[p as int].0@, name@);
                            if b - 1 > p {
                                lemma_name_lt_transitive(name@, old_defs[p as int].0@, old_defs[b - 1].0@);
                            }
                            lemma_name_lt_transitive(old_defs[a].0@, name@, old_defs[b - 1].0@);
                        }
                    }
                    assert(defs@[p as int].0@ == name@);
                    assert(member(defs@, name@));
                    assert forall|n: Seq<char>| member(old_defs, n) implies member(defs@, n) by {
                        let j = choose|j: int| 0 <= j < old_defs.len() && #[trigger] old_defs[j].0@ == n;
                        if j < p {
                            assert(defs@[j].0@ == n);
                        } else {
                            assert(defs@[j + 1].0@ == n);
                        }
                    }
                    assert forall|i: int| 0 <= i < defs@.len() implies #[trigger] last_def(all, defs@[i].0@) == Some(
                        defs@[i].1,
                    ) by {
                        if i < p {
                            assert(defs@[i] == old_defs[i]);
                        } else if i > p {
                            assert(defs@[i] == old_defs[i - 1]);
                        }
                    }
                }
            }
        }
        proof {
            assert forall|n: Seq<char>| #[trigger] last_def(all, n) is Some implies member(defs@, n) by {
                assert(last_def(rest@, n) is None);
            }
        }
        RecGroup { defs }
    }
}

/// Whether `name` names a definition of the group.
fn is_member(group: &RecGroup, name: &String) -> (r: bool)
    ensures
        r == member(group.defs@, name@),
{
    let mut i: usize = 0;
    while i < group.defs.len()
        invariant
            i <= group.defs@.len(),
            forall|j: int| 0 <= j < i ==> #[trigger] group.defs@[j].0@ != name@,
        decreases group.defs@.len() - i,
    {
        if str_is(&group.defs[i].0, name.as_str()) {
            assert(group.defs@[i as int].0@ == name@);
            return true;
        }
        i = i + 1;
    }
    false
}

// ── Admissibility ────────────────────────────────────────────────────────────

/// A definition error: the group does not denote a least fixpoint.
#[derive(Debug, PartialEq, Eq)]
pub enum DefError {
    /// A group reference occurs at negative polarity (under a `Difference`
    /// exclusion): the operator is antitone and no least fixpoint exists.
    NegativeOccurrence { name: String },
    /// A reference cycle crosses no `Tuple`/`Record` constructor, so
    /// inclusion induction is not well-founded; `hint` advises a rewrite.
    Unguarded { name: String, hint: String },
}

/// The first of two optional findings.
pub open spec fn first_some(a: Option<Seq<char>>, b: Option<Seq<char>>) -> Option<Seq<char>> {
    if a is Some {
        a
    } else {
        b
    }
}

/// How many parts a tuple, record or concatenation form has.
pub open spec fn parts_len(c: Contract) -> int {
    match c {
        Contract::Tuple(es) => es@.len() as int,
        Contract::Record(fs) => fs@.len() as int,
        Contract::Concat(ss) => ss@.len() as int,
        _ => 0,
    }
}

/// The first group reference in `c`, left to right, that stands at negative
/// polarity (`positive` is the polarity of `c` itself).
pub open spec fn neg_ref(g: Seq<(String, Contract)>, c: Contract, positive: bool) -> Option<Seq<char>>
    decreases c, 1int, 0int,
{
    match c {
        Contract::Ref(name) => if member(g, name@) && !positive {
            Some(name@)
        } else {
            None
        },
        Contract::Union(a, b) => first_some(neg_ref(g, *a, positive), neg_ref(g, *b, positive)),
        Contract::Intersection(a, b) => first_some(neg_ref(g, *a, positive), neg_ref(g, *b, positive)),
        // `Difference(B, E)`: positive in B, negative in E.
        Contract::Difference(b, e) => first_some(neg_ref(g, *b, positive), neg_ref(g, *e, !positive)),
        Contract::Tuple(_) => neg_ref_from(g, c, positive, 0),
        Contract::Record(_) => neg_ref_from(g, c, positive, 0),
        Contract::Concat(_) => neg_ref_from(g, c, positive, 0),
        _ => None,
    }
}

/// `neg_ref` over the parts of a tuple, record or concatenation from the
/// `i`-th on.
pub open spec fn neg_ref_from(g: Seq<(String, Contract)>, c: Contract, positive: bool, i: int) -> Option<Seq<char>>
    decreases c, 0int, parts_len(c) - i,
{
    if i < 0 || i >= parts_len(c) {
        None
    } else {
        match c {
            Contract::Tuple(es) => first_some(neg_ref(g, es@[i], positive), neg_ref_from(g, c, positive, i + 1)),
            Contract::Record(fs) => first_some(neg_ref(g, fs@[i].1, positive), neg_ref_from(g, c, positive, i + 1)),
            Contract::Concat(ss) => first_some(neg_ref(g, ss@[i], positive), neg_ref_from(g, c, positive, i + 1)),
            _ => None,
        }
    }
}

/// `r` reports the negative occurrence `n`, or is `Ok` when there is none.
pub open spec fn reports_negative(r: Result<(), DefError>, n: Option<Seq<char>>) -> bool {
    match n {
        None => r is Ok,
        Some(x) => match r {
            Err(DefError::NegativeOccurrence { name }) => name@ == x,
            _ => false,
        },
    }
}

/// The part `i` of a tuple, record or concatenation form.
fn part(c: &Contract, i: usize) -> (r: &Contract)
    requires
        i < parts_len(*c),
    ensures
        match *c {
            Contract::Tuple(es) => *r == es@[i as int],
            Contract::Record(fs) => *r == fs@[i as int].1,
            Contract::Concat(ss) => *r == ss@[i as int],
            _ => false,
        },
{
    match c {
        Contract::Tuple(es) => &es[i],
        Contract::Record(fs) => &fs[i].1,
        Contract::Concat(ss) => &ss[i],
        _ => c,
    }
}

fn count_parts(c: &Contract) -> (r: usize)
    ensures
        r == parts_len(*c),
{
    match c {
        Contract::Tuple(es) => es.len(),
        Contract::Record(fs) => fs.len(),
        Contract::Concat(ss) => ss.len(),
        _ => 0,
    }
}

/// Positivity: no group reference in `c` at negative polarity.
fn check_positive(group: &RecGroup, c: &Contract, positive: bool) -> (r: Result<(), DefError>)
    ensures
        reports_negative(r, neg_ref(group.defs@, *c, positive)),
    decreases c,
{
    broadcast use vstd::std_specs::vec::axiom_vec_index_decreases;
    match c {
        Contract::Ref(name) => {
            if is_member(group, name) && !positive {
                Err(DefError::NegativeOccurrence { name: name.clone() })
            } else {
                Ok(())
            }
        },
        Contract::Union(a, b) => {
            let r = check_positive(group, a, positive);
            if r.is_err() {
                return r;
            }
            check_positive(group, b, positive)
        },
        Contract::Intersection(a, b) => {
            let r = check_positive(group, a, positive);
            if r.is_err() {
                return r;
            }
            check_positive(group, b, positive)
        },
        Contract::Difference(b, e) => {
            let r = check_positive(group, b, positive);
            if r.is_err() {
                return r;
            }
            check_positive(group, e, !positive)
        },
        Contract::Tuple(_) | Contract::Record(_) | Contract::Concat(_) => {
            let n = count_parts(c);
            let mut i: usize = 0;
            while i < n
                invariant
                    i <= n,
                    n == parts_len(*c),
                    c is Tuple || c is Record || c is Concat,
                    neg_ref(group.defs@, *c, positive) == neg_ref_from(group.defs@, *c, positive, i as int),
                decreases n - i,
            {
                let p = part(c, i);
                proof {
                    if c is Tuple {
                        assert(decreases_to!(c->Tuple_0 => c->Tuple_0[i as int]));
                        assert(decreases_to!(*c => c->Tuple_0));
                    } else if c is Record {
                        assert(decreases_to!(c->Record_0 => c->Record_0[i as int]));
                        assert(decreases_to!(*c => c->Record_0));
                        assert(decreases_to!(*c => c->Record_0[i as int].1));
                    } else {
                        assert(decreases_to!(c->Concat_0 => c->Concat_0[i as int]));
                        assert(decreases_to!(*c => c->Concat_0));
                    }
                }
                let r = check_positive(group, p, positive);
                if r.is_err() {
                    return r;
                }
                i = i + 1;
            }
            Ok(())
        },
        _ => Ok(()),
    }
}

/// The least number of elements `c` consumes as a segment is zero.
pub open spec fn zero_extent(c: Contract) -> bool
    decreases c, 1int, 0int,
{
    match c {
        Contract::Tuple(es) => es@.len() == 0,
        Contract::Concat(_) => zero_extent_from(c, 0),
        Contract::Union(a, b) => zero_extent(*a) || zero_extent(*b),
        Contract::Intersection(a, b) => zero_extent(*a) && zero_extent(*b),
        Contract::Equals(v) => !(v.data_spec() is Tuple && v.data_spec()->Tuple_0@.len() > 0),
        _ => true,
    }
}

/// Every segment of a concatenation from the `i`-th on has zero extent.
pub open spec fn zero_extent_from(c: Contract, i: int) -> bool
    decreases c, 0int, parts_len(c) - i,
{
    if i < 0 || i >= parts_len(c) {
        true
    } else {
        match c {
            Contract::Concat(ss) => zero_extent(ss@[i]) && zero_extent_from(c, i + 1),
            _ => true,
        }
    }
}

/// Every segment of the concatenation `c` from the `j`-th on, but the
/// `i`-th, has zero extent: the `i`-th is not certainly followed or
/// preceded by a consumed element.
pub open spec fn others_zero(c: Contract, i: int, j: int) -> bool
    decreases parts_len(c) - j,
{
    if j < 0 || j >= parts_len(c) {
        true
    } else {
        match c {
            Contract::Concat(ss) => (j == i || zero_extent(ss@[j])) && others_zero(c, i, j + 1),
            _ => true,
        }
    }
}

/// `n` is referenced in `c` without crossing a structural constructor.
pub open spec fn reaches_in(c: Contract, n: Seq<char>) -> bool
    decreases c, 1int, 0int,
{
    match c {
        Contract::Ref(name) => name@ == n,
        Contract::Union(a, b) => reaches_in(*a, n) || reaches_in(*b, n),
        Contract::Intersection(a, b) => reaches_in(*a, n) || reaches_in(*b, n),
        // The exclusion is recursion-free by positivity.
        Contract::Difference(b, _) => reaches_in(*b, n),
        Contract::Concat(_) => reaches_from(c, n, 0),
        // Tuples and records are structural progress.
        _ => false,
    }
}

/// `reaches_in` over the segments of a concatenation from the `i`-th on: a
/// segment counts when its siblings certainly consume nothing.
pub open spec fn reaches_from(c: Contract, n: Seq<char>, i: int) -> bool
    decreases c, 0int, parts_len(c) - i,
{
    if i < 0 || i >= parts_len(c) {
        false
    } else {
        match c {
            Contract::Concat(ss) => (others_zero(c, i, 0) && reaches_in(ss@[i], n)) || reaches_from(c, n, i + 1),
            _ => false,
        }
    }
}

/// The definition `i` reaches the name of definition `j` unguarded.
pub open spec fn edge(g: Seq<(String, Contract)>, i: int, j: int) -> bool {
    reaches_in(g[i].1, g[j].0@)
}

/// Definition `i` reaches definition `j` through at most `k + 1` unguarded
/// edges.
pub open spec fn walk(g: Seq<(String, Contract)>, i: int, j: int, k: nat) -> bool
    decreases k,
{
    if k == 0 {
        edge(g, i, j)
    } else {
        walk(g, i, j, (k - 1) as nat) || exists|m: int|
            #![trigger edge(g, m, j)]
            0 <= m < g.len() && walk(g, i, m, (k - 1) as nat) && edge(g, m, j)
    }
}

/// Definition `i` lies on an unguarded cycle (a closed walk through it needs
/// no more edges than there are definitions).
pub open spec fn on_cycle(g: Seq<(String, Contract)>, i: int) -> bool {
    walk(g, i, i, g.len())
}

/// Every definition is positive: no group reference at negative polarity.
pub open spec fn positive_group(g: Seq<(String, Contract)>) -> bool {
    forall|i: int| 0 <= i < g.len() ==> neg_ref(g, #[trigger] g[i].1, true) is None
}

/// No definition lies on an unguarded cycle.
pub open spec fn guarded_group(g: Seq<(String, Contract)>) -> bool {
    forall|i: int| 0 <= i < g.len() ==> !#[trigger] on_cycle(g, i)
}

/// The first definition from the `i`-th on with a negative occurrence.
pub open spec fn first_negative(g: Seq<(String, Contract)>, i: int) -> Option<Seq<char>>
    decreases g.len() - i,
{
    if i < 0 || i >= g.len() {
        None
    } else {
        first_some(neg_ref(g, g[i].1, true), first_negative(g, i + 1))
    }
}

/// The first definition from the `i`-th on that lies on an unguarded cycle.
pub open spec fn first_cycle(g: Seq<(String, Contract)>, i: int) -> Option<int>
    decreases g.len() - i,
{
    if i < 0 || i >= g.len() {
        None
    } else if on_cycle(g, i) {
        Some(i)
    } else {
        first_cycle(g, i + 1)
    }
}

/// `c` is a reference to `name`.
pub open spec fn is_ref_to(c: Contract, name: Seq<char>) -> bool {
    match c {
        Contract::Ref(x) => x@ == name,
        _ => false,
    }
}

/// The rewrite advice for the unguarded definition `name = def`: a union
/// with itself as one side denotes its other side.
pub open spec fn hint_is(name: Seq<char>, def: Contract, h: Seq<char>) -> bool {
    match def {
        Contract::Union(a, b) => if is_ref_to(*a, name) || is_ref_to(*b, name) {
            exists|t: Seq<char>| h == "`"@ + name + "` denotes `"@ + t + "` — write that"@
        } else {
            h == "cycle through `"@ + name + "` crosses no Tuple/Record constructor"@
        },
        _ => h == "cycle through `"@ + name + "` crosses no Tuple/Record constructor"@,
    }
}

/// `r` reports the unguarded definition `o`, or is `Ok` when there is none.
pub open spec fn reports_unguarded(g: Seq<(String, Contract)>, r: Result<(), DefError>, o: Option<int>) -> bool {
    match o {
        None => r is Ok,
        Some(i) => match r {
            Err(DefError::Unguarded { name, hint }) => name@ == g[i].0@ && hint_is(name@, g[i].1, hint@),
            _ => false,
        },
    }
}

fn zero_extent_of(c: &Contract) -> (r: bool)
    ensures
        r == zero_extent(*c),
    decreases c,
{
    broadcast use vstd::std_specs::vec::axiom_vec_index_decreases;
    match c {
        Contract::Tuple(es) => es.len() == 0,
        Contract::Concat(ss) => {
            let mut i: usize = 0;
            while i < ss.len()
                invariant
                    i <= ss@.len(),
                    *c == Contract::Concat(*ss),
                    zero_extent(*c) == zero_extent_from(*c, i as int),
                decreases ss@.len() - i,
            {
                proof {
                    assert(decreases_to!(*ss => ss[i as int]));
                    assert(decreases_to!(*c => c->Concat_0));
                }
                if !zero_extent_of(&ss[i]) {
                    return false;
                }
                i = i + 1;
            }
            true
        },
        Contract::Union(a, b) => zero_extent_of(a) || zero_extent_of(b),
        Contract::Intersection(a, b) => zero_extent_of(a) && zero_extent_of(b),
        Contract::Equals(v) => match v.data() {
            ValueData::Tuple(items) => items.len() == 0,
            _ => true,
        },
        _ => true,
    }
}

/// Whether every segment of `c` but the `i`-th has zero extent.
fn siblings_zero(c: &Contract, i: usize) -> (r: bool)
    ensures
        r == others_zero(*c, i as int, 0),
{
    let n = count_parts(c);
    let mut j: usize = 0;
    while j < n
        invariant
            j <= n,
            n == parts_len(*c),
            others_zero(*c, i as int, 0) == others_zero(*c, i as int, j as int),
        decreases n - j,
    {
        if j != i {
            match c {
                Contract::Concat(ss) => {
                    if !zero_extent_of(&ss[j]) {
                        return false;
                    }
                },
                _ => {},
            }
        }
        j = j + 1;
    }
    true
}

/// Whether `n` is referenced in `c` without crossing a structural
/// constructor.
fn reaches(c: &Contract, n: &String) -> (r: bool)
    ensures
        r == reaches_in(*c, n@),
    decreases c,
{
    broadcast use vstd::std_specs::vec::axiom_vec_index_decreases;
    match c {
        Contract::Ref(name) => str_is(name, n.as_str()),
        Contract::Union(a, b) => reaches(a, n) || reaches(b, n),
        Contract::Intersection(a, b) => reaches(a, n) || reaches(b, n),
        Contract::Difference(b, _) => reaches(b, n),
        Contract::Concat(ss) => {
            let mut i: usize = 0;
            while i < ss.len()
                invariant
                    i <= ss@.len(),
                    *c == Contract::Concat(*ss),
                    reaches_in(*c, n@) == reaches_from(*c, n@, i as int),
                decreases ss@.len() - i,
            {
                proof {
                    assert(decreases_to!(*ss => ss[i as int]));
                    assert(decreases_to!(*c => c->Concat_0));
                }
                if siblings_zero(c, i) && reaches(&ss[i], n) {
                    return true;
                }
                i = i + 1;
            }
            false
        },
        _ => false,
    }
}

/// The unguarded edges between the definitions, as a matrix.
fn edges(group: &RecGroup) -> (r: Vec<Vec<bool>>)
    ensures
        r@.len() == group.defs@.len(),
        forall|i: int| 0 <= i < r@.len() ==> (#[trigger] r@[i])@.len() == group.defs@.len(),
        forall|i: int, j: int|
            0 <= i < group.defs@.len() && 0 <= j < group.defs@.len() ==> r@[i]@[j] == edge(group.defs@, i, j),
{
    let n = group.defs.len();
    let mut out: Vec<Vec<bool>> = Vec::new();
    let mut i: usize = 0;
    while i < n
        invariant
            i <= n,
            n == group.defs@.len(),
            out@.len() == i,
            forall|a: int| 0 <= a < i ==> (#[trigger] out@[a])@.len() == n,
            forall|a: int, b: int| 0 <= a < i && 0 <= b < n ==> out@[a]@[b] == edge(group.defs@, a, b),
        decreases n - i,
    {
        let mut row: Vec<bool> = Vec::new();
        let mut j: usize = 0;
        while j < n
            invariant
                j <= n,
                i < n,
                n == group.defs@.len(),
                row@.len() == j,
                forall|b: int| 0 <= b < j ==> row@[b] == edge(group.defs@, i as int, b),
            decreases n - j,
        {
            row.push(reaches(&group.defs[i].1, &group.defs[j].0));
            j = j + 1;
        }
        out.push(row);
        i = i + 1;
    }
    out
}

/// Whether definition `i` lies on an unguarded cycle, by widening the set
/// of definitions it reaches one edge at a time.
fn cyclic(group: &RecGroup, adj: &Vec<Vec<bool>>, i: usize) -> (r: bool)
    requires
        i < group.defs@.len(),
        adj@.len() == group.defs@.len(),
        forall|a: int| 0 <= a < adj@.len() ==> (#[trigger] adj@[a])@.len() == group.defs@.len(),
        forall|a: int, b: int|
            0 <= a < group.defs@.len() && 0 <= b < group.defs@.len() ==> adj@[a]@[b] == edge(group.defs@, a, b),
    ensures
        r == on_cycle(group.defs@, i as int),
{
    let ghost g = group.defs@;
    let n = group.defs.len();
    let mut cur: Vec<bool> = adj[i].clone();
    assert(cur@ =~= adj@[i as int]@);
    let mut k: usize = 0;
    while k < n
        invariant
            k <= n,
            n == g.len(),
            g == group.defs@,
            i < n,
            adj@.len() == n,
            forall|a: int| 0 <= a < adj@.len() ==> (#[trigger] adj@[a])@.len() == n,
            forall|a: int, b: int| 0 <= a < n && 0 <= b < n ==> adj@[a]@[b] == edge(g, a, b),
            cur@.len() == n,
            forall|j: int| 0 <= j < n ==> cur@[j] == walk(g, i as int, j, k as nat),
        decreases n - k,
    {
        let mut next: Vec<bool> = Vec::new();
        let mut j: usize = 0;
        while j < n
            invariant
                j <= n,
                k < n,
                n == g.len(),
                i < n,
                adj@.len() == n,
                forall|a: int| 0 <= a < adj@.len() ==> (#[trigger] adj@[a])@.len() == n,
                forall|a: int, b: int| 0 <= a < n && 0 <= b < n ==> adj@[a]@[b] == edge(g, a, b),
                cur@.len() == n,
                forall|x: int| 0 <= x < n ==> cur@[x] == walk(g, i as int, x, k as nat),
                next@.len() == j,
                forall|x: int| 0 <= x < j ==> next@[x] == walk(g, i as int, x, (k + 1) as nat),
            decreases n - j,
        {
            let mut found = cur[j];
            let mut m: usize = 0;
            while m < n && !found
                invariant
                    m <= n,
                    j < n,
                    n == g.len(),
                    adj@.len() == n,
                    forall|a: int| 0 <= a < adj@.len() ==> (#[trigger] adj@[a])@.len() == n,
                    forall|a: int, b: int| 0 <= a < n && 0 <= b < n ==> adj@[a]@[b] == edge(g, a, b),
                    cur@.len() == n,
                    forall|x: int| 0 <= x < n ==> cur@[x] == walk(g, i as int, x, k as nat),
                    found ==> walk(g, i as int, j as int, (k + 1) as nat),
                    !found ==> !walk(g, i as int, j as int, k as nat) && forall|x: int|
                        #![trigger edge(g, x, j as int)]
                        0 <= x < m ==> !(walk(g, i as int, x, k as nat) && edge(g, x, j as int)),
                decreases n - m,
            {
                if cur[m] && adj[m][j] {
                    assert(edge(g, m as int, j as int));
                    found = true;
                }
                m = m + 1;
            }
            next.push(found);
            j = j + 1;
        }
        cur = next;
        k = k + 1;
    }
    cur[i]
}

/// Guardedness: the first definition in name order on an unguarded cycle.
fn check_guarded(group: &RecGroup) -> (r: Result<(), DefError>)
    ensures
        reports_unguarded(group.defs@, r, first_cycle(group.defs@, 0)),
{
    let adj = edges(group);
    let n = group.defs.len();
    let mut i: usize = 0;
    while i < n
        invariant
            i <= n,
            n == group.defs@.len(),
            adj@.len() == n,
            forall|a: int| 0 <= a < adj@.len() ==> (#[trigger] adj@[a])@.len() == n,
            forall|a: int, b: int| 0 <= a < n && 0 <= b < n ==> adj@[a]@[b] == edge(group.defs@, a, b),
            first_cycle(group.defs@, 0) == first_cycle(group.defs@, i as int),
        decreases n - i,
    {
        if cyclic(group, &adj, i) {
            let hint = guardedness_hint(&group.defs[i].0, &group.defs[i].1);
            return Err(DefError::Unguarded { name: group.defs[i].0.clone(), hint });
        }
        i = i + 1;
    }
    Ok(())
}

/// The text of a contract, as its derived `Debug` writes it.
///
/// Trusted: `format!` with `{:?}`; nothing is claimed of the text.
#[verifier::external_body]
fn contract_text(c: &Contract) -> String {
    format!("{:?}", c)
}

/// Rewrite advice for the unguarded definition `name = def`.
fn guardedness_hint(name: &String, def: &Contract) -> (r: String)
    ensures
        hint_is(name@, *def, r@),
{
    match def {
        Contract::Union(a, b) => {
            let left = match &**a {
                Contract::Ref(x) => str_is(x, name.as_str()),
                _ => false,
            };
            let right = match &**b {
                Contract::Ref(x) => str_is(x, name.as_str()),
                _ => false,
            };
            if left || right {
                let other = if left { contract_text(b) } else { contract_text(a) };
                let head = concat3("`", name.as_str(), "` denotes `");
                let r = concat3(head.as_str(), other.as_str(), "` — write that");
                assert(r@ == "`"@ + name@ + "` denotes `"@ + other@ + "` — write that"@);
                return r;
            }
        },
        _ => {},
    }
    concat3("cycle through `", name.as_str(), "` crosses no Tuple/Record constructor")
}

/// Checks both admissibility laws over the group: positivity of every
/// definition, in name order, then guardedness. `Ok` exactly when every
/// definition is positive and none lies on an unguarded cycle.
pub fn admissible(group: &RecGroup) -> (r: Result<(), DefError>)
    ensures
        first_negative(group.defs@, 0) is Some ==> reports_negative(r, first_negative(group.defs@, 0)),
        first_negative(group.defs@, 0) is None ==> reports_unguarded(group.defs@, r, first_cycle(group.defs@, 0)),
        r is Ok <==> positive_group(group.defs@) && guarded_group(group.defs@),
{
    let n = group.defs.len();
    let mut i: usize = 0;
    while i < n
        invariant
            i <= n,
            n == group.defs@.len(),
            first_negative(group.defs@, 0) == first_negative(group.defs@, i as int),
            forall|j: int| 0 <= j < i ==> neg_ref(group.defs@, #[trigger] group.defs@[j].1, true) is None,
        decreases n - i,
    {
        let r = check_positive(group, &group.defs[i].1, true);
        if r.is_err() {
            return r;
        }
        i = i + 1;
    }
    proof {
        lemma_first_cycle(group.defs@, 0);
    }
    check_guarded(group)
}

/// `first_cycle` finds nothing from `i` on exactly when no definition from
/// `i` on lies on a cycle.
proof fn lemma_first_cycle(g: Seq<(String, Contract)>, i: int)
    requires
        0 <= i,
    ensures
        first_cycle(g, i) is None <==> forall|j: int| i <= j < g.len() ==> !#[trigger] on_cycle(g, j),
    decreases g.len() - i,
{
    if i < g.len() {
        lemma_first_cycle(g, i + 1);
    }
}

// ── Membership ───────────────────────────────────────────────────────────────

/// The definition of `n`, from the `i`-th on.
pub open spec fn lookup(g: Seq<(String, Contract)>, n: Seq<char>, i: int) -> Option<Contract>
    decreases g.len() - i,
{
    if i < 0 || i >= g.len() {
        None
    } else if g[i].0@ == n {
        Some(g[i].1)
    } else {
        lookup(g, n, i + 1)
    }
}

/// How many references may be unfolded in a row at one value or window:
/// twice the group's size, and one more.
pub open spec fn fresh(g: Seq<(String, Contract)>) -> nat {
    (2 * g.len() + 1) as nat
}

/// How many elements `v` has when it is a tuple.
pub open spec fn tuple_len(v: ValueRef) -> int {
    if v.data_spec() is Tuple {
        v.data_spec()->Tuple_0@.len() as int
    } else {
        0
    }
}

/// `v` is in `c`, references resolved against the group `g`, with `b`
/// unfoldings left at this value.
pub open spec fn holds_in(g: Seq<(String, Contract)>, c: Contract, v: ValueRef, b: nat) -> bool
    decreases size(v), tuple_len(v) + 1, b, c, 3int, 0int, 0int, 0int,
{
    match c {
        Contract::Ref(name) => match lookup(g, name@, 0) {
            Some(d) => b > 0 && holds_in(g, d, v, (b - 1) as nat),
            None => false,
        },
        Contract::Union(a, x) => holds_in(g, *a, v, b) || holds_in(g, *x, v, b),
        Contract::Intersection(a, x) => holds_in(g, *a, v, b) && holds_in(g, *x, v, b),
        Contract::Difference(a, x) => holds_in(g, *a, v, b) && !holds_in(g, *x, v, b),
        Contract::Tuple(elems) => {
            &&& v.data_spec() is Tuple
            &&& tuple_len(v) == elems@.len()
            &&& forall|i: int|
                0 <= i < elems@.len() ==> holds_in(g, #[trigger] elems@[i], v.data_spec()->Tuple_0@[i], fresh(g))
        },
        Contract::Record(fields) => {
            &&& v.data_spec() is Record
            &&& v.data_spec()->Record_0@.len() == fields@.len()
            &&& forall|j: int|
                0 <= j < fields@.len() ==> (first_entry(v.data_spec()->Record_0@, utf16_of((#[trigger] fields@[j]).0@), 0) matches Some(i)
                    && 0 <= i < v.data_spec()->Record_0@.len() && holds_in(
                    g,
                    fields@[j].1,
                    v.data_spec()->Record_0@[i].value,
                    fresh(g),
                ))
        },
        Contract::Concat(_) => v.data_spec() is Tuple && split_in(g, c, 0, v, 0, tuple_len(v), b),
        _ => denotes(c, v),
    }
}

/// The window of elements `lo..hi` of the tuple `v`, as a tuple, is in the
/// segment contract `c`.
pub open spec fn win_in(g: Seq<(String, Contract)>, c: Contract, v: ValueRef, lo: int, hi: int, b: nat) -> bool
    decreases size(v), hi - lo, b, c, 2int, 0int, 0int, 0int,
{
    if !(v.data_spec() is Tuple && 0 <= lo <= hi <= tuple_len(v)) {
        false
    } else {
        match c {
            Contract::Ref(name) => match lookup(g, name@, 0) {
                Some(d) => b > 0 && win_in(g, d, v, lo, hi, (b - 1) as nat),
                None => false,
            },
            Contract::Tuple(elems) => elems@.len() == hi - lo && forall|t: int|
                0 <= t < elems@.len() ==> holds_in(g, #[trigger] elems@[t], v.data_spec()->Tuple_0@[lo + t], fresh(g)),
            Contract::Concat(_) => split_in(g, c, 0, v, lo, hi, b),
            Contract::Union(a, x) => win_in(g, *a, v, lo, hi, b) || win_in(g, *x, v, lo, hi, b),
            Contract::Intersection(a, x) => win_in(g, *a, v, lo, hi, b) && win_in(g, *x, v, lo, hi, b),
            Contract::Difference(a, x) => win_in(g, *a, v, lo, hi, b) && !win_in(g, *x, v, lo, hi, b),
            Contract::Top => true,
            Contract::Kind(k) => k == Kind::Tuple,
            _ => false,
        }
    }
}

/// The window `lo..hi` of `v` splits into consecutive windows satisfying the
/// segments of the concatenation `c` from the `j`-th on.
pub open spec fn split_in(g: Seq<(String, Contract)>, c: Contract, j: int, v: ValueRef, lo: int, hi: int, b: nat) -> bool
    decreases size(v), hi - lo, b, c, 1int, parts_len(c) - j, 1int, 0int,
{
    if !(c is Concat && 0 <= j <= parts_len(c) && 0 <= lo <= hi) {
        false
    } else if j == parts_len(c) {
        lo == hi
    } else {
        split_try_in(g, c, j, v, lo, hi, lo, b)
    }
}

/// Some first window `lo..k'`, with `k <= k' <= hi`, satisfies the `j`-th
/// segment of `c` and the rest splits over the segments after it; a window
/// that shrinks renews the unfoldings.
pub open spec fn split_try_in(
    g: Seq<(String, Contract)>,
    c: Contract,
    j: int,
    v: ValueRef,
    lo: int,
    hi: int,
    k: int,
    b: nat,
) -> bool
    decreases size(v), hi - lo, b, c, 1int, parts_len(c) - j, 0int, hi + 1 - k,
{
    match c {
        Contract::Concat(segs) => if !(0 <= j < segs@.len() && lo <= k <= hi) {
            false
        } else {
            (win_in(g, segs@[j], v, lo, k, if k < hi { fresh(g) } else { b }) && split_in(
                g,
                c,
                j + 1,
                v,
                k,
                hi,
                if k > lo { fresh(g) } else { b },
            )) || split_try_in(g, c, j, v, lo, hi, k + 1, b)
        },
        _ => false,
    }
}

/// The definition of `name` in the group.
fn lookup_def<'a>(group: &'a RecGroup, name: &String) -> (r: Option<&'a Contract>)
    ensures
        r matches Some(d) ==> lookup(group.defs@, name@, 0) == Some(*d),
        r is None ==> lookup(group.defs@, name@, 0) is None,
{
    let mut i: usize = 0;
    while i < group.defs.len()
        invariant
            i <= group.defs@.len(),
            lookup(group.defs@, name@, 0) == lookup(group.defs@, name@, i as int),
        decreases group.defs@.len() - i,
    {
        if str_is(&group.defs[i].0, name.as_str()) {
            return Some(&group.defs[i].1);
        }
        i = i + 1;
    }
    None
}

/// Membership `v ∈ c` with references resolved against the group. Each
/// reference unfolded spends one unit of a budget of twice the group's size
/// and one more, renewed whenever the value or the tuple window under test
/// shrinks; a spent budget fails the branch.
pub fn contains(group: &RecGroup, c: &Contract, v: &ValueRef) -> (r: bool)
    requires
        2 * group.defs@.len() + 1 <= usize::MAX,
    ensures
        r == holds_in(group.defs@, *c, *v, fresh(group.defs@)),
{
    let b = 2 * group.defs.len() + 1;
    holds(group, c, v, b)
}

fn holds(group: &RecGroup, c: &Contract, v: &ValueRef, b: usize) -> (r: bool)
    requires
        2 * group.defs@.len() + 1 <= usize::MAX,
    ensures
        r == holds_in(group.defs@, *c, *v, b as nat),
    decreases size(*v), tuple_len(*v) + 1, b, c, 3int, 0int, 0int, 0int,
{
    broadcast use vstd::std_specs::vec::axiom_vec_index_decreases;
    let ghost g = group.defs@;
    let fb = 2 * group.defs.len() + 1;
    match c {
        Contract::Ref(name) => match lookup_def(group, name) {
            Some(d) => b > 0 && holds(group, d, v, b - 1),
            None => false,
        },
        Contract::Union(a, x) => holds(group, a, v, b) || holds(group, x, v, b),
        Contract::Intersection(a, x) => holds(group, a, v, b) && holds(group, x, v, b),
        Contract::Difference(a, x) => holds(group, a, v, b) && !holds(group, x, v, b),
        Contract::Tuple(elems) => match v.as_tuple() {
            Some(items) => {
                if items.len() != elems.len() {
                    return false;
                }
                let mut i: usize = 0;
                while i < elems.len()
                    invariant
                        i <= elems@.len(),
                        items@.len() == elems@.len(),
                        *c == Contract::Tuple(*elems),
                        v.data_spec() == ValueData::Tuple(*items),
                        g == group.defs@,
                        fb == fresh(g),
                        2 * group.defs@.len() + 1 <= usize::MAX,
                        forall|t: int| 0 <= t < i ==> holds_in(g, #[trigger] elems@[t], items@[t], fresh(g)),
                    decreases elems@.len() - i,
                {
                    proof {
                        crate::value::lemma_item_smaller(*v, i as int);
                    }
                    if !holds(group, &elems[i], &items[i], fb) {
                        return false;
                    }
                    i = i + 1;
                }
                true
            },
            None => false,
        },
        Contract::Record(fields) => match v.as_record() {
            Some(es) => {
                if es.len() != fields.len() {
                    return false;
                }
                let mut j: usize = 0;
                while j < fields.len()
                    invariant
                        j <= fields@.len(),
                        es@.len() == fields@.len(),
                        *c == Contract::Record(*fields),
                        v.data_spec() == ValueData::Record(*es),
                        g == group.defs@,
                        fb == fresh(g),
                        2 * group.defs@.len() + 1 <= usize::MAX,
                        forall|t: int|
                            0 <= t < j ==> (first_entry(es@, utf16_of((#[trigger] fields@[t]).0@), 0) matches Some(i)
                                && 0 <= i < es@.len() && holds_in(g, fields@[t].1, es@[i].value, fresh(g))),
                    decreases fields@.len() - j,
                {
                    let ku = str_utf16(fields[j].0.as_str());
                    match find_entry(es, &ku) {
                        Some(i) => {
                            proof {
                                crate::value::lemma_entry_smaller(*v, i as int);
                            }
                            if !holds(group, &fields[j].1, &es[i].value, fb) {
                                return false;
                            }
                        },
                        None => {
                            return false;
                        },
                    }
                    j = j + 1;
                }
                true
            },
            None => false,
        },
        Contract::Concat(segs) => match v.as_tuple() {
            Some(items) => split(group, c, segs, 0, v, items, 0, items.len(), b),
            None => false,
        },
        _ => c.contains(v),
    }
}

fn win(group: &RecGroup, c: &Contract, v: &ValueRef, items: &Vec<ValueRef>, lo: usize, hi: usize, b: usize) -> (r: bool)
    requires
        2 * group.defs@.len() + 1 <= usize::MAX,
        v.data_spec() == ValueData::Tuple(*items),
        lo <= hi <= items@.len(),
    ensures
        r == win_in(group.defs@, *c, *v, lo as int, hi as int, b as nat),
    decreases size(*v), hi - lo, b, c, 2int, 0int, 0int, 0int,
{
    let ghost g = group.defs@;
    let fb = 2 * group.defs.len() + 1;
    match c {
        Contract::Ref(name) => match lookup_def(group, name) {
            Some(d) => b > 0 && win(group, d, v, items, lo, hi, b - 1),
            None => false,
        },
        Contract::Tuple(elems) => {
            if hi - lo != elems.len() {
                return false;
            }
            let mut t: usize = 0;
            while t < elems.len()
                invariant
                    t <= elems@.len(),
                    lo + elems@.len() == hi,
                    hi <= items@.len(),
                    *c == Contract::Tuple(*elems),
                    v.data_spec() == ValueData::Tuple(*items),
                    g == group.defs@,
                    fb == fresh(g),
                    2 * group.defs@.len() + 1 <= usize::MAX,
                    forall|x: int| 0 <= x < t ==> holds_in(g, #[trigger] elems@[x], items@[lo + x], fresh(g)),
                decreases elems@.len() - t,
            {
                proof {
                    crate::value::lemma_item_smaller(*v, lo + t);
                }
                if !holds(group, &elems[t], &items[lo + t], fb) {
                    return false;
                }
                t = t + 1;
            }
            true
        },
        Contract::Concat(segs) => split(group, c, segs, 0, v, items, lo, hi, b),
        Contract::Union(a, x) => win(group, a, v, items, lo, hi, b) || win(group, x, v, items, lo, hi, b),
        Contract::Intersection(a, x) => win(group, a, v, items, lo, hi, b) && win(group, x, v, items, lo, hi, b),
        Contract::Difference(a, x) => win(group, a, v, items, lo, hi, b) && !win(group, x, v, items, lo, hi, b),
        Contract::Top => true,
        Contract::Kind(k) => *k == Kind::Tuple,
        _ => false,
    }
}

fn split(
    group: &RecGroup,
    c: &Contract,
    segs: &Vec<Contract>,
    j: usize,
    v: &ValueRef,
    items: &Vec<ValueRef>,
    lo: usize,
    hi: usize,
    b: usize,
) -> (r: bool)
    requires
        2 * group.defs@.len() + 1 <= usize::MAX,
        *c == Contract::Concat(*segs),
        j <= segs@.len(),
        v.data_spec() == ValueData::Tuple(*items),
        lo <= hi <= items@.len(),
    ensures
        r == split_in(group.defs@, *c, j as int, *v, lo as int, hi as int, b as nat),
    decreases size(*v), hi - lo, b, c, 1int, parts_len(*c) - j, 1int, 0int,
{
    let ghost g = group.defs@;
    if j == segs.len() {
        return lo == hi;
    }
    let fb = 2 * group.defs.len() + 1;
    let next = j + 1;
    let mut k: usize = lo;
    loop
        invariant
            lo <= k <= hi,
            hi <= items@.len(),
            j < segs@.len(),
            *c == Contract::Concat(*segs),
            v.data_spec() == ValueData::Tuple(*items),
            g == group.defs@,
            fb == fresh(g),
            next == j + 1,
            2 * group.defs@.len() + 1 <= usize::MAX,
            split_in(g, *c, j as int, *v, lo as int, hi as int, b as nat) == split_try_in(
                g,
                *c,
                j as int,
                *v,
                lo as int,
                hi as int,
                k as int,
                b as nat,
            ),
        decreases hi - k,
    {
        proof {
            assert(decreases_to!(*c => c->Concat_0));
            assert(decreases_to!(c->Concat_0 => c->Concat_0@));
            assert(decreases_to!(c->Concat_0@ => c->Concat_0@[j as int]));
        }
        let wb = if k < hi { fb } else { b };
        let sb = if k > lo { fb } else { b };
        if win(group, &segs[j], v, items, lo, k, wb) && split(group, c, segs, next, v, items, k, hi, sb) {
            return true;
        }
        if k == hi {
            proof {
                assert(!split_try_in(g, *c, j as int, *v, lo as int, hi as int, k + 1, b as nat));
            }
            return false;
        }
        k = k + 1;
    }
}

} // verus!
