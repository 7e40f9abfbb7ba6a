//! Boundary-state seams — grapheme counts across string concatenation.
//!
//! Grapheme-cluster count is not additive across concatenation: extended
//! grapheme clustering (UAX #29) can merge clusters across the seam, by more
//! than one. The count is therefore owned by the segmenter
//! (`unicode-segmentation`), never a guessed constant. A string is summarized
//! by its boundary state, and concatenation composes summaries; for literal
//! strings the composition is exact by construction.

use unicode_segmentation::UnicodeSegmentation;
use crate::text::{string_from_utf16_lossy, utf16_lossy};
use vstd::prelude::*;

verus! {

/// The number of extended grapheme clusters `unicode-segmentation` finds in
/// the text.
pub uninterp spec fn grapheme_count(text: Seq<char>) -> nat;

/// The grapheme count of the text the UTF-16 units decode to (unpaired
/// surrogates as U+FFFD).
pub open spec fn units_graphemes(units: Seq<u16>) -> nat {
    grapheme_count(utf16_lossy(units))
}

/// `UnicodeSegmentation::graphemes(true).count()`: its result is named
/// [`grapheme_count`].
#[verifier::external_body]
fn segment_count(text: &str) -> (r: usize)
    ensures
        r == grapheme_count(text@),
{
    text.graphemes(true).count()
}

/// Grapheme-cluster count of a UTF-16 unit string.
pub fn count(units: &[u16]) -> (r: usize)
    ensures
        r == units_graphemes(units@),
{
    let v = vstd::slice::slice_to_vec(units);
    let text = string_from_utf16_lossy(&v);
    segment_count(text.as_str())
}

/// The boundary-state summary of a string: its isolated grapheme count and
/// the UTF-16 body (the seam is segmenter-owned).
#[derive(Clone, PartialEq, Eq, Debug)]
pub struct Summary {
    pub count: usize,
    units: Vec<u16>,
}

impl Summary {
    /// The summarized text.
    pub closed spec fn text(&self) -> Seq<u16> {
        self.units@
    }

    /// The recorded count.
    pub closed spec fn count_spec(&self) -> nat {
        self.count as nat
    }

    /// The count is the grapheme count of the text.
    pub closed spec fn wf(&self) -> bool {
        self.count == units_graphemes(self.text())
    }

    /// Summarize a literal string.
    pub fn of_literal(units: &[u16]) -> (r: Summary)
        ensures
            r.wf(),
            r.text() == units@,
    {
        let mut v: Vec<u16> = Vec::new();
        let mut i: usize = 0;
        while i < units.len()
            invariant
                i <= units@.len(),
                v@ == units@.subrange(0, i as int),
            decreases units@.len() - i,
        {
            v.push(units[i]);
            assert(units@.subrange(0, i + 1) == units@.subrange(0, i as int).push(units@[i as int]));
            i = i + 1;
        }
        assert(units@.subrange(0, units@.len() as int) == units@);
        Summary { count: count(units), units: v }
    }

    /// Concatenate two summaries: the seam is recomputed by the segmenter over
    /// the joined text, so every cross-seam merge is accounted for.
    pub fn compose(&self, rhs: &Summary) -> (r: Summary)
        ensures
            r.wf(),
            r.text() == self.text() + rhs.text(),
    {
        let mut joined = self.units.clone();
        assert(joined@ =~= self.units@);
        let mut i: usize = 0;
        while i < rhs.units.len()
            invariant
                i <= rhs.units@.len(),
                joined@ == self.units@ + rhs.units@.subrange(0, i as int),
            decreases rhs.units@.len() - i,
        {
            joined.push(rhs.units[i]);
            assert(rhs.units@.subrange(0, i + 1) == rhs.units@.subrange(0, i as int).push(rhs.units@[i as int]));
            i = i + 1;
        }
        assert(rhs.units@.subrange(0, rhs.units@.len() as int) == rhs.units@);
        let c = count(joined.as_slice());
        Summary { count: c, units: joined }
    }

    /// The seam delta `count(a ++ b) − count(a) − count(b)`.
    pub fn seam_delta(&self, rhs: &Summary) -> (r: isize)
        requires
            self.wf(),
            rhs.wf(),
        ensures
            ({
                let d = units_graphemes(self.text() + rhs.text()) - units_graphemes(self.text())
                    - units_graphemes(rhs.text());
                isize::MIN <= d <= isize::MAX ==> r == d
            }),
    {
        let joined = self.compose(rhs);
        let d: i128 = joined.count as i128 - self.count as i128 - rhs.count as i128;
        #[verifier::truncate]
        (d as isize)
    }
}

/// A sound bound on the grapheme count of `a ++ b` from `(lo, hi)` bounds on
/// the operands (`hi = None` is unbounded): concatenation only merges, and
/// only rightward, so the result lies in `[a.lo, a.hi + b.hi]`.
pub fn concat_len_bound(a: (usize, Option<usize>), b: (usize, Option<usize>)) -> (r: (
    usize,
    Option<usize>,
))
    requires
        (a.1 is Some && b.1 is Some) ==> a.1->0 + b.1->0 <= usize::MAX,
    ensures
        r.0 == a.0,
        r.1 == match (a.1, b.1) {
            (Some(x), Some(y)) => Some((x + y) as usize),
            _ => None::<usize>,
        },
{
    let lo = a.0;
    let hi = match (a.1, b.1) {
        (Some(x), Some(y)) => Some(x + y),
        _ => None,
    };
    (lo, hi)
}

/// Summary composition is exact for literals: composing the summaries of `a`
/// and `b` gives the grapheme count of `a ++ b`.
pub proof fn lemma_compose_exact(a: Seq<u16>, b: Seq<u16>, sa: Summary, sb: Summary, sab: Summary)
    requires
        sa.text() == a,
        sb.text() == b,
        sab.wf(),
        sab.text() == sa.text() + sb.text(),
    ensures
        sab.count_spec() == units_graphemes(a + b),
{
}

/// Summary composition is associative: `(a · b) · c` and `a · (b · c)` carry the
/// same text, hence the same count.
pub proof fn lemma_compose_associative(
    sa: Summary,
    sb: Summary,
    sc: Summary,
    sab: Summary,
    sbc: Summary,
    left: Summary,
    right: Summary,
)
    requires
        sab.text() == sa.text() + sb.text(),
        sbc.text() == sb.text() + sc.text(),
        left.wf(),
        left.text() == sab.text() + sc.text(),
        right.wf(),
        right.text() == sa.text() + sbc.text(),
    ensures
        left.text() == right.text(),
        left.count_spec() == right.count_spec(),
{
    assert(sa.text() + sb.text() + sc.text() =~= sa.text() + (sb.text() + sc.text()));
}

} // verus!
