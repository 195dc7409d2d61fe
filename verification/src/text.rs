//! The boundary between character sequences and Rust strings: grapheme
//! segmentation and string building.

use vstd::prelude::*;
use unicode_segmentation::UnicodeSegmentation;
use crate::table::clusters_wf;
use crate::encode::concat_glyphs;

verus! {

/// The extended grapheme clusters of a character sequence, in order.
pub uninterp spec fn graphemes_of(s: Seq<char>) -> Seq<Seq<char>>;

/// Relies on unicode_segmentation::UnicodeSegmentation::graphemes, the
/// extended grapheme cluster segmentation of UAX #29: the result depends on
/// the characters alone, and, because a combining mark never begins a
/// cluster and a following combining mark never ends one (rule GB9), a
/// string assembled from base-letter-plus-marks clusters segments back into
/// exactly those clusters.
#[verifier::external_body]
pub(crate) fn split_graphemes(s: &str) -> (r: Vec<Vec<char>>)
    ensures
        r.deep_view() == graphemes_of(s@),
        forall|gs: Seq<Seq<char>>|
            clusters_wf(gs) && s@ == concat_glyphs(gs) ==> r.deep_view() == gs,
{
    s.graphemes(true).map(|g| g.chars().collect()).collect()
}

/// Relies on str's FromIterator impl, through Iterator::collect: the
/// characters are gathered into a string unchanged and in order.
#[verifier::external_body]
pub(crate) fn chars_to_string(v: &Vec<char>) -> (r: String)
    ensures
        r@ == v@,
{
    v.iter().collect()
}

} // verus!
