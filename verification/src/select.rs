use vstd::prelude::*;

use crate::parse::LineRange;

verus! {

/// The 0-based start of the window a `LineRange` selects, if bounded.
pub open spec fn range_start(r: LineRange) -> Option<int> {
    match r {
        LineRange::Range(a, _) => Some(a as int),
        LineRange::RangeFrom(a) => Some(a as int),
        LineRange::RangeTo(_) => None,
        LineRange::RangeFull => None,
    }
}

/// The exclusive end of the window a `LineRange` selects, if bounded.
pub open spec fn range_end(r: LineRange) -> Option<int> {
    match r {
        LineRange::Range(_, b) => Some(b as int),
        LineRange::RangeFrom(_) => None,
        LineRange::RangeTo(b) => Some(b as int),
        LineRange::RangeFull => None,
    }
}

/// What `mdbook::utils::take_lines` returns for the given text (read lossily
/// as UTF-8) and line window.  It is a function of its arguments alone.
pub uninterp spec fn selected_lines(text: Seq<u8>, start: Option<int>, end: Option<int>) -> Seq<
    u8,
>;

/// What `mdbook::utils::take_anchored_lines` returns for the given text and
/// anchor name.  It is a function of its arguments alone.
pub uninterp spec fn anchored_region(text: Seq<u8>, anchor: Seq<u8>) -> Seq<u8>;

/// Relies on `mdbook::utils::take_lines`: the lines of the text that fall in
/// the window, joined again with single newlines.  It never fails, whatever
/// the window.
#[verifier::external_body]
pub fn take_lines_w(text: &[u8], range: &LineRange) -> (r: Vec<u8>)
    ensures
        r@ == selected_lines(text@, range_start(*range), range_end(*range)),
{
    let s = String::from_utf8_lossy(text);
    let out = match range {
        LineRange::Range(a, b) => mdbook::utils::take_lines(&s, *a..*b),
        LineRange::RangeFrom(a) => mdbook::utils::take_lines(&s, *a..),
        LineRange::RangeTo(b) => mdbook::utils::take_lines(&s, ..*b),
        LineRange::RangeFull => mdbook::utils::take_lines(&s, ..),
    };
    out.into_bytes()
}

/// Relies on `mdbook::utils::take_anchored_lines`: the lines between the
/// matching anchor markers, the markers themselves left out; empty when the
/// anchor does not occur.  It never fails.
#[verifier::external_body]
pub fn take_anchored_lines_w(text: &[u8], anchor: &[u8]) -> (r: Vec<u8>)
    ensures
        r@ == anchored_region(text@, anchor@),
{
    let s = String::from_utf8_lossy(text);
    let a = String::from_utf8_lossy(anchor);
    mdbook::utils::take_anchored_lines(&s, &a).into_bytes()
}

} // verus!
