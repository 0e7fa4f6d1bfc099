//! Rendering decisions for the display model.

use vstd::prelude::*;

verus! {

/// The text size a line is shown in.
#[derive(Clone, Copy, Debug, PartialEq, Eq, Structural)]
pub enum HeadingScale {
    /// Headings of level 1 and 2.
    Largest,
    /// Headings of level 3 and 4.
    Larger,
    /// Headings of level 5 and 6.
    Large,
    /// Everything else.
    Normal,
}

pub open spec fn heading_scale_spec(level: Option<u8>) -> HeadingScale {
    match level {
        Some(l) => if l == 1 || l == 2 {
            HeadingScale::Largest
        } else if l == 3 || l == 4 {
            HeadingScale::Larger
        } else if l == 5 || l == 6 {
            HeadingScale::Large
        } else {
            HeadingScale::Normal
        },
        None => HeadingScale::Normal,
    }
}

/// How large a text size is, from `Normal` (0) up to `Largest` (3).
pub open spec fn scale_rank(scale: HeadingScale) -> int {
    match scale {
        HeadingScale::Largest => 3,
        HeadingScale::Larger => 2,
        HeadingScale::Large => 1,
        HeadingScale::Normal => 0,
    }
}

/// Headings of levels 1 to 6, and only they, are shown larger than normal
/// text; a deeper heading is never shown larger than a shallower one;
/// levels 1 and 2, 3 and 4, 5 and 6 share a size, and each pair is shown
/// smaller than the pair before it.
pub proof fn lemma_heading_sizes(a: u8, b: u8)
    ensures
        heading_scale_spec(None) == HeadingScale::Normal,
        (1 <= a <= 6) <==> heading_scale_spec(Some(a)) != HeadingScale::Normal,
        1 <= a < b <= 6 ==> scale_rank(heading_scale_spec(Some(a))) >= scale_rank(
            heading_scale_spec(Some(b)),
        ),
        1 <= a <= 5 && a % 2 == 1 ==> heading_scale_spec(Some(a)) == heading_scale_spec(
            Some((a + 1) as u8),
        ),
        2 <= a <= 5 && a % 2 == 0 ==> scale_rank(heading_scale_spec(Some(a))) > scale_rank(
            heading_scale_spec(Some((a + 1) as u8)),
        ),
{
}

/// The text size of a line with the given heading level; every size but
/// `Normal` is shown in bold.
pub fn heading_scale(level: Option<u8>) -> (scale: HeadingScale)
    ensures
        scale == heading_scale_spec(level),
{
    match level {
        Some(1) | Some(2) => HeadingScale::Largest,
        Some(3) | Some(4) => HeadingScale::Larger,
        Some(5) | Some(6) => HeadingScale::Large,
        _ => HeadingScale::Normal,
    }
}

} // verus!
