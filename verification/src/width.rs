//! Display-cell width of characters, as used for wrapping and padding.
//!
//! Widths come from the `unicode-width` crate; the pipeline only relies on a
//! named width function plus the few facts about it that the crate's tables
//! plainly give (printable ASCII is one cell, control characters are zero).
use vstd::prelude::*;

verus! {

/// The number of terminal cells that `c` occupies, with control characters
/// counted as zero cells.
pub uninterp spec fn width_of(c: char) -> nat;

/// Relies on `unicode_width::UnicodeWidthChar::width`: the displayed width of a
/// character in columns, `None` for a control character (mapped to zero here).
/// Its tables give width 1 for every printable ASCII character and `None`
/// exactly for U+0000..U+0020, U+007F..U+00A0.
#[verifier::external_body]
pub fn cell_width(c: char) -> (w: usize)
    ensures
        w == width_of(c),
        ' ' <= c <= '~' ==> w == 1,
        (c as u32) < 0x20 ==> w == 0,
        0x7F <= (c as u32) < 0xA0 ==> w == 0,
        w <= 3,
{
    unicode_width::UnicodeWidthChar::width(c).unwrap_or(0)
}

} // verus!
