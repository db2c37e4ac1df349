//! Placement of text on the screen: the top border of a titled box, and
//! text shortened to fit a column.
use vstd::prelude::*;
use vstd::string::*;

use unicode_width::UnicodeWidthStr;

use crate::text::{chars_of, text_of};

verus! {

/// The number of terminal columns that the text `s` takes.
pub uninterp spec fn text_width(s: Seq<char>) -> nat;

/// Relies on unicode-width's `UnicodeWidthStr::width`: the displayed width
/// of a string in columns, which depends on its characters alone.
#[verifier::external_body]
fn display_width(s: &str) -> (r: usize)
    ensures
        r == text_width(s@),
{
    s.width()
}

/// The top border of a box `width` columns wide (at least 4): border
/// lengths left and right of the title, and the title text, padded with a
/// space on each side.
#[derive(Debug, Clone)]
pub struct BoxTop {
    pub width: usize,
    pub left: usize,
    pub title: Option<String>,
    pub right: usize,
}

/// Where a title `title_width` columns wide goes in the top border of a box
/// `width` columns wide: the border lengths left and right of it, centred
/// with any odd column on the right; `None` when it does not fit between
/// the corners.
pub fn title_layout(width: usize, title_width: usize) -> (r: Option<(usize, usize)>)
    requires
        width >= 4,
    ensures
        title_width < width - 2 ==> r == Some((
            ((width - 2 - title_width) / 2) as usize,
            (width - 2 - title_width - (width - 2 - title_width) / 2) as usize,
        )),
        title_width >= width - 2 ==> r is None,
{
    let remaining = width - 2;
    if title_width < remaining {
        let left = (remaining - title_width) / 2;
        Some((left, remaining - left - title_width))
    } else {
        None
    }
}

/// The top border of a box `width` columns wide with an optional title.
pub fn box_top(width: u16, title: Option<&str>) -> (r: BoxTop)
    ensures
        r.width == if width < 4 { 4 } else { width as int },
        match title {
            Some(t) => {
                let shown = " "@ + t@ + " "@;
                if text_width(shown) < r.width - 2 {
                    &&& r.title matches Some(s) && s@ == shown
                    &&& r.left == (r.width - 2 - text_width(shown)) / 2
                    &&& r.right == r.width - 2 - text_width(shown) - r.left
                } else {
                    r.title is None && r.left == r.width - 2 && r.right == 0
                }
            },
            None => r.title is None && r.left == r.width - 2 && r.right == 0,
        },
{
    let w: usize = if width < 4 { 4 } else { width as usize };
    match title {
        Some(t) => {
            let mut shown = " ".to_owned();
            shown.append(t);
            shown.append(" ");
            let tw = display_width(shown.as_str());
            match title_layout(w, tw) {
                Some((left, right)) => BoxTop { width: w, left, title: Some(shown), right },
                None => BoxTop { width: w, left: w - 2, title: None, right: 0 },
            }
        },
        None => BoxTop { width: w, left: w - 2, title: None, right: 0 },
    }
}

/// `s` as it fits in `limit` characters: unchanged when it does, else its
/// first `keep` characters followed by `...`.
pub fn shorten(s: &str, limit: usize, keep: usize) -> (r: String)
    requires
        keep <= limit,
    ensures
        s@.len() <= limit ==> r@ == s@,
        s@.len() > limit ==> r@ == s@.take(keep as int) + "..."@,
{
    let cs = chars_of(s);
    if cs.len() <= limit {
        s.to_owned()
    } else {
        let mut r = text_of(s, 0, keep);
        assert(s@.subrange(0, keep as int) =~= s@.take(keep as int));
        r.append("...");
        r
    }
}

} // verus!
