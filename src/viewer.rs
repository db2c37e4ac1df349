//! The decisions of the two interactive screens: which window the
//! statistics screen shows after a key, and where the history browser goes.
//! The screens themselves read keys and draw; they hand the key here and
//! act on the answer.
use vstd::prelude::*;

use crate::stats::Window;

verus! {

/// A key, as far as the statistics screen tells keys apart.
#[derive(Debug, Clone, Copy, PartialEq, Eq)]
pub enum StatsKey {
    /// Left arrow or `h`: one week further back.
    Back,
    /// Right arrow or `l`: one week forward, then the whole history.
    Forward,
    /// Esc, `q` or Ctrl-C.
    Quit,
    Other,
}

/// The window after `key`; `None` to leave the screen. From the whole
/// history, going back shows the current week.
pub fn next_window(w: Window, key: StatsKey) -> (r: Option<Window>)
    ensures
        key == StatsKey::Quit ==> r is None,
        key == StatsKey::Other ==> r == Some(w),
        key == StatsKey::Back ==> r == Some(
            match w {
                Window::Lifetime => Window::Week(0),
                Window::Week(k) => Window::Week(if k < u32::MAX {
                    (k + 1) as u32
                } else {
                    k
                }),
            },
        ),
        key == StatsKey::Forward ==> r == Some(
            match w {
                Window::Lifetime => Window::Lifetime,
                Window::Week(k) => if k == 0 {
                    Window::Lifetime
                } else {
                    Window::Week((k - 1) as u32)
                },
            },
        ),
{
    match key {
        StatsKey::Quit => None,
        StatsKey::Other => Some(w),
        StatsKey::Back => match w {
            Window::Lifetime => Some(Window::Week(0)),
            Window::Week(k) => Some(Window::Week(if k < u32::MAX {
                k + 1
            } else {
                k
            })),
        },
        StatsKey::Forward => match w {
            Window::Lifetime => Some(Window::Lifetime),
            Window::Week(k) => if k == 0 {
                Some(Window::Lifetime)
            } else {
                Some(Window::Week(k - 1))
            },
        },
    }
}

/// A key, as far as the history browser tells keys apart.
#[derive(Debug, Clone, Copy, PartialEq, Eq)]
pub enum BrowseKey {
    /// Up arrow or `k`: the entry before.
    Up,
    /// Down arrow or `j`: the entry after.
    Down,
    /// Enter or `l`: open the selected entry.
    Open,
    /// `q` or Esc: close the detail, or leave the list.
    Close,
    /// Ctrl-C, or `c` then Ctrl-C in the detail.
    Quit,
    Other,
}

/// Where the history browser stands: the selected line of the list, and
/// the entry shown in detail, if any.
#[derive(Debug, Clone, Copy, PartialEq, Eq)]
pub struct BrowseState {
    pub selected: usize,
    pub detail: Option<usize>,
}

impl BrowseState {
    /// Whether the state points into a history of `n` entries.
    pub open spec fn fits(self, n: nat) -> bool {
        &&& (n == 0 ==> self.selected == 0)
        &&& (n > 0 ==> self.selected < n)
        &&& (self.detail matches Some(d) ==> d < n)
    }
}

/// The first state for `n` entries: the last (most recent) entry selected
/// and shown in detail; the list when there is none.
pub fn browse_start(n: usize) -> (r: BrowseState)
    ensures
        r.fits(n as nat),
        n == 0 ==> r == (BrowseState { selected: 0, detail: None }),
        n > 0 ==> r == (BrowseState { selected: (n - 1) as usize, detail: Some((n - 1) as usize) }),
{
    if n == 0 {
        BrowseState { selected: 0, detail: None }
    } else {
        BrowseState { selected: n - 1, detail: Some(n - 1) }
    }
}

/// The state after `key` in a history of `n` entries; `None` to leave.
/// In the detail, up and down move to the neighbouring entry and close
/// returns to the list; in the list, up and down move the selection and
/// open shows the selected entry.
pub fn browse_step(s: BrowseState, n: usize, key: BrowseKey) -> (r: Option<BrowseState>)
    requires
        s.fits(n as nat),
    ensures
        r matches Some(t) ==> t.fits(n as nat),
        key == BrowseKey::Quit ==> r is None,
        key == BrowseKey::Other ==> r == Some(s),
        s.detail matches Some(d) ==> {
            &&& key == BrowseKey::Close ==> r == Some(BrowseState { detail: None, ..s })
            &&& key == BrowseKey::Up ==> r == Some(
                BrowseState { detail: Some(if d > 0 { (d - 1) as usize } else { d }), ..s },
            )
            &&& key == BrowseKey::Down ==> r == Some(
                BrowseState { detail: Some(if d + 1 < n { (d + 1) as usize } else { d }), ..s },
            )
            &&& key == BrowseKey::Open ==> r == Some(s)
        },
        s.detail is None ==> {
            &&& key == BrowseKey::Close ==> r is None
            &&& key == BrowseKey::Up ==> r == Some(
                BrowseState { selected: if s.selected > 0 { (s.selected - 1) as usize } else { 0 }, ..s },
            )
            &&& key == BrowseKey::Down ==> r == Some(
                BrowseState { selected: if s.selected + 1 < n { (s.selected + 1) as usize } else { s.selected }, ..s },
            )
            &&& key == BrowseKey::Open ==> r == Some(
                if n > 0 { BrowseState { detail: Some(s.selected), ..s } } else { s },
            )
        },
{
    match key {
        BrowseKey::Quit => None,
        BrowseKey::Other => Some(s),
        _ => match s.detail {
            Some(d) => match key {
                BrowseKey::Close => Some(BrowseState { detail: None, ..s }),
                BrowseKey::Up => Some(BrowseState { detail: Some(if d > 0 { d - 1 } else { d }), ..s }),
                BrowseKey::Down => Some(BrowseState { detail: Some(if d + 1 < n { d + 1 } else { d }), ..s }),
                _ => Some(s),
            },
            None => match key {
                BrowseKey::Close => None,
                BrowseKey::Up => Some(BrowseState { selected: if s.selected > 0 { s.selected - 1 } else { 0 }, ..s }),
                BrowseKey::Down => Some(BrowseState {
                    selected: if s.selected + 1 < n { s.selected + 1 } else { s.selected },
                    ..s
                }),
                _ => if n > 0 {
                    Some(BrowseState { detail: Some(s.selected), ..s })
                } else {
                    Some(s)
                },
            },
        },
    }
}

/// The lines of the list that the browser shows around `selected`: up to
/// ten entries, starting five before the selection where there are five.
pub fn list_window(selected: usize, n: usize) -> (r: (usize, usize))
    ensures
        r.0 == if selected >= 5 { selected - 5 } else { 0 },
        r.1 == if r.0 + 10 <= n { r.0 + 10 } else { n as int },
{
    let start = if selected >= 5 { selected - 5 } else { 0 };
    let end = if start <= n && 10 <= n - start { start + 10 } else { n };
    (start, end)
}

} // verus!
