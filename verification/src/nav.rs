//! Selection arithmetic for the three scrollable lists: moving one row with
//! wrap-around, paging, and keeping the selection valid after a removal. An
//! empty list never changes the selection.

use vstd::prelude::*;

verus! {

/// How many rows one page jump moves.
pub const PAGE_SIZE: usize = 10;

/// The three screens, cycled through in this order.
#[derive(Clone, Copy, PartialEq, Eq, Structural, Debug)]
pub enum Tab {
    Browser,
    Downloads,
    History,
}

pub open spec fn next_tab_spec(t: Tab) -> Tab {
    match t {
        Tab::Browser => Tab::Downloads,
        Tab::Downloads => Tab::History,
        Tab::History => Tab::Browser,
    }
}

pub open spec fn prev_tab_spec(t: Tab) -> Tab {
    match t {
        Tab::Browser => Tab::History,
        Tab::Downloads => Tab::Browser,
        Tab::History => Tab::Downloads,
    }
}

/// The tab one step forward: browser, downloads, history, and around.
pub fn next_tab(t: Tab) -> (r: Tab)
    ensures
        r == next_tab_spec(t),
{
    match t {
        Tab::Browser => Tab::Downloads,
        Tab::Downloads => Tab::History,
        Tab::History => Tab::Browser,
    }
}

/// The tab one step back, inverse of `next_tab`.
pub fn prev_tab(t: Tab) -> (r: Tab)
    ensures
        r == prev_tab_spec(t),
{
    match t {
        Tab::Browser => Tab::History,
        Tab::Downloads => Tab::Browser,
        Tab::History => Tab::Downloads,
    }
}

/// Going forward and then back across the tab bar is the identity.
pub proof fn lemma_tab_cycle(t: Tab)
    ensures
        prev_tab_spec(next_tab_spec(t)) == t,
        next_tab_spec(prev_tab_spec(t)) == t,
{
}

/// Selection after moving one row down, wrapping from the last row to the
/// first.
pub fn next_index(selected: Option<usize>, len: usize) -> (r: Option<usize>)
    ensures
        len == 0 ==> r == selected,
        len > 0 ==> r == Some(
            (match selected {
                Some(i) => if i >= len - 1 {
                    0usize
                } else {
                    (i + 1) as usize
                },
                None => 0usize,
            }),
        ),
{
    if len == 0 {
        return selected;
    }
    match selected {
        Some(i) => {
            if i >= len - 1 {
                Some(0)
            } else {
                Some(i + 1)
            }
        },
        None => Some(0),
    }
}

/// Selection after moving one row up, wrapping from the first row to the
/// last.
pub fn previous_index(selected: Option<usize>, len: usize) -> (r: Option<usize>)
    ensures
        len == 0 ==> r == selected,
        len > 0 ==> r == Some(
            (match selected {
                Some(i) => if i == 0 {
                    (len - 1) as usize
                } else {
                    (i - 1) as usize
                },
                None => 0usize,
            }),
        ),
{
    if len == 0 {
        return selected;
    }
    match selected {
        Some(i) => {
            if i == 0 {
                Some(len - 1)
            } else {
                Some(i - 1)
            }
        },
        None => Some(0),
    }
}

/// Selection after one page up: the current row minus the page size,
/// stopping at the top.
pub fn page_up_index(selected: Option<usize>, len: usize) -> (r: Option<usize>)
    ensures
        len == 0 ==> r == selected,
        len > 0 ==> r == Some(
            ({
                let cur = (match selected {
                    Some(i) => i,
                    None => 0usize,
                });
                if cur >= PAGE_SIZE {
                    (cur - PAGE_SIZE) as usize
                } else {
                    0usize
                }
            }),
        ),
{
    if len == 0 {
        return selected;
    }
    let cur = (match selected {
        Some(i) => i,
        None => 0,
    });
    if cur >= PAGE_SIZE {
        Some(cur - PAGE_SIZE)
    } else {
        Some(0)
    }
}

/// Selection after one page down: the current row plus the page size,
/// stopping at the last row.
pub fn page_down_index(selected: Option<usize>, len: usize) -> (r: Option<usize>)
    ensures
        len == 0 ==> r == selected,
        len > 0 ==> r == Some(
            ({
                let cur = (match selected {
                    Some(i) => i,
                    None => 0usize,
                });
                if cur + PAGE_SIZE < len {
                    (cur + PAGE_SIZE) as usize
                } else {
                    (len - 1) as usize
                }
            }),
        ),
{
    if len == 0 {
        return selected;
    }
    let cur = (match selected {
        Some(i) => i,
        None => 0,
    });
    if len - 1 >= cur && len - 1 - cur > PAGE_SIZE {
        Some(cur + PAGE_SIZE)
    } else {
        Some(len - 1)
    }
}

/// Selection after the row at `idx` was removed and `new_len` rows remain:
/// nothing to select in an empty list, the last row when the selection fell
/// off the end, the same index otherwise.
pub fn selection_after_remove(idx: usize, new_len: usize) -> (r: Option<usize>)
    ensures
        new_len == 0 ==> r is None,
        new_len > 0 && idx >= new_len ==> r == Some((new_len - 1) as usize),
        new_len > 0 && idx < new_len ==> r == Some(idx),
{
    if new_len == 0 {
        None
    } else if idx >= new_len {
        Some(new_len - 1)
    } else {
        Some(idx)
    }
}

} // verus!
