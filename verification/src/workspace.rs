//! The decisions of the tabbed workspace: which title the window shows,
//! when the tab bar replaces the header bar, and what closing a tab does.

use vstd::prelude::*;
use crate::text::push_str;

verus! {

/// The title shown when the selected tab has none.
pub open spec fn default_window_title() -> Seq<char> {
    "Terminal"@
}

/// The window title for the selected tab's title: that title, unless there
/// is no selected tab or its title is empty.
pub open spec fn window_title_for(selected_title: Option<Seq<char>>) -> Seq<char> {
    match selected_title {
        Some(t) => if t.len() > 0 {
            t
        } else {
            default_window_title()
        },
        None => default_window_title(),
    }
}

/// The window title for the selected tab's title.
pub fn window_title_for_tab(selected_title: Option<&str>) -> (title: String)
    ensures
        title@ == window_title_for(
            match selected_title {
                Some(t) => Some(t@),
                None => None,
            },
        ),
{
    let mut title = String::new();
    match selected_title {
        Some(t) => {
            if t.is_empty() {
                push_str(&mut title, "Terminal");
            } else {
                push_str(&mut title, t);
            }
        },
        None => push_str(&mut title, "Terminal"),
    }
    title
}

/// The tab bar takes the header's place once there is more than one tab.
pub fn shows_tab_bar(page_count: i32) -> (tabs: bool)
    ensures
        tabs == (page_count > 1),
{
    page_count > 1
}

/// The window closes once its last tab is gone.
pub fn closes_window(page_count: i32) -> (close: bool)
    ensures
        close == (page_count == 0),
{
    page_count == 0
}

/// What the close-tab action does.
#[derive(Debug, Clone, Copy, PartialEq, Eq, Structural)]
pub enum CloseTabAction {
    CloseActiveTab,
    CloseWindow,
}

/// Closing a tab closes the active tab while others remain, and the whole
/// window when it is the last one.
pub fn close_tab_action(tab_count: i32) -> (action: CloseTabAction)
    ensures
        action == (if tab_count > 1 {
            CloseTabAction::CloseActiveTab
        } else {
            CloseTabAction::CloseWindow
        }),
{
    if tab_count > 1 {
        CloseTabAction::CloseActiveTab
    } else {
        CloseTabAction::CloseWindow
    }
}

} // verus!
