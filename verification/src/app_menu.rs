//! The "Tray" submenu of the application menu, which chooses how the tray icon shows.
use vstd::prelude::*;

use crate::text::{chars_of, equals_str};

verus! {

/// How the tray shows the current session.
#[derive(PartialEq, Eq, Structural, Clone, Copy, Debug)]
pub enum TrayDisplayMode {
    IconAndSession,
    ActiveUsageText,
    Hidden,
}

/// Menu item id of each display mode.
pub const TRAY_ICON_AND_SESSION_ID: &'static str = "tray-display-icon-and-session";
pub const TRAY_ACTIVE_USAGE_TEXT_ID: &'static str = "tray-display-active-usage-text";
pub const TRAY_HIDDEN_ID: &'static str = "tray-display-hidden";

/// The menu item id of `mode`.
pub open spec fn mode_item_id(mode: TrayDisplayMode) -> Seq<char> {
    match mode {
        TrayDisplayMode::IconAndSession => "tray-display-icon-and-session"@,
        TrayDisplayMode::ActiveUsageText => "tray-display-active-usage-text"@,
        TrayDisplayMode::Hidden => "tray-display-hidden"@,
    }
}

/// The display mode whose item has the id `item_id`.
pub open spec fn mode_of_item(item_id: Seq<char>) -> Option<TrayDisplayMode> {
    if item_id == "tray-display-icon-and-session"@ {
        Some(TrayDisplayMode::IconAndSession)
    } else if item_id == "tray-display-active-usage-text"@ {
        Some(TrayDisplayMode::ActiveUsageText)
    } else if item_id == "tray-display-hidden"@ {
        Some(TrayDisplayMode::Hidden)
    } else {
        None
    }
}

/// The display mode that the menu item `item_id` selects, if it is one of the three.
pub fn tray_display_mode_for_item(item_id: &str) -> (r: Option<TrayDisplayMode>)
    ensures
        r == mode_of_item(item_id@),
{
    let chars = chars_of(item_id);
    if equals_str(&chars, TRAY_ICON_AND_SESSION_ID) {
        Some(TrayDisplayMode::IconAndSession)
    } else if equals_str(&chars, TRAY_ACTIVE_USAGE_TEXT_ID) {
        Some(TrayDisplayMode::ActiveUsageText)
    } else if equals_str(&chars, TRAY_HIDDEN_ID) {
        Some(TrayDisplayMode::Hidden)
    } else {
        None
    }
}

/// The new display mode after a click on `item_id` while `current` is set: `None` when
/// the item is not a display mode or names the current one (nothing to save).
pub fn display_mode_change(current: TrayDisplayMode, item_id: &str) -> (r: Option<TrayDisplayMode>)
    ensures
        r == (match mode_of_item(item_id@) {
            Some(mode) => if mode == current { None } else { Some(mode) },
            None => None,
        }),
{
    match tray_display_mode_for_item(item_id) {
        Some(mode) => if mode == current {
            None
        } else {
            Some(mode)
        },
        None => None,
    }
}

/// A check item of the "Tray" submenu.
pub struct DisplayModeItem {
    pub id: &'static str,
    pub label: &'static str,
    pub mode: TrayDisplayMode,
    pub checked: bool,
}

/// The three items of the "Tray" submenu, in order, with the current mode checked.
pub fn tray_display_menu_items(current: TrayDisplayMode) -> (items: Vec<DisplayModeItem>)
    ensures
        items@.len() == 3,
        items@[0].mode == TrayDisplayMode::IconAndSession,
        items@[1].mode == TrayDisplayMode::ActiveUsageText,
        items@[2].mode == TrayDisplayMode::Hidden,
        items@[0].label@ == "Icon + Session"@,
        items@[1].label@ == "Hourly + Weekly"@,
        items@[2].label@ == "Hidden"@,
        forall|i: int|
            0 <= i < 3 ==> (#[trigger] items@[i]).id@ == mode_item_id(items@[i].mode) && items@[i].checked
                == (items@[i].mode == current),
{
    let mut items: Vec<DisplayModeItem> = Vec::new();
    items.push(
        DisplayModeItem {
            id: TRAY_ICON_AND_SESSION_ID,
            label: "Icon + Session",
            mode: TrayDisplayMode::IconAndSession,
            checked: current == TrayDisplayMode::IconAndSession,
        },
    );
    items.push(
        DisplayModeItem {
            id: TRAY_ACTIVE_USAGE_TEXT_ID,
            label: "Hourly + Weekly",
            mode: TrayDisplayMode::ActiveUsageText,
            checked: current == TrayDisplayMode::ActiveUsageText,
        },
    );
    items.push(
        DisplayModeItem {
            id: TRAY_HIDDEN_ID,
            label: "Hidden",
            mode: TrayDisplayMode::Hidden,
            checked: current == TrayDisplayMode::Hidden,
        },
    );
    items
}

/// Each display-mode item selects its own mode: reading back the id of the item of
/// `mode` gives `mode`.
pub proof fn mode_item_round_trip(mode: TrayDisplayMode)
    ensures
        mode_of_item(mode_item_id(mode)) == Some(mode),
{
    reveal_strlit("tray-display-icon-and-session");
    reveal_strlit("tray-display-active-usage-text");
    reveal_strlit("tray-display-hidden");
    assert("tray-display-icon-and-session"@.len() != "tray-display-active-usage-text"@.len());
    assert("tray-display-icon-and-session"@.len() != "tray-display-hidden"@.len());
    assert("tray-display-active-usage-text"@.len() != "tray-display-hidden"@.len());
}

} // verus!
