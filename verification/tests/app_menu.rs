use codex_switcher::app_menu::{
    display_mode_change, tray_display_menu_items, tray_display_mode_for_item, TrayDisplayMode,
};

#[test]
fn display_mode_items_are_recognised() {
    assert_eq!(
        tray_display_mode_for_item("tray-display-icon-and-session"),
        Some(TrayDisplayMode::IconAndSession)
    );
    assert_eq!(
        tray_display_mode_for_item("tray-display-active-usage-text"),
        Some(TrayDisplayMode::ActiveUsageText)
    );
    assert_eq!(tray_display_mode_for_item("tray-display-hidden"), Some(TrayDisplayMode::Hidden));
    assert_eq!(tray_display_mode_for_item("tray-display"), None);
    assert_eq!(tray_display_mode_for_item("quit"), None);
}

#[test]
fn choosing_the_current_mode_changes_nothing() {
    assert_eq!(display_mode_change(TrayDisplayMode::Hidden, "tray-display-hidden"), None);
    assert_eq!(
        display_mode_change(TrayDisplayMode::Hidden, "tray-display-icon-and-session"),
        Some(TrayDisplayMode::IconAndSession)
    );
    assert_eq!(display_mode_change(TrayDisplayMode::Hidden, "other"), None);
}

#[test]
fn exactly_the_current_mode_is_checked() {
    for current in [
        TrayDisplayMode::IconAndSession,
        TrayDisplayMode::ActiveUsageText,
        TrayDisplayMode::Hidden,
    ] {
        let items = tray_display_menu_items(current);
        assert_eq!(items.len(), 3);
        assert_eq!(items[0].label, "Icon + Session");
        assert_eq!(items[1].label, "Hourly + Weekly");
        assert_eq!(items[2].label, "Hidden");
        for item in &items {
            assert_eq!(item.checked, item.mode == current);
            assert_eq!(tray_display_mode_for_item(item.id), Some(item.mode));
        }
    }
}
