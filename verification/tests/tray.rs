use codex_switcher::tray::{
    account_click, account_menu_id, accounts_file_poll, menu_label, tray_item_text, switch_outcome_effects, tray_menu_action,
    tray_menu_entries, AccountClick, TrayAccount, TrayEffect, TrayMenuAction, TrayMenuEntry,
};

#[test]
fn account_ids_are_namespaced_for_tray_events() {
    assert_eq!(account_menu_id("abc-123"), "account:abc-123");
}

#[test]
fn menu_labels_escape_mnemonic_markers() {
    assert_eq!(
        menu_label("Research & Development"),
        "Research && Development"
    );
}

#[test]
fn menu_labels_without_markers_are_unchanged() {
    assert_eq!(menu_label("Personal"), "Personal");
    assert_eq!(menu_label(""), "");
}

#[test]
fn menu_labels_double_every_marker() {
    assert_eq!(menu_label("&A&&B&"), "&&A&&&&B&&");
    assert_eq!(menu_label("ünï & cödé"), "ünï && cödé");
}

#[test]
fn open_and_quit_items_are_recognised() {
    assert!(matches!(tray_menu_action("open"), TrayMenuAction::ShowMainWindow));
    assert!(matches!(tray_menu_action("quit"), TrayMenuAction::Quit));
    assert!(matches!(tray_menu_action("empty"), TrayMenuAction::Ignore));
    assert!(matches!(tray_menu_action("accoun"), TrayMenuAction::Ignore));
    assert!(matches!(tray_menu_action("Open"), TrayMenuAction::Ignore));
}

#[test]
fn account_item_ids_read_back_as_the_account() {
    for id in ["abc-123", "", "open", "account:nested", "ünïcödé"] {
        match tray_menu_action(&account_menu_id(id)) {
            TrayMenuAction::SelectAccount(got) => assert_eq!(got, id),
            _ => panic!("account item not recognised"),
        }
    }
}

#[test]
fn empty_store_shows_placeholder() {
    let entries = tray_menu_entries(&Vec::new(), None);
    assert_eq!(entries.len(), 4);
    assert!(matches!(entries[0], TrayMenuEntry::NoAccounts));
    assert!(matches!(entries[1], TrayMenuEntry::Separator));
    assert!(matches!(entries[2], TrayMenuEntry::Open));
    assert!(matches!(entries[3], TrayMenuEntry::Quit));
}

#[test]
fn accounts_are_listed_with_the_active_one_checked() {
    let accounts = vec![
        TrayAccount { id: "a1".to_string(), name: "Work & Play".to_string() },
        TrayAccount { id: "a2".to_string(), name: "Home".to_string() },
    ];
    let entries = tray_menu_entries(&accounts, Some("a2"));
    assert_eq!(entries.len(), 5);
    match &entries[0] {
        TrayMenuEntry::Account { id, label, checked } => {
            assert_eq!(id, "account:a1");
            assert_eq!(label, "Work && Play");
            assert!(!checked);
        }
        _ => panic!("expected an account entry"),
    }
    match &entries[1] {
        TrayMenuEntry::Account { id, label, checked } => {
            assert_eq!(id, "account:a2");
            assert_eq!(label, "Home");
            assert!(*checked);
        }
        _ => panic!("expected an account entry"),
    }
    assert!(matches!(entries[2], TrayMenuEntry::Separator));
    assert!(matches!(entries[3], TrayMenuEntry::Open));
    assert!(matches!(entries[4], TrayMenuEntry::Quit));
    let none_active = tray_menu_entries(&accounts, None);
    for entry in &none_active[..2] {
        match entry {
            TrayMenuEntry::Account { checked, .. } => assert!(!checked),
            _ => panic!("expected an account entry"),
        }
    }
}

#[test]
fn clicking_the_active_account_only_refreshes() {
    assert!(matches!(account_click(Some("a1"), "a1"), AccountClick::RefreshOnly));
    assert!(matches!(account_click(Some("a1"), "a2"), AccountClick::Switch));
    assert!(matches!(account_click(None, "a1"), AccountClick::Switch));
}

#[test]
fn switch_outcomes_lead_to_the_right_steps() {
    let ok = switch_outcome_effects(true, false);
    assert_eq!(ok.len(), 2);
    assert!(matches!(ok[0], TrayEffect::RefreshMenu));
    assert!(matches!(ok[1], TrayEffect::EmitAccountsChanged));
    let blocked = switch_outcome_effects(false, true);
    assert_eq!(blocked.len(), 3);
    assert!(matches!(blocked[0], TrayEffect::RefreshMenu));
    assert!(matches!(blocked[1], TrayEffect::ShowMainWindow));
    assert!(matches!(blocked[2], TrayEffect::EmitSwitchBlocked));
    let failed = switch_outcome_effects(false, false);
    assert_eq!(failed.len(), 1);
    assert!(matches!(failed[0], TrayEffect::RefreshMenu));
}

#[test]
fn menu_labels_read_back_and_grow_by_one_per_marker() {
    for label in ["Research & Development", "&A&&B&", "&&&", "plain", ""] {
        let escaped = menu_label(label);
        assert_eq!(escaped.replace("&&", "&"), label);
        assert_eq!(escaped.chars().count(), label.chars().count() + label.matches('&').count());
        let mut run = 0;
        for c in escaped.chars().chain(std::iter::once(' ')) {
            if c == '&' {
                run += 1;
            } else {
                assert_eq!(run % 2, 0);
                run = 0;
            }
        }
    }
}

#[test]
fn tray_items_have_their_ids_labels_and_enabled_flags() {
    let empty = tray_item_text(&TrayMenuEntry::NoAccounts).unwrap();
    assert_eq!((empty.id.as_str(), empty.label.as_str(), empty.enabled), ("empty", "No accounts configured", false));
    let open = tray_item_text(&TrayMenuEntry::Open).unwrap();
    assert_eq!((open.id.as_str(), open.label.as_str(), open.enabled), ("open", "Open Codex Switcher", true));
    let quit = tray_item_text(&TrayMenuEntry::Quit).unwrap();
    assert_eq!((quit.id.as_str(), quit.label.as_str(), quit.enabled), ("quit", "Quit", true));
    assert!(tray_item_text(&TrayMenuEntry::Separator).is_none());
    let account = tray_item_text(&TrayMenuEntry::Account {
        id: "account:a1".to_string(),
        label: "R && D".to_string(),
        checked: true,
    })
    .unwrap();
    assert_eq!((account.id.as_str(), account.label.as_str(), account.enabled), ("account:a1", "R && D", true));
}

#[test]
fn accounts_file_changes_trigger_a_refresh() {
    assert_eq!(accounts_file_poll(Some(5), Some(5)), (Some(5), false));
    assert_eq!(accounts_file_poll(Some(5), Some(6)), (Some(6), true));
    assert_eq!(accounts_file_poll(None, Some(-3)), (Some(-3), true));
    assert_eq!(accounts_file_poll(Some(7), None), (None, true));
    assert_eq!(accounts_file_poll(None, None), (None, false));
}
