//! The tray menu: item ids and labels, the entries it shows, and what a click on an
//! entry leads to.
use vstd::prelude::*;

use crate::text::{chars_of, equals_str, starts_with_str};

verus! {

/// Id prefix of the account items.
pub const ACCOUNT_ITEM_PREFIX: &'static str = "account:";
/// Id of the item that opens the main window.
pub const OPEN_ITEM_ID: &'static str = "open";
/// Id of the item that quits the app.
pub const QUIT_ITEM_ID: &'static str = "quit";
/// Id of the disabled item shown when there is no account.
pub const EMPTY_ITEM_ID: &'static str = "empty";

/// Prefix that namespaces account ids among the tray menu item ids.
pub open spec fn account_prefix() -> Seq<char> {
    "account:"@
}

/// The tray item id of an account.
pub open spec fn account_item_id(account_id: Seq<char>) -> Seq<char> {
    account_prefix() + account_id
}

/// The tray menu item id of the account `account_id`.
pub fn account_menu_id(account_id: &str) -> (id: String)
    ensures
        id@ == account_item_id(account_id@),
{
    let mut id = String::from_str(ACCOUNT_ITEM_PREFIX);
    id.append(account_id);
    id
}

/// `label` with every `&` doubled, so that menus show it instead of taking it as a
/// mnemonic marker.
pub open spec fn escape_mnemonics(label: Seq<char>) -> Seq<char>
    decreases label.len(),
{
    if label.len() == 0 {
        Seq::empty()
    } else if label.last() == '&' {
        escape_mnemonics(label.drop_last()) + seq!['&', '&']
    } else {
        escape_mnemonics(label.drop_last()).push(label.last())
    }
}

/// The menu label that shows `label` literally.
pub fn menu_label(label: &str) -> (r: String)
    ensures
        r@ == escape_mnemonics(label@),
{
    let chars = chars_of(label);
    let n = chars.len();
    let mut out = String::new();
    let mut start: usize = 0;
    let mut i: usize = 0;
    proof {
        reveal_strlit("&");
        assert(label@.take(0) =~= Seq::<char>::empty());
        assert(label@.subrange(0, 0) =~= Seq::<char>::empty());
    }
    while i < n
        invariant
            n == chars@.len(),
            chars@ == label@,
            start <= i <= n,
            out@ + label@.subrange(start as int, i as int) == escape_mnemonics(label@.take(i as int)),
        decreases n - i,
    {
        proof {
            assert(label@.take(i + 1).drop_last() =~= label@.take(i as int));
            assert(label@.take(i + 1).last() == label@[i as int]);
        }
        if chars[i] == '&' {
            let ghost out_before = out@;
            let ghost start_before = start;
            let piece = label.substring_char(start, i + 1);
            out.append(piece);
            out.append("&");
            start = i + 1;
            proof {
                reveal_strlit("&");
                assert(label@.subrange(start_before as int, i + 1) =~= label@.subrange(
                    start_before as int,
                    i as int,
                ).push('&'));
                assert(out@ =~= out_before + label@.subrange(start_before as int, i as int) + seq![
                    '&',
                    '&',
                ]);
                assert(label@.subrange(start as int, start as int) =~= Seq::<char>::empty());
                assert(out@ + label@.subrange(start as int, i + 1) =~= escape_mnemonics(
                    label@.take(i + 1),
                ));
            }
        } else {
            assert(label@.subrange(start as int, i + 1) =~= label@.subrange(start as int, i as int).push(
                label@[i as int],
            ));
        }
        i = i + 1;
    }
    let rest = label.substring_char(start, n);
    out.append(rest);
    assert(label@.take(n as int) =~= label@);
    out
}

/// The number of `&` in `s`.
pub open spec fn amp_count(s: Seq<char>) -> nat
    decreases s.len(),
{
    if s.len() == 0 {
        0
    } else {
        amp_count(s.drop_last()) + if s.last() == '&' {
            1nat
        } else {
            0nat
        }
    }
}

/// `s` with each `&&` read as one `&`, left to right without overlaps (what
/// `replace("&&", "&")` gives).
pub open spec fn unescape_mnemonics(s: Seq<char>) -> Seq<char>
    decreases s.len(),
{
    if s.len() >= 2 && s[0] == '&' && s[1] == '&' {
        seq!['&'] + unescape_mnemonics(s.skip(2))
    } else if s.len() >= 1 {
        seq![s[0]] + unescape_mnemonics(s.skip(1))
    } else {
        Seq::empty()
    }
}

/// The length of the run of `&` at the end of `s`.
pub open spec fn trailing_amps(s: Seq<char>) -> nat
    decreases s.len(),
{
    if s.len() > 0 && s.last() == '&' {
        trailing_amps(s.drop_last()) + 1
    } else {
        0
    }
}

/// Escaping distributes over concatenation.
proof fn lemma_escape_concat(a: Seq<char>, b: Seq<char>)
    ensures
        escape_mnemonics(a + b) == escape_mnemonics(a) + escape_mnemonics(b),
    decreases b.len(),
{
    if b.len() == 0 {
        assert(a + b =~= a);
        assert(escape_mnemonics(a) + escape_mnemonics(b) =~= escape_mnemonics(a));
    } else {
        lemma_escape_concat(a, b.drop_last());
        assert((a + b).drop_last() =~= a + b.drop_last());
        assert((a + b).last() == b.last());
        if b.last() == '&' {
            assert(escape_mnemonics(a) + escape_mnemonics(b) =~= escape_mnemonics(a) + escape_mnemonics(
                b.drop_last(),
            ) + seq!['&', '&']);
        } else {
            assert(escape_mnemonics(a) + escape_mnemonics(b) =~= (escape_mnemonics(a) + escape_mnemonics(
                b.drop_last(),
            )).push(b.last()));
        }
    }
}

proof fn lemma_unescape_escape(s: Seq<char>)
    ensures
        unescape_mnemonics(escape_mnemonics(s)) == s,
    decreases s.len(),
{
    if s.len() > 0 {
        let c = s[0];
        let rest = s.skip(1);
        assert(s =~= seq![c] + rest);
        lemma_escape_concat(seq![c], rest);
        lemma_unescape_escape(rest);
        let er = escape_mnemonics(rest);
        assert(seq![c].drop_last() =~= Seq::<char>::empty());
        assert(seq![c].last() == c);
        assert(escape_mnemonics(Seq::<char>::empty()) =~= Seq::<char>::empty());
        if c == '&' {
            assert(escape_mnemonics(seq![c]) =~= seq!['&', '&']);
            let t = seq!['&', '&'] + er;
            assert(t.skip(2) =~= er);
            assert(unescape_mnemonics(t) == seq!['&'] + unescape_mnemonics(er));
        } else {
            assert(escape_mnemonics(seq![c]) =~= seq![c]);
            let t = seq![c] + er;
            assert(t.skip(1) =~= er);
            assert(unescape_mnemonics(t) == seq![c] + unescape_mnemonics(er));
        }
        assert(seq![c] + rest =~= s);
    }
}

proof fn lemma_escape_len(s: Seq<char>)
    ensures
        escape_mnemonics(s).len() == s.len() + amp_count(s),
        !s.contains('&') ==> escape_mnemonics(s) == s,
    decreases s.len(),
{
    if s.len() > 0 {
        lemma_escape_len(s.drop_last());
        if !s.contains('&') {
            assert forall|i: int| 0 <= i < s.drop_last().len() implies s.drop_last()[i] != '&' by {
                assert(s[i] == s.drop_last()[i]);
            }
            assert(s.last() == s[s.len() - 1]);
            assert(escape_mnemonics(s) =~= s);
        }
    }
}

proof fn lemma_escape_runs_even(s: Seq<char>)
    ensures
        forall|j: int|
            0 <= j <= escape_mnemonics(s).len() && (j == escape_mnemonics(s).len() || escape_mnemonics(s)[j]
                != '&') ==> #[trigger] trailing_amps(escape_mnemonics(s).take(j)) % 2 == 0,
    decreases s.len(),
{
    let t = escape_mnemonics(s);
    if s.len() == 0 {
        assert forall|j: int| 0 <= j <= t.len() implies #[trigger] trailing_amps(t.take(j)) % 2 == 0 by {
            assert(t.take(j).len() == 0);
        }
    } else {
        let u = escape_mnemonics(s.drop_last());
        lemma_escape_runs_even(s.drop_last());
        let l = u.len() as int;
        assert(u.take(l) =~= u);
        assert forall|j: int|
            0 <= j <= t.len() && (j == t.len() || t[j] != '&') implies #[trigger] trailing_amps(t.take(j)) % 2
            == 0 by {
            if j < l {
                assert(t.take(j) =~= u.take(j));
                if s.last() == '&' {
                    assert(t =~= u + seq!['&', '&']);
                } else {
                    assert(t =~= u.push(s.last()));
                }
                assert(t[j] == u[j]);
                assert(trailing_amps(u.take(j)) % 2 == 0);
            } else if s.last() == '&' {
                assert(t =~= u + seq!['&', '&']);
                if j == l {
                    assert(t[j] == '&');
                } else if j == l + 1 {
                    assert(t[j] == '&');
                } else {
                    assert(t.take(j) =~= t);
                    assert(t.drop_last() =~= u.push('&'));
                    assert(u.push('&').drop_last() =~= u);
                    assert(trailing_amps(t) == trailing_amps(u.push('&')) + 1);
                    assert(trailing_amps(u.push('&')) == trailing_amps(u) + 1);
                    assert(trailing_amps(u.take(l)) % 2 == 0);
                }
            } else {
                assert(t =~= u.push(s.last()));
                if j == l {
                    assert(t.take(j) =~= u);
                    assert(trailing_amps(u.take(l)) % 2 == 0);
                } else {
                    assert(t.take(j) =~= t);
                    assert(t.last() == s.last());
                    assert(trailing_amps(t) == 0);
                }
            }
        }
    }
}

/// Laws of the menu label: reading each `&&` back as `&` gives the label again; the
/// label grows by one character per `&`; every run of `&` in it that ends (before
/// another character or at the end) has even length; a label without `&` is unchanged.
pub proof fn menu_label_laws(s: Seq<char>)
    ensures
        unescape_mnemonics(escape_mnemonics(s)) == s,
        escape_mnemonics(s).len() == s.len() + amp_count(s),
        forall|j: int|
            0 <= j <= escape_mnemonics(s).len() && (j == escape_mnemonics(s).len() || escape_mnemonics(s)[j]
                != '&') ==> #[trigger] trailing_amps(escape_mnemonics(s).take(j)) % 2 == 0,
        !s.contains('&') ==> escape_mnemonics(s) == s,
{
    lemma_unescape_escape(s);
    lemma_escape_len(s);
    lemma_escape_runs_even(s);
}

/// What a click on a tray menu item asks for.
pub enum TrayMenuAction {
    ShowMainWindow,
    Quit,
    /// Make this account the active one.
    SelectAccount(String),
    Ignore,
}

/// The action for the item id `item_id`: `open`, `quit`, or an account item.
pub open spec fn tray_action_for(item_id: Seq<char>, action: TrayMenuAction) -> bool {
    if item_id == "open"@ {
        action is ShowMainWindow
    } else if item_id == "quit"@ {
        action is Quit
    } else if account_prefix().len() <= item_id.len() && item_id.take(account_prefix().len() as int)
        == account_prefix() {
        action matches TrayMenuAction::SelectAccount(id) && id@ == item_id.skip(
            account_prefix().len() as int,
        )
    } else {
        action is Ignore
    }
}

/// Reads the id of the clicked tray menu item.
pub fn tray_menu_action(item_id: &str) -> (action: TrayMenuAction)
    ensures
        tray_action_for(item_id@, action),
{
    let chars = chars_of(item_id);
    if equals_str(&chars, OPEN_ITEM_ID) {
        return TrayMenuAction::ShowMainWindow;
    }
    if equals_str(&chars, QUIT_ITEM_ID) {
        return TrayMenuAction::Quit;
    }
    if starts_with_str(&chars, ACCOUNT_ITEM_PREFIX) {
        proof {
            reveal_strlit("account:");
        }
        let rest = item_id.substring_char(8, chars.len());
        assert(rest@ =~= item_id@.skip(8));
        return TrayMenuAction::SelectAccount(String::from_str(rest));
    }
    TrayMenuAction::Ignore
}


/// An account as the tray shows it.
pub struct TrayAccount {
    pub id: String,
    pub name: String,
}

/// One entry of the tray menu, top to bottom.
pub enum TrayMenuEntry {
    /// The disabled "No accounts configured" item.
    NoAccounts,
    /// A check item that switches to an account.
    Account { id: String, label: String, checked: bool },
    Separator,
    /// "Open Codex Switcher".
    Open,
    /// "Quit".
    Quit,
}

/// The view of an optional string.
pub open spec fn opt_view(s: Option<&str>) -> Option<Seq<char>> {
    match s {
        Some(t) => Some(t@),
        None => None,
    }
}

/// `entry` is the item of `account`: its id, its escaped name, checked when it is the
/// active account.
pub open spec fn account_entry(account: TrayAccount, active: Option<Seq<char>>, entry: TrayMenuEntry) -> bool {
    entry matches TrayMenuEntry::Account { id, label, checked } && id@ == account_item_id(account.id@)
        && label@ == escape_mnemonics(account.name@) && checked == (active == Some(account.id@))
}

/// The tray menu for `accounts` when `active_account_id` is the active one: one item per
/// account (or the "no accounts" item), a separator, "Open" and "Quit".
pub fn tray_menu_entries(accounts: &Vec<TrayAccount>, active_account_id: Option<&str>) -> (entries: Vec<TrayMenuEntry>)
    ensures
        ({
            let k = if accounts@.len() == 0 { 1 } else { accounts@.len() as int };
            &&& entries@.len() == k + 3
            &&& accounts@.len() == 0 ==> entries@[0] is NoAccounts
            &&& forall|i: int|
                0 <= i < accounts@.len() ==> account_entry(
                    accounts@[i],
                    opt_view(active_account_id),
                    #[trigger] entries@[i],
                )
            &&& entries@[k] is Separator
            &&& entries@[k + 1] is Open
            &&& entries@[k + 2] is Quit
        }),
{
    let mut entries: Vec<TrayMenuEntry> = Vec::new();
    if accounts.len() == 0 {
        entries.push(TrayMenuEntry::NoAccounts);
    } else {
        let mut i: usize = 0;
        while i < accounts.len()
            invariant
                i <= accounts.len(),
                entries@.len() == i,
                forall|j: int|
                    0 <= j < i ==> account_entry(accounts@[j], opt_view(active_account_id), #[trigger] entries@[j]),
            decreases accounts.len() - i,
        {
            let account = &accounts[i];
            let checked = match active_account_id {
                Some(active) => {
                    let a = chars_of(active);
                    let b = chars_of(account.id.as_str());
                    crate::text::equals_chars(&a, &b)
                },
                None => false,
            };
            let entry = TrayMenuEntry::Account {
                id: account_menu_id(account.id.as_str()),
                label: menu_label(account.name.as_str()),
                checked,
            };
            entries.push(entry);
            i = i + 1;
        }
    }
    entries.push(TrayMenuEntry::Separator);
    entries.push(TrayMenuEntry::Open);
    entries.push(TrayMenuEntry::Quit);
    entries
}

/// The id, label and enabled flag of a tray menu item.
pub struct TrayItemText {
    pub id: String,
    pub label: String,
    pub enabled: bool,
}

/// `r` gives the id, label and enabled flag that the tray shows for `entry`; a separator
/// has none.
pub open spec fn item_text_is(entry: TrayMenuEntry, r: Option<TrayItemText>) -> bool {
    match entry {
        TrayMenuEntry::NoAccounts => r matches Some(t) && t.id@ == "empty"@ && t.label@
            == "No accounts configured"@ && !t.enabled,
        TrayMenuEntry::Account { id, label, checked } => r matches Some(t) && t.id@ == id@ && t.label@
            == label@ && t.enabled,
        TrayMenuEntry::Separator => r is None,
        TrayMenuEntry::Open => r matches Some(t) && t.id@ == "open"@ && t.label@ == "Open Codex Switcher"@
            && t.enabled,
        TrayMenuEntry::Quit => r matches Some(t) && t.id@ == "quit"@ && t.label@ == "Quit"@ && t.enabled,
    }
}

/// The id, label and enabled flag of the tray item for `entry` (`None` for a separator):
/// the disabled "No accounts configured" placeholder, an account item with its id and
/// label, "Open Codex Switcher" and "Quit".
pub fn tray_item_text(entry: &TrayMenuEntry) -> (r: Option<TrayItemText>)
    ensures
        item_text_is(*entry, r),
{
    match entry {
        TrayMenuEntry::NoAccounts => Some(
            TrayItemText {
                id: String::from_str(EMPTY_ITEM_ID),
                label: String::from_str("No accounts configured"),
                enabled: false,
            },
        ),
        TrayMenuEntry::Account { id, label, checked: _ } => Some(
            TrayItemText {
                id: String::from_str(id.as_str()),
                label: String::from_str(label.as_str()),
                enabled: true,
            },
        ),
        TrayMenuEntry::Separator => None,
        TrayMenuEntry::Open => Some(
            TrayItemText {
                id: String::from_str(OPEN_ITEM_ID),
                label: String::from_str("Open Codex Switcher"),
                enabled: true,
            },
        ),
        TrayMenuEntry::Quit => Some(
            TrayItemText { id: String::from_str(QUIT_ITEM_ID), label: String::from_str("Quit"), enabled: true },
        ),
    }
}

/// One poll of the accounts file: `now` is its modification time as just read
/// (nanoseconds from the Unix epoch, negative before it; `None` when it cannot be read),
/// `last` the one read before. The watcher keeps `now`, and refreshes the menu exactly
/// when the two differ.
pub fn accounts_file_poll(last: Option<i128>, now: Option<i128>) -> (r: (Option<i128>, bool))
    ensures
        r.0 == now,
        r.1 == (now != last),
{
    let changed = match (last, now) {
        (Some(a), Some(b)) => a != b,
        (None, None) => false,
        _ => true,
    };
    (now, changed)
}

/// What a click on an account item does before anything else.
pub enum AccountClick {
    /// The account is already active: only the menu is refreshed.
    RefreshOnly,
    /// The account is to be switched to.
    Switch,
}

/// Decides a click on the item of `clicked`, when `active_account_id` is active.
pub fn account_click(active_account_id: Option<&str>, clicked: &str) -> (r: AccountClick)
    ensures
        r is RefreshOnly <==> opt_view(active_account_id) == Some(clicked@),
{
    match active_account_id {
        Some(active) => {
            let a = chars_of(active);
            let b = chars_of(clicked);
            if crate::text::equals_chars(&a, &b) {
                AccountClick::RefreshOnly
            } else {
                AccountClick::Switch
            }
        },
        None => AccountClick::Switch,
    }
}

/// A step the tray takes after an attempt to switch accounts.
pub enum TrayEffect {
    RefreshMenu,
    ShowMainWindow,
    /// Tell the window that the switch was refused because Codex is running.
    EmitSwitchBlocked,
    /// Tell the window that the accounts changed.
    EmitAccountsChanged,
}

/// The steps after a switch attempt: the menu is always refreshed; a switch refused
/// because Codex is running also brings up the window and tells it why; a switch that
/// went through announces the change.
pub fn switch_outcome_effects(switched: bool, blocked_by_running_codex: bool) -> (effects: Vec<TrayEffect>)
    ensures
        switched ==> effects@.len() == 2 && effects@[0] is RefreshMenu && effects@[1] is EmitAccountsChanged,
        !switched && blocked_by_running_codex ==> effects@.len() == 3 && effects@[0] is RefreshMenu
            && effects@[1] is ShowMainWindow && effects@[2] is EmitSwitchBlocked,
        !switched && !blocked_by_running_codex ==> effects@.len() == 1 && effects@[0] is RefreshMenu,
{
    let mut effects: Vec<TrayEffect> = Vec::new();
    effects.push(TrayEffect::RefreshMenu);
    if switched {
        effects.push(TrayEffect::EmitAccountsChanged);
    } else if blocked_by_running_codex {
        effects.push(TrayEffect::ShowMainWindow);
        effects.push(TrayEffect::EmitSwitchBlocked);
    }
    effects
}

/// A click on the item of an account selects exactly that account: the id that
/// `account_menu_id` gives is read back by `tray_menu_action` as that account's id.
pub proof fn account_item_round_trip(account_id: Seq<char>, action: TrayMenuAction)
    requires
        tray_action_for(account_item_id(account_id), action),
    ensures
        action matches TrayMenuAction::SelectAccount(id) && id@ == account_id,
{
    reveal_strlit("account:");
    reveal_strlit("open");
    reveal_strlit("quit");
    let item = account_item_id(account_id);
    assert(item.len() >= 8);
    assert(item.take(8) =~= account_prefix());
    assert(item.skip(8) =~= account_id);
}

} // verus!
