//! The tray menu: which entries it lists and how a click on one of its items
//! is understood.
use vstd::prelude::*;
use crate::text::{uuid_text, uuid_to_text, lemma_uuid_text_injective};
use crate::config::{AppConfig, CommandItem, ItemModel, item_views, lemma_views_push, has_id};
use crate::ordering::{sort_by_order, sort_items_by_order, orders_sorted, lemma_sort_by_order_sorted};
use crate::icon::{MenuIcon, decode_menu_image, icon_source, is_image_error, menu_icon_of_url, starts_with_text};
use crate::entries::{first_with_text_id, has_text_id, first_with_id};

verus! {

/// One item of the tray menu.
pub enum MenuEntry {
    /// A command entry: its menu id, its title, and its icon, decoded for the
    /// menu or with the reason it could not be.
    Command { menu_id: String, title: String, icon: Option<Result<MenuIcon, String>> },
    Separator,
    /// Opens the settings window.
    Settings { menu_id: String, label: String },
    /// Quits the launcher.
    Quit { menu_id: String, label: String },
}

/// What a click on a menu item asks for.
pub enum MenuAction {
    ShowSettings,
    Quit,
    /// Runs the entry whose id, as text, is given.
    RunEntry(String),
    Ignore,
}

/// The prefix of the menu id of a command entry.
pub open spec fn entry_prefix() -> Seq<char> {
    "entry:"@
}

/// The menu id of the entry with `id`.
pub open spec fn entry_menu_id(id: u128) -> Seq<char> {
    entry_prefix() + uuid_text(id)
}

/// The enabled entries, in their order in the list.
pub open spec fn enabled_only(s: Seq<ItemModel>) -> Seq<ItemModel>
    decreases s.len(),
{
    if s.len() == 0 {
        s
    } else if s.last().enabled {
        enabled_only(s.drop_last()).push(s.last())
    } else {
        enabled_only(s.drop_last())
    }
}

/// `enabled_only` keeps exactly the entries whose flag is on, in their order.
pub proof fn lemma_enabled_only_filters(s: Seq<ItemModel>)
    ensures
        enabled_only(s) == s.filter(|e: ItemModel| e.enabled),
    decreases s.len(),
{
    reveal_with_fuel(Seq::filter, 1);
    if s.len() > 0 {
        lemma_enabled_only_filters(s.drop_last());
    }
}

/// The tray lists exactly the enabled entries: every listed entry is on,
/// the listed entries are the configuration's entries that are on, each as
/// often as there, and they stand sorted by order.
pub proof fn lemma_menu_lists_exactly_enabled(items: Seq<ItemModel>)
    ensures
        forall|i: int| 0 <= i < menu_entries(items).len() ==> #[trigger] menu_entries(items)[i].enabled,
        menu_entries(items).to_multiset() == items.filter(|e: ItemModel| e.enabled).to_multiset(),
        orders_sorted(menu_entries(items)),
{
    broadcast use vstd::seq_lib::group_to_multiset_ensures;

    lemma_enabled_only_filters(items);
    let f = items.filter(|e: ItemModel| e.enabled);
    let listed = menu_entries(items);
    lemma_sort_by_order_sorted(f);
    f.filter_lemma(|e: ItemModel| e.enabled);
    assert forall|i: int| 0 <= i < listed.len() implies #[trigger] listed[i].enabled by {
        assert(listed.contains(listed[i]));
        assert(listed.to_multiset().contains(listed[i]));
        assert(f.contains(listed[i]));
        let j = choose|j: int| 0 <= j < f.len() && f[j] == listed[i];
        assert(f[j].enabled);
    }
}

/// The entries that the menu lists: the enabled ones, sorted by order.
pub open spec fn menu_entries(items: Seq<ItemModel>) -> Seq<ItemModel> {
    sort_by_order(enabled_only(items))
}

/// What the menu shows as the icon of an entry: none without one; for a data
/// URL, the menu icon of the image decoded from it, or the reason it was
/// refused.
pub open spec fn menu_icon_matches(icon: Option<Seq<char>>, shown: Option<Result<MenuIcon, String>>) -> bool {
    match icon {
        None => shown is None,
        Some(url) => match shown {
            None => false,
            Some(Ok(shown_icon)) => icon_source(url) is Ok && menu_icon_of_url(url, shown_icon),
            Some(Err(e)) => match icon_source(url) {
                Err(reason) => e@ == reason,
                Ok(_) => is_image_error(e@),
            },
        },
    }
}

/// The menu item for `item`.
pub open spec fn command_entry_for(entry: MenuEntry, item: ItemModel) -> bool {
    match entry {
        MenuEntry::Command { menu_id, title, icon } => menu_id@ == entry_menu_id(item.id) && title@
            == item.title && menu_icon_matches(item.icon, icon),
        _ => false,
    }
}

/// The menu for a configuration: an item for each enabled entry in order, a
/// separator when there is any, then `设置…` and `退出`.
pub open spec fn menu_matches(items: Seq<ItemModel>, menu: Seq<MenuEntry>) -> bool {
    let listed = menu_entries(items);
    let n = listed.len();
    let extra: int = if n > 0 { 1 } else { 0 };
    &&& menu.len() == n + extra + 2
    &&& forall|i: int| 0 <= i < n ==> command_entry_for(#[trigger] menu[i], listed[i])
    &&& n > 0 ==> menu[n as int] is Separator
    &&& menu[n + extra] matches MenuEntry::Settings { menu_id, label } && menu_id@ == "settings"@ && label@ == "设置…"@
    &&& menu[n + extra + 1] matches MenuEntry::Quit { menu_id, label } && menu_id@ == "quit"@ && label@ == "退出"@
}

/// Copies of the enabled entries, in order.
fn enabled_items(items: &Vec<CommandItem>) -> (r: Vec<CommandItem>)
    ensures
        item_views(r@) == enabled_only(item_views(items@)),
{
    let ghost all = item_views(items@);
    let mut out: Vec<CommandItem> = Vec::new();
    let mut k: usize = 0;
    assert(all.take(0) =~= Seq::<ItemModel>::empty());
    while k < items.len()
        invariant
            all == item_views(items@),
            k <= items@.len(),
            item_views(out@) == enabled_only(all.take(k as int)),
        decreases items@.len() - k,
    {
        assert(all.take(k as int + 1).drop_last() =~= all.take(k as int));
        assert(all[k as int] == items@[k as int]@);
        if items[k].enabled {
            let ghost before = out@;
            out.push(items[k].duplicate());
            proof {
                lemma_views_push(before, out@.last());
            }
        }
        k = k + 1;
    }
    assert(all.take(k as int) =~= all);
    out
}

/// The menu id `entry:` followed by the entry's id.
fn entry_menu_id_text(id: u128) -> (s: String)
    ensures
        s@ == entry_menu_id(id),
{
    let mut s = String::from_str("entry:");
    let text = uuid_to_text(id);
    s.append(text.as_str());
    s
}

/// The tray menu for a configuration.
pub fn build_menu(config: &AppConfig) -> (menu: Vec<MenuEntry>)
    ensures
        menu_matches(config@.items, menu@),
        forall|i: int| 0 <= i < menu_entries(config@.items).len() ==> #[trigger] menu_entries(config@.items)[i].enabled,
        menu_entries(config@.items).to_multiset() == config@.items.filter(|e: ItemModel| e.enabled).to_multiset(),
{
    proof {
        lemma_menu_lists_exactly_enabled(config@.items);
    }
    let listed = sort_items_by_order(enabled_items(&config.items));
    let ghost lv = item_views(listed@);
    let n = listed.len();
    let mut menu: Vec<MenuEntry> = Vec::new();
    let mut k: usize = 0;
    while k < n
        invariant
            n == listed@.len(),
            lv == item_views(listed@),
            lv == menu_entries(config@.items),
            k <= n,
            menu@.len() == k,
            forall|i: int| 0 <= i < k ==> command_entry_for(#[trigger] menu@[i], lv[i]),
        decreases n - k,
    {
        let item = &listed[k];
        assert(lv[k as int] == item@);
        let icon = match &item.icon {
            Some(url) => Some(decode_menu_image(url.as_str())),
            None => None,
        };
        let entry = MenuEntry::Command {
            menu_id: entry_menu_id_text(item.id),
            title: item.title.clone(),
            icon,
        };
        assert(command_entry_for(entry, lv[k as int]));
        menu.push(entry);
        k = k + 1;
    }
    if n > 0 {
        menu.push(MenuEntry::Separator);
    }
    menu.push(MenuEntry::Settings { menu_id: String::from_str("settings"), label: String::from_str("设置…") });
    menu.push(MenuEntry::Quit { menu_id: String::from_str("quit"), label: String::from_str("退出") });
    menu
}

/// The action for a click on the menu item with this id.
pub open spec fn action_for(id: Seq<char>, action: MenuAction) -> bool {
    if id == "settings"@ {
        action is ShowSettings
    } else if id == "quit"@ {
        action is Quit
    } else if entry_prefix().is_prefix_of(id) {
        action matches MenuAction::RunEntry(rest) && rest@ == id.skip(entry_prefix().len() as int)
    } else {
        action is Ignore
    }
}

/// Understands a click on the menu item with this id.
pub fn menu_action(id: &str) -> (r: MenuAction)
    ensures
        action_for(id@, r),
{
    if crate::text::string_equals(id, "settings") {
        MenuAction::ShowSettings
    } else if crate::text::string_equals(id, "quit") {
        MenuAction::Quit
    } else if starts_with_text(id, "entry:") {
        proof {
            reveal_strlit("entry:");
        }
        let n = id.unicode_len();
        let rest = id.substring_char(6, n);
        MenuAction::RunEntry(String::from_str(rest))
    } else {
        MenuAction::Ignore
    }
}

/// The title of the notification after a command ran from the tray.
pub open spec fn notification_title(success: bool) -> Seq<char> {
    if success {
        "命令执行成功"@
    } else {
        "命令执行失败"@
    }
}

/// The notification title for a finished command.
pub fn command_notification_title(success: bool) -> (s: String)
    ensures
        s@ == notification_title(success),
{
    if success {
        String::from_str("命令执行成功")
    } else {
        String::from_str("命令执行失败")
    }
}

/// A click on the menu item of an entry asks to run the entry with that id,
/// given as its text.
pub proof fn lemma_entry_click_runs_entry(id: u128, action: MenuAction)
    requires
        action_for(entry_menu_id(id), action),
    ensures
        action matches MenuAction::RunEntry(t) && t@ == uuid_text(id),
{
    reveal_strlit("settings");
    reveal_strlit("quit");
    reveal_strlit("entry:");
    let m = entry_menu_id(id);
    assert(m.len() == 42);
    assert(entry_prefix().is_prefix_of(m)) by {
        assert(m.subrange(0, 6) =~= entry_prefix());
    }
    assert(m.skip(6) =~= uuid_text(id));
}

/// Looking an entry up by the text of an id finds an entry with that id, the
/// first one, and finds one whenever some entry has that id.
pub proof fn lemma_text_id_lookup(items: Seq<ItemModel>, id: u128)
    ensures
        has_id(items, id) <==> has_text_id(items, uuid_text(id)),
        forall|k: int| first_with_text_id(items, uuid_text(id), k) ==> first_with_id(items, id, k),
{
    if has_id(items, id) {
        let k = choose|k: int| 0 <= k < items.len() && #[trigger] items[k].id == id;
        assert(uuid_text(items[k].id) == uuid_text(id));
    }
    if has_text_id(items, uuid_text(id)) {
        let k = choose|k: int| 0 <= k < items.len() && uuid_text(#[trigger] items[k].id) == uuid_text(id);
        lemma_uuid_text_injective(items[k].id, id);
    }
    assert forall|k: int| first_with_text_id(items, uuid_text(id), k) implies first_with_id(items, id, k) by {
        lemma_uuid_text_injective(items[k].id, id);
        assert forall|j: int| 0 <= j < k implies #[trigger] items[j].id != id by {
            assert(uuid_text(items[j].id) != uuid_text(id));
        }
    }
}

} // verus!
