//! The configuration: command entries, settings, their validation and the
//! tolerant reading of a stored configuration.
use vstd::prelude::*;
use std::collections::HashSet;
use crate::text::{is_blank, decimal, uuid_text, is_blank_text, push_decimal, uuid_to_text, texts};
use crate::ordering::{sort_by_order, renumbered, sort_items_by_order, renumber_items, lemma_sort_by_order_len};

verus! {

/// The only configuration version this launcher reads and writes.
pub const CONFIG_VERSION: u32 = 1;

/// One launchable command, as the tray and the settings window show it.
#[derive(Clone, Debug, PartialEq, Eq)]
pub struct CommandItem {
    /// The entry's UUID, its 128 bits read big-endian.
    pub id: u128,
    pub title: String,
    pub command: String,
    pub enabled: bool,
    pub order: u32,
    /// The entry's icon as a data URL.
    pub icon: Option<String>,
}

/// A command entry as plain values.
pub struct ItemModel {
    pub id: u128,
    pub title: Seq<char>,
    pub command: Seq<char>,
    pub enabled: bool,
    pub order: u32,
    pub icon: Option<Seq<char>>,
}

/// The text of an optional string.
pub open spec fn opt_text(s: Option<String>) -> Option<Seq<char>> {
    match s {
        Some(t) => Some(t@),
        None => None,
    }
}

impl View for CommandItem {
    type V = ItemModel;

    open spec fn view(&self) -> ItemModel {
        ItemModel {
            id: self.id,
            title: self.title@,
            command: self.command@,
            enabled: self.enabled,
            order: self.order,
            icon: opt_text(self.icon),
        }
    }
}

/// The entries of a list, as plain values.
pub open spec fn item_views(items: Seq<CommandItem>) -> Seq<ItemModel> {
    items.map_values(|item: CommandItem| item@)
}

/// Application-wide settings.
#[derive(Clone, Copy, Debug, PartialEq, Eq, Structural)]
pub struct Settings {
    pub autostart: bool,
}

/// The whole stored configuration.
#[derive(Clone, Debug, PartialEq, Eq)]
pub struct AppConfig {
    pub version: u32,
    pub settings: Settings,
    pub items: Vec<CommandItem>,
}

/// A configuration as plain values.
pub struct ConfigModel {
    pub version: u32,
    pub settings: Settings,
    pub items: Seq<ItemModel>,
}

impl View for AppConfig {
    type V = ConfigModel;

    open spec fn view(&self) -> ConfigModel {
        ConfigModel { version: self.version, settings: self.settings, items: item_views(self.items@) }
    }
}

/// What the settings window is given: the configuration, where it is stored,
/// and the warnings from loading it.
#[derive(Clone, Debug, PartialEq, Eq)]
pub struct ConfigSnapshot {
    pub config: AppConfig,
    pub path: String,
    pub warnings: Vec<String>,
}

/// The value of an entry's `enabled` flag, and of the autostart setting, when
/// the stored text leaves it out.
pub fn default_enabled() -> (b: bool)
    ensures
        b,
{
    true
}

impl Default for Settings {
    /// Autostart is on unless the user turns it off.
    fn default() -> (r: Self)
        ensures
            r.autostart,
    {
        Settings { autostart: default_enabled() }
    }
}

impl Default for AppConfig {
    /// The current version, default settings and no entries.
    fn default() -> (r: Self)
        ensures
            r@.version == CONFIG_VERSION,
            r@.settings.autostart,
            r@.items.len() == 0,
    {
        let r = AppConfig { version: CONFIG_VERSION, settings: Settings::default(), items: Vec::new() };
        assert(r@.items =~= Seq::<ItemModel>::empty());
        r
    }
}

impl CommandItem {
    /// A copy of the entry.
    pub fn duplicate(&self) -> (r: CommandItem)
        ensures
            r@ == self@,
    {
        let icon = match &self.icon {
            Some(icon) => Some(icon.clone()),
            None => None,
        };
        CommandItem {
            id: self.id,
            title: self.title.clone(),
            command: self.command.clone(),
            enabled: self.enabled,
            order: self.order,
            icon,
        }
    }
}

/// The views of a list with one more entry.
pub proof fn lemma_views_push(s: Seq<CommandItem>, x: CommandItem)
    ensures
        item_views(s.push(x)) == item_views(s).push(x@),
{
    assert(item_views(s.push(x)) =~= item_views(s).push(x@));
}

/// The views of a list without its first entry.
pub proof fn lemma_views_drop_first(s: Seq<CommandItem>)
    requires
        s.len() > 0,
    ensures
        item_views(s.remove(0)) == item_views(s).skip(1),
{
    assert(item_views(s.remove(0)) =~= item_views(s).skip(1));
}

/// Copies of all entries, in order.
pub fn copy_items(items: &[CommandItem]) -> (r: Vec<CommandItem>)
    ensures
        item_views(r@) == item_views(items@),
{
    let mut out: Vec<CommandItem> = Vec::new();
    let mut i: usize = 0;
    while i < items.len()
        invariant
            i <= items@.len(),
            item_views(out@) == item_views(items@.take(i as int)),
        decreases items@.len() - i,
    {
        let ghost before = out@;
        out.push(items[i].duplicate());
        proof {
            lemma_views_push(before, out@.last());
            assert(items@.take(i as int + 1) =~= items@.take(i as int).push(items@[i as int]));
            lemma_views_push(items@.take(i as int), items@[i as int]);
        }
        i = i + 1;
    }
    assert(items@.take(items@.len() as int) =~= items@);
    out
}

impl AppConfig {
    /// A copy of the configuration.
    pub fn duplicate(&self) -> (r: AppConfig)
        ensures
            r@ == self@,
    {
        AppConfig { version: self.version, settings: self.settings, items: copy_items(self.items.as_slice()) }
    }
}

/// Whether an entry with this id occurs in the list.
pub open spec fn has_id(items: Seq<ItemModel>, id: u128) -> bool {
    exists|k: int| 0 <= k < items.len() && #[trigger] items[k].id == id
}

/// The entries have titles and commands that are not blank, and no two of
/// them share an id.
pub open spec fn items_well_formed(items: Seq<ItemModel>) -> bool {
    &&& forall|i: int| 0 <= i < items.len() ==> !is_blank(#[trigger] items[i].title)
    &&& forall|i: int| 0 <= i < items.len() ==> !is_blank(#[trigger] items[i].command)
    &&& forall|i: int, j: int| 0 <= i < j < items.len() ==> #[trigger] items[i].id != #[trigger] items[j].id
}

/// A configuration that `validate` accepts.
pub open spec fn config_well_formed(config: ConfigModel) -> bool {
    config.version == CONFIG_VERSION && items_well_formed(config.items)
}

pub open spec fn msg_unsupported_version(version: u32) -> Seq<char> {
    "不支持的配置版本 "@ + decimal(version as nat) + "，当前仅支持版本 1"@
}

pub open spec fn msg_blank_title(id: u128) -> Seq<char> {
    "条目 "@ + uuid_text(id) + " 的标题不能为空"@
}

pub open spec fn msg_blank_command(id: u128) -> Seq<char> {
    "条目 "@ + uuid_text(id) + " 的命令不能为空"@
}

pub open spec fn msg_duplicate_id(id: u128) -> Seq<char> {
    "条目 ID 重复："@ + uuid_text(id)
}

/// What `validate` finds wrong with an entry, given the entries before it.
pub open spec fn item_problem(item: ItemModel, earlier: Seq<ItemModel>) -> Option<Seq<char>> {
    if is_blank(item.title) {
        Some(msg_blank_title(item.id))
    } else if is_blank(item.command) {
        Some(msg_blank_command(item.id))
    } else if has_id(earlier, item.id) {
        Some(msg_duplicate_id(item.id))
    } else {
        None
    }
}

/// The problem of the first entry that has one.
pub open spec fn items_problem(items: Seq<ItemModel>) -> Option<Seq<char>>
    decreases items.len(),
{
    if items.len() == 0 {
        None
    } else {
        match items_problem(items.drop_last()) {
            Some(e) => Some(e),
            None => item_problem(items.last(), items.drop_last()),
        }
    }
}

/// The message with which `validate` refuses a configuration, if it does.
pub open spec fn config_problem(config: ConfigModel) -> Option<Seq<char>> {
    if config.version != CONFIG_VERSION {
        Some(msg_unsupported_version(config.version))
    } else {
        items_problem(config.items)
    }
}

/// The entries have a problem exactly when they are not well formed.
pub proof fn lemma_items_problem(items: Seq<ItemModel>)
    ensures
        items_problem(items) is None <==> items_well_formed(items),
    decreases items.len(),
{
    if items.len() > 0 {
        let init = items.drop_last();
        lemma_items_problem(init);
        let last = items.last();
        let n = items.len() - 1;
        if items_problem(items) is None {
            assert forall|i: int, j: int| 0 <= i < j < items.len() implies #[trigger] items[i].id
                != #[trigger] items[j].id by {
                if j < n {
                    assert(init[i] == items[i] && init[j] == items[j]);
                } else {
                    assert(init[i] == items[i]);
                    if items[i].id == items[j].id {
                        assert(has_id(init, last.id));
                    }
                }
            }
            assert forall|i: int| 0 <= i < items.len() implies !is_blank(#[trigger] items[i].title) by {
                if i < n {
                    assert(init[i] == items[i]);
                }
            }
            assert forall|i: int| 0 <= i < items.len() implies !is_blank(#[trigger] items[i].command) by {
                if i < n {
                    assert(init[i] == items[i]);
                }
            }
        }
        if items_well_formed(items) {
            assert forall|i: int, j: int| 0 <= i < j < init.len() implies #[trigger] init[i].id
                != #[trigger] init[j].id by {
                assert(init[i] == items[i] && init[j] == items[j]);
            }
            assert forall|i: int| 0 <= i < init.len() implies !is_blank(#[trigger] init[i].title) by {
                assert(init[i] == items[i]);
            }
            assert forall|i: int| 0 <= i < init.len() implies !is_blank(#[trigger] init[i].command) by {
                assert(init[i] == items[i]);
            }
            assert(!is_blank(items[n].title));
            assert(!is_blank(items[n].command));
            if has_id(init, last.id) {
                let k = choose|k: int| 0 <= k < init.len() && #[trigger] init[k].id == last.id;
                assert(items[k].id == items[n].id);
            }
        }
    }
}

/// The message for a configuration version other than the supported one.
pub fn unsupported_version_message(version: u32) -> (s: String)
    ensures
        s@ == msg_unsupported_version(version),
{
    let mut s = String::from_str("不支持的配置版本 ");
    push_decimal(&mut s, version as u64);
    s.append("，当前仅支持版本 1");
    s
}

/// A message made of a text, an entry's id and another text.
pub fn id_message(before: &str, id: u128, after: &str) -> (s: String)
    ensures
        s@ == before@ + uuid_text(id) + after@,
{
    let mut s = String::from_str(before);
    let text = uuid_to_text(id);
    s.append(text.as_str());
    s.append(after);
    s
}

/// A message made of a text followed by an entry's id.
pub fn id_suffix_message(before: &str, id: u128) -> (s: String)
    ensures
        s@ == before@ + uuid_text(id),
{
    let mut s = String::from_str(before);
    let text = uuid_to_text(id);
    s.append(text.as_str());
    s
}

/// Checks a configuration before it is used or saved: the version must be
/// the supported one, and each entry needs a title and a command that are not
/// blank and an id that no entry before it has. The first problem is
/// reported.
pub fn validate(config: &AppConfig) -> (r: Result<(), String>)
    ensures
        r is Ok <==> config_well_formed(config@),
        match r {
            Ok(()) => config_problem(config@) is None,
            Err(e) => config_problem(config@) == Some(e@),
        },
{
    broadcast use vstd::std_specs::hash::group_hash_axioms;

    proof {
        lemma_items_problem(config@.items);
    }
    if config.version != CONFIG_VERSION {
        return Err(unsupported_version_message(config.version));
    }
    let ghost views = item_views(config.items@);
    let n = config.items.len();
    let mut ids: HashSet<u128> = HashSet::new();
    let mut i: usize = 0;
    while i < n
        invariant
            n == config.items@.len(),
            config.version == CONFIG_VERSION,
            views == item_views(config.items@),
            i <= n,
            items_problem(views.take(i as int)) is None,
            forall|x: u128| ids@.contains(x) <==> has_id(views.take(i as int), x),
        decreases n - i,
    {
        let item = &config.items[i];
        let ghost earlier = views.take(i as int);
        assert(views.take(i as int + 1).drop_last() =~= earlier);
        assert(views.take(i as int + 1).last() == item@);
        if is_blank_text(item.title.as_str()) {
            assert(items_problem(views.take(i as int + 1)) == Some(msg_blank_title(item.id)));
            proof {
                lemma_problem_of_prefix(views, i as int + 1);
            }
            let e = id_message("条目 ", item.id, " 的标题不能为空");
            return Err(e);
        }
        if is_blank_text(item.command.as_str()) {
            assert(items_problem(views.take(i as int + 1)) == Some(msg_blank_command(item.id)));
            proof {
                lemma_problem_of_prefix(views, i as int + 1);
            }
            return Err(id_message("条目 ", item.id, " 的命令不能为空"));
        }
        if !ids.insert(item.id) {
            assert(items_problem(views.take(i as int + 1)) == Some(msg_duplicate_id(item.id)));
            proof {
                lemma_problem_of_prefix(views, i as int + 1);
            }
            return Err(id_suffix_message("条目 ID 重复：", item.id));
        }
        proof {
            assert forall|x: u128| ids@.contains(x) <==> has_id(views.take(i as int + 1), x) by {
                crate::ordering::lemma_has_id_push(earlier, item@, x);
            }
        }
        i = i + 1;
    }
    assert(views.take(n as int) =~= views);
    Ok(())
}

/// A problem in a prefix is the problem of the whole list.
pub proof fn lemma_problem_of_prefix(items: Seq<ItemModel>, k: int)
    requires
        0 <= k <= items.len(),
        items_problem(items.take(k)) is Some,
    ensures
        items_problem(items) == items_problem(items.take(k)),
    decreases items.len() - k,
{
    if k < items.len() {
        assert(items.take(k + 1).drop_last() =~= items.take(k));
        assert(items_problem(items.take(k + 1)) == items_problem(items.take(k)));
        lemma_problem_of_prefix(items, k + 1);
    } else {
        assert(items.take(k) =~= items);
    }
}

} // verus!

verus! {

/// An entry as a stored configuration holds it. Files written before entries
/// could be switched off or ordered lack `enabled` and `order`.
#[derive(Clone, Debug, PartialEq, Eq)]
pub struct StoredEntry {
    pub id: u128,
    pub title: String,
    pub command: String,
    pub enabled: Option<bool>,
    pub order: Option<u32>,
    pub icon: Option<String>,
}

impl View for StoredEntry {
    type V = ItemModel;

    /// The entry it stands for: a missing `enabled` is taken as on, a
    /// missing `order` as 0.
    open spec fn view(&self) -> ItemModel {
        ItemModel {
            id: self.id,
            title: self.title@,
            command: self.command@,
            enabled: match self.enabled {
                Some(b) => b,
                None => true,
            },
            order: match self.order {
                Some(o) => o,
                None => 0,
            },
            icon: opt_text(self.icon),
        }
    }
}

impl StoredEntry {
    /// The entry, with a missing `enabled` taken as on and a missing `order`
    /// as 0.
    pub fn into_item(self) -> (item: CommandItem)
        ensures
            item@ == self@,
    {
        let enabled = match self.enabled {
            Some(b) => b,
            None => default_enabled(),
        };
        let order = match self.order {
            Some(o) => o,
            None => 0,
        };
        CommandItem { id: self.id, title: self.title, command: self.command, enabled, order, icon: self.icon }
    }

    /// A stored entry with every field present.
    pub fn from_item(item: CommandItem) -> (entry: StoredEntry)
        ensures
            entry@ == item@,
    {
        StoredEntry {
            id: item.id,
            title: item.title,
            command: item.command,
            enabled: Some(item.enabled),
            order: Some(item.order),
            icon: item.icon,
        }
    }
}

/// An entry of a stored configuration as the JSON reader found it: the entry,
/// or the reason why it could not be read as one.
#[derive(Clone, Debug, PartialEq, Eq)]
pub enum StoredItem {
    Read(StoredEntry),
    Unreadable(String),
}

/// A stored entry as plain values.
pub enum StoredItemModel {
    Read(ItemModel),
    Unreadable(Seq<char>),
}

impl View for StoredItem {
    type V = StoredItemModel;

    open spec fn view(&self) -> StoredItemModel {
        match self {
            StoredItem::Read(item) => StoredItemModel::Read(item@),
            StoredItem::Unreadable(reason) => StoredItemModel::Unreadable(reason@),
        }
    }
}

/// The entries of a stored list, as plain values.
pub open spec fn stored_views(items: Seq<StoredItem>) -> Seq<StoredItemModel> {
    items.map_values(|item: StoredItem| item@)
}

/// A stored configuration as the JSON reader found it.
#[derive(Clone, Debug, PartialEq, Eq)]
pub struct StoredConfig {
    /// The `version` field, when it holds an integer in the range of `u64`.
    pub version: Option<u64>,
    /// The `settings` field: absent, read, or the reason it could not be read.
    pub settings: Option<Result<Settings, String>>,
    /// The entries of the `items` field, when it holds an array.
    pub items: Option<Vec<StoredItem>>,
}

pub open spec fn msg_json_error(reason: Seq<char>) -> Seq<char> {
    "JSON 解析失败："@ + reason
}

pub open spec fn msg_missing_version() -> Seq<char> {
    "缺少有效的 version"@
}

pub open spec fn msg_stored_version(version: u32) -> Seq<char> {
    "不支持的配置版本 "@ + decimal(version as nat)
}

pub open spec fn msg_bad_settings(reason: Seq<char>) -> Seq<char> {
    "settings 字段无效："@ + reason
}

pub open spec fn msg_missing_items() -> Seq<char> {
    "缺少有效的 items 数组"@
}

pub open spec fn msg_skipped_item(id: u128) -> Seq<char> {
    "已跳过无效或重复条目："@ + uuid_text(id)
}

pub open spec fn msg_unreadable_item(position: nat, reason: Seq<char>) -> Seq<char> {
    "已跳过第 "@ + decimal(position) + " 个无效条目："@ + reason
}

/// A read entry is kept when its title and command are not blank and no kept
/// entry before it has its id.
pub open spec fn keeps(item: ItemModel, kept: Seq<ItemModel>) -> bool {
    !is_blank(item.title) && !is_blank(item.command) && !has_id(kept, item.id)
}

/// The entries that the tolerant reader keeps, in the order in which they
/// were stored.
pub open spec fn kept_items(stored: Seq<StoredItemModel>) -> Seq<ItemModel>
    decreases stored.len(),
{
    if stored.len() == 0 {
        Seq::empty()
    } else {
        let kept = kept_items(stored.drop_last());
        match stored.last() {
            StoredItemModel::Read(item) => if keeps(item, kept) {
                kept.push(item)
            } else {
                kept
            },
            StoredItemModel::Unreadable(_) => kept,
        }
    }
}

/// One warning for each stored entry that the tolerant reader drops, in the
/// order in which they were stored; unreadable entries are named by their
/// position, counted from 1.
pub open spec fn load_warnings(stored: Seq<StoredItemModel>) -> Seq<Seq<char>>
    decreases stored.len(),
{
    if stored.len() == 0 {
        Seq::empty()
    } else {
        let warnings = load_warnings(stored.drop_last());
        let kept = kept_items(stored.drop_last());
        match stored.last() {
            StoredItemModel::Read(item) => if keeps(item, kept) {
                warnings
            } else {
                warnings.push(msg_skipped_item(item.id))
            },
            StoredItemModel::Unreadable(reason) => warnings.push(
                msg_unreadable_item(stored.len(), reason),
            ),
        }
    }
}

/// What the tolerant reader makes of a stored configuration: the first of
/// these problems is refused — text that is no JSON, a missing version, a
/// version other than the current one (its low 32 bits compared), unreadable
/// settings, a missing entry list; otherwise the configuration with the kept
/// entries sorted by order and renumbered, missing settings taken as the
/// default, and a warning for each dropped entry.
pub open spec fn load_outcome(document: Result<StoredConfig, String>) -> Result<(ConfigModel, Seq<Seq<char>>), Seq<char>> {
    match document {
        Err(reason) => Err(msg_json_error(reason@)),
        Ok(stored) => match stored.version {
            None => Err(msg_missing_version()),
            Some(v) => if v as u32 != CONFIG_VERSION {
                Err(msg_stored_version(v as u32))
            } else {
                match stored.settings {
                    Some(Err(reason)) => Err(msg_bad_settings(reason@)),
                    _ => match stored.items {
                        None => Err(msg_missing_items()),
                        Some(items) => {
                            let settings = match stored.settings {
                                Some(Ok(s)) => s,
                                _ => Settings { autostart: true },
                            };
                            let entries = stored_views(items@);
                            Ok(
                                (
                                    ConfigModel {
                                        version: CONFIG_VERSION,
                                        settings,
                                        items: renumbered(sort_by_order(kept_items(entries))),
                                    },
                                    load_warnings(entries),
                                ),
                            )
                        },
                    },
                }
            },
        },
    }
}

/// Every entry's order is its position.
pub open spec fn orders_are_positions(items: Seq<ItemModel>) -> bool {
    forall|i: int| 0 <= i < items.len() ==> #[trigger] items[i].order == i as u32
}

/// A message made of a text and another string.
pub fn text_message(before: &str, reason: &str) -> (s: String)
    ensures
        s@ == before@ + reason@,
{
    let mut s = String::from_str(before);
    s.append(reason);
    s
}

/// The warning for an unreadable entry at `position` (counted from 1).
pub fn unreadable_item_message(position: u64, reason: &str) -> (s: String)
    ensures
        s@ == msg_unreadable_item(position as nat, reason@),
{
    let mut s = String::from_str("已跳过第 ");
    push_decimal(&mut s, position);
    s.append(" 个无效条目：");
    s.append(reason);
    s
}

/// Reads a stored configuration tolerantly: entries that cannot be read, that
/// lack a title or a command, or that repeat an earlier kept id are dropped
/// with a warning; the others are sorted by order and renumbered from 0.
pub fn parse_resilient(document: Result<StoredConfig, String>) -> (r: Result<(AppConfig, Vec<String>), String>)
    ensures
        match r {
            Ok((config, warnings)) => load_outcome(document) == Ok::<(ConfigModel, Seq<Seq<char>>), Seq<char>>((config@, texts(warnings@))),
            Err(e) => load_outcome(document) == Err::<(ConfigModel, Seq<Seq<char>>), Seq<char>>(e@),
        },
        r matches Ok((config, _)) ==> config_well_formed(config@) && orders_are_positions(config@.items),
{
    broadcast use vstd::std_specs::hash::group_hash_axioms;

    let ghost doc = document;
    let stored = match document {
        Ok(stored) => stored,
        Err(reason) => {
            return Err(text_message("JSON 解析失败：", reason.as_str()));
        },
    };
    let version: u32 = match stored.version {
        None => {
            return Err(String::from_str("缺少有效的 version"));
        },
        Some(v) => #[verifier::truncate] (v as u32),
    };
    if version != CONFIG_VERSION {
        let mut s = String::from_str("不支持的配置版本 ");
        push_decimal(&mut s, version as u64);
        return Err(s);
    }
    let settings = match stored.settings {
        None => Settings::default(),
        Some(Ok(settings)) => settings,
        Some(Err(reason)) => {
            return Err(text_message("settings 字段无效：", reason.as_str()));
        },
    };
    let mut rest = match stored.items {
        None => {
            return Err(String::from_str("缺少有效的 items 数组"));
        },
        Some(items) => items,
    };
    let ghost entries = stored_views(rest@);
    let total = rest.len();
    let mut kept: Vec<CommandItem> = Vec::new();
    let mut ids: HashSet<u128> = HashSet::new();
    let mut warnings: Vec<String> = Vec::new();
    let mut k: usize = 0;
    assert(stored_views(rest@) =~= entries.skip(0));
    assert(entries.take(0) =~= Seq::<StoredItemModel>::empty());
    while rest.len() > 0
        invariant
            k <= entries.len(),
            entries.len() == total,
            stored_views(rest@) == entries.skip(k as int),
            item_views(kept@) == kept_items(entries.take(k as int)),
            texts(warnings@) == load_warnings(entries.take(k as int)),
            forall|x: u128| ids@.contains(x) <==> has_id(item_views(kept@), x),
        decreases rest.len(),
    {
        proof {
            assert(stored_views(rest@).len() == rest@.len());
            assert(stored_views(rest@)[0] == rest@[0]@);
            assert(entries.skip(k as int)[0] == entries[k as int]);
            assert(entries.take(k as int + 1).drop_last() =~= entries.take(k as int));
            assert(entries.take(k as int + 1).last() == entries[k as int]);
        }
        let ghost old_rest = rest@;
        let entry = rest.remove(0);
        proof {
            assert(stored_views(old_rest.remove(0)) =~= stored_views(old_rest).skip(1));
            assert(stored_views(rest@) =~= entries.skip(k as int + 1));
        }
        let ghost kept_before = item_views(kept@);
        let ghost warnings_before = warnings@;
        match entry {
            StoredItem::Read(entry) => {
                let item = entry.into_item();
                if !is_blank_text(item.title.as_str()) && !is_blank_text(item.command.as_str()) && ids.insert(
                    item.id,
                ) {
                    let ghost before = kept@;
                    kept.push(item);
                    proof {
                        lemma_views_push(before, item);
                        assert forall|x: u128| ids@.contains(x) <==> has_id(item_views(kept@), x) by {
                            crate::ordering::lemma_has_id_push(item_views(before), item@, x);
                        }
                    }
                } else {
                    let w = id_suffix_message("已跳过无效或重复条目：", item.id);
                    warnings.push(w);
                    assert(texts(warnings@) =~= texts(warnings_before).push(w@));
                }
            },
            StoredItem::Unreadable(reason) => {
                let w = unreadable_item_message(k as u64 + 1, reason.as_str());
                warnings.push(w);
                assert(texts(warnings@) =~= texts(warnings_before).push(w@));
            },
        }
        k = k + 1;
    }
    assert(entries.take(k as int) =~= entries);
    proof {
        lemma_kept_items_well_formed(entries);
        lemma_sort_by_order_len(kept_items(entries));
        crate::ordering::lemma_sort_keeps_well_formed(kept_items(entries));
        crate::ordering::lemma_renumbered_well_formed(sort_by_order(kept_items(entries)));
    }
    let items = renumber_items(sort_items_by_order(kept));
    let config = AppConfig { version, settings, items };
    Ok((config, warnings))
}

/// The kept entries are well formed.
pub proof fn lemma_kept_items_well_formed(stored: Seq<StoredItemModel>)
    ensures
        items_well_formed(kept_items(stored)),
    decreases stored.len(),
{
    if stored.len() > 0 {
        let init = stored.drop_last();
        lemma_kept_items_well_formed(init);
        let kept = kept_items(init);
        match stored.last() {
            StoredItemModel::Read(item) => {
                if keeps(item, kept) {
                    lemma_push_well_formed(kept, item);
                }
            },
            StoredItemModel::Unreadable(_) => {},
        }
    }
}

/// Appending an entry with a title, a command and a fresh id keeps the
/// entries well formed.
pub proof fn lemma_push_well_formed(items: Seq<ItemModel>, item: ItemModel)
    requires
        items_well_formed(items),
        !is_blank(item.title),
        !is_blank(item.command),
        !has_id(items, item.id),
    ensures
        items_well_formed(items.push(item)),
{
    let s = items.push(item);
    assert forall|i: int, j: int| 0 <= i < j < s.len() implies #[trigger] s[i].id != #[trigger] s[j].id by {
        if j == items.len() {
            assert(s[i] == items[i]);
        } else {
            assert(s[i] == items[i] && s[j] == items[j]);
        }
    }
    assert forall|i: int| 0 <= i < s.len() implies !is_blank(#[trigger] s[i].title) by {
        if i < items.len() {
            assert(s[i] == items[i]);
        }
    }
    assert forall|i: int| 0 <= i < s.len() implies !is_blank(#[trigger] s[i].command) by {
        if i < items.len() {
            assert(s[i] == items[i]);
        }
    }
}

/// The default configuration passes validation.
pub proof fn lemma_default_config_well_formed(config: ConfigModel)
    requires
        config.version == CONFIG_VERSION,
        config.items.len() == 0,
    ensures
        config_well_formed(config),
{
}

pub open spec fn msg_recovered(reason: Seq<char>, backup: Seq<char>) -> Seq<char> {
    "配置无法读取（"@ + reason + "），已备份到 "@ + backup + " 并恢复默认配置。"@
}

/// The name under which an unreadable configuration file is kept, for the
/// time (in seconds since the Unix epoch) at which it was found.
pub fn corrupt_backup_file_name(timestamp: u64) -> (s: String)
    ensures
        s@ == "config.corrupt-"@ + decimal(timestamp as nat) + ".json"@,
{
    let mut s = String::from_str("config.corrupt-");
    push_decimal(&mut s, timestamp);
    s.append(".json");
    s
}

/// What loading gives when the stored configuration is refused for `reason`
/// and was kept at `backup`: the default configuration, and one warning that
/// says so.
pub fn recovered_config(reason: &str, backup: &str) -> (r: (AppConfig, Vec<String>))
    ensures
        r.0@.version == CONFIG_VERSION,
        r.0@.settings.autostart,
        r.0@.items.len() == 0,
        texts(r.1@) == seq![msg_recovered(reason@, backup@)],
{
    let mut warning = String::from_str("配置无法读取（");
    warning.append(reason);
    warning.append("），已备份到 ");
    warning.append(backup);
    warning.append(" 并恢复默认配置。");
    let mut warnings: Vec<String> = Vec::new();
    warnings.push(warning);
    assert(texts(warnings@) =~= seq![msg_recovered(reason@, backup@)]);
    (AppConfig::default(), warnings)
}

/// The stored form of entries that were all read.
pub open spec fn all_read(items: Seq<ItemModel>) -> Seq<StoredItemModel> {
    items.map_values(|item: ItemModel| StoredItemModel::Read(item))
}

/// Well-formed entries that were all read are all kept, without warnings.
pub proof fn lemma_all_kept(items: Seq<ItemModel>)
    requires
        items_well_formed(items),
    ensures
        kept_items(all_read(items)) == items,
        load_warnings(all_read(items)) == Seq::<Seq<char>>::empty(),
    decreases items.len(),
{
    if items.len() > 0 {
        let init = items.drop_last();
        crate::ordering::lemma_drop_last_well_formed(items);
        lemma_all_kept(init);
        assert(all_read(items).drop_last() =~= all_read(init));
        assert(init.push(items.last()) =~= items);
    } else {
        assert(all_read(items) =~= Seq::<StoredItemModel>::empty());
    }
}

/// Entries whose orders are their positions, fewer than 2^32 + 1 of them, are
/// in order, and renumbering leaves them as they are.
pub proof fn lemma_positions_sorted(items: Seq<ItemModel>)
    requires
        orders_are_positions(items),
        items.len() <= 0x1_0000_0000,
    ensures
        crate::ordering::orders_sorted(items),
        renumbered(items) == items,
{
    assert forall|i: int, j: int| 0 <= i < j < items.len() implies #[trigger] items[i].order
        <= #[trigger] items[j].order by {
        assert(items[i].order == i as u32);
        assert(items[j].order == j as u32);
    }
    assert forall|i: int| 0 <= i < items.len() implies #[trigger] renumbered(items)[i] == items[i] by {
        assert(items[i].order == i as u32);
    }
    assert(renumbered(items) =~= items);
}

/// A stored configuration loads back as it was stored: a configuration that
/// validation accepts, with its orders at their positions, comes back from
/// its stored form unchanged and without warnings.
pub proof fn lemma_stored_config_loads_back(config: ConfigModel, stored: StoredConfig)
    requires
        config_well_formed(config),
        orders_are_positions(config.items),
        config.items.len() <= 0x1_0000_0000,
        stored.version == Some(CONFIG_VERSION as u64),
        stored.settings == Some(Ok::<Settings, String>(config.settings)),
        stored.items matches Some(items) && stored_views(items@) == all_read(config.items),
    ensures
        load_outcome(Ok(stored)) == Ok::<(ConfigModel, Seq<Seq<char>>), Seq<char>>((config, Seq::empty())),
{
    lemma_all_kept(config.items);
    lemma_positions_sorted(config.items);
    crate::ordering::lemma_sort_of_sorted(config.items);
}

} // verus!
