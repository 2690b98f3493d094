//! The edits that the settings window makes to the configuration: saving,
//! deleting, moving and switching entries, importing entries, and finding an
//! entry to run. Each edit is followed by sorting, renumbering and
//! validation, as the application does before it stores the result.
use vstd::prelude::*;
use crate::text::{trimmed, trim_text, uuid_text, uuid_to_text, string_equals};
use crate::config::{
    AppConfig, CommandItem, ConfigModel, ItemModel, item_views, has_id, validate, config_well_formed,
    config_problem, orders_are_positions, lemma_views_push, id_suffix_message, text_message,
};
use crate::ordering::{sort_by_order, renumbered, sort_items_by_order, renumber_items};
use crate::icon::{normalize_data_url, icon_source};
use crate::import_export::{
    merge, merged, has_id_in, icon_normalized, icon_failure, is_v4_uuid, random_id, is_random_failure, ids_all_free,
};

verus! {

/// The entries after an edit: sorted by order and renumbered.
pub open spec fn finished(items: Seq<ItemModel>) -> Seq<ItemModel> {
    renumbered(sort_by_order(items))
}

/// `new` is what an edit that left the entries `edited` gives: the version and
/// settings of `old`, the edited entries finished, and the verdict of
/// validation.
pub open spec fn finished_update(old: ConfigModel, new: ConfigModel, edited: Seq<ItemModel>, r: Result<(), String>) -> bool {
    &&& new == ConfigModel { version: old.version, settings: old.settings, items: finished(edited) }
    &&& r is Ok <==> config_well_formed(new)
    &&& r matches Err(e) ==> config_problem(new) == Some(e@)
}

/// Renumbered entries have their positions as orders.
pub proof fn lemma_renumbered_positions(s: Seq<ItemModel>)
    ensures
        orders_are_positions(renumbered(s)),
{
}

/// Entries that have their positions as orders are finished as they are.
pub proof fn lemma_finished_positions(s: Seq<ItemModel>)
    requires
        orders_are_positions(s),
        s.len() <= 0x1_0000_0000,
    ensures
        finished(s) == s,
{
    assert forall|i: int, j: int| 0 <= i < j < s.len() implies #[trigger] s[i].order <= #[trigger] s[j].order by {
        assert(s[i].order == i as u32 && s[j].order == j as u32);
    }
    crate::ordering::lemma_sort_of_sorted(s);
    assert forall|i: int| 0 <= i < s.len() implies #[trigger] renumbered(s)[i] == s[i] by {
        assert(s[i].order == i as u32);
        assert(renumbered(s)[i] == crate::ordering::with_order(s[i], i as u32));
    }
    assert(renumbered(s) =~= s);
}

/// Finishing keeps the ids of the entries and their number.
pub proof fn lemma_finished_ids(s: Seq<ItemModel>, x: u128)
    ensures
        finished(s).len() == s.len(),
        has_id(finished(s), x) <==> has_id(s, x),
{
    broadcast use vstd::seq_lib::group_to_multiset_ensures;

    let t = sort_by_order(s);
    crate::ordering::lemma_sort_by_order_sorted(s);
    crate::ordering::lemma_sort_by_order_len(s);
    let f = finished(s);
    if has_id(s, x) {
        let k = choose|k: int| 0 <= k < s.len() && #[trigger] s[k].id == x;
        assert(s.contains(s[k]));
        assert(t.to_multiset().contains(s[k]));
        let j = choose|j: int| 0 <= j < t.len() && t[j] == s[k];
        assert(f[j].id == x);
    }
    if has_id(f, x) {
        let j = choose|j: int| 0 <= j < f.len() && #[trigger] f[j].id == x;
        assert(t[j].id == x);
        assert(t.contains(t[j]));
        assert(s.to_multiset().contains(t[j]));
        let k = choose|k: int| 0 <= k < s.len() && s[k] == t[j];
        assert(s[k].id == x);
    }
}

/// Sorts, renumbers and validates the entries after an edit.
pub fn finish_update(config: &mut AppConfig) -> (r: Result<(), String>)
    ensures
        finished_update(old(config)@, final(config)@, old(config)@.items, r),
        r is Ok ==> config_well_formed(final(config)@) && orders_are_positions(final(config)@.items),
{
    let mut items: Vec<CommandItem> = Vec::new();
    std::mem::swap(&mut items, &mut config.items);
    let items = renumber_items(sort_items_by_order(items));
    config.items = items;
    proof {
        lemma_renumbered_positions(sort_by_order(old(config)@.items));
    }
    validate(config)
}

pub open spec fn msg_not_found(id: Seq<char>) -> Seq<char> {
    "未找到命令条目："@ + id
}

/// The first entry with this id stands at `k`.
pub open spec fn first_with_id(items: Seq<ItemModel>, id: u128, k: int) -> bool {
    &&& 0 <= k < items.len()
    &&& items[k].id == id
    &&& forall|j: int| 0 <= j < k ==> #[trigger] items[j].id != id
}

/// The position of the first entry with `id`, if there is one.
fn position_of(items: &Vec<CommandItem>, id: u128) -> (r: Option<usize>)
    ensures
        match r {
            Some(k) => first_with_id(item_views(items@), id, k as int),
            None => !has_id(item_views(items@), id),
        },
{
    let ghost views = item_views(items@);
    let mut k: usize = 0;
    while k < items.len()
        invariant
            views == item_views(items@),
            k <= items@.len(),
            forall|m: int| 0 <= m < k ==> #[trigger] views[m].id != id,
        decreases items@.len() - k,
    {
        assert(views[k as int].id == items@[k as int].id);
        if items[k].id == id {
            return Some(k);
        }
        k = k + 1;
    }
    None
}

/// The entry with its `enabled` flag set.
pub open spec fn with_enabled(item: ItemModel, enabled: bool) -> ItemModel {
    ItemModel {
        id: item.id,
        title: item.title,
        command: item.command,
        enabled,
        order: item.order,
        icon: item.icon,
    }
}

/// The message for an entry id that is not in the configuration.
fn not_found_message(id: u128) -> (s: String)
    ensures
        s@ == msg_not_found(uuid_text(id)),
{
    id_suffix_message("未找到命令条目：", id)
}

/// Replaces the entry at `k`, returning the one that stood there.
fn replace_item(items: &mut Vec<CommandItem>, k: usize, item: CommandItem) -> (old_item: CommandItem)
    requires
        k < old(items)@.len(),
    ensures
        final(items)@ == old(items)@.update(k as int, item),
        old_item == old(items)@[k as int],
{
    let old_item = items.remove(k);
    items.insert(k, item);
    assert(final(items)@ =~= old(items)@.update(k as int, item));
    old_item
}

/// The views of a list with one entry replaced.
proof fn lemma_views_update(s: Seq<CommandItem>, k: int, x: CommandItem)
    requires
        0 <= k < s.len(),
    ensures
        item_views(s.update(k, x)) == item_views(s).update(k, x@),
{
    assert(item_views(s.update(k, x)) =~= item_views(s).update(k, x@));
}

/// Switches the first entry with `id` on or off. An unknown id leaves the
/// configuration as it is.
pub fn set_entry_enabled(config: &mut AppConfig, id: u128, enabled: bool) -> (r: Result<(), String>)
    ensures
        !has_id(old(config)@.items, id) ==> final(config)@ == old(config)@ && (r matches Err(e) && e@
            == msg_not_found(uuid_text(id))),
        forall|k: int| first_with_id(old(config)@.items, id, k) ==> finished_update(
            old(config)@,
            final(config)@,
            old(config)@.items.update(k, with_enabled(old(config)@.items[k], enabled)),
            r,
        ),
        r is Ok ==> config_well_formed(final(config)@) && orders_are_positions(final(config)@.items),
        has_id(old(config)@.items, id) ==> exists|j: int|
            0 <= j < final(config)@.items.len() && #[trigger] final(config)@.items[j].id == id
                && final(config)@.items[j].enabled == enabled,
        forall|k: int|
            first_with_id(old(config)@.items, id, k) && orders_are_positions(old(config)@.items)
                && old(config)@.items.len() <= 0x1_0000_0000 ==> {
                &&& final(config)@.items.len() == old(config)@.items.len()
                &&& final(config)@.items[k].enabled == enabled
                &&& final(config)@.items[k].id == id
                &&& final(config)@.items[k].title == old(config)@.items[k].title
                &&& final(config)@.items[k].command == old(config)@.items[k].command
                &&& final(config)@.items[k].order == old(config)@.items[k].order
                &&& final(config)@.items[k].icon == old(config)@.items[k].icon
                &&& forall|j: int| 0 <= j < old(config)@.items.len() && j != k ==> #[trigger] final(config)@.items[j]
                    == old(config)@.items[j]
            },
{
    match position_of(&config.items, id) {
        None => Err(not_found_message(id)),
        Some(k) => {
            let ghost before = config@;
            let mut item = config.items.remove(k);
            item.enabled = enabled;
            config.items.insert(k, item);
            proof {
                assert(config.items@ =~= old(config).items@.update(k as int, item));
                lemma_views_update(old(config).items@, k as int, item);
                assert(item@ == with_enabled(before.items[k as int], enabled));
                assert forall|j: int| first_with_id(before.items, id, j) implies j == k by {
                    if j < k {
                        assert(before.items[j].id != id);
                    }
                    if k < j {
                        assert(before.items[k as int].id != id);
                    }
                }
            }
            let r = finish_update(config);
            proof {
                lemma_switch_sets_flag(old(config)@, config@, id, enabled, k as int, r);
            }
            r
        },
    }
}

/// Switching an entry on or off sets the flag asked for and keeps the rest:
/// an entry with the id now has that flag; and when the entries have their
/// positions as orders, the switched entry stays at its place with all its
/// other fields, and every other entry stays as it was.
pub proof fn lemma_switch_sets_flag(
    old: ConfigModel,
    new: ConfigModel,
    id: u128,
    enabled: bool,
    k: int,
    r: Result<(), String>,
)
    requires
        first_with_id(old.items, id, k),
        finished_update(old, new, old.items.update(k, with_enabled(old.items[k], enabled)), r),
    ensures
        exists|j: int| 0 <= j < new.items.len() && #[trigger] new.items[j].id == id && new.items[j].enabled == enabled,
        orders_are_positions(old.items) && old.items.len() <= 0x1_0000_0000 ==> {
            &&& new.items.len() == old.items.len()
            &&& new.items[k].enabled == enabled
            &&& new.items[k].id == id
            &&& new.items[k].title == old.items[k].title
            &&& new.items[k].command == old.items[k].command
            &&& new.items[k].order == old.items[k].order
            &&& new.items[k].icon == old.items[k].icon
            &&& forall|j: int| 0 <= j < old.items.len() && j != k ==> #[trigger] new.items[j] == old.items[j]
        },
{
    broadcast use vstd::seq_lib::group_to_multiset_ensures;

    let edited = old.items.update(k, with_enabled(old.items[k], enabled));
    let t = sort_by_order(edited);
    crate::ordering::lemma_sort_by_order_sorted(edited);
    crate::ordering::lemma_sort_by_order_len(edited);
    assert(edited.contains(edited[k]));
    assert(t.to_multiset().contains(edited[k]));
    let j = choose|j: int| 0 <= j < t.len() && t[j] == edited[k];
    assert(new.items[j].id == id && new.items[j].enabled == enabled);
    if orders_are_positions(old.items) && old.items.len() <= 0x1_0000_0000 {
        assert(orders_are_positions(edited)) by {
            assert forall|i: int| 0 <= i < edited.len() implies #[trigger] edited[i].order == i as u32 by {
                assert(old.items[i].order == i as u32);
            }
        }
        lemma_finished_positions(edited);
    }
}

/// The entries without those that have `id`.
pub open spec fn without_id(s: Seq<ItemModel>, id: u128) -> Seq<ItemModel>
    decreases s.len(),
{
    if s.len() == 0 {
        s
    } else if s.last().id == id {
        without_id(s.drop_last(), id)
    } else {
        without_id(s.drop_last(), id).push(s.last())
    }
}

/// `without_id` drops exactly the entries with the id and keeps the others,
/// in their order.
pub proof fn lemma_without_id_filters(s: Seq<ItemModel>, id: u128)
    ensures
        without_id(s, id) == s.filter(|e: ItemModel| e.id != id),
    decreases s.len(),
{
    reveal_with_fuel(Seq::filter, 1);
    if s.len() > 0 {
        lemma_without_id_filters(s.drop_last(), id);
    }
}

/// The entries with an id and those without it make up all the entries.
pub proof fn lemma_id_split_len(s: Seq<ItemModel>, id: u128)
    ensures
        s.filter(|e: ItemModel| e.id != id).len() + s.filter(|e: ItemModel| e.id == id).len() == s.len(),
    decreases s.len(),
{
    reveal_with_fuel(Seq::filter, 1);
    if s.len() > 0 {
        lemma_id_split_len(s.drop_last(), id);
    }
}

/// Deleting removes every entry with the id and keeps each other one:
/// afterwards no entry has the id, every other id is there exactly when it
/// was before, and the entries are the old ones less those with the id.
pub proof fn lemma_delete_removes_exactly(old: ConfigModel, new: ConfigModel, id: u128, r: Result<(), String>)
    requires
        finished_update(old, new, without_id(old.items, id), r),
    ensures
        !has_id(new.items, id),
        forall|x: u128| x != id ==> (has_id(new.items, x) <==> has_id(old.items, x)),
        new.items.len() + old.items.filter(|e: ItemModel| e.id == id).len() == old.items.len(),
{
    let kept = without_id(old.items, id);
    lemma_without_id_filters(old.items, id);
    lemma_id_split_len(old.items, id);
    old.items.filter_lemma(|e: ItemModel| e.id != id);
    lemma_finished_ids(kept, id);
    if has_id(kept, id) {
        let j = choose|j: int| 0 <= j < kept.len() && #[trigger] kept[j].id == id;
        assert(kept[j].id != id);
    }
    assert forall|x: u128| x != id implies (has_id(new.items, x) <==> has_id(old.items, x)) by {
        lemma_finished_ids(kept, x);
        if has_id(old.items, x) {
            let i = choose|i: int| 0 <= i < old.items.len() && #[trigger] old.items[i].id == x;
            assert(kept.contains(old.items[i]));
            let j = choose|j: int| 0 <= j < kept.len() && kept[j] == old.items[i];
            assert(kept[j].id == x);
        }
        if has_id(kept, x) {
            let j = choose|j: int| 0 <= j < kept.len() && #[trigger] kept[j].id == x;
            assert(kept.contains(kept[j]));
            old.items.lemma_filter_contains_rev(|e: ItemModel| e.id != id, kept[j]);
            let i = choose|i: int| 0 <= i < old.items.len() && old.items[i] == kept[j];
            assert(old.items[i].id == x);
        }
    }
}

/// Deletes every entry with `id`. An unknown id leaves the configuration as
/// it is.
pub fn delete_entry(config: &mut AppConfig, id: u128) -> (r: Result<(), String>)
    ensures
        !has_id(old(config)@.items, id) ==> final(config)@ == old(config)@ && (r matches Err(e) && e@
            == msg_not_found(uuid_text(id))),
        has_id(old(config)@.items, id) ==> finished_update(
            old(config)@,
            final(config)@,
            without_id(old(config)@.items, id),
            r,
        ),
        r is Ok ==> config_well_formed(final(config)@) && orders_are_positions(final(config)@.items),
        has_id(old(config)@.items, id) ==> {
            &&& !has_id(final(config)@.items, id)
            &&& forall|x: u128| x != id ==> (has_id(final(config)@.items, x) <==> has_id(old(config)@.items, x))
            &&& final(config)@.items.len() + old(config)@.items.filter(|e: ItemModel| e.id == id).len()
                == old(config)@.items.len()
        },
{
    if !has_id_in(&config.items, id) {
        return Err(not_found_message(id));
    }
    let ghost all = item_views(config.items@);
    let mut rest: Vec<CommandItem> = Vec::new();
    std::mem::swap(&mut rest, &mut config.items);
    let total = rest.len();
    let mut kept: Vec<CommandItem> = Vec::new();
    let mut k: usize = 0;
    assert(item_views(rest@) =~= all.skip(0));
    assert(all.take(0) =~= Seq::<ItemModel>::empty());
    while rest.len() > 0
        invariant
            total == all.len(),
            k <= total,
            item_views(rest@) == all.skip(k as int),
            item_views(kept@) == without_id(all.take(k as int), id),
        decreases rest.len(),
    {
        proof {
            assert(item_views(rest@).len() == rest@.len());
            assert(item_views(rest@)[0] == rest@[0]@);
            assert(all.skip(k as int)[0] == all[k as int]);
            assert(all.take(k as int + 1).drop_last() =~= all.take(k as int));
        }
        let ghost old_rest = rest@;
        let item = rest.remove(0);
        proof {
            crate::config::lemma_views_drop_first(old_rest);
            assert(item_views(rest@) =~= all.skip(k as int + 1));
        }
        if item.id != id {
            let ghost before = kept@;
            kept.push(item);
            proof {
                lemma_views_push(before, item);
            }
        }
        k = k + 1;
    }
    assert(all.take(k as int) =~= all);
    config.items = kept;
    let r = finish_update(config);
    proof {
        lemma_delete_removes_exactly(old(config)@, config@, id, r);
    }
    r
}

/// The entries with those at `i` and `j` exchanged.
pub open spec fn swapped(s: Seq<ItemModel>, i: int, j: int) -> Seq<ItemModel> {
    s.update(i, s[j]).update(j, s[i])
}

/// The text `up` or `down`, for a direction.
pub open spec fn is_direction(d: Seq<char>) -> bool {
    d == "up"@ || d == "down"@
}

/// Where an entry at `index` of `len` entries goes when moved in direction
/// `d`: one place up or down, or nowhere at an end.
pub open spec fn move_target(d: Seq<char>, index: int, len: int) -> Option<int> {
    if d == "up"@ && index > 0 {
        Some(index - 1)
    } else if d == "down"@ && index + 1 < len {
        Some(index + 1)
    } else {
        None
    }
}

pub open spec fn msg_bad_direction() -> Seq<char> {
    "排序方向必须是 up 或 down"@
}

/// Moves the entry with `id` one place up or down. The entries are first
/// sorted by order, and stay so when the entry or the direction is refused.
/// At an end, nothing moves and the entries are finished as after any edit.
pub fn move_entry(config: &mut AppConfig, id: u128, direction: &str) -> (r: Result<(), String>)
    ensures
        ({
            let sorted = sort_by_order(old(config)@.items);
            let unchanged = ConfigModel { version: old(config)@.version, settings: old(config)@.settings, items: sorted };
            &&& !has_id(sorted, id) ==> final(config)@ == unchanged && (r matches Err(e) && e@ == msg_not_found(uuid_text(id)))
            &&& forall|k: int| first_with_id(sorted, id, k) ==> {
                &&& !is_direction(direction@) ==> final(config)@ == unchanged && (r matches Err(e) && e@ == msg_bad_direction())
                &&& is_direction(direction@) ==> finished_update(
                    old(config)@,
                    final(config)@,
                    match move_target(direction@, k, sorted.len() as int) {
                        Some(t) => renumbered(swapped(sorted, k, t)),
                        None => sorted,
                    },
                    r,
                )
            }
        }),
        r is Ok ==> config_well_formed(final(config)@) && orders_are_positions(final(config)@.items),
{
    let mut items: Vec<CommandItem> = Vec::new();
    std::mem::swap(&mut items, &mut config.items);
    config.items = sort_items_by_order(items);
    let ghost sorted = config@.items;
    let ghost unchanged = config@;
    let index = match position_of(&config.items, id) {
        None => {
            return Err(not_found_message(id));
        },
        Some(index) => index,
    };
    proof {
        assert forall|j: int| first_with_id(sorted, id, j) implies j == index by {
            if j < index {
                assert(sorted[j].id != id);
            }
            if index < j {
                assert(sorted[index as int].id != id);
            }
        }
        reveal_strlit("up");
        reveal_strlit("down");
    }
    let len = config.items.len();
    let up = string_equals(direction, "up");
    let down = string_equals(direction, "down");
    if up && index > 0 {
        swap_items(&mut config.items, index, index - 1);
    } else if down && index + 1 < len {
        swap_items(&mut config.items, index, index + 1);
    } else if up || down {
        return finish_update(config);
    } else {
        return Err(String::from_str("排序方向必须是 up 或 down"));
    }
    let mut items: Vec<CommandItem> = Vec::new();
    std::mem::swap(&mut items, &mut config.items);
    config.items = renumber_items(items);
    finish_update(config)
}

/// Exchanges the entries at `i` and `j`.
fn swap_items(items: &mut Vec<CommandItem>, i: usize, j: usize)
    requires
        i < old(items)@.len(),
        j < old(items)@.len(),
        i != j,
    ensures
        item_views(final(items)@) == swapped(item_views(old(items)@), i as int, j as int),
{
    let placeholder = CommandItem {
        id: 0,
        title: String::new(),
        command: String::new(),
        enabled: false,
        order: 0,
        icon: None,
    };
    let a = replace_item(items, i, placeholder);
    let b = replace_item(items, j, a);
    let _ = replace_item(items, i, b);
    assert(item_views(final(items)@) =~= swapped(item_views(old(items)@), i as int, j as int));
}

/// The import modes: append to the entries, or replace them.
pub open spec fn is_import_mode(m: Seq<char>) -> bool {
    m == "append"@ || m == "replace"@
}

pub open spec fn msg_bad_mode() -> Seq<char> {
    "导入模式必须是 append 或 replace"@
}

/// Takes imported entries into the configuration: `append` merges them
/// behind the current entries, `replace` puts them in their place. Another
/// mode, or a failure of the random source while merging, leaves the
/// configuration as it is.
pub fn import_items(config: &mut AppConfig, mode: &str, imported: Vec<CommandItem>) -> (r: Result<(), String>)
    ensures
        !is_import_mode(mode@) ==> final(config)@ == old(config)@ && (r matches Err(e) && e@ == msg_bad_mode()),
        mode@ == "replace"@ ==> finished_update(old(config)@, final(config)@, item_views(imported@), r),
        mode@ == "append"@ ==> (exists|m: Seq<ItemModel>|
            merged(old(config)@.items, item_views(imported@), m) && finished_update(old(config)@, final(config)@, m, r))
            || (final(config)@ == old(config)@ && (r matches Err(e) && is_random_failure(e@))),
        mode@ == "append"@ && ids_all_free(old(config)@.items, item_views(imported@)) ==> exists|m: Seq<ItemModel>|
            merged(old(config)@.items, item_views(imported@), m) && finished_update(old(config)@, final(config)@, m, r),
        r is Ok ==> config_well_formed(final(config)@) && orders_are_positions(final(config)@.items),
{
    proof {
        reveal_strlit("append");
        reveal_strlit("replace");
        assert("append"@.len() != "replace"@.len());
    }
    if string_equals(mode, "append") {
        let merged_items = match merge(config.items.as_slice(), imported) {
            Ok(items) => items,
            Err(e) => {
                return Err(e);
            },
        };
        let ghost m = item_views(merged_items@);
        config.items = merged_items;
        let r = finish_update(config);
        assert(merged(old(config)@.items, item_views(imported@), m));
        r
    } else if string_equals(mode, "replace") {
        let ghost before = config@;
        config.items = imported;
        assert(config@ == ConfigModel { version: before.version, settings: before.settings, items: item_views(imported@) });
        finish_update(config)
    } else {
        Err(String::from_str("导入模式必须是 append 或 replace"))
    }
}

/// What the settings window sends to save an entry: an existing entry's id,
/// or none for a new entry, and the entry's fields.
#[derive(Clone, Debug, PartialEq, Eq)]
pub struct ItemInput {
    pub id: Option<u128>,
    pub title: String,
    pub command: String,
    pub enabled: bool,
    pub icon: Option<String>,
}

/// The icon that a saved entry gets: none for no icon or an empty one, else
/// the normalised data URL.
pub open spec fn saved_icon(given: Option<Seq<char>>, icon: Option<Seq<char>>) -> bool {
    match given {
        None => icon is None,
        Some(url) => if url.len() == 0 {
            icon is None
        } else {
            icon_normalized(Some(url), icon)
        },
    }
}

/// The entry with new title, command, enabled flag and icon.
pub open spec fn edited_item(item: ItemModel, title: Seq<char>, command: Seq<char>, enabled: bool, icon: Option<Seq<char>>) -> ItemModel {
    ItemModel { id: item.id, title, command, enabled, order: item.order, icon }
}

/// The entries after saving: the first entry with the given id edited, or a
/// new entry with `new_id` appended with its position as order.
pub open spec fn saved_items(
    items: Seq<ItemModel>,
    id: Option<u128>,
    title: Seq<char>,
    command: Seq<char>,
    enabled: bool,
    icon: Option<Seq<char>>,
    new_id: u128,
    k: int,
) -> Seq<ItemModel> {
    match id {
        Some(_) => items.update(k, edited_item(items[k], title, command, enabled, icon)),
        None => items.push(ItemModel { id: new_id, title, command, enabled, order: items.len() as u32, icon }),
    }
}

/// A non-empty icon is given.
pub open spec fn has_icon_to_save(given: Option<Seq<char>>) -> bool {
    match given {
        Some(url) => url.len() > 0,
        None => false,
    }
}

/// A non-empty icon is given whose data URL is refused.
pub open spec fn icon_source_refused(given: Option<Seq<char>>) -> bool {
    match given {
        Some(url) => url.len() > 0 && icon_source(url) is Err,
        None => false,
    }
}

/// The save was refused with the data URL's own error.
pub open spec fn icon_refused_with_source_error(given: Option<Seq<char>>, r: Result<(), String>) -> bool {
    match (given, r) {
        (Some(url), Err(e)) => icon_source(url) == Err::<Seq<u8>, Seq<char>>(e@),
        _ => false,
    }
}

/// An id is given that no entry has.
pub open spec fn id_given_unknown(items: Seq<ItemModel>, id: Option<u128>) -> bool {
    match id {
        Some(i) => !has_id(items, i),
        None => false,
    }
}

/// The save was refused for its icon: the message is that of the failed
/// normalisation.
pub open spec fn icon_refused(given: Option<Seq<char>>, r: Result<(), String>) -> bool {
    match (given, r) {
        (Some(url), Err(e)) => url.len() > 0 && icon_failure(url, e@),
        _ => false,
    }
}

/// The save was refused for an unknown id.
pub open spec fn id_unknown(items: Seq<ItemModel>, id: Option<u128>, r: Result<(), String>) -> bool {
    match (id, r) {
        (Some(i), Err(e)) => !has_id(items, i) && e@ == msg_not_found(uuid_text(i)),
        _ => false,
    }
}

/// The entry was saved: with the icon that saving gives, the first entry
/// with the given id was edited (or a new one appended, with a random
/// version-4 id), and the entries were finished and validated.
pub open spec fn entry_saved(
    old: ConfigModel,
    new: ConfigModel,
    id: Option<u128>,
    title: Seq<char>,
    command: Seq<char>,
    enabled: bool,
    given: Option<Seq<char>>,
    r: Result<(), String>,
) -> bool {
    exists|icon: Option<Seq<char>>, new_id: u128, k: int| {
        &&& #[trigger] saved_icon(given, icon)
        &&& (id matches Some(i) ==> first_with_id(old.items, i, k))
        &&& (id is None ==> is_v4_uuid(new_id))
        &&& finished_update(old, new, #[trigger] saved_items(old.items, id, title, command, enabled, icon, new_id, k), r)
    }
}

/// Saving a new entry appends it: when the entries have their positions as
/// orders, the old entries stay as they were, in front, and the new one comes
/// last with the title, command and flag given, the next position as its
/// order and a version-4 id.
pub proof fn lemma_new_entry_appended(
    old: ConfigModel,
    new: ConfigModel,
    title: Seq<char>,
    command: Seq<char>,
    enabled: bool,
    given: Option<Seq<char>>,
    r: Result<(), String>,
)
    requires
        entry_saved(old, new, None, title, command, enabled, given, r),
        orders_are_positions(old.items),
        old.items.len() < 0xFFFF_FFFF,
    ensures
        new.items.len() == old.items.len() + 1,
        new.items.take(old.items.len() as int) == old.items,
        new.items.last().title == title,
        new.items.last().command == command,
        new.items.last().enabled == enabled,
        new.items.last().order == old.items.len() as u32,
        is_v4_uuid(new.items.last().id),
{
    let (icon, new_id, k) = choose|icon: Option<Seq<char>>, new_id: u128, k: int| {
        &&& #[trigger] saved_icon(given, icon)
        &&& (None::<u128> matches Some(i) ==> first_with_id(old.items, i, k))
        &&& (None::<u128> is None ==> is_v4_uuid(new_id))
        &&& finished_update(
            old,
            new,
            #[trigger] saved_items(old.items, None, title, command, enabled, icon, new_id, k),
            r,
        )
    };
    let pushed = saved_items(old.items, None, title, command, enabled, icon, new_id, k);
    assert(orders_are_positions(pushed)) by {
        assert forall|i: int| 0 <= i < pushed.len() implies #[trigger] pushed[i].order == i as u32 by {
            if i < old.items.len() {
                assert(pushed[i] == old.items[i]);
            }
        }
    }
    lemma_finished_positions(pushed);
    assert(pushed.take(old.items.len() as int) =~= old.items);
}

/// Saves an entry from the settings window: the title and command are
/// trimmed, a non-empty icon is normalised, and the entry with the given id
/// is edited, or a new entry with a random id is appended. An icon that
/// cannot be normalised, an unknown id, or a failure of the random source
/// leaves the configuration as it is.
pub fn save_entry(config: &mut AppConfig, input: ItemInput) -> (r: Result<(), String>)
    ensures
        ({
            let given = crate::config::opt_text(input.icon);
            let title = trimmed(input.title@);
            let command = trimmed(input.command@);
            &&& {
                ||| icon_refused(given, r) && final(config)@ == old(config)@
                ||| id_unknown(old(config)@.items, input.id, r) && final(config)@ == old(config)@
                    && exists|icon: Option<Seq<char>>| #[trigger] saved_icon(given, icon)
                ||| input.id is None && (r matches Err(e) && is_random_failure(e@)) && final(config)@ == old(
                    config,
                )@ && exists|icon: Option<Seq<char>>| #[trigger] saved_icon(given, icon)
                ||| entry_saved(old(config)@, final(config)@, input.id, title, command, input.enabled, given, r)
            }
            &&& icon_source_refused(given) ==> final(config)@ == old(config)@ && icon_refused_with_source_error(given, r)
            &&& id_given_unknown(old(config)@.items, input.id) ==> r is Err && final(config)@ == old(config)@
            &&& !has_icon_to_save(given) && id_given_unknown(old(config)@.items, input.id) ==> id_unknown(
                old(config)@.items,
                input.id,
                r,
            )
        }),
        r is Ok ==> config_well_formed(final(config)@) && orders_are_positions(final(config)@.items),
        input.id is None && r is Ok && orders_are_positions(old(config)@.items) && old(config)@.items.len()
            < 0xFFFF_FFFF ==> {
            &&& final(config)@.items.len() == old(config)@.items.len() + 1
            &&& final(config)@.items.take(old(config)@.items.len() as int) == old(config)@.items
            &&& final(config)@.items.last().title == trimmed(input.title@)
            &&& final(config)@.items.last().command == trimmed(input.command@)
            &&& final(config)@.items.last().enabled == input.enabled
            &&& final(config)@.items.last().order == old(config)@.items.len() as u32
            &&& is_v4_uuid(final(config)@.items.last().id)
        },
{
    let title = trim_text(input.title.as_str());
    let command = trim_text(input.command.as_str());
    let ghost given = crate::config::opt_text(input.icon);
    let icon: Option<String> = match &input.icon {
        Some(url) => {
            if url.as_str().is_empty() {
                None
            } else {
                match normalize_data_url(url.as_str()) {
                    Ok(normalized) => Some(normalized),
                    Err(e) => {
                        return Err(e);
                    },
                }
            }
        },
        None => None,
    };
    let ghost icon_v = crate::config::opt_text(icon);
    assert(saved_icon(given, icon_v));
    match input.id {
        Some(id) => {
            match position_of(&config.items, id) {
                None => Err(not_found_message(id)),
                Some(k) => {
                    let ghost before = config@;
                    let old_item = config.items.remove(k);
                    let item = CommandItem {
                        id: old_item.id,
                        title,
                        command,
                        enabled: input.enabled,
                        order: old_item.order,
                        icon,
                    };
                    config.items.insert(k, item);
                    proof {
                        assert(config.items@ =~= old(config).items@.update(k as int, item));
                        lemma_views_update(old(config).items@, k as int, item);
                        assert(item@ == edited_item(before.items[k as int], trimmed(input.title@), trimmed(input.command@), input.enabled, icon_v));
                    }
                    let r = finish_update(config);
                    assert(saved_icon(given, icon_v) && first_with_id(old(config)@.items, id, k as int)
                        && finished_update(old(config)@, final(config)@, saved_items(old(config)@.items, input.id, trimmed(input.title@), trimmed(input.command@), input.enabled, icon_v, 0, k as int), r));
                    r
                },
            }
        },
        None => {
            let new_id = match random_id() {
                Ok(id) => id,
                Err(e) => {
                    return Err(e);
                },
            };
            let order = #[verifier::truncate] (config.items.len() as u32);
            let item = CommandItem { id: new_id, title, command, enabled: input.enabled, order, icon };
            let ghost before = config.items@;
            config.items.push(item);
            proof {
                lemma_views_push(before, item);
            }
            let r = finish_update(config);
            assert(saved_icon(given, icon_v)
                && finished_update(old(config)@, final(config)@, saved_items(old(config)@.items, input.id, trimmed(input.title@), trimmed(input.command@), input.enabled, icon_v, new_id, 0), r));
            proof {
                assert(entry_saved(old(config)@, config@, input.id, trimmed(input.title@), trimmed(input.command@), input.enabled, given, r));
                if orders_are_positions(old(config)@.items) && old(config)@.items.len() < 0xFFFF_FFFF {
                    lemma_new_entry_appended(old(config)@, config@, trimmed(input.title@), trimmed(input.command@), input.enabled, given, r);
                }
            }
            r
        },
    }
}

/// The first entry whose id, as text, is `id`, stands at `k`.
pub open spec fn first_with_text_id(items: Seq<ItemModel>, id: Seq<char>, k: int) -> bool {
    &&& 0 <= k < items.len()
    &&& uuid_text(items[k].id) == id
    &&& forall|j: int| 0 <= j < k ==> uuid_text(#[trigger] items[j].id) != id
}

/// Some entry's id, as text, is `id`.
pub open spec fn has_text_id(items: Seq<ItemModel>, id: Seq<char>) -> bool {
    exists|k: int| 0 <= k < items.len() && uuid_text(#[trigger] items[k].id) == id
}

/// A copy of the first entry whose id, as text, is `id`.
pub fn entry_by_text_id(config: &AppConfig, id: &str) -> (r: Option<CommandItem>)
    ensures
        r is None <==> !has_text_id(config@.items, id@),
        r matches Some(item) ==> exists|k: int| first_with_text_id(config@.items, id@, k) && item@ == config@.items[k],
{
    let ghost views = config@.items;
    let mut k: usize = 0;
    while k < config.items.len()
        invariant
            views == item_views(config.items@),
            k <= config.items@.len(),
            forall|m: int| 0 <= m < k ==> uuid_text(#[trigger] views[m].id) != id@,
        decreases config.items@.len() - k,
    {
        let text = uuid_to_text(config.items[k].id);
        assert(views[k as int] == config.items@[k as int]@);
        if string_equals(text.as_str(), id) {
            let item = config.items[k].duplicate();
            assert(first_with_text_id(views, id@, k as int));
            return Some(item);
        }
        k = k + 1;
    }
    None
}

/// The entry to run for the settings window's request, or the message for an
/// unknown id.
pub fn execute_entry(config: &AppConfig, id: &str) -> (r: Result<CommandItem, String>)
    ensures
        r is Err <==> !has_text_id(config@.items, id@),
        r matches Err(e) ==> e@ == msg_not_found(id@),
        r matches Ok(item) ==> exists|k: int| first_with_text_id(config@.items, id@, k) && item@ == config@.items[k],
{
    match entry_by_text_id(config, id) {
        Some(item) => Ok(item),
        None => Err(text_message("未找到命令条目：", id)),
    }
}

/// Renumbered entries, fewer than 2^32 + 1 of them, come out of finishing as
/// they are.
proof fn lemma_finished_renumbered(s: Seq<ItemModel>)
    requires
        s.len() <= 0x1_0000_0000,
    ensures
        finished(renumbered(s)) == renumbered(s),
        sort_by_order(renumbered(s)) == renumbered(s),
{
    let t = renumbered(s);
    lemma_renumbered_positions(s);
    crate::config::lemma_positions_sorted(t);
    crate::ordering::lemma_sort_of_sorted(t);
}

/// Moving an entry up and then down again gives back the entries as they
/// were, when their orders are their positions (as after any edit).
pub proof fn lemma_move_up_then_down(items: Seq<ItemModel>, id: u128, k: int)
    requires
        orders_are_positions(items),
        items.len() <= 0x1_0000_0000,
        first_with_id(items, id, k),
        k > 0,
    ensures
        ({
            let sorted = sort_by_order(items);
            let up = move_target("up"@, k, sorted.len() as int);
            let once = finished(renumbered(swapped(sorted, k, k - 1)));
            let sorted_again = sort_by_order(once);
            let down = move_target("down"@, k - 1, sorted_again.len() as int);
            &&& sorted == items
            &&& up == Some(k - 1)
            &&& first_with_id(sorted_again, id, k - 1)
            &&& down == Some(k)
            &&& finished(renumbered(swapped(sorted_again, k - 1, k))) == items
        }),
{
    reveal_strlit("up");
    reveal_strlit("down");
    crate::config::lemma_positions_sorted(items);
    crate::ordering::lemma_sort_of_sorted(items);
    let first = swapped(items, k, k - 1);
    lemma_finished_renumbered(first);
    let once = renumbered(first);
    assert(sort_by_order(once) == once);
    assert forall|j: int| 0 <= j < k - 1 implies #[trigger] once[j].id != id by {
        assert(once[j].id == items[j].id);
    }
    assert(once[k - 1].id == items[k].id);
    let second = swapped(once, k - 1, k);
    lemma_finished_renumbered(second);
    assert forall|i: int| 0 <= i < items.len() implies #[trigger] renumbered(second)[i] == items[i] by {
        assert(items[i].order == i as u32);
    }
    assert(renumbered(second) =~= items);
    assert("down"@ != "up"@) by {
        assert("down"@.len() != "up"@.len());
    }
    assert(move_target("up"@, k, items.len() as int) == Some(k - 1));
    assert(move_target("down"@, k - 1, once.len() as int) == Some(k));
    assert(first_with_id(once, id, k - 1));
}

} // verus!
