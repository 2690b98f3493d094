//! The single-file export format, the checks on an imported file, and the
//! merging of imported entries into the current ones.
use vstd::prelude::*;
use std::collections::HashSet;
use crate::text::{is_blank, is_blank_text, uuid_text, push_decimal};
use crate::config::{
    AppConfig, CommandItem, ItemModel, item_views, has_id, items_well_formed, copy_items,
    lemma_views_push, lemma_views_drop_first, id_message, id_suffix_message, text_message,
};
use crate::ordering::{sort_by_order, sort_items_by_order, orders_sorted, lemma_sort_keeps_well_formed, lemma_sort_by_order_sorted};
use crate::icon::{normalize_data_url, icon_source, is_image_error, is_png_error, normalized_icon_of};

verus! {

/// The largest file, in bytes, that is read for an import.
pub const MAX_IMPORT_BYTES: u64 = 64 * 1024 * 1024;

/// The version of the export format.
pub const EXPORT_VERSION: u32 = 1;

/// The name that marks an export file.
pub open spec fn export_format() -> Seq<char> {
    "tray-command-launcher"@
}

/// An export file: its format name, its version and the entries.
#[derive(Clone, Debug, PartialEq, Eq)]
pub struct ExportFile {
    pub format: String,
    pub version: u32,
    pub items: Vec<CommandItem>,
}

/// The export file for a configuration: its entries, under the current
/// format name and version.
pub fn export_document(config: &AppConfig) -> (r: ExportFile)
    ensures
        r.format@ == export_format(),
        r.version == EXPORT_VERSION,
        item_views(r.items@) == config@.items,
{
    ExportFile {
        format: String::from_str("tray-command-launcher"),
        version: EXPORT_VERSION,
        items: copy_items(config.items.as_slice()),
    }
}

pub open spec fn msg_import_too_large() -> Seq<char> {
    "导入文件不能超过 64 MiB"@
}

/// Refuses a file to import that is larger than 64 MiB.
pub fn check_import_size(file_len: u64) -> (r: Result<(), String>)
    ensures
        r is Ok <==> file_len <= MAX_IMPORT_BYTES,
        r matches Err(e) ==> e@ == msg_import_too_large(),
{
    if file_len > MAX_IMPORT_BYTES {
        Err(String::from_str("导入文件不能超过 64 MiB"))
    } else {
        Ok(())
    }
}

pub open spec fn msg_import_format(format: Seq<char>) -> Seq<char> {
    "不支持的导入格式："@ + format
}

pub open spec fn msg_import_version(version: u32) -> Seq<char> {
    "不支持的导入版本："@ + crate::text::decimal(version as nat)
}

pub open spec fn msg_import_blank(id: u128) -> Seq<char> {
    "条目 "@ + uuid_text(id) + " 的标题和命令不能为空"@
}

pub open spec fn msg_import_duplicate(id: u128) -> Seq<char> {
    "导入文件包含重复 UUID："@ + uuid_text(id)
}

/// What an import refuses in an entry, given the entries before it: a blank
/// title or command, or an id that an earlier entry has.
pub open spec fn import_problem(item: ItemModel, earlier: Seq<ItemModel>) -> Option<Seq<char>> {
    if is_blank(item.title) || is_blank(item.command) {
        Some(msg_import_blank(item.id))
    } else if has_id(earlier, item.id) {
        Some(msg_import_duplicate(item.id))
    } else {
        None
    }
}

/// None of the entries has a problem.
pub open spec fn import_clean(items: Seq<ItemModel>) -> bool {
    forall|k: int| 0 <= k < items.len() ==> #[trigger] import_problem(items[k], items.take(k)) is None
}

/// No entry has an icon.
pub open spec fn without_icons(items: Seq<ItemModel>) -> bool {
    forall|k: int| 0 <= k < items.len() ==> (#[trigger] items[k]).icon is None
}

/// The entry at `p` is the first one with a problem.
pub open spec fn first_import_problem_at(items: Seq<ItemModel>, p: int) -> bool {
    &&& 0 <= p < items.len()
    &&& import_clean(items.take(p))
    &&& import_problem(items[p], items.take(p)) is Some
}

/// An icon after normalisation: no icon stays none; a data URL whose image
/// was read becomes the Base64 PNG data URL of that image fitted to the menu.
pub open spec fn icon_normalized(before: Option<Seq<char>>, after: Option<Seq<char>>) -> bool {
    match before {
        None => after is None,
        Some(url) => icon_source(url) is Ok && (after matches Some(n) && normalized_icon_of(url, n)),
    }
}

/// The entries `after` are the entries `before` with their icons normalised.
pub open spec fn icons_normalized(before: Seq<ItemModel>, after: Seq<ItemModel>) -> bool {
    &&& before.len() == after.len()
    &&& forall|k: int| 0 <= k < before.len() ==> {
        &&& #[trigger] after[k].id == before[k].id
        &&& after[k].title == before[k].title
        &&& after[k].command == before[k].command
        &&& after[k].enabled == before[k].enabled
        &&& after[k].order == before[k].order
        &&& icon_normalized(before[k].icon, after[k].icon)
    }
}

/// A message with which normalising the icon `url` can fail.
pub open spec fn icon_failure(url: Seq<char>, m: Seq<char>) -> bool {
    match icon_source(url) {
        Err(e) => m == e,
        Ok(_) => is_image_error(m) || is_png_error(m),
    }
}

/// The entry at `k`, and every entry before it, has no problem, and its icon
/// failed with `m`.
pub open spec fn icon_failed_at(items: Seq<ItemModel>, k: int, m: Seq<char>) -> bool {
    &&& 0 <= k < items.len()
    &&& import_clean(items.take(k + 1))
    &&& items[k].icon matches Some(url) && icon_failure(url, m)
}

/// Checks an export file and returns its entries, sorted by order, with their
/// icons normalised. It refuses another format name, another version, an
/// entry with a blank title or command, and a repeated id, naming the first
/// such entry; an icon that cannot be normalised refuses the file with the
/// icon's error, when it comes before that entry. It never runs a command.
pub fn parse(document: Result<ExportFile, String>) -> (r: Result<Vec<CommandItem>, String>)
    ensures
        document matches Err(reason) ==> r matches Err(e) && e@ == crate::config::msg_json_error(reason@),
        document matches Ok(file) ==> {
            &&& file.format@ != export_format() ==> (r matches Err(e) && e@ == msg_import_format(file.format@))
            &&& file.format@ == export_format() && file.version != EXPORT_VERSION
                ==> (r matches Err(e) && e@ == msg_import_version(file.version))
            &&& file.format@ == export_format() && file.version == EXPORT_VERSION
                ==> import_outcome(item_views(file.items@), r)
        },
        r matches Ok(out) ==> items_well_formed(item_views(out@)) && orders_sorted(item_views(out@)),
{
    let file = match document {
        Ok(file) => file,
        Err(reason) => {
            return Err(text_message("JSON 解析失败：", reason.as_str()));
        },
    };
    if !crate::text::string_equals(file.format.as_str(), "tray-command-launcher") {
        proof {
            reveal_strlit("tray-command-launcher");
        }
        return Err(text_message("不支持的导入格式：", file.format.as_str()));
    }
    proof {
        reveal_strlit("tray-command-launcher");
    }
    if file.version != EXPORT_VERSION {
        let mut m = String::from_str("不支持的导入版本：");
        push_decimal(&mut m, file.version as u64);
        return Err(m);
    }
    import_entries(file.items)
}

/// What an import makes of the entries of an export file of the right format
/// and version: accepted, the entries are clean and come back sorted by
/// order with their icons normalised; refused, the message is that of the
/// first entry with a problem or that of an icon before it. Any problem
/// refuses the import, and clean entries without icons are accepted.
pub open spec fn import_outcome(items: Seq<ItemModel>, r: Result<Vec<CommandItem>, String>) -> bool {
    &&& r matches Ok(out) ==> import_clean(items) && exists|adjusted: Seq<ItemModel>|
        icons_normalized(items, adjusted) && item_views(out@) == sort_by_order(adjusted)
    &&& r matches Err(e) ==> (exists|p: int| first_import_problem_at(items, p)
        && import_problem(items[p], items.take(p)) == Some(e@)) || (exists|k: int|
        icon_failed_at(items, k, e@))
    &&& (exists|p: int| first_import_problem_at(items, p)) ==> r is Err
    &&& (import_clean(items) && without_icons(items))
        ==> (r matches Ok(out) && item_views(out@) == sort_by_order(items))
}

/// Checks the entries of an export file and normalises their icons; see
/// `import_outcome`.
fn import_entries(entries: Vec<CommandItem>) -> (r: Result<Vec<CommandItem>, String>)
    ensures
        import_outcome(item_views(entries@), r),
        r matches Ok(out) ==> items_well_formed(item_views(out@)) && orders_sorted(item_views(out@)),
{
    broadcast use vstd::std_specs::hash::group_hash_axioms;

    let ghost items = item_views(entries@);
    let mut rest = entries;
    let total = rest.len();
    let mut out: Vec<CommandItem> = Vec::new();
    let mut ids: HashSet<u128> = HashSet::new();
    let mut k: usize = 0;
    assert(item_views(rest@) =~= items.skip(0));
    assert(items.take(0) =~= Seq::<ItemModel>::empty());
    while rest.len() > 0
        invariant
            items == item_views(entries@),
            k <= items.len(),
            items.len() == total,
            item_views(rest@) == items.skip(k as int),
            import_clean(items.take(k as int)),
            icons_normalized(items.take(k as int), item_views(out@)),
            forall|p: int| 0 <= p < k ==> !first_import_problem_at(items, p),
            forall|x: u128| ids@.contains(x) <==> has_id(item_views(out@), x),
        decreases rest.len(),
    {
        proof {
            assert(item_views(rest@).len() == rest@.len());
            assert(item_views(rest@)[0] == rest@[0]@);
            assert(items.skip(k as int)[0] == items[k as int]);
        }
        let ghost old_rest = rest@;
        let mut item = rest.remove(0);
        proof {
            lemma_views_drop_first(old_rest);
            assert(item_views(rest@) =~= items.skip(k as int + 1));
        }
        let ghost earlier = items.take(k as int);
        if is_blank_text(item.title.as_str()) || is_blank_text(item.command.as_str()) {
            proof {
                assert(first_import_problem_at(items, k as int));
                assert(!import_clean(items));
            }
            return Err(id_message("条目 ", item.id, " 的标题和命令不能为空"));
        }
        if !ids.insert(item.id) {
            proof {
                lemma_normalized_same_ids(earlier, item_views(out@), item.id);
                assert(first_import_problem_at(items, k as int));
                assert(!import_clean(items));
            }
            return Err(id_suffix_message("导入文件包含重复 UUID：", item.id));
        }
        proof {
            lemma_normalized_same_ids(earlier, item_views(out@), item.id);
            assert(import_problem(items[k as int], earlier) is None);
            assert(items.take(k as int + 1).drop_last() =~= earlier);
            lemma_clean_push(items.take(k as int + 1));
        }
        let ghost before_icon = item@;
        let icon = match &item.icon {
            Some(data_url) => {
                match normalize_data_url(data_url.as_str()) {
                    Ok(normalized) => Some(normalized),
                    Err(e) => {
                        proof {
                            assert(before_icon == items[k as int]);
                            lemma_outcome_of_icon_failure(items, k as int, e);
                        }
                        return Err(e);
                    },
                }
            },
            None => None,
        };
        item.icon = icon;
        let ghost before_out = out@;
        out.push(item);
        proof {
            lemma_views_push(before_out, item);
            assert forall|x: u128| ids@.contains(x) <==> has_id(item_views(out@), x) by {
                crate::ordering::lemma_has_id_push(item_views(before_out), item@, x);
            }
            assert(items.take(k as int + 1) =~= earlier.push(items[k as int]));
            lemma_normalized_push(earlier, item_views(before_out), before_icon, item@);
            assert forall|p: int| 0 <= p < k + 1 implies !first_import_problem_at(items, p) by {
                if p == k {
                }
            }
        }
        k = k + 1;
    }
    assert(items.take(k as int) =~= items);
    let ghost adjusted = item_views(out@);
    proof {
        lemma_clean_well_formed(items);
        lemma_normalized_well_formed(items, adjusted);
        lemma_sort_keeps_well_formed(adjusted);
        lemma_sort_by_order_sorted(adjusted);
        assert(icons_normalized(items, adjusted));
        if without_icons(items) {
            assert(adjusted =~= items) by {
                assert forall|j: int| 0 <= j < items.len() implies adjusted[j] == items[j] by {
                    assert(adjusted[j].id == items[j].id);
                    assert(items[j].icon is None);
                    assert(adjusted[j].icon is None);
                }
            }
        }
    }
    let sorted = sort_items_by_order(out);
    Ok(sorted)
}

/// An icon that fails refuses the import with its message.
pub proof fn lemma_outcome_of_icon_failure(items: Seq<ItemModel>, k: int, e: String)
    requires
        icon_failed_at(items, k, e@),
    ensures
        import_outcome(items, Err(e)),
{
    assert(!without_icons(items));
    let r = Err::<Vec<CommandItem>, String>(e);
    assert(r matches Err(m) ==> icon_failed_at(items, k, m@));
}

/// Whether an entry with `id` is in the list.
pub fn has_id_in(items: &Vec<CommandItem>, id: u128) -> (b: bool)
    ensures
        b == has_id(item_views(items@), id),
{
    let ghost views = item_views(items@);
    let mut k: usize = 0;
    while k < items.len()
        invariant
            views == item_views(items@),
            k <= items@.len(),
            forall|m: int| 0 <= m < k ==> #[trigger] views[m].id != id,
        decreases items@.len() - k,
    {
        assert(views[k as int].id == items@[k as int].id);
        if items[k].id == id {
            assert(views[k as int].id == id);
            return true;
        }
        k = k + 1;
    }
    false
}

/// Normalising icons keeps every entry's id, so the set of ids stays the same.
pub proof fn lemma_normalized_same_ids(before: Seq<ItemModel>, after: Seq<ItemModel>, id: u128)
    requires
        icons_normalized(before, after),
    ensures
        has_id(after, id) == has_id(before, id),
{
    if has_id(after, id) {
        let m = choose|m: int| 0 <= m < after.len() && #[trigger] after[m].id == id;
        assert(before[m].id == id);
    }
    if has_id(before, id) {
        let m = choose|m: int| 0 <= m < before.len() && #[trigger] before[m].id == id;
        assert(after[m].id == before[m].id);
    }
}

/// A list whose last entry has no problem after a clean prefix is clean.
pub proof fn lemma_clean_push(s: Seq<ItemModel>)
    requires
        s.len() > 0,
        import_clean(s.drop_last()),
        import_problem(s.last(), s.drop_last()) is None,
    ensures
        import_clean(s),
{
    let n = s.len() - 1;
    assert forall|k: int| 0 <= k < s.len() implies #[trigger] import_problem(s[k], s.take(k)) is None by {
        if k < n {
            assert(s.drop_last()[k] == s[k]);
            assert(s.drop_last().take(k) =~= s.take(k));
        } else {
            assert(s.take(k) =~= s.drop_last());
        }
    }
}

/// Appending an entry and its normalised form keeps the lists related.
pub proof fn lemma_normalized_push(before: Seq<ItemModel>, after: Seq<ItemModel>, x: ItemModel, y: ItemModel)
    requires
        icons_normalized(before, after),
        y.id == x.id,
        y.title == x.title,
        y.command == x.command,
        y.enabled == x.enabled,
        y.order == x.order,
        icon_normalized(x.icon, y.icon),
    ensures
        icons_normalized(before.push(x), after.push(y)),
{
    let b = before.push(x);
    let a = after.push(y);
    assert forall|k: int| 0 <= k < b.len() implies {
        &&& #[trigger] a[k].id == b[k].id
        &&& a[k].title == b[k].title
        &&& a[k].command == b[k].command
        &&& a[k].enabled == b[k].enabled
        &&& a[k].order == b[k].order
        &&& icon_normalized(b[k].icon, a[k].icon)
    } by {
        if k < before.len() {
            assert(b[k] == before[k] && a[k] == after[k]);
        }
    }
}

/// Clean entries are well formed.
pub proof fn lemma_clean_well_formed(s: Seq<ItemModel>)
    requires
        import_clean(s),
    ensures
        items_well_formed(s),
{
    assert forall|i: int, j: int| 0 <= i < j < s.len() implies #[trigger] s[i].id != #[trigger] s[j].id by {
        assert(import_problem(s[j], s.take(j)) is None);
        if s[i].id == s[j].id {
            assert(s.take(j)[i] == s[i]);
            assert(has_id(s.take(j), s[j].id));
        }
    }
    assert forall|i: int| 0 <= i < s.len() implies !is_blank(#[trigger] s[i].title) by {
        assert(import_problem(s[i], s.take(i)) is None);
    }
    assert forall|i: int| 0 <= i < s.len() implies !is_blank(#[trigger] s[i].command) by {
        assert(import_problem(s[i], s.take(i)) is None);
    }
}

/// Normalising icons keeps entries well formed.
pub proof fn lemma_normalized_well_formed(before: Seq<ItemModel>, after: Seq<ItemModel>)
    requires
        icons_normalized(before, after),
        items_well_formed(before),
    ensures
        items_well_formed(after),
{
    assert forall|i: int, j: int| 0 <= i < j < after.len() implies #[trigger] after[i].id != #[trigger] after[j].id by {
        assert(after[i].id == before[i].id && after[j].id == before[j].id);
    }
    assert forall|i: int| 0 <= i < after.len() implies !is_blank(#[trigger] after[i].title) by {
        assert(after[i].id == before[i].id);
        assert(after[i].title == before[i].title);
    }
    assert forall|i: int| 0 <= i < after.len() implies !is_blank(#[trigger] after[i].command) by {
        assert(after[i].id == before[i].id);
        assert(after[i].command == before[i].command);
    }
}

/// A UUID of version 4 and of the RFC variant: the version nibble is 4 and
/// the two top bits of the variant are `10`.
pub open spec fn is_v4_uuid(id: u128) -> bool {
    id & 0xF000_C000_0000_0000_0000u128 == 0x4000_8000_0000_0000_0000u128
}

/// `getrandom::fill` on 16 bytes, the source that `Uuid::new_v4` draws from:
/// random bytes from the operating system, or the text of its error. Where
/// `Uuid::new_v4` panics on that error, the error is handed back.
#[verifier::external_body]
fn random_bytes() -> (r: Result<[u8; 16], String>) {
    let mut bytes = [0u8; 16];
    match getrandom::fill(&mut bytes) {
        Ok(()) => Ok(bytes),
        Err(error) => Err(error.to_string()),
    }
}

/// The number that bytes give read big-endian.
pub open spec fn be_value(b: Seq<u8>) -> nat
    decreases b.len(),
{
    if b.len() == 0 {
        0
    } else {
        be_value(b.drop_last()) * 256 + b.last() as nat
    }
}

/// `uuid::Builder::from_random_bytes(bytes).into_uuid().as_u128()`: the
/// bytes read big-endian, with the version nibble set to 4 and the two top
/// variant bits to `10` (`with_version` and `with_variant` rewrite bytes 6
/// and 8).
#[verifier::external_body]
fn uuid_from_random_bytes(bytes: [u8; 16]) -> (id: u128)
    ensures
        id == ((be_value(bytes@) as u128) & 0xFFFF_FFFF_FFFF_0FFF_3FFF_FFFF_FFFF_FFFFu128) | 0x4000_8000_0000_0000_0000u128,
{
    uuid::Builder::from_random_bytes(bytes).into_uuid().as_u128()
}

/// The message when no random id can be made.
pub open spec fn msg_no_random(reason: Seq<char>) -> Seq<char> {
    "无法生成随机 ID："@ + reason
}

/// The message reports that no random id could be made.
pub open spec fn is_random_failure(m: Seq<char>) -> bool {
    exists|reason: Seq<char>| m == #[trigger] msg_no_random(reason)
}

/// A random version-4 UUID, or the error of the operating system's random
/// source.
pub fn random_id() -> (r: Result<u128, String>)
    ensures
        r matches Ok(id) ==> is_v4_uuid(id),
        r matches Err(e) ==> is_random_failure(e@),
{
    match random_bytes() {
        Ok(bytes) => {
            let id = uuid_from_random_bytes(bytes);
            let ghost x = be_value(bytes@) as u128;
            assert(((x & 0xFFFF_FFFF_FFFF_0FFF_3FFF_FFFF_FFFF_FFFFu128) | 0x4000_8000_0000_0000_0000u128)
                & 0xF000_C000_0000_0000_0000u128 == 0x4000_8000_0000_0000_0000u128) by (bit_vector);
            Ok(id)
        },
        Err(reason) => {
            let mut m = String::from_str("无法生成随机 ID：");
            m.append(reason.as_str());
            proof {
                reveal_strlit("无法生成随机 ID：");
                assert(m@ == msg_no_random(reason@));
            }
            Err(m)
        },
    }
}

/// The version-4 UUID numbered `n`: the low 62 bits of `n` fill the low 62
/// bits, the bits above them go from bit 64 on, and the version and variant
/// bits are set.
pub open spec fn v4_numbered(n: u128) -> u128 {
    0x4000_8000_0000_0000_0000u128 | (n & 0x3FFF_FFFF_FFFF_FFFFu128) | ((n >> 62u128) << 64u128)
}

/// The number of a numbered version-4 UUID.
pub open spec fn v4_number(id: u128) -> u128 {
    (id & 0x3FFF_FFFF_FFFF_FFFFu128) | (((id >> 64u128) & 0xFFFu128) << 62u128)
}

/// Numbered UUIDs are of version 4, and different numbers up to 2^64 give
/// different UUIDs.
pub proof fn lemma_v4_numbered(n: u128)
    requires
        n <= 0x1_0000_0000_0000_0000u128,
    ensures
        is_v4_uuid(v4_numbered(n)),
        v4_number(v4_numbered(n)) == n,
{
    assert((0x4000_8000_0000_0000_0000u128 | (n & 0x3FFF_FFFF_FFFF_FFFFu128) | ((n >> 62u128) << 64u128))
        & 0xF000_C000_0000_0000_0000u128 == 0x4000_8000_0000_0000_0000u128) by (bit_vector)
        requires
            n <= 0x1_0000_0000_0000_0000u128,
    ;
    assert(((0x4000_8000_0000_0000_0000u128 | (n & 0x3FFF_FFFF_FFFF_FFFFu128) | ((n >> 62u128) << 64u128))
        & 0x3FFF_FFFF_FFFF_FFFFu128) | ((((0x4000_8000_0000_0000_0000u128 | (n & 0x3FFF_FFFF_FFFF_FFFFu128) | ((n
        >> 62u128) << 64u128)) >> 64u128) & 0xFFFu128) << 62u128) == n) by (bit_vector)
        requires
            n <= 0x1_0000_0000_0000_0000u128,
    ;
}

/// Some number from 0 to the number of entries numbers a version-4 UUID that
/// is no entry's id.
pub proof fn lemma_some_numbered_id_unused(items: Seq<ItemModel>)
    requires
        items.len() <= usize::MAX,
    ensures
        exists|c: u128| c <= items.len() && !#[trigger] has_id(items, v4_numbered(c)),
{
    let ids = items.map_values(|m: ItemModel| v4_number(m.id) as int);
    let n = items.len() as int;
    if forall|c: u128| c <= n ==> #[trigger] has_id(items, v4_numbered(c)) {
        let range = vstd::set_lib::set_int_range(0, n + 1);
        vstd::set_lib::lemma_int_range(0, n + 1);
        ids.lemma_cardinality_of_set();
        vstd::seq_lib::seq_to_set_is_finite(ids);
        assert forall|c: int| range.contains(c) implies ids.to_set().contains(c) by {
            assert(0 <= c <= n);
            assert(has_id(items, v4_numbered(c as u128)));
            let k = choose|k: int| 0 <= k < items.len() && #[trigger] items[k].id == v4_numbered(c as u128);
            lemma_v4_numbered(c as u128);
            assert(ids[k] == c);
        }
        assert(range.subset_of(ids.to_set()));
        vstd::set_lib::lemma_len_subset(range, ids.to_set());
        assert(false);
    }
}

/// A version-4 UUID that no entry has as its id: the first free one of the
/// numbered ones.
fn unused_v4_id(items: &Vec<CommandItem>) -> (id: u128)
    ensures
        !has_id(item_views(items@), id),
        is_v4_uuid(id),
{
    let n = items.len() as u128;
    proof {
        lemma_some_numbered_id_unused(item_views(items@));
    }
    let mut c: u128 = 0;
    let mut id: u128 = 0x4000_8000_0000_0000_0000u128 | (c & 0x3FFF_FFFF_FFFF_FFFFu128) | ((c >> 62u128) << 64u128);
    while has_id_in(items, id)
        invariant
            n == items@.len(),
            n <= usize::MAX,
            c <= n,
            id == v4_numbered(c),
            exists|f: u128| c <= f <= n && !#[trigger] has_id(item_views(items@), v4_numbered(f)),
        decreases n - c,
    {
        proof {
            let f = choose|f: u128| c <= f <= n && !#[trigger] has_id(item_views(items@), v4_numbered(f));
            assert(f != c);
        }
        c = c + 1;
        id = 0x4000_8000_0000_0000_0000u128 | (c & 0x3FFF_FFFF_FFFF_FFFFu128) | ((c >> 62u128) << 64u128);
    }
    proof {
        lemma_v4_numbered(c);
    }
    id
}

/// `after` is the imported entry `before` as it is appended behind `kept`:
/// its fields unchanged but for its order, which is the number of entries
/// before it, and its id, which is kept when no entry before it has it and is
/// replaced by one that none has otherwise.
pub open spec fn merged_entry(before: ItemModel, after: ItemModel, kept: Seq<ItemModel>) -> bool {
    &&& after.title == before.title
    &&& after.command == before.command
    &&& after.enabled == before.enabled
    &&& after.icon == before.icon
    &&& after.order == kept.len() as u32
    &&& !has_id(kept, after.id)
    &&& !has_id(kept, before.id) ==> after.id == before.id
    &&& has_id(kept, before.id) ==> is_v4_uuid(after.id)
}

/// `out` is `existing` followed by the imported entries, each merged behind
/// the entries before it.
pub open spec fn merged(existing: Seq<ItemModel>, imported: Seq<ItemModel>, out: Seq<ItemModel>) -> bool {
    &&& out.len() == existing.len() + imported.len()
    &&& out.take(existing.len() as int) == existing
    &&& forall|k: int| 0 <= k < imported.len() ==> merged_entry(
        imported[k],
        #[trigger] out[existing.len() + k],
        out.take(existing.len() + k),
    )
}

/// No imported entry has an id that an existing entry or an earlier
/// imported entry has.
pub open spec fn ids_all_free(existing: Seq<ItemModel>, imported: Seq<ItemModel>) -> bool {
    forall|k: int| 0 <= k < imported.len() ==> !has_id(existing + imported.take(k), #[trigger] imported[k].id)
}

/// Lists with the same ids, place by place, have the same ids.
pub proof fn lemma_same_ids(a: Seq<ItemModel>, b: Seq<ItemModel>, x: u128)
    requires
        a.len() == b.len(),
        forall|m: int| 0 <= m < a.len() ==> #[trigger] a[m].id == b[m].id,
    ensures
        has_id(a, x) == has_id(b, x),
{
    if has_id(a, x) {
        let m = choose|m: int| 0 <= m < a.len() && #[trigger] a[m].id == x;
        assert(b[m].id == x);
    }
    if has_id(b, x) {
        let m = choose|m: int| 0 <= m < b.len() && #[trigger] b[m].id == x;
        assert(a[m].id == x);
    }
}

/// The ids of the entries, as a hash set.
fn id_set(items: &Vec<CommandItem>) -> (ids: HashSet<u128>)
    ensures
        forall|x: u128| ids@.contains(x) <==> has_id(item_views(items@), x),
{
    broadcast use vstd::std_specs::hash::group_hash_axioms;

    let ghost views = item_views(items@);
    let mut ids: HashSet<u128> = HashSet::new();
    let mut k: usize = 0;
    while k < items.len()
        invariant
            views == item_views(items@),
            k <= items@.len(),
            forall|x: u128| ids@.contains(x) <==> has_id(views.take(k as int), x),
        decreases items@.len() - k,
    {
        assert(views[k as int].id == items@[k as int].id);
        ids.insert(items[k].id);
        proof {
            assert(views.take(k as int + 1) =~= views.take(k as int).push(views[k as int]));
            assert forall|x: u128| ids@.contains(x) <==> has_id(views.take(k as int + 1), x) by {
                crate::ordering::lemma_has_id_push(views.take(k as int), views[k as int], x);
            }
        }
        k = k + 1;
    }
    assert(views.take(k as int) =~= views);
    ids
}

/// Appends imported entries to the existing ones. An imported entry whose id
/// is already taken gets a new random version-4 id, drawn until it is free
/// (should every one of 2^64 draws be taken, the first free one of a fixed
/// numbering of version-4 ids is used, so that the loop ends); each appended
/// entry's order is its position. Only the random source can fail, so it
/// succeeds when no id is taken.
pub fn merge(existing: &[CommandItem], imported: Vec<CommandItem>) -> (r: Result<Vec<CommandItem>, String>)
    ensures
        r matches Ok(out) ==> merged(item_views(existing@), item_views(imported@), item_views(out@)),
        r matches Err(e) ==> is_random_failure(e@),
        ids_all_free(item_views(existing@), item_views(imported@)) ==> r is Ok,
{
    broadcast use vstd::std_specs::hash::group_hash_axioms;

    let ghost ex = item_views(existing@);
    let ghost im = item_views(imported@);
    let mut result = copy_items(existing);
    let mut ids = id_set(&result);
    let base = result.len();
    let total = imported.len();
    let mut rest = imported;
    let mut k: usize = 0;
    assert(item_views(rest@) =~= im.skip(0));
    while rest.len() > 0
        invariant
            ex == item_views(existing@),
            im == item_views(imported@),
            base == ex.len(),
            total == im.len(),
            k <= total,
            item_views(rest@) == im.skip(k as int),
            item_views(result@).len() == base + k,
            item_views(result@).take(base as int) == ex,
            forall|j: int| 0 <= j < k ==> merged_entry(
                im[j],
                #[trigger] item_views(result@)[base + j],
                item_views(result@).take(base + j),
            ),
            forall|x: u128| ids@.contains(x) <==> has_id(item_views(result@), x),
            ids_all_free(ex, im) ==> forall|j: int| 0 <= j < k ==> #[trigger] item_views(result@)[base + j].id == im[j].id,
        decreases rest.len(),
    {
        proof {
            assert(item_views(rest@).len() == rest@.len());
            assert(item_views(rest@)[0] == rest@[0]@);
            assert(im.skip(k as int)[0] == im[k as int]);
        }
        let ghost old_rest = rest@;
        let mut item = rest.remove(0);
        proof {
            lemma_views_drop_first(old_rest);
            assert(item_views(rest@) =~= im.skip(k as int + 1));
        }
        let ghost incoming = item@;
        let ghost kept = item_views(result@);
        proof {
            if ids_all_free(ex, im) {
                let prior = ex + im.take(k as int);
                assert forall|m: int| 0 <= m < kept.len() implies #[trigger] kept[m].id == prior[m].id by {
                    if m < base {
                        assert(kept[m] == kept.take(base as int)[m]);
                    } else {
                        assert(kept[base + (m - base)].id == im[m - base].id);
                    }
                }
                lemma_same_ids(kept, prior, incoming.id);
                assert(!has_id(prior, im[k as int].id));
            }
        }
        let mut attempts: u64 = 0;
        let mut taken = ids.contains(&item.id);
        while taken
            invariant
                ex == item_views(existing@),
                im == item_views(imported@),
                kept == item_views(result@),
                forall|x: u128| ids@.contains(x) <==> has_id(kept, x),
                taken == has_id(kept, item.id),
                item@.title == incoming.title,
                item@.command == incoming.command,
                item@.enabled == incoming.enabled,
                item@.icon == incoming.icon,
                item@.order == incoming.order,
                !has_id(kept, incoming.id) ==> item.id == incoming.id,
                has_id(kept, incoming.id) ==> taken || is_v4_uuid(item.id),
                ids_all_free(ex, im) ==> !taken && item.id == incoming.id,
            decreases (u64::MAX - attempts) as int + if taken { 1int } else { 0int },
        {
            if attempts < u64::MAX {
                match random_id() {
                    Ok(id) => {
                        item.id = id;
                    },
                    Err(e) => {
                        return Err(e);
                    },
                }
                attempts = attempts + 1;
                taken = ids.contains(&item.id);
            } else {
                item.id = unused_v4_id(&result);
                taken = false;
            }
        }
        item.order = #[verifier::truncate] (result.len() as u32);
        let new_id = item.id;
        let ghost before_push = result@;
        result.push(item);
        ids.insert(new_id);
        proof {
            lemma_views_push(before_push, item);
            let now = item_views(result@);
            assert(now.take(base as int) =~= kept.take(base as int));
            assert(now.take(base + k) =~= kept);
            assert(merged_entry(im[k as int], now[base + k], now.take(base + k)));
            assert forall|j: int| 0 <= j < k + 1 implies merged_entry(
                im[j],
                #[trigger] now[base + j],
                now.take(base + j),
            ) by {
                if j < k {
                    assert(now[base + j] == kept[base + j]);
                    assert(now.take(base + j) =~= kept.take(base + j));
                }
            }
            assert forall|x: u128| ids@.contains(x) <==> has_id(now, x) by {
                crate::ordering::lemma_has_id_push(kept, item@, x);
            }
            if ids_all_free(ex, im) {
                assert forall|j: int| 0 <= j < k + 1 implies #[trigger] now[base + j].id == im[j].id by {
                    if j < k {
                        assert(now[base + j] == kept[base + j]);
                    }
                }
            }
        }
        k = k + 1;
    }
    Ok(result)
}

/// When the existing entries have distinct ids, so do the merged ones.
pub proof fn lemma_merged_ids_distinct(existing: Seq<ItemModel>, imported: Seq<ItemModel>, out: Seq<ItemModel>)
    requires
        merged(existing, imported, out),
        forall|i: int, j: int| 0 <= i < j < existing.len() ==> #[trigger] existing[i].id != #[trigger] existing[j].id,
    ensures
        forall|i: int, j: int| 0 <= i < j < out.len() ==> #[trigger] out[i].id != #[trigger] out[j].id,
{
    let n = existing.len();
    assert forall|i: int, j: int| 0 <= i < j < out.len() implies #[trigger] out[i].id != #[trigger] out[j].id by {
        if j < n {
            assert(out[i] == out.take(n as int)[i] && out[j] == out.take(n as int)[j]);
        } else {
            let k = j - n;
            assert(merged_entry(imported[k], out[n + k], out.take(n + k)));
            assert(out.take(n + k)[i] == out[i]);
        }
    }
}

/// Well-formed entries have no import problem.
pub proof fn lemma_well_formed_clean(items: Seq<ItemModel>)
    requires
        items_well_formed(items),
    ensures
        import_clean(items),
{
    assert forall|k: int| 0 <= k < items.len() implies #[trigger] import_problem(items[k], items.take(k)) is None by {
        assert(!is_blank(items[k].title));
        assert(!is_blank(items[k].command));
        if has_id(items.take(k), items[k].id) {
            let m = choose|m: int| 0 <= m < items.take(k).len() && #[trigger] items.take(k)[m].id == items[k].id;
            assert(items[m].id == items[k].id);
        }
    }
}

/// Exported entries come back from an import as they were: a configuration
/// that validation accepts, whose entries are in order and carry no icons,
/// is imported from its export file without change.
pub proof fn lemma_export_import_round_trip(items: Seq<ItemModel>, r: Result<Vec<CommandItem>, String>)
    requires
        items_well_formed(items),
        orders_sorted(items),
        without_icons(items),
        import_outcome(items, r),
    ensures
        r matches Ok(out) && item_views(out@) == items,
{
    lemma_well_formed_clean(items);
    crate::ordering::lemma_sort_of_sorted(items);
}

} // verus!
