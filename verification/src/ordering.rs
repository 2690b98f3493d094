//! The order of the entries: a stable sort by their `order` field, and the
//! renumbering that follows it.
use vstd::prelude::*;
use crate::config::{CommandItem, ItemModel, item_views, items_well_formed, has_id, lemma_push_well_formed, orders_are_positions};
use crate::text::is_blank;

verus! {

/// The entries are in nondecreasing `order`.
pub open spec fn orders_sorted(s: Seq<ItemModel>) -> bool {
    forall|i: int, j: int| 0 <= i < j < s.len() ==> #[trigger] s[i].order <= #[trigger] s[j].order
}

/// `x` placed after every entry of `s` whose order is not greater than its
/// own, counting from the back: for a sorted `s`, behind all entries with a
/// smaller or equal order.
pub open spec fn insert_by_order(s: Seq<ItemModel>, x: ItemModel) -> Seq<ItemModel>
    decreases s.len(),
{
    if s.len() == 0 {
        seq![x]
    } else if s.last().order <= x.order {
        s.push(x)
    } else {
        insert_by_order(s.drop_last(), x).push(s.last())
    }
}

/// The stable sort of the entries by `order`: entries with the same order keep
/// the order in which they came.
pub open spec fn sort_by_order(s: Seq<ItemModel>) -> Seq<ItemModel>
    decreases s.len(),
{
    if s.len() == 0 {
        s
    } else {
        insert_by_order(sort_by_order(s.drop_last()), s.last())
    }
}

/// The entry with its order set to `order`.
pub open spec fn with_order(item: ItemModel, order: u32) -> ItemModel {
    ItemModel {
        id: item.id,
        title: item.title,
        command: item.command,
        enabled: item.enabled,
        order,
        icon: item.icon,
    }
}

/// The entries with their orders set to their positions.
pub open spec fn renumbered(s: Seq<ItemModel>) -> Seq<ItemModel> {
    Seq::new(s.len(), |i: int| with_order(s[i], i as u32))
}

/// Where the back-to-front scan stops, the insertion is a plain split.
pub proof fn lemma_insert_split(s: Seq<ItemModel>, x: ItemModel, p: int)
    requires
        0 <= p <= s.len(),
        forall|m: int| p <= m < s.len() ==> #[trigger] s[m].order > x.order,
        p > 0 ==> s[p - 1].order <= x.order,
    ensures
        insert_by_order(s, x) == s.take(p).push(x) + s.skip(p),
    decreases s.len(),
{
    if s.len() == 0 {
        assert(s.take(p).push(x) + s.skip(p) =~= seq![x]);
    } else if p == s.len() {
        assert(s.take(p).push(x) + s.skip(p) =~= s.push(x));
    } else {
        let init = s.drop_last();
        assert(s[s.len() - 1].order > x.order);
        assert forall|m: int| p <= m < init.len() implies #[trigger] init[m].order > x.order by {
            assert(init[m] == s[m]);
        }
        lemma_insert_split(init, x, p);
        assert(insert_by_order(s, x) == insert_by_order(init, x).push(s.last()));
        assert((init.take(p).push(x) + init.skip(p)).push(s.last()) =~= s.take(p).push(x) + s.skip(p));
    }
}

/// Sorting keeps the number of entries.
pub proof fn lemma_sort_by_order_len(s: Seq<ItemModel>)
    ensures
        sort_by_order(s).len() == s.len(),
    decreases s.len(),
{
    if s.len() > 0 {
        lemma_sort_by_order_len(s.drop_last());
        lemma_insert_len(sort_by_order(s.drop_last()), s.last());
    }
}

/// Inserting adds one entry.
pub proof fn lemma_insert_len(s: Seq<ItemModel>, x: ItemModel)
    ensures
        insert_by_order(s, x).len() == s.len() + 1,
    decreases s.len(),
{
    if s.len() > 0 && s.last().order > x.order {
        lemma_insert_len(s.drop_last(), x);
    }
}

/// Inserting into a sorted list keeps it sorted, and keeps its entries.
pub proof fn lemma_insert_sorted(s: Seq<ItemModel>, x: ItemModel)
    requires
        orders_sorted(s),
    ensures
        orders_sorted(insert_by_order(s, x)),
        insert_by_order(s, x).to_multiset() == s.to_multiset().insert(x),
    decreases s.len(),
{
    broadcast use vstd::seq_lib::group_to_multiset_ensures;
    if s.len() == 0 {
        assert(seq![x] =~= Seq::<ItemModel>::empty().push(x));
    } else if s.last().order <= x.order {
    } else {
        let init = s.drop_last();
        assert forall|i: int, j: int| 0 <= i < j < init.len() implies #[trigger] init[i].order
            <= #[trigger] init[j].order by {
            assert(init[i] == s[i] && init[j] == s[j]);
        }
        lemma_insert_sorted(init, x);
        lemma_insert_len(init, x);
        let t = insert_by_order(init, x);
        assert forall|k: int| 0 <= k < t.len() implies #[trigger] t[k].order <= s.last().order by {
            assert(t.to_multiset().count(t[k]) > 0);
            assert(init.to_multiset().insert(x).count(t[k]) > 0);
            if t[k] != x {
                assert(init.to_multiset().count(t[k]) > 0);
                assert(init.contains(t[k]));
                let m = choose|m: int| 0 <= m < init.len() && init[m] == t[k];
                assert(s[m] == init[m]);
                assert(s[m].order <= s[s.len() - 1].order);
            }
        }
        assert(s =~= init.push(s.last()));
    }
}

/// The sort gives entries in nondecreasing order, and the same entries as it
/// was given.
pub proof fn lemma_sort_by_order_sorted(s: Seq<ItemModel>)
    ensures
        orders_sorted(sort_by_order(s)),
        sort_by_order(s).to_multiset() == s.to_multiset(),
    decreases s.len(),
{
    broadcast use vstd::seq_lib::group_to_multiset_ensures;
    if s.len() == 0 {
    } else {
        let init = s.drop_last();
        lemma_sort_by_order_sorted(init);
        lemma_insert_sorted(sort_by_order(init), s.last());
        assert(s =~= init.push(s.last()));
    }
}

/// The entries sorted by `order`; entries with the same order keep their
/// relative position (`sort_by_key` on `order`).
pub fn sort_items_by_order(items: Vec<CommandItem>) -> (r: Vec<CommandItem>)
    ensures
        item_views(r@) == sort_by_order(item_views(items@)),
{
    let ghost input = item_views(items@);
    let total = items.len();
    let mut rest = items;
    let mut out: Vec<CommandItem> = Vec::new();
    let mut k: usize = 0;
    assert(input.take(0) =~= Seq::<ItemModel>::empty());
    assert(item_views(rest@) =~= input.skip(0));
    while rest.len() > 0
        invariant
            k <= input.len(),
            input.len() == total,
            item_views(out@) == sort_by_order(input.take(k as int)),
            item_views(rest@) == input.skip(k as int),
        decreases rest.len(),
    {
        proof {
            assert(item_views(rest@).len() == rest@.len());
            assert(item_views(rest@)[0] == rest@[0]@);
            assert(input.skip(k as int)[0] == input[k as int]);
        }
        let ghost old_rest = rest@;
        let x = rest.remove(0);
        proof {
            crate::config::lemma_views_drop_first(old_rest);
        }
        let mut p = out.len();
        while p > 0 && out[p - 1].order > x.order
            invariant
                p <= out@.len(),
                forall|m: int| p <= m < out@.len() ==> #[trigger] out@[m].order > x.order,
            decreases p,
        {
            p = p - 1;
        }
        let ghost before = item_views(out@);
        proof {
            assert forall|m: int| p <= m < before.len() implies #[trigger] before[m].order > x@.order by {
                assert(before[m] == out@[m]@);
            }
            if p > 0 {
                assert(before[p - 1] == out@[p - 1]@);
            }
            lemma_insert_split(before, x@, p as int);
        }
        out.insert(p, x);
        proof {
            assert(item_views(out@) =~= before.take(p as int).push(x@) + before.skip(p as int));
            assert(input.take(k as int + 1).drop_last() =~= input.take(k as int));
            assert(input.take(k as int + 1).last() == x@);
            assert(item_views(rest@) =~= input.skip(k as int + 1));
        }
        k = k + 1;
    }
    assert(input.take(k as int) =~= input);
    out
}

/// The entries with each order set to the entry's position (`index as u32`).
pub fn renumber_items(items: Vec<CommandItem>) -> (r: Vec<CommandItem>)
    ensures
        item_views(r@) == renumbered(item_views(items@)),
{
    let ghost input = item_views(items@);
    let ghost target = renumbered(input);
    let mut rest = items;
    let mut out: Vec<CommandItem> = Vec::new();
    assert(item_views(rest@) =~= input.skip(0));
    while rest.len() > 0
        invariant
            out@.len() <= input.len(),
            item_views(out@) == target.take(out@.len() as int),
            item_views(rest@) == input.skip(out@.len() as int),
            target == renumbered(input),
        decreases rest.len(),
    {
        let ghost k = out@.len() as int;
        proof {
            assert(item_views(rest@).len() == rest@.len());
            assert(item_views(rest@)[0] == rest@[0]@);
            assert(input.skip(k)[0] == input[k]);
        }
        let ghost old_rest = rest@;
        let mut x = rest.remove(0);
        proof {
            crate::config::lemma_views_drop_first(old_rest);
        }
        x.order = #[verifier::truncate] (out.len() as u32);
        let ghost before = out@;
        out.push(x);
        proof {
            crate::config::lemma_views_push(before, x);
        }
        assert(item_views(out@) =~= target.take(k + 1));
        assert(item_views(rest@) =~= input.skip(k + 1));
    }
    assert(item_views(out@) =~= target);
    out
}

/// An entry with `id` is in the longer list exactly when it is in the shorter
/// one or is the appended entry.
pub proof fn lemma_has_id_push(s: Seq<ItemModel>, x: ItemModel, id: u128)
    ensures
        has_id(s.push(x), id) <==> has_id(s, id) || x.id == id,
{
    let t = s.push(x);
    if has_id(s, id) {
        let k = choose|k: int| 0 <= k < s.len() && #[trigger] s[k].id == id;
        assert(t[k] == s[k]);
    }
    if x.id == id {
        assert(t[s.len() as int] == x);
    }
    if has_id(t, id) {
        let k = choose|k: int| 0 <= k < t.len() && #[trigger] t[k].id == id;
        if k < s.len() {
            assert(t[k] == s[k]);
        }
    }
}

/// A prefix of well-formed entries is well formed.
pub proof fn lemma_drop_last_well_formed(s: Seq<ItemModel>)
    requires
        s.len() > 0,
        items_well_formed(s),
    ensures
        items_well_formed(s.drop_last()),
        !has_id(s.drop_last(), s.last().id),
        !is_blank(s.last().title),
        !is_blank(s.last().command),
{
    let init = s.drop_last();
    assert forall|i: int, j: int| 0 <= i < j < init.len() implies #[trigger] init[i].id != #[trigger] init[j].id by {
        assert(init[i] == s[i] && init[j] == s[j]);
    }
    assert forall|i: int| 0 <= i < init.len() implies !is_blank(#[trigger] init[i].title) by {
        assert(init[i] == s[i]);
    }
    assert forall|i: int| 0 <= i < init.len() implies !is_blank(#[trigger] init[i].command) by {
        assert(init[i] == s[i]);
    }
    if has_id(init, s.last().id) {
        let k = choose|k: int| 0 <= k < init.len() && #[trigger] init[k].id == s.last().id;
        assert(s[k].id == s[s.len() - 1].id);
    }
    assert(!is_blank(s[s.len() - 1].title));
    assert(!is_blank(s[s.len() - 1].command));
}

/// Inserting an entry with a title, a command and a fresh id keeps the
/// entries well formed, and adds exactly its id.
pub proof fn lemma_insert_well_formed(s: Seq<ItemModel>, x: ItemModel)
    requires
        items_well_formed(s),
        !is_blank(x.title),
        !is_blank(x.command),
        !has_id(s, x.id),
    ensures
        items_well_formed(insert_by_order(s, x)),
        forall|id: u128| has_id(insert_by_order(s, x), id) <==> has_id(s, id) || x.id == id,
    decreases s.len(),
{
    if s.len() == 0 {
        assert(insert_by_order(s, x) =~= s.push(x));
        lemma_push_well_formed(s, x);
        assert forall|id: u128| has_id(insert_by_order(s, x), id) <==> has_id(s, id) || x.id == id by {
            lemma_has_id_push(s, x, id);
        }
    } else if s.last().order <= x.order {
        lemma_push_well_formed(s, x);
        assert forall|id: u128| has_id(insert_by_order(s, x), id) <==> has_id(s, id) || x.id == id by {
            lemma_has_id_push(s, x, id);
        }
    } else {
        let init = s.drop_last();
        let last = s.last();
        lemma_drop_last_well_formed(s);
        assert(s =~= init.push(last));
        assert(!has_id(init, x.id)) by {
            lemma_has_id_push(init, last, x.id);
        }
        lemma_insert_well_formed(init, x);
        let t = insert_by_order(init, x);
        assert(last.id != x.id) by {
            lemma_has_id_push(init, last, x.id);
        }
        assert(!has_id(t, last.id));
        lemma_push_well_formed(t, last);
        assert(insert_by_order(s, x) == t.push(last));
        assert forall|id: u128| has_id(insert_by_order(s, x), id) <==> has_id(s, id) || x.id == id by {
            lemma_has_id_push(t, last, id);
            lemma_has_id_push(init, last, id);
            assert(has_id(t, id) <==> has_id(init, id) || x.id == id);
            assert(has_id(s, id) == has_id(init.push(last), id));
        }
    }
}

/// Sorting keeps well-formed entries well formed, with the same ids.
pub proof fn lemma_sort_keeps_well_formed(s: Seq<ItemModel>)
    requires
        items_well_formed(s),
    ensures
        items_well_formed(sort_by_order(s)),
        forall|id: u128| has_id(sort_by_order(s), id) <==> has_id(s, id),
    decreases s.len(),
{
    if s.len() > 0 {
        let init = s.drop_last();
        let last = s.last();
        lemma_drop_last_well_formed(s);
        lemma_sort_keeps_well_formed(init);
        lemma_insert_well_formed(sort_by_order(init), last);
        assert(s =~= init.push(last));
        assert forall|id: u128| has_id(sort_by_order(s), id) <==> has_id(s, id) by {
            lemma_has_id_push(init, last, id);
        }
    }
}

/// Renumbering keeps well-formed entries well formed, and makes every order
/// the entry's position.
pub proof fn lemma_renumbered_well_formed(s: Seq<ItemModel>)
    requires
        items_well_formed(s),
    ensures
        items_well_formed(renumbered(s)),
        orders_are_positions(renumbered(s)),
{
    let t = renumbered(s);
    assert forall|i: int, j: int| 0 <= i < j < t.len() implies #[trigger] t[i].id != #[trigger] t[j].id by {
        assert(t[i].id == s[i].id && t[j].id == s[j].id);
    }
    assert forall|i: int| 0 <= i < t.len() implies !is_blank(#[trigger] t[i].title) by {
        assert(t[i].title == s[i].title);
    }
    assert forall|i: int| 0 <= i < t.len() implies !is_blank(#[trigger] t[i].command) by {
        assert(t[i].command == s[i].command);
    }
}

/// Sorting entries that are already in order leaves them as they are.
pub proof fn lemma_sort_of_sorted(s: Seq<ItemModel>)
    requires
        orders_sorted(s),
    ensures
        sort_by_order(s) == s,
    decreases s.len(),
{
    if s.len() > 0 {
        let init = s.drop_last();
        assert forall|i: int, j: int| 0 <= i < j < init.len() implies #[trigger] init[i].order
            <= #[trigger] init[j].order by {
            assert(init[i] == s[i] && init[j] == s[j]);
        }
        lemma_sort_of_sorted(init);
        if init.len() > 0 {
            assert(init.last() == s[s.len() - 2]);
        }
        assert(init.push(s.last()) =~= s);
    }
}

} // verus!
