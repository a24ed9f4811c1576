//! What items and nets are: how items are found, replaced and taken away, and
//! what joining, renaming and forgetting nets does.

use vstd::prelude::*;

use crate::board_doc::{BoardDoc, NetRecord};
use crate::item::{
    extended, ids_are_unique, item_of, lemma_item_of_absent, lemma_item_of_index,
    lemma_item_of_none, lemma_item_of_some, lemma_without_contains, lemma_without_item,
    lemma_without_unique, obstacle_count, replaced, with_net, without, Entry, Item, ItemId, NetId,
};
use crate::nets::{
    fresh_names, name_taken, net_created, net_named, net_renamed, nets_added, unassigned,
    wires_of_net, NetError,
};

verus! {

/// An item is found by its id exactly if it is on the board.
pub proof fn law_an_item_is_found_by_its_id(entries: Seq<Entry>, id: ItemId)
    requires
        ids_are_unique(entries),
    ensures
        match item_of(entries, id) {
            Some(item) => exists|i: int|
                0 <= i < entries.len() && (#[trigger] entries[i]).id == id && entries[i].item
                    == item,
            None => forall|i: int| 0 <= i < entries.len() ==> (#[trigger] entries[i]).id != id,
        },
        forall|i: int|
            #![trigger entries[i]]
            0 <= i < entries.len() ==> item_of(entries, entries[i].id) == Some(entries[i].item),
{
    if item_of(entries, id) is Some {
        let i = lemma_item_of_some(entries, id);
        assert(entries[i].id == id);
    } else {
        lemma_item_of_none(entries, id);
    }
    assert forall|i: int| #![trigger entries[i]] 0 <= i < entries.len() implies item_of(
        entries,
        entries[i].id,
    ) == Some(entries[i].item) by {
        lemma_item_of_index(entries, i);
    }
}

/// Putting a pad on a net changes its net and nothing else about it.
pub proof fn law_a_pad_on_another_net_is_the_same_pad(item: Item, net: Option<NetId>)
    ensures
        match item {
            Item::Pad { shape, layer, zone_connection, hole_diameter, .. } => with_net(item, net)
                == (Item::Pad { shape, net, layer, zone_connection, hole_diameter }),
            _ => with_net(item, net) == item,
        },
{
}

/// Replacing an item changes that item and no other.
pub proof fn law_a_replaced_item_is_the_only_change(
    entries: Seq<Entry>,
    id: ItemId,
    item: Item,
    i: int,
)
    requires
        0 <= i < entries.len(),
    ensures
        replaced(entries, id, item).len() == entries.len(),
        replaced(entries, id, item)[i].id == entries[i].id,
        entries[i].id == id ==> replaced(entries, id, item)[i].item == item,
        entries[i].id != id ==> replaced(entries, id, item)[i].item == entries[i].item,
{
}

/// Taking items away leaves all others, and none of those taken.
pub proof fn law_what_is_taken_away_is_gone(entries: Seq<Entry>, gone: Set<ItemId>, e: Entry)
    ensures
        without(entries, gone).contains(e) <==> entries.contains(e) && !gone.contains(e.id),
{
    lemma_without_contains(entries, gone);
}

/// New items follow the old ones, in order, under ids counted on.
pub proof fn law_new_items_follow_the_old(
    entries: Seq<Entry>,
    items: Seq<Item>,
    first: int,
    i: int,
)
    requires
        0 <= first,
        first + items.len() <= u64::MAX,
    ensures
        extended(entries, items, first).len() == entries.len() + items.len(),
        0 <= i < entries.len() ==> extended(entries, items, first)[i] == entries[i],
        0 <= i < items.len() ==> extended(entries, items, first)[entries.len() + i].item == items[i]
            && extended(entries, items, first)[entries.len() + i].id.0 == first + i,
{
}

/// Everything but a pour is an obstacle.
pub proof fn law_all_but_pours_are_obstacles(entries: Seq<Entry>, last: Entry)
    ensures
        obstacle_count(Seq::empty()) == 0,
        obstacle_count(entries.push(last)) == obstacle_count(entries) + match last.item {
            Item::Zone { .. } => 0int,
            _ => 1,
        },
{
    assert(entries.push(last).drop_last() =~= entries);
}

/// A pad's net is told; anything else is no pad.
pub proof fn law_only_a_pad_has_a_pin_net(doc: BoardDoc, id: ItemId)
    ensures
        match item_of(doc.node.entries@, id) {
            Some(Item::Pad { net, .. }) => doc.pad_net_of(id) == Ok::<Option<NetId>, NetError>(net),
            _ => doc.pad_net_of(id) is Err,
        },
{
}

/// Removing a net takes its tracks and vias off the board and its pads off the
/// net; every item of another net, every hole and every pour stays as it is.
pub proof fn law_a_removed_net_takes_its_wires_along(entries: Seq<Entry>, net: NetId, id: ItemId)
    requires
        ids_are_unique(entries),
    ensures
        ({
            let after = unassigned(without(entries, wires_of_net(entries, net)), net);
            item_of(after, id) == match item_of(entries, id) {
                Some(Item::Track { net: n, .. }) if n == Some(net) => None,
                Some(Item::Via { net: n, .. }) if n == Some(net) => None,
                Some(Item::Pad { shape, net: n, layer, zone_connection, hole_diameter }) if n
                    == Some(net) => Some(
                    Item::Pad { shape, net: None, layer, zone_connection, hole_diameter },
                ),
                found => found,
            }
        }),
{
    let wires = wires_of_net(entries, net);
    let kept = without(entries, wires);
    let after = unassigned(kept, net);
    lemma_without_item(entries, wires, id);
    lemma_without_unique(entries, wires);
    if item_of(kept, id) is Some {
        let i = lemma_item_of_some(kept, id);
        assert(after[i].id == id);
        assert(ids_are_unique(after)) by {
            assert forall|a: int, b: int|
                #![trigger after[a], after[b]]
                0 <= a < b < after.len() implies after[a].id != after[b].id by {
                assert(kept[a].id != kept[b].id);
            }
        }
        lemma_item_of_index(after, i);
    } else {
        lemma_item_of_none(kept, id);
        assert forall|i: int| 0 <= i < after.len() implies (#[trigger] after[i]).id != id by {
            assert(kept[i].id != id);
        }
        lemma_item_of_absent(after, id);
    }
}

/// A net is found by its name: the first that is called so.
pub proof fn law_a_net_is_found_by_its_name(nets: Seq<NetRecord>, name: Seq<char>)
    ensures
        match net_named(nets, name) {
            Some(id) => exists|k: int|
                0 <= k < nets.len() && (#[trigger] nets[k]).id == id && nets[k].name@ == name
                    && forall|j: int| 0 <= j < k ==> (#[trigger] nets[j]).name@ != name,
            None => forall|j: int| 0 <= j < nets.len() ==> (#[trigger] nets[j]).name@ != name,
        },
    decreases nets.len(),
{
    if nets.len() > 0 {
        let rest = nets.drop_first();
        law_a_net_is_found_by_its_name(rest, name);
        assert forall|j: int| 0 < j < nets.len() implies #[trigger] nets[j] == rest[j - 1] by {}
        if nets[0].name@ == name {
            assert(nets[0].id == nets[0].id);
        } else if net_named(rest, name) is Some {
            let id = net_named(rest, name)->0;
            let k = choose|k: int|
                0 <= k < rest.len() && (#[trigger] rest[k]).id == id && rest[k].name@ == name
                    && forall|j: int| 0 <= j < k ==> (#[trigger] rest[j]).name@ != name;
            assert(nets[k + 1] == rest[k]);
            assert forall|j: int| 0 <= j < k + 1 implies (#[trigger] nets[j]).name@ != name by {
                if j > 0 {
                    assert(nets[j] == rest[j - 1]);
                }
            }
        }
    }
}

/// A new net is called Net with its number and follows the others, which stay
/// as they are.
pub proof fn law_a_new_net_is_called_by_its_number(
    before: Seq<NetRecord>,
    after: Seq<NetRecord>,
    serial: u32,
    i: int,
)
    requires
        net_created(before, after, serial),
    ensures
        after.len() == before.len() + 1,
        after.last().id.0 == serial,
        after.last().name@ == seq!['N', 'e', 't'] + crate::text::decimal(serial as nat),
        0 <= i < before.len() ==> after[i] == before[i],
{
    reveal_strlit("Net");
    assert("Net"@ =~= seq!['N', 'e', 't']);
    if 0 <= i < before.len() {
        assert(after.drop_last()[i] == after[i]);
    }
}

/// Renaming a net changes the name of that net and nothing else.
pub proof fn law_renaming_changes_one_name(
    before: Seq<NetRecord>,
    after: Seq<NetRecord>,
    net: NetId,
    name: Seq<char>,
    i: int,
)
    requires
        net_renamed(before, after, net, name),
        0 <= i < before.len(),
    ensures
        after.len() == before.len(),
        after[i].id == before[i].id,
        before[i].id == net ==> after[i].name@ == name,
        before[i].id != net ==> after[i] == before[i],
{
    assert(after[i] == after[i]);
}

/// A name is taken if another net has it; a net's own name is not taken.
pub proof fn law_a_nets_own_name_is_free(nets: Seq<NetRecord>, k: int, other: int)
    requires
        0 <= k < nets.len(),
        0 <= other < nets.len(),
        nets[other].id != nets[k].id,
    ensures
        name_taken(nets, nets[k].id, nets[other].name@),
        (forall|j: int|
            0 <= j < nets.len() && nets[j].id != nets[k].id ==> (#[trigger] nets[j]).name@
                != nets[k].name@) ==> !name_taken(nets, nets[k].id, nets[k].name@),
{
    assert(nets[other].id != nets[k].id);
}

/// The names for which a batch needs new nets are those among the names asked
/// for that no net has, each once.
pub proof fn law_only_unknown_names_need_a_net(
    nets: Seq<NetRecord>,
    names: Seq<Seq<char>>,
    name: Seq<char>,
)
    ensures
        fresh_names(nets, names).contains(name) <==> names.contains(name) && forall|j: int|
            0 <= j < nets.len() ==> (#[trigger] nets[j]).name@ != name,
        fresh_names(nets, names).no_duplicates(),
    decreases names.len(),
{
    law_a_net_is_found_by_its_name(nets, name);
    if names.len() > 0 {
        let init = names.drop_last();
        let last = names.last();
        law_only_unknown_names_need_a_net(nets, init, name);
        law_a_net_is_found_by_its_name(nets, last);
        let rest = fresh_names(nets, init);
        let all = fresh_names(nets, names);
        assert(names[names.len() - 1] == last);
        if rest.contains(name) {
            let k = choose|k: int| 0 <= k < rest.len() && rest[k] == name;
            assert(all[k] == name);
        }
        if init.contains(name) {
            let k = choose|k: int| 0 <= k < init.len() && init[k] == name;
            assert(names[k] == name);
        }
        if names.contains(name) && !init.contains(name) {
            let k = choose|k: int| 0 <= k < names.len() && names[k] == name;
            if k < init.len() {
                assert(init[k] == name);
            }
            assert(name == last);
            if net_named(nets, last) is None && !rest.contains(last) {
                assert(all[rest.len() as int] == name);
            }
        }
        if all.contains(name) && !rest.contains(name) {
            let k = choose|k: int| 0 <= k < all.len() && all[k] == name;
            if k < rest.len() {
                assert(rest[k] == name);
            }
        }
        if net_named(nets, last) is Some {
            let id = net_named(nets, last)->0;
            let k = choose|k: int|
                0 <= k < nets.len() && (#[trigger] nets[k]).id == id && nets[k].name@ == last;
            assert(nets[k].name@ == last);
        }
    }
}

/// Added nets follow the others under their names and the next numbers.
pub proof fn law_added_nets_follow_the_others(
    before: Seq<NetRecord>,
    after: Seq<NetRecord>,
    serial: int,
    names: Seq<Seq<char>>,
    k: int,
)
    requires
        nets_added(before, after, serial, names),
        0 <= serial,
        serial + names.len() <= u32::MAX,
        0 <= k < names.len(),
    ensures
        after.len() == before.len() + names.len(),
        after[before.len() + k].name@ == names[k],
        after[before.len() + k].id.0 == serial + 1 + k,
        forall|i: int| 0 <= i < before.len() ==> #[trigger] after[i] == before[i],
{
    assert(after[before.len() + k] == after[before.len() + k]);
}

} // verus!
