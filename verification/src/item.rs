//! The copper and drill items of a board and the world that holds them.
//!
//! A [`Node`] is an ordered list of items, each under an id that is never
//! handed out twice, with a revision that counts the changes a copper pour
//! has to avoid.

use vstd::prelude::*;

use crate::geom::{Circle, Point, Polygon, Segment, Unit};

verus! {

/// A copper layer; silkscreen uses it as "which side of the board".
#[derive(Debug, Clone, Copy, PartialEq, Eq, Structural)]
pub enum LayerId {
    FCu,
    BCu,
}

/// An electrical net.
#[derive(Debug, Clone, Copy, PartialEq, Eq, Structural)]
pub struct NetId(pub u32);

/// The routing class of a track.
#[derive(Debug, Clone, Copy, PartialEq, Eq, Structural)]
pub enum NetClass {
    A,
    B,
    C,
}

/// Identifies one item of a [`Node`].
#[derive(Debug, Clone, Copy, PartialEq, Eq, Structural)]
pub struct ItemId(pub u64);

/// How a pad joins a copper pour of its own net.
#[derive(Debug, Clone, Copy, PartialEq, Eq, Structural)]
pub enum ZoneConnection {
    Thermal,
    Solid,
}

/// The true copper shape of a pad in world space.
#[derive(Debug, Clone, PartialEq)]
pub enum PadShape {
    Circle(Circle),
    Polygon { outline: Polygon, center: Point },
}

/// The centre of a pad.
pub open spec fn shape_center(shape: PadShape) -> Point {
    match shape {
        PadShape::Circle(c) => c.center,
        PadShape::Polygon { center, .. } => center,
    }
}

impl PadShape {
    pub fn center(&self) -> (p: Point)
        ensures
            p == shape_center(*self),
    {
        match self {
            PadShape::Circle(c) => c.center,
            PadShape::Polygon { center, .. } => *center,
        }
    }
}

/// One item on the board.
#[derive(Debug, Clone, PartialEq)]
pub enum Item {
    Pad {
        shape: PadShape,
        net: Option<NetId>,
        layer: LayerId,
        zone_connection: ZoneConnection,
        hole_diameter: Option<Unit>,
    },
    Track { shape: Segment, net: Option<NetId>, layer: LayerId, class: NetClass },
    Via { shape: Circle, drill: Unit, net: Option<NetId> },
    Hole { position: Point, drill: Unit },
    Zone { outline: Polygon, layer: LayerId, net: Option<NetId> },
}

/// The net an item belongs to.
pub open spec fn item_net(item: Item) -> Option<NetId> {
    match item {
        Item::Pad { net, .. } => net,
        Item::Track { net, .. } => net,
        Item::Via { net, .. } => net,
        Item::Hole { .. } => None,
        Item::Zone { net, .. } => net,
    }
}

/// A track or a via: what a routed wire is made of.
pub open spec fn is_wire(item: Item) -> bool {
    item is Track || item is Via
}

/// `item` with its net replaced; only a pad has a net that can be replaced.
pub open spec fn with_net(item: Item, new_net: Option<NetId>) -> Item {
    match item {
        Item::Pad { shape, net, layer, zone_connection, hole_diameter } => Item::Pad {
            shape,
            net: new_net,
            layer,
            zone_connection,
            hole_diameter,
        },
        _ => item,
    }
}

impl Item {
    pub fn net(&self) -> (n: Option<NetId>)
        ensures
            n == item_net(*self),
    {
        match self {
            Item::Pad { net, .. } => *net,
            Item::Track { net, .. } => *net,
            Item::Via { net, .. } => *net,
            Item::Hole { .. } => None,
            Item::Zone { net, .. } => *net,
        }
    }

    pub fn is_pad(&self) -> (r: bool)
        ensures
            r == (*self is Pad),
    {
        match self {
            Item::Pad { .. } => true,
            _ => false,
        }
    }

    pub fn is_hole(&self) -> (r: bool)
        ensures
            r == (*self is Hole),
    {
        match self {
            Item::Hole { .. } => true,
            _ => false,
        }
    }

    pub fn is_zone(&self) -> (r: bool)
        ensures
            r == (*self is Zone),
    {
        match self {
            Item::Zone { .. } => true,
            _ => false,
        }
    }

    pub fn is_track_or_via(&self) -> (r: bool)
        ensures
            r == is_wire(*self),
    {
        match self {
            Item::Track { .. } => true,
            Item::Via { .. } => true,
            _ => false,
        }
    }
}

/// One live item with its id.
#[derive(Debug, Clone)]
pub struct Entry {
    pub id: ItemId,
    pub item: Item,
}

/// The world of live items. `next` is the id the next item gets; `revision`
/// counts every change to something other than a pour's own copper.
#[derive(Debug, Clone)]
pub struct Node {
    pub entries: Vec<Entry>,
    pub next: u64,
    pub revision: u64,
}

/// The item that `id` names in `entries`.
pub open spec fn item_of(entries: Seq<Entry>, id: ItemId) -> Option<Item>
    decreases entries.len(),
{
    if entries.len() == 0 {
        None
    } else if entries[0].id == id {
        Some(entries[0].item)
    } else {
        item_of(entries.drop_first(), id)
    }
}

/// No two entries share an id.
pub open spec fn ids_are_unique(entries: Seq<Entry>) -> bool {
    forall|i: int, j: int|
        #![trigger entries[i], entries[j]]
        0 <= i < j < entries.len() ==> entries[i].id != entries[j].id
}

/// `entries` without those whose id is in `gone`, the rest in order.
pub open spec fn without(entries: Seq<Entry>, gone: Set<ItemId>) -> Seq<Entry>
    decreases entries.len(),
{
    if entries.len() == 0 {
        entries
    } else {
        let kept = without(entries.drop_last(), gone);
        if gone.contains(entries.last().id) {
            kept
        } else {
            kept.push(entries.last())
        }
    }
}

/// `entries` with the item under `id` replaced.
pub open spec fn replaced(entries: Seq<Entry>, id: ItemId, item: Item) -> Seq<Entry> {
    entries.map_values(
        |e: Entry|
            if e.id == id {
                Entry { id, item }
            } else {
                e
            },
    )
}

/// `entries` followed by `items` under ids counted up from `first`.
pub open spec fn extended(entries: Seq<Entry>, items: Seq<Item>, first: int) -> Seq<Entry> {
    entries + Seq::new(
        items.len(),
        |i: int| Entry { id: ItemId((first + i) as u64), item: items[i] },
    )
}

/// How many entries are something other than pour copper.
pub open spec fn obstacle_count(entries: Seq<Entry>) -> nat
    decreases entries.len(),
{
    if entries.len() == 0 {
        0
    } else {
        obstacle_count(entries.drop_last()) + if entries.last().item is Zone {
            0nat
        } else {
            1
        }
    }
}

/// How many items are something other than pour copper.
pub open spec fn obstacles_in(items: Seq<Item>) -> nat
    decreases items.len(),
{
    if items.len() == 0 {
        0
    } else {
        obstacles_in(items.drop_last()) + if items.last() is Zone {
            0nat
        } else {
            1
        }
    }
}

impl Node {
    /// Ids are unique and below the next one.
    pub open spec fn wf(&self) -> bool {
        &&& ids_are_unique(self.entries@)
        &&& forall|i: int|
            #![trigger self.entries@[i]]
            0 <= i < self.entries@.len() ==> self.entries@[i].id.0 < self.next
    }

    /// The item that `id` names, if it is live.
    pub open spec fn item(&self, id: ItemId) -> Option<Item> {
        item_of(self.entries@, id)
    }

    /// `n` more changes fit in the id and revision counters.
    pub open spec fn has_room_for(&self, n: int) -> bool {
        self.next + n <= u64::MAX && self.revision + n <= u64::MAX
    }

    /// An empty world.
    pub fn new() -> (n: Node)
        ensures
            n.wf(),
            n.entries@ == Seq::<Entry>::empty(),
            n.next == 0,
            n.revision == 0,
    {
        Node { entries: Vec::new(), next: 0, revision: 0 }
    }

    /// Whether `n` more changes fit in the counters.
    pub fn has_room(&self, n: u64) -> (r: bool)
        ensures
            r == self.has_room_for(n as int),
    {
        n <= u64::MAX - self.next && n <= u64::MAX - self.revision
    }

    /// The current revision of everything a pour must keep clear of.
    pub fn obstacle_revision(&self) -> (r: u64)
        ensures
            r == self.revision,
    {
        self.revision
    }

    /// Where `id` stands in the list.
    pub fn position_of(&self, id: ItemId) -> (r: Option<usize>)
        ensures
            r is None <==> self.item(id) is None,
            r matches Some(i) ==> {
                &&& i < self.entries@.len()
                &&& self.entries@[i as int].id == id
                &&& self.item(id) == Some(self.entries@[i as int].item)
            },
    {
        let mut i: usize = 0;
        assert(self.entries@.skip(0) =~= self.entries@);
        while i < self.entries.len()
            invariant
                i <= self.entries@.len(),
                item_of(self.entries@, id) == item_of(self.entries@.skip(i as int), id),
            decreases self.entries@.len() - i,
        {
            assert(self.entries@.skip(i as int)[0] == self.entries@[i as int]);
            assert(self.entries@.skip(i as int).drop_first() =~= self.entries@.skip(i + 1));
            if self.entries[i].id == id {
                return Some(i);
            }
            i += 1;
        }
        None
    }

    /// The live item under `id`.
    pub fn get(&self, id: ItemId) -> (r: Option<&Item>)
        ensures
            r is None <==> self.item(id) is None,
            r matches Some(item) ==> self.item(id) == Some(*item),
    {
        match self.position_of(id) {
            Some(i) => Some(&self.entries[i].item),
            None => None,
        }
    }

    /// Puts `item` into the world under a fresh id.
    pub fn add(&mut self, item: Item) -> (id: ItemId)
        requires
            old(self).wf(),
            old(self).has_room_for(1),
        ensures
            final(self).wf(),
            id == ItemId(old(self).next),
            final(self).entries@ == old(self).entries@.push(Entry { id, item }),
            final(self).next == old(self).next + 1,
            final(self).revision == old(self).revision + if item is Zone { 0int } else { 1 },
    {
        let id = ItemId(self.next);
        if !item.is_zone() {
            self.revision = self.revision + 1;
        }
        self.entries.push(Entry { id, item });
        self.next = self.next + 1;
        id
    }

    /// Takes the item under `id` out of the world; nothing happens if there
    /// is none.
    pub fn remove(&mut self, id: ItemId)
        requires
            old(self).wf(),
            old(self).has_room_for(1),
        ensures
            final(self).wf(),
            final(self).entries@ == without(old(self).entries@, set![id]),
            final(self).next == old(self).next,
            final(self).revision == old(self).revision + obstacle_count(old(self).entries@)
                - obstacle_count(final(self).entries@),
            match old(self).item(id) {
                Some(was) => {
                    &&& final(self).entries@.len() == old(self).entries@.len() - 1
                    &&& final(self).revision == old(self).revision + if was is Zone {
                        0int
                    } else {
                        1
                    }
                },
                None => *final(self) == *old(self),
            },
    {
        match self.position_of(id) {
            Some(i) => {
                proof {
                    lemma_without_one(self.entries@, id, i as int);
                    lemma_obstacles_less_one(self.entries@, i as int);
                }
                if !self.entries[i].item.is_zone() {
                    self.revision = self.revision + 1;
                }
                self.entries.remove(i);
            },
            None => {
                proof {
                    lemma_item_of_none(self.entries@, id);
                    lemma_without_none(self.entries@, set![id]);
                }
            },
        }
    }

    /// Puts `items` into the world in order, under consecutive fresh ids, the
    /// first of which is handed back.
    pub fn add_all(&mut self, items: Vec<Item>) -> (first: u64)
        requires
            old(self).wf(),
            old(self).has_room_for(items@.len() as int),
        ensures
            final(self).wf(),
            first == old(self).next,
            final(self).entries@ == extended(old(self).entries@, items@, old(self).next as int),
            final(self).next == old(self).next + items@.len(),
            final(self).revision == old(self).revision + obstacles_in(items@),
    {
        let first: u64 = self.next;
        let ghost before = self.entries@;
        let ghost all = items@;
        proof {
            lemma_obstacles_few(all);
        }
        assert(self.entries@ =~= extended(before, all.take(0), first as int));
        for item in it: items
            invariant
                it.seq() == all,
                before == old(self).entries@,
                first == old(self).next,
                old(self).has_room_for(all.len() as int),
                self.wf(),
                self.entries@ == extended(before, all.take(it.index()), first as int),
                self.next == first + it.index(),
                self.revision == old(self).revision + obstacles_in(all.take(it.index())),
        {
            let ghost k = it.index();
            proof {
                assert(all.take(k + 1).drop_last() =~= all.take(k));
                assert(all.take(k + 1).last() == item);
                lemma_obstacles_few(all.take(k));
            }
            let id = self.add(item);
            assert(self.entries@ =~= extended(before, all.take(k + 1), first as int));
        }
        assert(all.take(all.len() as int) =~= all);
        first
    }

    /// Takes every item named in `ids` out of the world.
    pub fn remove_all(&mut self, ids: &[ItemId])
        requires
            old(self).wf(),
            old(self).has_room_for(ids@.len() as int),
        ensures
            final(self).wf(),
            final(self).entries@ == without(old(self).entries@, ids@.to_set()),
            final(self).next == old(self).next,
            final(self).revision == old(self).revision + obstacle_count(old(self).entries@)
                - obstacle_count(final(self).entries@),
            final(self).revision <= old(self).revision + ids@.len(),
    {
        let ghost before = self.entries@;
        let mut k: usize = 0;
        proof {
            lemma_without_none(before, ids@.take(0).to_set());
        }
        while k < ids.len()
            invariant
                k <= ids@.len(),
                before == old(self).entries@,
                old(self).has_room_for(ids@.len() as int),
                self.wf(),
                self.next == old(self).next,
                self.entries@ == without(before, ids@.take(k as int).to_set()),
                self.revision == old(self).revision + obstacle_count(before) - obstacle_count(
                    self.entries@,
                ),
                self.revision <= old(self).revision + k,
            decreases ids@.len() - k,
        {
            let ghost gone = ids@.take(k as int).to_set();
            self.remove(ids[k]);
            proof {
                lemma_without_twice(before, gone, set![ids@[k as int]]);
                lemma_take_set(ids@, k as int);
            }
            k += 1;
        }
        assert(ids@.take(k as int) =~= ids@);
    }

    /// Puts `item` in the place of the one under `id`; nothing happens if
    /// there is none.
    pub fn replace(&mut self, id: ItemId, item: Item)
        requires
            old(self).wf(),
            old(self).has_room_for(1),
        ensures
            final(self).wf(),
            final(self).entries@ == replaced(old(self).entries@, id, item),
            final(self).next == old(self).next,
            final(self).revision == old(self).revision + if old(self).item(id) matches Some(was)
                && !(was is Zone && item is Zone) {
                1int
            } else {
                0
            },
    {
        let ghost before = self.entries@;
        match self.position_of(id) {
            Some(i) => {
                if !(self.entries[i].item.is_zone() && item.is_zone()) {
                    self.revision = self.revision + 1;
                }
                self.entries.set(i, Entry { id, item });
                assert(self.entries@ =~= replaced(before, id, item));
            },
            None => {
                proof {
                    lemma_item_of_none(before, id);
                }
                assert(self.entries@ =~= replaced(before, id, item));
            },
        }
    }

    /// Assigns `net` to the pad under `id`; says whether there is such a pad.
    pub fn set_pad_net(&mut self, id: ItemId, new_net: Option<NetId>) -> (done: bool)
        requires
            old(self).wf(),
            old(self).has_room_for(1),
        ensures
            final(self).wf(),
            done == (old(self).item(id) matches Some(was) && was is Pad),
            done ==> final(self).entries@ == replaced(
                old(self).entries@,
                id,
                with_net(old(self).item(id)->0, new_net),
            ),
            done ==> final(self).revision == old(self).revision + 1,
            final(self).next == old(self).next,
            !done ==> *final(self) == *old(self),
    {
        let ghost before = self.entries@;
        match self.position_of(id) {
            Some(i) => {
                if !self.entries[i].item.is_pad() {
                    return false;
                }
                self.revision = self.revision + 1;
                match &mut self.entries[i].item {
                    Item::Pad { net, .. } => {
                        *net = new_net;
                    },
                    _ => {},
                }
                assert(self.entries@ =~= replaced(
                    before,
                    id,
                    with_net(before[i as int].item, new_net),
                ));
                true
            },
            None => false,
        }
    }
}

/// An id that is not live stands nowhere in the list.
pub proof fn lemma_item_of_none(entries: Seq<Entry>, id: ItemId)
    requires
        item_of(entries, id) is None,
    ensures
        forall|i: int| 0 <= i < entries.len() ==> (#[trigger] entries[i]).id != id,
    decreases entries.len(),
{
    if entries.len() > 0 {
        lemma_item_of_none(entries.drop_first(), id);
        assert forall|i: int| 0 <= i < entries.len() implies (#[trigger] entries[i]).id != id by {
            if i > 0 {
                assert(entries.drop_first()[i - 1] == entries[i]);
            }
        }
    }
}

/// An id that stands nowhere in the list is not live.
pub proof fn lemma_item_of_absent(entries: Seq<Entry>, id: ItemId)
    requires
        forall|i: int| 0 <= i < entries.len() ==> (#[trigger] entries[i]).id != id,
    ensures
        item_of(entries, id) is None,
    decreases entries.len(),
{
    if entries.len() > 0 {
        assert forall|i: int| 0 <= i < entries.drop_first().len() implies (
        #[trigger] entries.drop_first()[i]).id != id by {
            assert(entries.drop_first()[i] == entries[i + 1]);
        }
        lemma_item_of_absent(entries.drop_first(), id);
    }
}

/// A live id stands somewhere in the list.
pub proof fn lemma_item_of_some(entries: Seq<Entry>, id: ItemId) -> (i: int)
    requires
        item_of(entries, id) is Some,
    ensures
        0 <= i < entries.len(),
        entries[i].id == id,
        item_of(entries, id) == Some(entries[i].item),
    decreases entries.len(),
{
    if entries[0].id == id {
        0
    } else {
        let j = lemma_item_of_some(entries.drop_first(), id);
        assert(entries.drop_first()[j] == entries[j + 1]);
        j + 1
    }
}

/// With unique ids, the id of an entry names that entry's item.
pub proof fn lemma_item_of_index(entries: Seq<Entry>, i: int)
    requires
        ids_are_unique(entries),
        0 <= i < entries.len(),
    ensures
        item_of(entries, entries[i].id) == Some(entries[i].item),
    decreases entries.len(),
{
    if i > 0 {
        assert(entries[0].id != entries[i].id);
        let rest = entries.drop_first();
        assert(rest[i - 1] == entries[i]);
        assert forall|a: int, b: int|
            #![trigger rest[a], rest[b]]
            0 <= a < b < rest.len() implies rest[a].id != rest[b].id by {
            assert(rest[a] == entries[a + 1]);
            assert(rest[b] == entries[b + 1]);
        }
        lemma_item_of_index(rest, i - 1);
    }
}

/// Removing ids that are not in the list changes nothing.
pub proof fn lemma_without_none(entries: Seq<Entry>, gone: Set<ItemId>)
    requires
        forall|i: int| 0 <= i < entries.len() ==> !gone.contains((#[trigger] entries[i]).id),
    ensures
        without(entries, gone) == entries,
    decreases entries.len(),
{
    if entries.len() > 0 {
        let init = entries.drop_last();
        assert forall|i: int| 0 <= i < init.len() implies !gone.contains(
            (#[trigger] init[i]).id,
        ) by {
            assert(init[i] == entries[i]);
        }
        lemma_without_none(init, gone);
        assert(entries =~= init.push(entries.last()));
    }
}

/// Removing one live id is removing the entry at its place.
proof fn lemma_without_one(entries: Seq<Entry>, id: ItemId, i: int)
    requires
        ids_are_unique(entries),
        0 <= i < entries.len(),
        entries[i].id == id,
    ensures
        without(entries, set![id]) == entries.remove(i),
    decreases entries.len(),
{
    let init = entries.drop_last();
    if i == entries.len() - 1 {
        assert forall|k: int| 0 <= k < init.len() implies !set![id].contains(
            (#[trigger] init[k]).id,
        ) by {
            assert(init[k] == entries[k]);
        }
        lemma_without_none(init, set![id]);
        assert(init =~= entries.remove(i));
    } else {
        assert(init[i] == entries[i]);
        assert forall|a: int, b: int|
            #![trigger init[a], init[b]]
            0 <= a < b < init.len() implies init[a].id != init[b].id by {
            assert(init[a] == entries[a]);
            assert(init[b] == entries[b]);
        }
        lemma_without_one(init, id, i);
        assert(entries.last().id != id);
        assert(entries.remove(i) =~= init.remove(i).push(entries.last()));
    }
}

/// Removing twice is removing the union.
pub proof fn lemma_without_twice(entries: Seq<Entry>, first: Set<ItemId>, second: Set<ItemId>)
    ensures
        without(without(entries, first), second) == without(entries, first.union(second)),
    decreases entries.len(),
{
    if entries.len() > 0 {
        let init = entries.drop_last();
        lemma_without_twice(init, first, second);
        let kept = without(init, first);
        if !first.contains(entries.last().id) {
            assert(kept.push(entries.last()).drop_last() =~= kept);
        }
    }
}

/// What stays after a removal: exactly the entries whose id is not gone.
pub proof fn lemma_without_contains(entries: Seq<Entry>, gone: Set<ItemId>)
    ensures
        forall|e: Entry| #[trigger]
            without(entries, gone).contains(e) <==> entries.contains(e) && !gone.contains(e.id),
        without(entries, gone).len() <= entries.len(),
    decreases entries.len(),
{
    if entries.len() > 0 {
        let init = entries.drop_last();
        let last = entries.last();
        let kept = without(init, gone);
        lemma_without_contains(init, gone);
        assert forall|e: Entry| #[trigger]
            without(entries, gone).contains(e) <==> entries.contains(e) && !gone.contains(e.id) by {
            if entries.contains(e) {
                let k = choose|k: int| 0 <= k < entries.len() && entries[k] == e;
                if k < init.len() {
                    assert(init[k] == e);
                    assert(init.contains(e));
                }
            }
            if init.contains(e) {
                let k = choose|k: int| 0 <= k < init.len() && init[k] == e;
                assert(entries[k] == e);
            }
            assert(entries[entries.len() - 1] == last);
            if kept.contains(e) {
                let k = choose|k: int| 0 <= k < kept.len() && kept[k] == e;
                assert(kept.push(last)[k] == e);
            }
            assert(kept.push(last)[kept.len() as int] == last);
            if kept.push(last).contains(e) {
                let k = choose|k: int| 0 <= k < kept.push(last).len() && kept.push(last)[k] == e;
                if k < kept.len() {
                    assert(kept[k] == e);
                }
            }
        }
    }
}

/// A removal keeps ids unique.
pub proof fn lemma_without_unique(entries: Seq<Entry>, gone: Set<ItemId>)
    requires
        ids_are_unique(entries),
    ensures
        ids_are_unique(without(entries, gone)),
    decreases entries.len(),
{
    if entries.len() > 0 {
        let init = entries.drop_last();
        let last = entries.last();
        let kept = without(init, gone);
        assert forall|a: int, b: int|
            #![trigger init[a], init[b]]
            0 <= a < b < init.len() implies init[a].id != init[b].id by {
            assert(init[a] == entries[a]);
            assert(init[b] == entries[b]);
        }
        lemma_without_unique(init, gone);
        lemma_without_contains(init, gone);
        if !gone.contains(last.id) {
            let all = kept.push(last);
            assert forall|a: int, b: int|
                #![trigger all[a], all[b]]
                0 <= a < b < all.len() implies all[a].id != all[b].id by {
                assert(all[a] == kept[a]);
                if b < kept.len() {
                    assert(all[b] == kept[b]);
                } else {
                    assert(kept.contains(kept[a]));
                    assert(init.contains(kept[a]));
                    let k = choose|k: int| 0 <= k < init.len() && init[k] == kept[a];
                    assert(entries[k] == kept[a]);
                    assert(entries[entries.len() - 1] == last);
                }
            }
        }
    }
}

/// What a removal does to each id: the removed ones are gone, the others
/// name what they named before.
pub proof fn lemma_without_item(entries: Seq<Entry>, gone: Set<ItemId>, id: ItemId)
    requires
        ids_are_unique(entries),
    ensures
        item_of(without(entries, gone), id) == if gone.contains(id) {
            None
        } else {
            item_of(entries, id)
        },
{
    let kept = without(entries, gone);
    lemma_without_contains(entries, gone);
    lemma_without_unique(entries, gone);
    if item_of(kept, id) is Some {
        let k = lemma_item_of_some(kept, id);
        assert(kept.contains(kept[k]));
        assert(entries.contains(kept[k]));
        let m = choose|m: int| 0 <= m < entries.len() && entries[m] == kept[k];
        lemma_item_of_index(entries, m);
    } else if item_of(entries, id) is Some && !gone.contains(id) {
        let m = lemma_item_of_some(entries, id);
        assert(entries.contains(entries[m]));
        assert(kept.contains(entries[m]));
        let k = choose|k: int| 0 <= k < kept.len() && kept[k] == entries[m];
        lemma_item_of_index(kept, k);
    }
}

/// What a replacement does to each id.
pub proof fn lemma_replaced_item(entries: Seq<Entry>, id: ItemId, item: Item, other: ItemId)
    ensures
        item_of(replaced(entries, id, item), other) == if other == id && item_of(entries, id)
            is Some {
            Some(item)
        } else {
            item_of(entries, other)
        },
    decreases entries.len(),
{
    if entries.len() > 0 {
        lemma_replaced_item(entries.drop_first(), id, item, other);
        assert(replaced(entries, id, item).drop_first() =~= replaced(
            entries.drop_first(),
            id,
            item,
        ));
    }
}

/// Appending an entry under a fresh id leaves every other id as it was.
pub proof fn lemma_push_item(entries: Seq<Entry>, entry: Entry, id: ItemId)
    requires
        item_of(entries, entry.id) is None,
    ensures
        item_of(entries.push(entry), id) == if id == entry.id {
            Some(entry.item)
        } else {
            item_of(entries, id)
        },
    decreases entries.len(),
{
    if entries.len() > 0 {
        assert(entries.push(entry).drop_first() =~= entries.drop_first().push(entry));
        if entries[0].id != id {
            assert(item_of(entries.drop_first(), entry.id) is None);
            lemma_push_item(entries.drop_first(), entry, id);
        }
    } else {
        assert(entries.push(entry).drop_first() =~= entries);
    }
}

proof fn lemma_take_set(ids: Seq<ItemId>, k: int)
    requires
        0 <= k < ids.len(),
    ensures
        ids.take(k + 1).to_set() == ids.take(k).to_set().union(set![ids[k]]),
{
    let more = ids.take(k + 1);
    let less = ids.take(k);
    assert forall|x: ItemId| more.to_set().contains(x) <==> less.to_set().union(
        set![ids[k]],
    ).contains(x) by {
        assert(more[k] == ids[k]);
        if less.contains(x) {
            let m = choose|m: int| 0 <= m < less.len() && less[m] == x;
            assert(more[m] == x);
        }
        if more.contains(x) && x != ids[k] {
            let m = choose|m: int| 0 <= m < more.len() && more[m] == x;
            assert(less[m] == x);
        }
    }
    assert(more.to_set() =~= less.to_set().union(set![ids[k]]));
}

proof fn lemma_obstacles_few(items: Seq<Item>)
    ensures
        obstacles_in(items) <= items.len(),
    decreases items.len(),
{
    if items.len() > 0 {
        lemma_obstacles_few(items.drop_last());
    }
}

proof fn lemma_obstacles_less_one(entries: Seq<Entry>, i: int)
    requires
        0 <= i < entries.len(),
    ensures
        obstacle_count(entries.remove(i)) + (if entries[i].item is Zone {
            0nat
        } else {
            1
        }) == obstacle_count(entries),
    decreases entries.len(),
{
    let rest = entries.remove(i);
    if i == entries.len() - 1 {
        assert(rest =~= entries.drop_last());
    } else {
        lemma_obstacles_less_one(entries.drop_last(), i);
        assert(rest.drop_last() =~= entries.drop_last().remove(i));
        assert(rest.last() == entries.last());
    }
}

/// An id in a joined list names what it names in the first part, else what it
/// names in the second.
pub proof fn lemma_concat_item(a: Seq<Entry>, b: Seq<Entry>, id: ItemId)
    ensures
        item_of(a + b, id) == match item_of(a, id) {
            Some(item) => Some(item),
            None => item_of(b, id),
        },
    decreases a.len(),
{
    if a.len() == 0 {
        assert(a + b =~= b);
    } else {
        assert((a + b).drop_first() =~= a.drop_first() + b);
        lemma_concat_item(a.drop_first(), b, id);
    }
}

} // verus!
