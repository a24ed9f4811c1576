//! Routed wires: what copper is electrically continuous with what, and the
//! operations that add or delete it as a whole.

use vstd::prelude::*;

use crate::board_doc::{
    footprint_items_live, keeps_kinds, lemma_records_carry, zone_items_ok, BoardDoc,
};
use crate::geom::{Point, Segment, Unit};
use crate::item::{
    extended, ids_are_unique, is_wire, item_net, item_of, lemma_item_of_absent,
    lemma_item_of_index, lemma_item_of_none, lemma_item_of_some, lemma_push_item,
    lemma_without_item, lemma_without_none, lemma_without_twice, shape_center, without, Entry, Item,
    ItemId, LayerId, NetClass, NetId,
};

verus! {

/// The points where a wire can join something: both ends of a track on its
/// own layer, the centre of a via on either layer.
pub open spec fn touches(item: Item, p: Point, l: LayerId) -> bool {
    match item {
        Item::Track { shape, layer, .. } => layer == l && (shape.a == p || shape.b == p),
        Item::Via { shape, .. } => shape.center == p,
        _ => false,
    }
}

/// Two items have a joining point on the same layer in common.
pub open spec fn meets(a: Item, b: Item) -> bool {
    exists|p: Point, l: LayerId| #[trigger] touches(a, p, l) && touches(b, p, l)
}

/// A track or via of the given net.
pub open spec fn wire_on(item: Item, net: Option<NetId>) -> bool {
    is_wire(item) && item_net(item) == net
}

/// A walk through `entries` from joining point to joining point, over tracks
/// and vias of one net.
pub open spec fn is_walk(entries: Seq<Entry>, net: Option<NetId>, walk: Seq<int>) -> bool {
    &&& walk.len() > 0
    &&& forall|k: int|
        #![trigger walk[k]]
        0 <= k < walk.len() ==> 0 <= walk[k] < entries.len() && wire_on(entries[walk[k]].item, net)
    &&& forall|k: int|
        #![trigger walk[k], walk[k + 1]]
        0 <= k < walk.len() - 1 ==> meets(entries[walk[k]].item, entries[walk[k + 1]].item)
}

/// A walk leads from the item `from` to the item `to`.
pub open spec fn walk_joins(
    entries: Seq<Entry>,
    net: Option<NetId>,
    walk: Seq<int>,
    from: ItemId,
    to: ItemId,
) -> bool {
    is_walk(entries, net, walk) && entries[walk[0]].id == from && entries[walk.last()].id == to
}

/// `to` belongs to the same electrically continuous wire as `from`.
pub open spec fn same_wire(entries: Seq<Entry>, from: ItemId, to: ItemId) -> bool {
    exists|net: Option<NetId>, walk: Seq<int>| #[trigger] walk_joins(entries, net, walk, from, to)
}

/// The ids of the wire that `from` belongs to.
pub open spec fn wire_of(entries: Seq<Entry>, from: ItemId) -> Set<ItemId> {
    Set::new(|id: ItemId| same_wire(entries, from, id))
}

/// `wire` lists the wire that `from` belongs to, each member once.
pub open spec fn lists_wire(entries: Seq<Entry>, from: ItemId, wire: Seq<ItemId>) -> bool {
    &&& wire.no_duplicates()
    &&& forall|id: ItemId| #[trigger] wire.contains(id) <==> same_wire(entries, from, id)
}

fn items_meet(a: &Item, b: &Item) -> (r: bool)
    ensures
        r == meets(*a, *b),
{
    match (a, b) {
        (
            Item::Track { shape: s, layer: sl, .. },
            Item::Track { shape: t, layer: tl, .. },
        ) => {
            let r = *sl == *tl && (s.a == t.a || s.a == t.b || s.b == t.a || s.b == t.b);
            proof {
                if r {
                    if s.a == t.a || s.a == t.b {
                        assert(touches(*a, s.a, *sl) && touches(*b, s.a, *sl));
                    } else {
                        assert(touches(*a, s.b, *sl) && touches(*b, s.b, *sl));
                    }
                }
            }
            r
        },
        (Item::Track { shape: s, layer: sl, .. }, Item::Via { shape: c, .. }) => {
            let r = s.a == c.center || s.b == c.center;
            proof {
                if r {
                    assert(touches(*a, c.center, *sl) && touches(*b, c.center, *sl));
                }
            }
            r
        },
        (Item::Via { shape: c, .. }, Item::Track { shape: s, layer: sl, .. }) => {
            let r = s.a == c.center || s.b == c.center;
            proof {
                if r {
                    assert(touches(*a, c.center, *sl) && touches(*b, c.center, *sl));
                }
            }
            r
        },
        (Item::Via { shape: c, .. }, Item::Via { shape: d, .. }) => {
            let r = c.center == d.center;
            proof {
                if r {
                    assert(touches(*a, c.center, LayerId::FCu) && touches(
                        *b,
                        c.center,
                        LayerId::FCu,
                    ));
                }
            }
            r
        },
        _ => false,
    }
}

/// A walk can be extended by a step.
proof fn lemma_walk_step(
    entries: Seq<Entry>,
    net: Option<NetId>,
    walk: Seq<int>,
    next: int,
)
    requires
        is_walk(entries, net, walk),
        0 <= next < entries.len(),
        wire_on(entries[next].item, net),
        meets(entries[walk.last()].item, entries[next].item),
    ensures
        is_walk(entries, net, walk.push(next)),
        walk.push(next)[0] == walk[0],
        walk.push(next).last() == next,
{
    let longer = walk.push(next);
    assert forall|k: int| #![trigger longer[k]] 0 <= k < longer.len() implies 0 <= longer[k]
        < entries.len() && wire_on(entries[longer[k]].item, net) by {
        if k < walk.len() {
            assert(longer[k] == walk[k]);
        }
    }
    assert forall|k: int|
        #![trigger longer[k], longer[k + 1]]
        0 <= k < longer.len() - 1 implies meets(
        entries[longer[k]].item,
        entries[longer[k + 1]].item,
    ) by {
        assert(longer[k] == walk[k]);
        if k < walk.len() - 1 {
            assert(longer[k + 1] == walk[k + 1]);
        }
    }
}

/// Distinct numbers below `n` are at most `n` many.
proof fn lemma_distinct_below(s: Seq<usize>, n: nat)
    requires
        s.no_duplicates(),
        forall|k: int| #![trigger s[k]] 0 <= k < s.len() ==> s[k] < n,
    ensures
        s.len() <= n,
{
    let ints: Seq<int> = s.map_values(|x: usize| x as int);
    assert(ints.no_duplicates()) by {
        assert forall|i: int, j: int|
            0 <= i < ints.len() && 0 <= j < ints.len() && i != j implies ints[i] != ints[j] by {
            assert(s[i] != s[j]);
        }
    }
    let all = Set::new(|x: int| 0 <= x < n);
    assert(all =~= vstd::set_lib::set_int_range(0, n as int));
    vstd::set_lib::lemma_int_range(0, n as int);
    assert(ints.to_set().subset_of(vstd::set_lib::set_int_range(0, n as int)));
    ints.unique_seq_to_set();
    vstd::set_lib::lemma_len_subset(ints.to_set(), vstd::set_lib::set_int_range(0, n as int));
}

/// What has been found from `start` on is closed under joining, so every
/// walk from `start` stays inside it.
proof fn lemma_walk_stays(
    entries: Seq<Entry>,
    net: Option<NetId>,
    found: Seq<usize>,
    walk: Seq<int>,
)
    requires
        is_walk(entries, net, walk),
        entries.len() <= usize::MAX,
        found.contains(walk[0] as usize),
        forall|a: int, b: int|
            #![trigger found[a], entries[b]]
            0 <= a < found.len() && 0 <= b < entries.len() && wire_on(entries[b].item, net)
                && meets(entries[found[a] as int].item, entries[b].item) ==> found.contains(
                b as usize,
            ),
    ensures
        found.contains(walk.last() as usize),
    decreases walk.len(),
{
    if walk.len() > 1 {
        let shorter = walk.drop_last();
        assert(is_walk(entries, net, shorter)) by {
            assert forall|k: int| #![trigger shorter[k]] 0 <= k < shorter.len() implies 0
                <= shorter[k] < entries.len() && wire_on(entries[shorter[k]].item, net) by {
                assert(shorter[k] == walk[k]);
            }
            assert forall|k: int|
                #![trigger shorter[k], shorter[k + 1]]
                0 <= k < shorter.len() - 1 implies meets(
                entries[shorter[k]].item,
                entries[shorter[k + 1]].item,
            ) by {
                assert(shorter[k] == walk[k]);
                assert(shorter[k + 1] == walk[k + 1]);
            }
        }
        assert(shorter[0] == walk[0]);
        lemma_walk_stays(entries, net, found, shorter);
        let m = walk.len() - 2;
        assert(shorter.last() == walk[m]);
        assert(meets(entries[walk[m]].item, entries[walk[m + 1]].item));
        let a = choose|a: int| 0 <= a < found.len() && found[a] == shorter.last() as usize;
        let b = walk.last();
        assert(b == walk[m + 1]);
        assert(found[a] as int == walk[m]);
        assert(wire_on(entries[b].item, net));
    }
}

impl BoardDoc {
    /// Every track and via electrically continuous with the one under `id`,
    /// itself included, found by following shared joining points; empty if
    /// `id` is neither. Pads belong to no wire and bridge none.
    pub fn connected_wire(&self, id: ItemId) -> (r: Vec<ItemId>)
        requires
            self.node.wf(),
        ensures
            lists_wire(self.node.entries@, id, r@),
    {
        let ghost entries = self.node.entries@;
        let start: usize = match self.node.position_of(id) {
            Some(i) => i,
            None => {
                proof {
                    lemma_item_of_none(entries, id);
                    assert forall|other: ItemId| !same_wire(entries, id, other) by {
                        if same_wire(entries, id, other) {
                            let (net, walk) = choose|net: Option<NetId>, walk: Seq<int>| #[trigger]
                                walk_joins(entries, net, walk, id, other);
                            assert(entries[walk[0]].id == id);
                        }
                    }
                }
                return Vec::new();
            },
        };
        if !self.node.entries[start].item.is_track_or_via() {
            proof {
                assert forall|other: ItemId| !same_wire(entries, id, other) by {
                    if same_wire(entries, id, other) {
                        let (net, walk) = choose|net: Option<NetId>, walk: Seq<int>| #[trigger]
                            walk_joins(entries, net, walk, id, other);
                        assert(entries[walk[0]].id == id);
                        lemma_item_of_index(entries, walk[0]);
                        lemma_item_of_index(entries, start as int);
                    }
                }
            }
            return Vec::new();
        }
        let net = self.node.entries[start].item.net();
        let n: usize = self.node.entries.len();
        let mut found: Vec<usize> = Vec::new();
        found.push(start);
        let mut seen: Vec<bool> = Vec::new();
        let mut i: usize = 0;
        while i < n
            invariant
                i <= n,
                start < n,
                seen@.len() == i,
                forall|k: int| #![trigger seen@[k]] 0 <= k < i ==> seen@[k] == (k == start),
            decreases n - i,
        {
            seen.push(i == start);
            i += 1;
        }
        let mut head: usize = 0;
        proof {
            let walk = seq![start as int];
            assert(is_walk(entries, net, walk));
            assert(walk_joins(entries, net, walk, id, entries[start as int].id));
            assert(found@[0] == start);
            lemma_distinct_below(found@, n as nat);
        }
        while head < found.len()
            invariant
                entries == self.node.entries@,
                n == entries.len(),
                start < n,
                entries[start as int].id == id,
                head <= found@.len() <= n,
                found@.len() > 0,
                found@[0] == start,
                found@.no_duplicates(),
                seen@.len() == n,
                forall|k: int| #![trigger seen@[k]] 0 <= k < n ==> seen@[k] == found@.contains(k as usize),
                forall|a: int|
                    #![trigger found@[a]]
                    0 <= a < found@.len() ==> found@[a] < n && (exists|walk: Seq<int>| #[trigger]
                        walk_joins(entries, net, walk, id, entries[found@[a] as int].id) && walk.last()
                            == found@[a]),
                forall|a: int, b: int|
                    #![trigger found@[a], entries[b]]
                    0 <= a < head && 0 <= b < n && wire_on(entries[b].item, net) && meets(
                        entries[found@[a] as int].item,
                        entries[b].item,
                    ) ==> found@.contains(b as usize),
            decreases n - head,
        {
            let current: usize = found[head];
            let mut j: usize = 0;
            while j < n
                invariant
                    entries == self.node.entries@,
                    n == entries.len(),
                    start < n,
                    j <= n,
                    head < found@.len() <= n,
                    found@[head as int] == current,
                    current < n,
                    found@[0] == start,
                    found@.no_duplicates(),
                    seen@.len() == n,
                    forall|k: int|
                        #![trigger seen@[k]]
                        0 <= k < n ==> seen@[k] == found@.contains(k as usize),
                    forall|a: int|
                        #![trigger found@[a]]
                        0 <= a < found@.len() ==> found@[a] < n && (exists|walk: Seq<int>|
                         #[trigger]
                            walk_joins(entries, net, walk, id, entries[found@[a] as int].id)
                                && walk.last() == found@[a]),
                    forall|a: int, b: int|
                        #![trigger found@[a], entries[b]]
                        0 <= a < head && 0 <= b < n && wire_on(entries[b].item, net) && meets(
                            entries[found@[a] as int].item,
                            entries[b].item,
                        ) ==> found@.contains(b as usize),
                    forall|b: int|
                        #![trigger entries[b]]
                        0 <= b < j && wire_on(entries[b].item, net) && meets(
                            entries[current as int].item,
                            entries[b].item,
                        ) ==> found@.contains(b as usize),
                decreases n - j,
            {
                let ghost before = found@;
                if !seen[j] && self.node.entries[j].item.is_track_or_via()
                    && self.node.entries[j].item.net() == net && items_meet(
                    &self.node.entries[current].item,
                    &self.node.entries[j].item,
                ) {
                    found.push(j);
                    seen.set(j, true);
                    proof {
                        let walk = choose|walk: Seq<int>| #[trigger]
                            walk_joins(entries, net, walk, id, entries[before[head as int] as int].id)
                                && walk.last() == before[head as int];
                        lemma_walk_step(entries, net, walk, j as int);
                        assert(walk_joins(
                            entries,
                            net,
                            walk.push(j as int),
                            id,
                            entries[j as int].id,
                        ));
                        assert(found@[before.len() as int] == j);
                        assert forall|k: int| #![trigger seen@[k]] 0 <= k < n implies seen@[k]
                            == found@.contains(k as usize) by {
                            if before.contains(k as usize) {
                                let m = choose|m: int| 0 <= m < before.len() && before[m] == k;
                                assert(found@[m] == k);
                            }
                            if found@.contains(k as usize) && k != j {
                                let m = choose|m: int| 0 <= m < found@.len() && found@[m] == k;
                                assert(before[m] == k);
                            }
                        }
                        assert(!before.contains(j));
                        assert forall|b: usize| before.contains(b) implies found@.contains(b) by {
                            let m = choose|m: int| 0 <= m < before.len() && before[m] == b;
                            assert(found@[m] == b);
                        }
                        assert forall|a: int| #![trigger found@[a]] 0 <= a < found@.len() implies
                            found@[a] < n && (exists|walk: Seq<int>| #[trigger]
                            walk_joins(entries, net, walk, id, entries[found@[a] as int].id)
                                && walk.last() == found@[a]) by {
                            if a < before.len() {
                                assert(found@[a] == before[a]);
                            }
                        }
                        assert forall|a: int, b: int|
                            #![trigger found@[a], entries[b]]
                            0 <= a < head && 0 <= b < n && wire_on(entries[b].item, net) && meets(
                                entries[found@[a] as int].item,
                                entries[b].item,
                            ) implies found@.contains(b as usize) by {
                            assert(found@[a] == before[a]);
                        }
                        lemma_distinct_below(found@, n as nat);
                    }
                }
                j += 1;
            }
            head += 1;
        }
        let mut ids: Vec<ItemId> = Vec::new();
        let mut k: usize = 0;
        while k < found.len()
            invariant
                entries == self.node.entries@,
                n == entries.len(),
                k <= found@.len(),
                forall|a: int| #![trigger found@[a]] 0 <= a < found@.len() ==> found@[a] < n,
                ids@.len() == k,
                forall|a: int|
                    #![trigger ids@[a]]
                    0 <= a < k ==> ids@[a] == entries[found@[a] as int].id,
            decreases found@.len() - k,
        {
            ids.push(self.node.entries[found[k]].id);
            k += 1;
        }
        proof {
            assert forall|a: int, b: int| 0 <= a < ids@.len() && 0 <= b < ids@.len() && a
                != b implies ids@[a] != ids@[b] by {
                assert(found@[a] != found@[b]);
                assert(entries[found@[a] as int].id != entries[found@[b] as int].id);
            }
            assert forall|other: ItemId| #[trigger]
                ids@.contains(other) <==> same_wire(entries, id, other) by {
                if ids@.contains(other) {
                    let a = choose|a: int| 0 <= a < ids@.len() && ids@[a] == other;
                    assert(found@[a] < n);
                    let walk = choose|walk: Seq<int>| #[trigger]
                        walk_joins(entries, net, walk, id, entries[found@[a] as int].id)
                            && walk.last() == found@[a];
                    assert(walk_joins(entries, net, walk, id, other));
                }
                if same_wire(entries, id, other) {
                    let (net2, walk) = choose|net2: Option<NetId>, walk: Seq<int>| #[trigger]
                        walk_joins(entries, net2, walk, id, other);
                    lemma_item_of_index(entries, walk[0]);
                    lemma_item_of_index(entries, start as int);
                    assert(walk[0] == start) by {
                        if walk[0] < start {
                            assert(entries[walk[0]].id != entries[start as int].id);
                        }
                        if walk[0] > start {
                            assert(entries[start as int].id != entries[walk[0]].id);
                        }
                    }
                    assert(net2 == net);
                    assert(found@[0] == start);
                    lemma_walk_stays(entries, net, found@, walk);
                    let a = choose|a: int|
                        0 <= a < found@.len() && found@[a] == walk.last() as usize;
                    assert(ids@[a] == other);
                }
            }
        }
        ids
    }

    /// Deletes one free-standing track or via. Anything else stays: a pad
    /// belongs to its footprint, an island to its zone.
    pub fn remove_item(&mut self, id: ItemId) -> (done: bool)
        requires
            old(self).wf(),
            old(self).node.has_room_for(1),
        ensures
            final(self).wf(),
            final(self).same_but_node(old(self)),
            done == (old(self).node.item(id) matches Some(item) && is_wire(item)),
            !done ==> *final(self) == *old(self),
            done ==> final(self).node.entries@ == without(old(self).node.entries@, set![id]),
            done ==> final(self).node.entries@.len() == old(self).node.entries@.len() - 1,
            done ==> final(self).node.revision == old(self).node.revision + 1,
            final(self).node.next == old(self).node.next,
    {
        let ghost before = self.node.entries@;
        let removable = match self.node.get(id) {
            Some(item) => item.is_track_or_via(),
            None => false,
        };
        if removable {
            self.node.remove(id);
            proof {
                let i = lemma_item_of_some(before, id);
                assert(set![id].contains(before[i].id));
                lemma_one_removed(before, id, i);
                assert(keeps_kinds(before, self.node.entries@)) by {
                    assert forall|other: ItemId| #[trigger]
                        item_of(before, other) matches Some(was) && !is_wire(was) implies item_of(
                        self.node.entries@,
                        other,
                    ) == item_of(before, other) by {
                        lemma_without_item(before, set![id], other);
                    }
                }
                lemma_records_carry(self.footprints@, self.zones@, before, self.node.entries@);
            }
        }
        removable
    }

    /// Deletes every track and via named in `ids`; ids that name something
    /// else, or nothing, are passed over.
    pub fn remove_items(&mut self, ids: &[ItemId])
        requires
            old(self).wf(),
            old(self).node.has_room_for(ids@.len() as int),
        ensures
            final(self).wf(),
            final(self).same_but_node(old(self)),
            final(self).node.entries@ == without(
                old(self).node.entries@,
                wires_among(old(self).node.entries@, ids@.to_set()),
            ),
            final(self).node.revision == old(self).node.revision + old(self).node.entries@.len()
                - final(self).node.entries@.len(),
            final(self).node.next == old(self).node.next,
    {
        let ghost before = self.node.entries@;
        let mut k: usize = 0;
        proof {
            lemma_without_none(before, wires_among(before, ids@.take(0).to_set()));
        }
        while k < ids.len()
            invariant
                k <= ids@.len(),
                before == old(self).node.entries@,
                ids_are_unique(before),
                old(self).node.has_room_for(ids@.len() as int),
                self.wf(),
                self.same_but_node(old(self)),
                self.node.next == old(self).node.next,
                self.node.entries@ == without(before, wires_among(before, ids@.take(k as int).to_set())),
                self.node.revision == old(self).node.revision + before.len()
                    - self.node.entries@.len(),
                before.len() - self.node.entries@.len() <= k,
            decreases ids@.len() - k,
        {
            let ghost gone = wires_among(before, ids@.take(k as int).to_set());
            let ghost more = wires_among(before, ids@.take(k + 1).to_set());
            let ghost now = self.node.entries@;
            let id = ids[k];
            let done = self.remove_item(id);
            proof {
                lemma_without_item(before, gone, id);
                assert(ids@.take(k + 1) =~= ids@.take(k as int).push(id));
                assert forall|x: ItemId| #[trigger] ids@.take(k + 1).to_set().contains(x) <==> (
                ids@.take(k as int).to_set().contains(x) || x == id) by {
                    lemma_push_contains(ids@.take(k as int), id, x);
                }
                if done {
                    lemma_without_twice(before, gone, set![id]);
                    assert(gone.union(set![id]) =~= more);
                } else {
                    assert(gone =~= more);
                }
            }
            k += 1;
        }
        assert(ids@.take(k as int) =~= ids@);
    }

    /// `self` is `before` without the wire at `id`.
    pub open spec fn has_lost_wire(&self, before: &BoardDoc, id: ItemId) -> bool {
        let entries = before.node.entries@;
        &&& self.same_but_node(before)
        &&& self.node.entries@ == without(entries, wire_of(entries, id))
        &&& self.node.revision == before.node.revision + entries.len() - self.node.entries@.len()
        &&& self.node.next == before.node.next
    }

    /// Deletes the whole electrically continuous wire at `id`, every leg and
    /// via of it, and nothing else; says whether there was one.
    pub fn remove_wire(&mut self, id: ItemId) -> (done: bool)
        requires
            old(self).wf(),
            old(self).node.has_room_for(old(self).node.entries@.len() as int),
        ensures
            final(self).wf(),
            done == (old(self).node.item(id) matches Some(item) && is_wire(item)),
            done ==> final(self).has_lost_wire(old(self), id),
            !done ==> *final(self) == *old(self),
    {
        let ghost before = self.node.entries@;
        let wire: Vec<ItemId> = self.connected_wire(id);
        proof {
            lemma_wire_is_made_of_wires(before, id);
            if self.node.item(id) matches Some(item) && is_wire(item) {
                law_wire_holds_its_start(before, id);
                assert(wire@.contains(id));
            }
        }
        if wire.len() == 0 {
            return false;
        }
        proof {
            assert(wire@.contains(wire@[0]));
            assert forall|k: int| #![trigger wire@[k]] 0 <= k < wire@.len() implies item_of(
                before,
                wire@[k],
            ) is Some by {
                assert(wire@.contains(wire@[k]));
                assert(same_wire(before, id, wire@[k]));
            }
            lemma_ids_are_few(before, wire@);
            assert(wires_among(before, wire@.to_set()) =~= wire_of(before, id));
        }
        self.remove_items(&wire);
        true
    }

    /// Every routed wire, as a whole, that ends on one of the given pads
    /// where the pad stands now.
    pub fn wires_touching_pads(&self, pad_item_ids: &[ItemId]) -> (r: Vec<ItemId>)
        requires
            self.node.wf(),
        ensures
            r@.no_duplicates(),
            forall|id: ItemId| #[trigger]
                r@.contains(id) <==> wires_at_pads(self.node.entries@, pad_item_ids@).contains(id),
    {
        let ghost entries = self.node.entries@;
        let mut r: Vec<ItemId> = Vec::new();
        let mut i: usize = 0;
        while i < self.node.entries.len()
            invariant
                entries == self.node.entries@,
                self.node.wf(),
                i <= entries.len(),
                r@.no_duplicates(),
                forall|id: ItemId| #[trigger]
                    r@.contains(id) <==> exists|w: int|
                        0 <= w < i && #[trigger] ends_on_pads(entries, entries[w].item, pad_item_ids@)
                            && same_wire(entries, entries[w].id, id),
            decreases entries.len() - i,
        {
            let ghost before = r@;
            let hit = self.ends_on_any_pad(&self.node.entries[i].item, pad_item_ids);
            if hit {
                let wire: Vec<ItemId> = self.connected_wire(self.node.entries[i].id);
                let mut k: usize = 0;
                while k < wire.len()
                    invariant
                        k <= wire@.len(),
                        r@.no_duplicates(),
                        forall|id: ItemId| #[trigger]
                            r@.contains(id) <==> before.contains(id) || wire@.take(k as int).contains(
                                id,
                            ),
                    decreases wire@.len() - k,
                {
                    let ghost was = r@;
                    let fresh = !contains_id(&r, wire[k]);
                    if fresh {
                        r.push(wire[k]);
                    }
                    proof {
                        assert(wire@.take(k + 1) =~= wire@.take(k as int).push(wire@[k as int]));
                        assert forall|id: ItemId| #[trigger]
                            r@.contains(id) <==> before.contains(id) || wire@.take(k + 1).contains(
                                id,
                            ) by {
                            lemma_push_contains(was, wire@[k as int], id);
                            lemma_push_contains(wire@.take(k as int), wire@[k as int], id);
                        }
                    }
                    k += 1;
                }
                assert(wire@.take(k as int) =~= wire@);
            }
            proof {
                assert forall|id: ItemId| #[trigger]
                    r@.contains(id) <==> exists|w: int|
                        0 <= w < i + 1 && #[trigger] ends_on_pads(
                            entries,
                            entries[w].item,
                            pad_item_ids@,
                        ) && same_wire(entries, entries[w].id, id) by {
                    if before.contains(id) {
                        let w = choose|w: int|
                            0 <= w < i && #[trigger] ends_on_pads(
                                entries,
                                entries[w].item,
                                pad_item_ids@,
                            ) && same_wire(entries, entries[w].id, id);
                        assert(ends_on_pads(entries, entries[w].item, pad_item_ids@));
                    }
                    if hit && same_wire(entries, entries[i as int].id, id) {
                        assert(ends_on_pads(entries, entries[i as int].item, pad_item_ids@));
                    }
                    if exists|w: int|
                        0 <= w < i + 1 && #[trigger] ends_on_pads(
                            entries,
                            entries[w].item,
                            pad_item_ids@,
                        ) && same_wire(entries, entries[w].id, id) {
                        let w = choose|w: int|
                            0 <= w < i + 1 && #[trigger] ends_on_pads(
                                entries,
                                entries[w].item,
                                pad_item_ids@,
                            ) && same_wire(entries, entries[w].id, id);
                        if w < i {
                            assert(before.contains(id));
                        }
                    }
                }
            }
            i += 1;
        }
        proof {
            assert forall|id: ItemId| #[trigger]
                r@.contains(id) <==> wires_at_pads(entries, pad_item_ids@).contains(id) by {
                if r@.contains(id) {
                    let w = choose|w: int|
                        0 <= w < i && #[trigger] ends_on_pads(
                            entries,
                            entries[w].item,
                            pad_item_ids@,
                        ) && same_wire(entries, entries[w].id, id);
                    assert(ends_on_pads(entries, entries[w].item, pad_item_ids@));
                }
            }
        }
        r
    }

    /// Whether a track or via ends on one of the given pads.
    fn ends_on_any_pad(&self, item: &Item, pad_item_ids: &[ItemId]) -> (r: bool)
        ensures
            r == ends_on_pads(self.node.entries@, *item, pad_item_ids@),
    {
        let mut k: usize = 0;
        while k < pad_item_ids.len()
            invariant
                k <= pad_item_ids@.len(),
                forall|j: int|
                    #![trigger pad_item_ids@[j]]
                    0 <= j < k ==> !(item_of(self.node.entries@, pad_item_ids@[j]) matches Some(pad)
                        && ends_on_pad(*item, pad)),
            decreases pad_item_ids@.len() - k,
        {
            match self.node.get(pad_item_ids[k]) {
                Some(pad) => {
                    if item_ends_on_pad(item, pad) {
                        assert(item_of(self.node.entries@, pad_item_ids@[k as int]) == Some(*pad));
                        return true;
                    }
                },
                None => {},
            }
            k += 1;
        }
        false
    }

    /// Adds a routed polyline, one track per leg.
    pub fn add_track_path(
        &mut self,
        path: &[Point],
        net: NetId,
        layer: LayerId,
        width: Unit,
        class: NetClass,
    )
        requires
            old(self).wf(),
            old(self).node.has_room_for(path@.len() as int),
        ensures
            final(self).wf(),
            final(self).same_but_node(old(self)),
            final(self).node.entries@ == extended(
                old(self).node.entries@,
                path_tracks(path@, net, layer, width, class),
                old(self).node.next as int,
            ),
            final(self).node.next == old(self).node.next + leg_count(path@),
            final(self).node.revision == old(self).node.revision + leg_count(path@),
    {
        let ghost before = self.node.entries@;
        let ghost tracks = path_tracks(path@, net, layer, width, class);
        let ghost first = self.node.next as int;
        let mut k: usize = 0;
        assert(self.node.entries@ =~= extended(before, tracks.take(0), first));
        while path.len() > 0 && k < path.len() - 1
            invariant
                k <= leg_count(path@),
                tracks == path_tracks(path@, net, layer, width, class),
                before == old(self).node.entries@,
                first == old(self).node.next,
                old(self).wf(),
                old(self).node.has_room_for(path@.len() as int),
                self.wf(),
                self.same_but_node(old(self)),
                self.node.entries@ == extended(before, tracks.take(k as int), first),
                self.node.next == old(self).node.next + k,
                self.node.revision == old(self).node.revision + k,
            decreases path@.len() - k,
        {
            let ghost now = self.node.entries@;
            let leg = Item::Track {
                shape: Segment::new(path[k], path[k + 1], width),
                net: Some(net),
                layer,
                class,
            };
            let id = self.node.add(leg);
            proof {
                lemma_added_keeps_records(self, now, Entry { id, item: leg });
                assert(self.node.entries@ =~= extended(before, tracks.take(k + 1), first));
            }
            k += 1;
        }
        assert(tracks.take(k as int) =~= tracks);
    }

    /// Replaces the tracks and vias in `remove` by a fresh path: the commit
    /// of dragging a trace segment.
    pub fn replace_wire_segment(
        &mut self,
        remove: &[ItemId],
        new_path: &[Point],
        net: NetId,
        layer: LayerId,
        width: Unit,
        class: NetClass,
    )
        requires
            old(self).wf(),
            old(self).node.has_room_for((remove@.len() + new_path@.len()) as int),
        ensures
            final(self).wf(),
            final(self).same_but_node(old(self)),
            final(self).node.entries@ == extended(
                without(
                    old(self).node.entries@,
                    wires_among(old(self).node.entries@, remove@.to_set()),
                ),
                path_tracks(new_path@, net, layer, width, class),
                old(self).node.next as int,
            ),
            final(self).node.next == old(self).node.next + leg_count(new_path@),
            final(self).node.revision == old(self).node.revision + old(self).node.entries@.len()
                - without(
                old(self).node.entries@,
                wires_among(old(self).node.entries@, remove@.to_set()),
            ).len() + leg_count(new_path@),
    {
        let ghost before = self.node.entries@;
        self.remove_items(remove);
        proof {
            lemma_removed_count(
                before,
                wires_among(before, remove@.to_set()),
                remove@,
            );
        }
        self.add_track_path(new_path, net, layer, width, class);
    }

    /// Whether a track or via with exactly this geometry, net and layer is
    /// already on the board; a track counts in either direction.
    pub fn has_identical_routed_item(&self, candidate: &Item) -> (r: bool)
        ensures
            r == exists|i: int|
                0 <= i < self.node.entries@.len() && same_copper(
                    (#[trigger] self.node.entries@[i]).item,
                    *candidate,
                ),
    {
        let mut i: usize = 0;
        while i < self.node.entries.len()
            invariant
                i <= self.node.entries@.len(),
                forall|k: int|
                    0 <= k < i ==> !same_copper((#[trigger] self.node.entries@[k]).item, *candidate),
            decreases self.node.entries@.len() - i,
        {
            if is_same_copper(&self.node.entries[i].item, candidate) {
                assert(same_copper(self.node.entries@[i as int].item, *candidate));
                return true;
            }
            i += 1;
        }
        false
    }

    /// The first track near a click: `near[i]` says whether the centre line of
    /// the item at place `i` lies within half its width and the click's
    /// tolerance of the point.
    pub fn track_at(&self, near: &[bool]) -> (r: Option<ItemId>)
        ensures
            match r {
                Some(id) => exists|i: int|
                    #![trigger self.node.entries@[i]]
                    0 <= i < self.node.entries@.len() && i < near@.len() && self.node.entries@[i].id
                        == id && self.node.entries@[i].item is Track && near@[i] && forall|k: int|
                        #![trigger self.node.entries@[k]]
                        0 <= k < i ==> !(self.node.entries@[k].item is Track && near@[k]),
                None => forall|k: int|
                    #![trigger self.node.entries@[k]]
                    0 <= k < self.node.entries@.len() && k < near@.len() ==> !(
                    self.node.entries@[k].item is Track && near@[k]),
            },
    {
        let mut i: usize = 0;
        while i < self.node.entries.len() && i < near.len()
            invariant
                i <= self.node.entries@.len(),
                i <= near@.len(),
                forall|k: int|
                    #![trigger self.node.entries@[k]]
                    0 <= k < i ==> !(self.node.entries@[k].item is Track && near@[k]),
            decreases self.node.entries@.len() - i,
        {
            let is_track = match &self.node.entries[i].item {
                Item::Track { .. } => true,
                _ => false,
            };
            if is_track && near[i] {
                return Some(self.node.entries[i].id);
            }
            i += 1;
        }
        None
    }
}

/// The track or via ends on the pad: on the pad's net, with an end (on the
/// pad's layer) or the centre exactly at the pad's centre.
pub open spec fn ends_on_pad(item: Item, pad: Item) -> bool {
    match pad {
        Item::Pad { shape, net, layer, .. } => item_net(item) == net && match item {
            Item::Track { shape: s, layer: l, .. } => l == layer && (s.a == shape_center(shape)
                || s.b == shape_center(shape)),
            Item::Via { shape: s, .. } => s.center == shape_center(shape),
            _ => false,
        },
        _ => false,
    }
}

/// The track or via ends on one of the pads in `pads`.
pub open spec fn ends_on_pads(entries: Seq<Entry>, item: Item, pads: Seq<ItemId>) -> bool {
    exists|k: int|
        0 <= k < pads.len() && (item_of(entries, #[trigger] pads[k]) matches Some(pad)
            && ends_on_pad(item, pad))
}

/// The ids of every wire that ends on one of the pads in `pads`.
pub open spec fn wires_at_pads(entries: Seq<Entry>, pads: Seq<ItemId>) -> Set<ItemId> {
    Set::new(
        |id: ItemId|
            exists|w: int|
                0 <= w < entries.len() && #[trigger] ends_on_pads(entries, entries[w].item, pads)
                    && same_wire(entries, entries[w].id, id),
    )
}

/// Those of `ids` that name a track or via.
pub open spec fn wires_among(entries: Seq<Entry>, ids: Set<ItemId>) -> Set<ItemId> {
    Set::new(
        |id: ItemId| ids.contains(id) && (item_of(entries, id) matches Some(item) && is_wire(item)),
    )
}

/// How many legs a polyline has.
pub open spec fn leg_count(path: Seq<Point>) -> int {
    if path.len() == 0 {
        0
    } else {
        path.len() - 1
    }
}

/// The tracks of a routed polyline, one per leg.
pub open spec fn path_tracks(
    path: Seq<Point>,
    net: NetId,
    layer: LayerId,
    width: Unit,
    class: NetClass,
) -> Seq<Item> {
    Seq::new(
        leg_count(path) as nat,
        |k: int|
            Item::Track {
                shape: Segment { a: path[k], b: path[k + 1], width },
                net: Some(net),
                layer,
                class,
            },
    )
}

/// The same piece of routed copper: a track on the same net, layer and width
/// between the same ends, or a via of the same size, drill and net at the
/// same place.
pub open spec fn same_copper(a: Item, b: Item) -> bool {
    match (a, b) {
        (
            Item::Track { shape: s, net: sn, layer: sl, .. },
            Item::Track { shape: t, net: tn, layer: tl, .. },
        ) => sn == tn && sl == tl && s.width == t.width && ((s.a == t.a && s.b == t.b) || (s.a
            == t.b && s.b == t.a)),
        (
            Item::Via { shape: s, drill: sd, net: sn },
            Item::Via { shape: t, drill: td, net: tn },
        ) => sn == tn && sd == td && s == t,
        _ => false,
    }
}

fn is_same_copper(a: &Item, b: &Item) -> (r: bool)
    ensures
        r == same_copper(*a, *b),
{
    match (a, b) {
        (
            Item::Track { shape: s, net: sn, layer: sl, .. },
            Item::Track { shape: t, net: tn, layer: tl, .. },
        ) => *sn == *tn && *sl == *tl && s.width == t.width && ((s.a == t.a && s.b == t.b) || (s.a
            == t.b && s.b == t.a)),
        (
            Item::Via { shape: s, drill: sd, net: sn },
            Item::Via { shape: t, drill: td, net: tn },
        ) => *sn == *tn && *sd == *td && *s == *t,
        _ => false,
    }
}

fn item_ends_on_pad(item: &Item, pad: &Item) -> (r: bool)
    ensures
        r == ends_on_pad(*item, *pad),
{
    match pad {
        Item::Pad { shape, net, layer, .. } => {
            let center = shape.center();
            match item {
                Item::Track { shape: s, layer: l, .. } => item.net() == *net && *l == *layer && (s.a
                    == center || s.b == center),
                Item::Via { shape: s, .. } => item.net() == *net && s.center == center,
                _ => false,
            }
        },
        _ => false,
    }
}

/// Whether `id` is in the list.
pub fn contains_id(ids: &[ItemId], id: ItemId) -> (r: bool)
    ensures
        r == ids@.contains(id),
{
    let mut k: usize = 0;
    while k < ids.len()
        invariant
            k <= ids@.len(),
            forall|j: int| 0 <= j < k ==> ids@[j] != id,
        decreases ids@.len() - k,
    {
        if ids[k] == id {
            assert(ids@[k as int] == id);
            return true;
        }
        k += 1;
    }
    false
}

proof fn lemma_push_contains(s: Seq<ItemId>, x: ItemId, id: ItemId)
    ensures
        s.push(x).contains(id) <==> s.contains(id) || id == x,
{
    assert(s.push(x)[s.len() as int] == x);
    if s.contains(id) {
        let k = choose|k: int| 0 <= k < s.len() && s[k] == id;
        assert(s.push(x)[k] == id);
    }
    if s.push(x).contains(id) && id != x {
        let k = choose|k: int| 0 <= k < s.push(x).len() && s.push(x)[k] == id;
        assert(s[k] == id);
    }
}

proof fn lemma_one_removed(entries: Seq<Entry>, id: ItemId, i: int)
    requires
        ids_are_unique(entries),
        0 <= i < entries.len(),
        entries[i].id == id,
    ensures
        without(entries, set![id]).len() == entries.len() - 1,
    decreases entries.len(),
{
    let init = entries.drop_last();
    if i == entries.len() - 1 {
        assert forall|k: int| 0 <= k < init.len() implies !set![id].contains(
            (#[trigger] init[k]).id,
        ) by {
            assert(init[k] == entries[k]);
        }
        lemma_without_none(init, set![id]);
    } else {
        assert(init[i] == entries[i]);
        assert forall|a: int, b: int|
            #![trigger init[a], init[b]]
            0 <= a < b < init.len() implies init[a].id != init[b].id by {
            assert(init[a] == entries[a]);
            assert(init[b] == entries[b]);
        }
        lemma_one_removed(init, id, i);
        assert(entries.last().id != id);
    }
}

/// A removal of listed ids takes away at most as many entries as are listed.
pub proof fn lemma_removed_count(entries: Seq<Entry>, gone: Set<ItemId>, ids: Seq<ItemId>)
    requires
        ids_are_unique(entries),
        forall|id: ItemId| gone.contains(id) ==> ids.contains(id),
    ensures
        entries.len() - without(entries, gone).len() <= ids.len(),
    decreases entries.len(),
{
    if entries.len() > 0 {
        let init = entries.drop_last();
        let last = entries.last().id;
        assert forall|a: int, b: int|
            #![trigger init[a], init[b]]
            0 <= a < b < init.len() implies init[a].id != init[b].id by {
            assert(init[a] == entries[a]);
            assert(init[b] == entries[b]);
        }
        if gone.contains(last) {
            let m = choose|m: int| 0 <= m < ids.len() && ids[m] == last;
            let rest = ids.remove(m);
            let fewer = gone.remove(last);
            assert forall|id: ItemId| fewer.contains(id) implies rest.contains(id) by {
                assert(ids.contains(id));
                let k = choose|k: int| 0 <= k < ids.len() && ids[k] == id;
                if k < m {
                    assert(rest[k] == id);
                } else {
                    assert(rest[k - 1] == id);
                }
            }
            lemma_without_same(init, gone, fewer);
            lemma_removed_count(init, fewer, rest);
        } else {
            lemma_removed_count(init, gone, ids);
        }
    }
}

/// A removal depends only on which of the listed ids are gone.
proof fn lemma_without_same(entries: Seq<Entry>, one: Set<ItemId>, other: Set<ItemId>)
    requires
        forall|i: int|
            0 <= i < entries.len() ==> one.contains((#[trigger] entries[i]).id) == other.contains(
                entries[i].id,
            ),
    ensures
        without(entries, one) == without(entries, other),
    decreases entries.len(),
{
    if entries.len() > 0 {
        let init = entries.drop_last();
        assert forall|i: int| 0 <= i < init.len() implies one.contains((#[trigger] init[i]).id)
            == other.contains(init[i].id) by {
            assert(init[i] == entries[i]);
        }
        lemma_without_same(init, one, other);
    }
}

/// Live ids without repetition are at most as many as the entries.
pub proof fn lemma_ids_are_few(entries: Seq<Entry>, ids: Seq<ItemId>)
    requires
        ids.no_duplicates(),
        forall|k: int| #![trigger ids[k]] 0 <= k < ids.len() ==> item_of(entries, ids[k]) is Some,
    ensures
        ids.len() <= entries.len(),
    decreases entries.len(),
{
    if entries.len() == 0 {
        if ids.len() > 0 {
            assert(item_of(entries, ids[0]) is Some);
        }
    } else {
        let first = entries[0].id;
        let rest = entries.drop_first();
        if ids.contains(first) {
            let m = choose|m: int| 0 <= m < ids.len() && ids[m] == first;
            let fewer = ids.remove(m);
            assert forall|k: int| #![trigger fewer[k]] 0 <= k < fewer.len() implies item_of(
                rest,
                fewer[k],
            ) is Some by {
                let j = if k < m {
                    k
                } else {
                    k + 1
                };
                assert(fewer[k] == ids[j]);
                assert(ids[j] != ids[m]);
                assert(item_of(entries, ids[j]) is Some);
            }
            assert(fewer.no_duplicates()) by {
                assert forall|a: int, b: int| 0 <= a < fewer.len() && 0 <= b < fewer.len() && a
                    != b implies fewer[a] != fewer[b] by {
                    let x = if a < m {
                        a
                    } else {
                        a + 1
                    };
                    let y = if b < m {
                        b
                    } else {
                        b + 1
                    };
                    assert(fewer[a] == ids[x] && fewer[b] == ids[y]);
                }
            }
            lemma_ids_are_few(rest, fewer);
        } else {
            assert forall|k: int| #![trigger ids[k]] 0 <= k < ids.len() implies item_of(
                rest,
                ids[k],
            ) is Some by {
                assert(ids.contains(ids[k]));
                assert(item_of(entries, ids[k]) is Some);
            }
            lemma_ids_are_few(rest, ids);
        }
    }
}

/// A wire consists of live tracks and vias.
pub proof fn lemma_wire_is_made_of_wires(entries: Seq<Entry>, from: ItemId)
    requires
        ids_are_unique(entries),
    ensures
        forall|id: ItemId| #[trigger]
            same_wire(entries, from, id) ==> (item_of(entries, id) matches Some(item) && is_wire(
                item,
            )),
        (exists|id: ItemId| same_wire(entries, from, id)) ==> (item_of(entries, from) matches Some(
            item,
        ) && is_wire(item)),
{
    assert forall|id: ItemId| #[trigger] same_wire(entries, from, id) implies (item_of(
        entries,
        id,
    ) matches Some(item) && is_wire(item)) && (item_of(entries, from) matches Some(item)
        && is_wire(item)) by {
        let (net, walk) = choose|net: Option<NetId>, walk: Seq<int>| #[trigger]
            walk_joins(entries, net, walk, from, id);
        assert(walk[walk.len() - 1] == walk.last());
        lemma_item_of_index(entries, walk.last());
        lemma_item_of_index(entries, walk[0]);
    }
}

/// Adding an item under a fresh id keeps the records about the others.
pub proof fn lemma_added_keeps_records(board: &BoardDoc, before: Seq<Entry>, entry: Entry)
    requires
        board.node.wf(),
        board.node.entries@ == before.push(entry),
        footprint_items_live(board.footprints@, before),
        zone_items_ok(board.zones@, before),
    ensures
        footprint_items_live(board.footprints@, board.node.entries@),
        zone_items_ok(board.zones@, board.node.entries@),
{
    let after = board.node.entries@;
    assert forall|i: int| 0 <= i < before.len() implies (#[trigger] before[i]).id != entry.id by {
        assert(after[i] == before[i]);
        assert(after[before.len() as int] == entry);
    }
    lemma_item_of_absent(before, entry.id);
    assert(keeps_kinds(before, after)) by {
        assert forall|id: ItemId| #[trigger] item_of(before, id) is Some implies item_of(after, id)
            == item_of(before, id) by {
            lemma_push_item(before, entry, id);
        }
    }
    lemma_records_carry(board.footprints@, board.zones@, before, after);
}

/// Every track and via belongs to its own wire.
pub proof fn law_wire_holds_its_start(entries: Seq<Entry>, id: ItemId)
    requires
        item_of(entries, id) matches Some(item) && is_wire(item),
    ensures
        same_wire(entries, id, id),
{
    let i = lemma_item_of_some(entries, id);
    let walk = seq![i];
    let net = item_net(entries[i].item);
    assert(is_walk(entries, net, walk));
    assert(walk_joins(entries, net, walk, id, id));
}

/// Being on one wire goes both ways: if `b` is on the wire of `a`, then `a` is
/// on the wire of `b`.
pub proof fn law_same_wire_is_symmetric(entries: Seq<Entry>, a: ItemId, b: ItemId)
    requires
        same_wire(entries, a, b),
    ensures
        same_wire(entries, b, a),
{
    let (net, walk) = choose|net: Option<NetId>, walk: Seq<int>| #[trigger]
        walk_joins(entries, net, walk, a, b);
    let back = walk.reverse();
    assert forall|k: int| #![trigger back[k]] 0 <= k < back.len() implies 0 <= back[k]
        < entries.len() && wire_on(entries[back[k]].item, net) by {
        assert(back[k] == walk[walk.len() - 1 - k]);
    }
    assert forall|k: int|
        #![trigger back[k], back[k + 1]]
        0 <= k < back.len() - 1 implies meets(
        entries[back[k]].item,
        entries[back[k + 1]].item,
    ) by {
        let m = walk.len() - 2 - k;
        assert(back[k] == walk[m + 1]);
        assert(back[k + 1] == walk[m]);
        assert(meets(entries[walk[m]].item, entries[walk[m + 1]].item));
        let (p, l) = choose|p: Point, l: LayerId| #[trigger]
            touches(entries[walk[m]].item, p, l) && touches(entries[walk[m + 1]].item, p, l);
        assert(touches(entries[walk[m + 1]].item, p, l));
    }
    assert(back[0] == walk.last());
    assert(back.last() == walk[0]);
    assert(walk_joins(entries, net, back, b, a));
}

/// A wire is one whole: what belongs to the wire of a member belongs to the
/// wire.
pub proof fn law_same_wire_is_transitive(entries: Seq<Entry>, a: ItemId, b: ItemId, c: ItemId)
    requires
        ids_are_unique(entries),
        same_wire(entries, a, b),
        same_wire(entries, b, c),
    ensures
        same_wire(entries, a, c),
{
    let (net, first) = choose|net: Option<NetId>, walk: Seq<int>| #[trigger]
        walk_joins(entries, net, walk, a, b);
    let (other_net, second) = choose|net: Option<NetId>, walk: Seq<int>| #[trigger]
        walk_joins(entries, net, walk, b, c);
    let n = first.len() as int;
    assert(first.last() == first[n - 1]);
    let i = first[n - 1];
    let j = second[0];
    assert(i == j) by {
        if i < j {
            assert(entries[i].id != entries[j].id);
        }
        if j < i {
            assert(entries[j].id != entries[i].id);
        }
    }
    assert(net == other_net);
    let walk = first + second.drop_first();
    assert forall|k: int| #![trigger walk[k]] 0 <= k < walk.len() implies 0 <= walk[k]
        < entries.len() && wire_on(entries[walk[k]].item, net) by {
        if k < n {
            assert(walk[k] == first[k]);
        } else {
            assert(walk[k] == second[k - n + 1]);
        }
    }
    assert forall|k: int|
        #![trigger walk[k], walk[k + 1]]
        0 <= k < walk.len() - 1 implies meets(
        entries[walk[k]].item,
        entries[walk[k + 1]].item,
    ) by {
        if k < n - 1 {
            assert(walk[k] == first[k]);
            assert(walk[k + 1] == first[k + 1]);
        } else {
            let m = k - n + 1;
            assert(walk[k] == second[m]);
            assert(walk[k + 1] == second[m + 1]);
        }
    }
    assert(walk[0] == first[0]);
    assert(walk.last() == second.last());
    assert(walk_joins(entries, net, walk, a, c));
}

/// Whichever leg of a wire is picked, the wire is the same.
pub proof fn law_a_wire_is_the_same_from_every_leg(entries: Seq<Entry>, a: ItemId, b: ItemId)
    requires
        ids_are_unique(entries),
        same_wire(entries, a, b),
    ensures
        wire_of(entries, a) == wire_of(entries, b),
{
    law_same_wire_is_symmetric(entries, a, b);
    assert forall|c: ItemId| wire_of(entries, a).contains(c) <==> #[trigger] wire_of(
        entries,
        b,
    ).contains(c) by {
        if same_wire(entries, a, c) {
            law_same_wire_is_transitive(entries, b, a, c);
        }
        if same_wire(entries, b, c) {
            law_same_wire_is_transitive(entries, a, b, c);
        }
    }
    assert(wire_of(entries, a) =~= wire_of(entries, b));
}

/// A wire reaches as far as its joints: what joins a member of the same net
/// is a member too.
pub proof fn law_wire_is_closed(entries: Seq<Entry>, from: ItemId, i: int, j: int)
    requires
        ids_are_unique(entries),
        0 <= i < entries.len(),
        0 <= j < entries.len(),
        same_wire(entries, from, entries[i].id),
        is_wire(entries[j].item),
        item_net(entries[j].item) == item_net(entries[i].item),
        meets(entries[i].item, entries[j].item),
    ensures
        same_wire(entries, from, entries[j].id),
{
    let (net, walk) = choose|net: Option<NetId>, walk: Seq<int>| #[trigger]
        walk_joins(entries, net, walk, from, entries[i].id);
    assert(walk[walk.len() - 1] == walk.last());
    assert(walk.last() == i) by {
        if walk.last() < i {
            assert(entries[walk.last()].id != entries[i].id);
        }
        if walk.last() > i {
            assert(entries[i].id != entries[walk.last()].id);
        }
    }
    lemma_walk_step(entries, net, walk, j);
    assert(walk_joins(entries, net, walk.push(j), from, entries[j].id));
}

/// Wires never cross nets: every member is on the net of the item it was
/// reached from.
pub proof fn law_wire_keeps_to_one_net(entries: Seq<Entry>, a: ItemId, b: ItemId)
    requires
        ids_are_unique(entries),
        same_wire(entries, a, b),
    ensures
        item_of(entries, a) is Some,
        item_of(entries, b) is Some,
        item_net(item_of(entries, a)->0) == item_net(item_of(entries, b)->0),
{
    let (net, walk) = choose|net: Option<NetId>, walk: Seq<int>| #[trigger]
        walk_joins(entries, net, walk, a, b);
    assert(walk[walk.len() - 1] == walk.last());
    lemma_item_of_index(entries, walk[0]);
    lemma_item_of_index(entries, walk.last());
}

/// Deleting a wire leaves every other item as it was: the pads, the holes,
/// the pours and all copper that does not belong to the wire.
pub proof fn law_removing_a_wire_keeps_the_rest(entries: Seq<Entry>, wire: ItemId, other: ItemId)
    requires
        ids_are_unique(entries),
        !same_wire(entries, wire, other),
    ensures
        item_of(without(entries, wire_of(entries, wire)), other) == item_of(entries, other),
{
    lemma_without_item(entries, wire_of(entries, wire), other);
}

/// Nothing of a deleted wire stays behind.
pub proof fn law_removing_a_wire_leaves_none_of_it(entries: Seq<Entry>, wire: ItemId, leg: ItemId)
    requires
        ids_are_unique(entries),
        same_wire(entries, wire, leg),
    ensures
        item_of(without(entries, wire_of(entries, wire)), leg) is None,
{
    lemma_without_item(entries, wire_of(entries, wire), leg);
}

/// A wire holds tracks and vias only, never a pad.
pub proof fn law_wire_holds_no_pad(entries: Seq<Entry>, a: ItemId, b: ItemId)
    requires
        ids_are_unique(entries),
        same_wire(entries, a, b),
    ensures
        item_of(entries, b) matches Some(item) && is_wire(item) && !(item is Pad),
{
    let (net, walk) = choose|net: Option<NetId>, walk: Seq<int>| #[trigger]
        walk_joins(entries, net, walk, a, b);
    assert(walk[walk.len() - 1] == walk.last());
    lemma_item_of_index(entries, walk.last());
}

/// Deleting a wire deletes exactly what is reported as connected: it is done
/// if and only if the report is not empty, the picked item is then part of it,
/// each reported item is gone afterwards, and every other id names what it
/// named before, pads on their nets among them. Parts, nets, zones and ink
/// stay as they were.
pub proof fn law_a_deleted_wire_is_the_connected_one(
    before: BoardDoc,
    after: BoardDoc,
    id: ItemId,
    wire: Seq<ItemId>,
    done: bool,
    other: ItemId,
)
    requires
        before.wf(),
        lists_wire(before.node.entries@, id, wire),
        done == (before.node.item(id) matches Some(item) && is_wire(item)),
        done ==> after.has_lost_wire(&before, id),
        !done ==> after == before,
    ensures
        done <==> wire.len() > 0,
        done <==> wire.contains(id),
        wire.contains(other) ==> (before.node.item(other) matches Some(item) && is_wire(item)),
        after.node.item(other) == if wire.contains(other) {
            None
        } else {
            before.node.item(other)
        },
        before.node.item(other) matches Some(item) && item is Pad ==> after.node.item(other)
            == before.node.item(other),
        after.same_but_node(&before),
{
    let entries = before.node.entries@;
    lemma_wire_is_made_of_wires(entries, id);
    lemma_without_item(entries, wire_of(entries, id), other);
    if before.node.item(id) matches Some(item) && is_wire(item) {
        law_wire_holds_its_start(entries, id);
        assert(wire.contains(id));
    }
    if wire.len() > 0 {
        assert(wire.contains(wire[0]));
        assert(same_wire(entries, id, wire[0]));
    }
    assert(wire.contains(other) == same_wire(entries, id, other));
}

} // verus!
