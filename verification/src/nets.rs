//! Nets: naming them, and joining pads to them and taking pads off again.

use vstd::prelude::*;

use crate::board_doc::{keeps_kinds, lemma_records_carry, net_ids_ok, BoardDoc, NetRecord};
use crate::geom::Point;
use crate::item::{
    ids_are_unique, is_wire, item_net, item_of, lemma_item_of_index, lemma_item_of_some,
    lemma_replaced_item, lemma_without_contains, lemma_without_item, replaced, shape_center,
    with_net, without, Entry, Item, ItemId, LayerId, NetId,
};
use crate::text::{decimal, decimal_string, joined, same_text, trim, trimmed};
use crate::wires::wires_among;

verus! {

/// Why a pad could not be joined to a net or taken off it.
#[derive(Debug, Clone, Copy, PartialEq, Eq, Structural)]
pub enum NetError {
    /// The item is no pad.
    NotAPad,
    /// The two pads already belong to two different nets; nets are not
    /// merged.
    AlreadyOnDifferentNets,
}

impl NetError {
    pub open spec fn text(self) -> Seq<char> {
        match self {
            NetError::NotAPad => "not a pad"@,
            NetError::AlreadyOnDifferentNets =>
                "both pins already belong to different nets (merging isn't supported yet)"@,
        }
    }

    pub fn message(self) -> (s: String)
        ensures
            s@ == self.text(),
    {
        match self {
            NetError::NotAPad => "not a pad".to_owned(),
            NetError::AlreadyOnDifferentNets =>
                "both pins already belong to different nets (merging isn't supported yet)".to_owned(),
        }
    }
}

/// Why a net could not be renamed.
#[derive(Debug, Clone, Copy, PartialEq, Eq, Structural)]
pub enum RenameNetError {
    /// There is no net with that id.
    NotFound,
    /// The name is empty once trimmed.
    EmptyName,
    /// Another net already has the name.
    NameAlreadyUsed,
}

impl RenameNetError {
    pub open spec fn text(self) -> Seq<char> {
        match self {
            RenameNetError::NotFound => "no net with that id exists"@,
            RenameNetError::EmptyName => "net name can't be empty"@,
            RenameNetError::NameAlreadyUsed => "another net already has that name"@,
        }
    }

    pub fn message(self) -> (s: String)
        ensures
            s@ == self.text(),
    {
        match self {
            RenameNetError::NotFound => "no net with that id exists".to_owned(),
            RenameNetError::EmptyName => "net name can't be empty".to_owned(),
            RenameNetError::NameAlreadyUsed => "another net already has that name".to_owned(),
        }
    }
}

/// The ids of every item on `net`, in the order of the list.
pub open spec fn ids_on_net(entries: Seq<Entry>, net: NetId) -> Seq<ItemId>
    decreases entries.len(),
{
    if entries.len() == 0 {
        Seq::empty()
    } else {
        let rest = ids_on_net(entries.drop_last(), net);
        if item_net(entries.last().item) == Some(net) {
            rest.push(entries.last().id)
        } else {
            rest
        }
    }
}

/// How many pads are on `net`.
pub open spec fn pads_counted(entries: Seq<Entry>, net: NetId) -> nat
    decreases entries.len(),
{
    if entries.len() == 0 {
        0
    } else {
        pads_counted(entries.drop_last(), net) + if entries.last().item is Pad && item_net(
            entries.last().item,
        ) == Some(net) {
            1nat
        } else {
            0
        }
    }
}

/// Something is on `net`.
pub open spec fn net_in_use(entries: Seq<Entry>, net: NetId) -> bool {
    exists|i: int|
        0 <= i < entries.len() && item_net((#[trigger] entries[i]).item) == Some(net)
}

/// `entries` with every pad on `net` taken off it.
pub open spec fn unassigned(entries: Seq<Entry>, net: NetId) -> Seq<Entry> {
    entries.map_values(
        |e: Entry|
            if e.item is Pad && item_net(e.item) == Some(net) {
                Entry { id: e.id, item: with_net(e.item, None) }
            } else {
                e
            },
    )
}

/// The tracks and vias of `net`.
pub open spec fn wires_of_net(entries: Seq<Entry>, net: NetId) -> Set<ItemId> {
    Set::new(
        |id: ItemId|
            item_of(entries, id) matches Some(item) && is_wire(item) && item_net(item) == Some(net),
    )
}

/// The records without the one of `net`.
pub open spec fn nets_without(nets: Seq<NetRecord>, net: NetId) -> Seq<NetRecord>
    decreases nets.len(),
{
    if nets.len() == 0 {
        nets
    } else {
        let rest = nets_without(nets.drop_last(), net);
        if nets.last().id == net {
            rest
        } else {
            rest.push(nets.last())
        }
    }
}

/// The records of the nets that something is on.
pub open spec fn nets_in_use(nets: Seq<NetRecord>, entries: Seq<Entry>) -> Seq<NetRecord>
    decreases nets.len(),
{
    if nets.len() == 0 {
        nets
    } else {
        let rest = nets_in_use(nets.drop_last(), entries);
        if net_in_use(entries, nets.last().id) {
            rest.push(nets.last())
        } else {
            rest
        }
    }
}

/// There is a record of `net`.
pub open spec fn net_known(nets: Seq<NetRecord>, net: NetId) -> bool {
    exists|i: int| 0 <= i < nets.len() && (#[trigger] nets[i]).id == net
}

/// A net other than `net` has this name.
pub open spec fn name_taken(nets: Seq<NetRecord>, net: NetId, name: Seq<char>) -> bool {
    exists|i: int|
        0 <= i < nets.len() && (#[trigger] nets[i]).id != net && nets[i].name@ == name
}

/// The first net with this name.
pub open spec fn net_named(nets: Seq<NetRecord>, name: Seq<char>) -> Option<NetId>
    decreases nets.len(),
{
    if nets.len() == 0 {
        None
    } else if nets[0].name@ == name {
        Some(nets[0].id)
    } else {
        net_named(nets.drop_first(), name)
    }
}

/// Those of `names` that no net has, each once, in the order in which they
/// come up first.
pub open spec fn fresh_names(nets: Seq<NetRecord>, names: Seq<Seq<char>>) -> Seq<Seq<char>>
    decreases names.len(),
{
    if names.len() == 0 {
        Seq::empty()
    } else {
        let rest = fresh_names(nets, names.drop_last());
        if net_named(nets, names.last()) is Some || rest.contains(names.last()) {
            rest
        } else {
            rest.push(names.last())
        }
    }
}

/// `after` is `before` with a record for each of `names`, under the numbers
/// behind `serial`.
pub open spec fn nets_added(
    before: Seq<NetRecord>,
    after: Seq<NetRecord>,
    serial: int,
    names: Seq<Seq<char>>,
) -> bool {
    &&& after.len() == before.len() + names.len()
    &&& forall|i: int| 0 <= i < before.len() ==> #[trigger] after[i] == before[i]
    &&& forall|i: int|
        #![trigger after[i]]
        before.len() <= i < after.len() ==> after[i].id == NetId(
            (serial + 1 + i - before.len()) as u32,
        ) && after[i].name@ == names[i - before.len()]
}

/// No two nets share a name.
pub open spec fn names_are_unique(nets: Seq<NetRecord>) -> bool {
    forall|i: int, j: int|
        #![trigger nets[i], nets[j]]
        0 <= i < j < nets.len() ==> nets[i].name@ != nets[j].name@
}

/// The net that joining a pad on `a` with a pad on `b` ends up on, where
/// `fresh` is the next net that would be created.
pub open spec fn joined_net(
    a: Option<NetId>,
    b: Option<NetId>,
    fresh: NetId,
) -> Option<NetId> {
    match (a, b) {
        (Some(x), Some(y)) => if x == y {
            Some(x)
        } else {
            None
        },
        (Some(x), None) => Some(x),
        (None, Some(y)) => Some(y),
        (None, None) => Some(fresh),
    }
}

/// The name a net gets when it is created.
pub open spec fn auto_name(serial: nat) -> Seq<char> {
    "Net"@ + decimal(serial)
}

/// `after` is `before` with a record for a newly created net.
pub open spec fn net_created(before: Seq<NetRecord>, after: Seq<NetRecord>, serial: u32) -> bool {
    &&& after.len() == before.len() + 1
    &&& after.drop_last() == before
    &&& after.last().id == NetId(serial)
    &&& after.last().name@ == auto_name(serial as nat)
}

/// `after` is `before` with the net `net` named `name`.
pub open spec fn net_renamed(
    before: Seq<NetRecord>,
    after: Seq<NetRecord>,
    net: NetId,
    name: Seq<char>,
) -> bool {
    &&& after.len() == before.len()
    &&& forall|i: int|
        #![trigger after[i]]
        0 <= i < after.len() ==> if before[i].id == net {
            after[i].id == net && after[i].name@ == name
        } else {
            after[i] == before[i]
        }
}

impl BoardDoc {
    /// Everything but the net records is as in `other`.
    pub open spec fn same_but_nets(&self, other: &BoardDoc) -> bool {
        &&& self.node == other.node
        &&& self.same_but_node_and_nets(other)
        &&& self.next_net_serial == other.next_net_serial
    }

    /// The net of the pad under `id`, or an error if that is no pad.
    pub open spec fn pad_net_of(&self, id: ItemId) -> Result<Option<NetId>, NetError> {
        match self.node.item(id) {
            Some(item) => if item is Pad {
                Ok(item_net(item))
            } else {
                Err(NetError::NotAPad)
            },
            None => Err(NetError::NotAPad),
        }
    }

    /// The net of a pad.
    pub fn pad_net(&self, id: ItemId) -> (r: Result<Option<NetId>, NetError>)
        ensures
            r == self.pad_net_of(id),
    {
        match self.node.get(id) {
            Some(Item::Pad { net, .. }) => Ok(*net),
            _ => Err(NetError::NotAPad),
        }
    }

    /// A pad's centre, layer and net; none if `id` is no pad.
    pub fn pad_endpoint(&self, id: ItemId) -> (r: Option<(Point, LayerId, Option<NetId>)>)
        ensures
            r == match self.node.item(id) {
                Some(Item::Pad { shape, layer, net, .. }) => Some((shape_center(shape), layer, net)),
                _ => None,
            },
    {
        match self.node.get(id) {
            Some(Item::Pad { shape, layer, net, .. }) => Some((shape.center(), *layer, *net)),
            _ => None,
        }
    }

    /// A pad's centre; none if `id` is no pad.
    pub fn pad_center(&self, id: ItemId) -> (r: Option<Point>)
        ensures
            r == match self.node.item(id) {
                Some(Item::Pad { shape, .. }) => Some(shape_center(shape)),
                _ => None,
            },
    {
        match self.node.get(id) {
            Some(Item::Pad { shape, .. }) => Some(shape.center()),
            _ => None,
        }
    }

    /// Everything on a net: pads, tracks, vias and pour copper alike.
    pub fn pads_on_net(&self, id: NetId) -> (r: Vec<ItemId>)
        ensures
            r@ == ids_on_net(self.node.entries@, id),
    {
        let ghost entries = self.node.entries@;
        let mut r: Vec<ItemId> = Vec::new();
        let mut i: usize = 0;
        while i < self.node.entries.len()
            invariant
                entries == self.node.entries@,
                i <= entries.len(),
                r@ == ids_on_net(entries.take(i as int), id),
            decreases entries.len() - i,
        {
            assert(entries.take(i + 1).drop_last() =~= entries.take(i as int));
            assert(entries.take(i + 1).last() == entries[i as int]);
            if self.node.entries[i].item.net() == Some(id) {
                r.push(self.node.entries[i].id);
            }
            i += 1;
        }
        assert(entries.take(i as int) =~= entries);
        r
    }

    /// How many pads are on a net: the number a pin count shows.
    pub fn pad_count_on_net(&self, id: NetId) -> (r: usize)
        ensures
            r == pads_counted(self.node.entries@, id),
    {
        let ghost entries = self.node.entries@;
        let mut r: usize = 0;
        let mut i: usize = 0;
        while i < self.node.entries.len()
            invariant
                entries == self.node.entries@,
                i <= entries.len(),
                r <= i,
                r == pads_counted(entries.take(i as int), id),
            decreases entries.len() - i,
        {
            assert(entries.take(i + 1).drop_last() =~= entries.take(i as int));
            assert(entries.take(i + 1).last() == entries[i as int]);
            if self.node.entries[i].item.is_pad() && self.node.entries[i].item.net() == Some(id) {
                r += 1;
            }
            i += 1;
        }
        assert(entries.take(i as int) =~= entries);
        r
    }

    fn is_net_in_use(&self, id: NetId) -> (r: bool)
        ensures
            r == net_in_use(self.node.entries@, id),
    {
        let mut i: usize = 0;
        while i < self.node.entries.len()
            invariant
                i <= self.node.entries@.len(),
                forall|k: int|
                    0 <= k < i ==> item_net((#[trigger] self.node.entries@[k]).item) != Some(id),
            decreases self.node.entries@.len() - i,
        {
            if self.node.entries[i].item.net() == Some(id) {
                assert(item_net(self.node.entries@[i as int].item) == Some(id));
                return true;
            }
            i += 1;
        }
        false
    }

    /// Creates a net with nothing on it, under the next number and the name
    /// that goes with it; numbers are never used again.
    pub fn create_net(&mut self) -> (id: NetId)
        requires
            old(self).wf(),
            old(self).next_net_serial < u32::MAX,
        ensures
            final(self).wf(),
            id == NetId((old(self).next_net_serial + 1) as u32),
            final(self).next_net_serial == old(self).next_net_serial + 1,
            net_created(
                old(self).nets@,
                final(self).nets@,
                (old(self).next_net_serial + 1) as u32,
            ),
            final(self).node == old(self).node,
            final(self).same_but_node_and_nets(old(self)),
    {
        let serial: u32 = self.next_net_serial + 1;
        self.next_net_serial = serial;
        let id = NetId(serial);
        let number = decimal_string(serial as u64);
        let ghost before = self.nets@;
        self.nets.push(NetRecord { id, name: joined("Net", &number) });
        assert(self.nets@.drop_last() =~= before);
        id
    }

    /// The net with exactly this name.
    pub fn find_net_by_name(&self, name: &str) -> (r: Option<NetId>)
        ensures
            r == net_named(self.nets@, name@),
    {
        let mut i: usize = 0;
        assert(self.nets@.skip(0) =~= self.nets@);
        while i < self.nets.len()
            invariant
                i <= self.nets@.len(),
                net_named(self.nets@, name@) == net_named(self.nets@.skip(i as int), name@),
            decreases self.nets@.len() - i,
        {
            assert(self.nets@.skip(i as int)[0] == self.nets@[i as int]);
            assert(self.nets@.skip(i as int).drop_first() =~= self.nets@.skip(i + 1));
            if same_text(&self.nets[i].name, name) {
                return Some(self.nets[i].id);
            }
            i += 1;
        }
        None
    }

    /// The net with exactly this name; where there is none, it is created
    /// under the next number.
    pub(crate) fn net_for_name(&mut self, name: &str) -> (id: NetId)
        requires
            old(self).wf(),
            old(self).next_net_serial < u32::MAX,
        ensures
            final(self).wf(),
            final(self).node == old(self).node,
            final(self).same_but_node_and_nets(old(self)),
            net_named(final(self).nets@, name@) == Some(id),
            match net_named(old(self).nets@, name@) {
                Some(_) => *final(self) == *old(self),
                None => {
                    &&& final(self).nets@.len() == old(self).nets@.len() + 1
                    &&& final(self).nets@.drop_last() == old(self).nets@
                    &&& final(self).nets@.last().id == NetId((old(self).next_net_serial + 1) as u32)
                    &&& final(self).nets@.last().name@ == name@
                    &&& final(self).next_net_serial == old(self).next_net_serial + 1
                },
            },
    {
        match self.find_net_by_name(name) {
            Some(id) => id,
            None => {
                let ghost before = self.nets@;
                let serial: u32 = self.next_net_serial + 1;
                self.next_net_serial = serial;
                let id = NetId(serial);
                self.nets.push(NetRecord { id, name: name.to_owned() });
                proof {
                    assert(self.nets@.drop_last() =~= before);
                    let at = self.nets@.len() - 1;
                    assert(self.nets@[at].name@ == name@);
                    lemma_net_named(before, name@);
                    assert forall|k: int| 0 <= k < self.nets@.len() && (#[trigger] self.nets@[k]).name@
                        == name@ implies self.nets@[k].id == id by {
                        if k < at {
                            assert(before[k] == self.nets@[k]);
                        }
                    }
                    lemma_only_one_named(self.nets@, id, name@, at);
                }
                id
            },
        }
    }

    /// Gives a net a name of its own, without the whitespace around it. A name
    /// that another net has is refused: the lookup by name can only ever find
    /// one of them.
    pub fn rename_net(&mut self, net: NetId, new_name: &str) -> (r: Result<(), RenameNetError>)
        requires
            old(self).wf(),
        ensures
            final(self).wf(),
            final(self).same_but_nets(old(self)),
            r == (if trimmed(new_name@).len() == 0 {
                Err::<(), RenameNetError>(RenameNetError::EmptyName)
            } else if name_taken(old(self).nets@, net, trimmed(new_name@)) {
                Err(RenameNetError::NameAlreadyUsed)
            } else if !net_known(old(self).nets@, net) {
                Err(RenameNetError::NotFound)
            } else {
                Ok(())
            }),
            r is Err ==> *final(self) == *old(self),
            r is Ok ==> net_renamed(
                old(self).nets@,
                final(self).nets@,
                net,
                trimmed(new_name@),
            ),
    {
        let name = trim(new_name);
        if name.as_str().is_empty() {
            return Err(RenameNetError::EmptyName);
        }
        let ghost before = self.nets@;
        let mut found: Option<usize> = None;
        let mut i: usize = 0;
        while i < self.nets.len()
            invariant
                *self == *old(self),
                self.wf(),
                name@ == trimmed(new_name@),
                name@.len() > 0,
                i <= self.nets@.len(),
                forall|k: int|
                    0 <= k < i ==> !((#[trigger] self.nets@[k]).id != net && self.nets@[k].name@
                        == name@),
                match found {
                    Some(k) => k < i && self.nets@[k as int].id == net,
                    None => forall|k: int| 0 <= k < i ==> (#[trigger] self.nets@[k]).id != net,
                },
            decreases self.nets@.len() - i,
        {
            if self.nets[i].id != net {
                if same_text(&self.nets[i].name, &name) {
                    assert(self.nets@[i as int].id != net && self.nets@[i as int].name@ == name@);
                    return Err(RenameNetError::NameAlreadyUsed);
                }
            } else {
                found = Some(i);
            }
            i += 1;
        }
        match found {
            Some(k) => {
                self.nets[k].name = name;
                assert forall|i: int| #![trigger self.nets@[i]] 0 <= i < self.nets@.len() implies (
                if before[i].id == net {
                    self.nets@[i].id == net && self.nets@[i].name@ == name@
                } else {
                    self.nets@[i] == before[i]
                }) by {
                    if i < k {
                        assert(before[i].id != before[k as int].id);
                    }
                    if k < i {
                        assert(before[k as int].id != before[i].id);
                    }
                }
                Ok(())
            },
            None => Err(RenameNetError::NotFound),
        }
    }

    /// Puts the pad under `id` on `net`, or takes it off its net.
    fn set_pad_net(&mut self, id: ItemId, net: Option<NetId>) -> (r: Result<(), NetError>)
        requires
            old(self).wf(),
            old(self).node.has_room_for(1),
        ensures
            final(self).wf(),
            final(self).same_but_node(old(self)),
            final(self).node.next == old(self).node.next,
            r is Err <==> old(self).pad_net_of(id) is Err,
            r matches Err(e) ==> e == NetError::NotAPad && *final(self) == *old(self),
            r is Ok ==> final(self).node.entries@ == replaced(
                old(self).node.entries@,
                id,
                with_net(old(self).node.item(id)->0, net),
            ),
            r is Ok ==> final(self).node.revision == old(self).node.revision + 1,
    {
        let ghost before = self.node.entries@;
        let ghost was = self.node.item(id);
        if self.node.set_pad_net(id, net) {
            proof {
                assert(keeps_kinds(before, self.node.entries@)) by {
                    assert forall|other: ItemId| #[trigger] item_of(before, other) is Some implies
                        item_of(self.node.entries@, other) == if other == id {
                        Some(with_net(was->0, net))
                    } else {
                        item_of(before, other)
                    } by {
                        lemma_replaced_item(before, id, with_net(was->0, net), other);
                    }
                }
                lemma_records_carry(self.footprints@, self.zones@, before, self.node.entries@);
            }
            Ok(())
        } else {
            Err(NetError::NotAPad)
        }
    }

    /// Joins two pads on one net: the one that either of them is on, or a new
    /// one. Two pads that are on two different nets are left alone.
    pub fn connect_pads(&mut self, a: ItemId, b: ItemId) -> (r: Result<NetId, NetError>)
        requires
            old(self).wf(),
            old(self).node.has_room_for(2),
            old(self).next_net_serial < u32::MAX,
        ensures
            final(self).wf(),
            final(self).same_but_node_and_nets(old(self)),
            match (old(self).pad_net_of(a), old(self).pad_net_of(b)) {
                (Ok(na), Ok(nb)) => {
                    let fresh = NetId((old(self).next_net_serial + 1) as u32);
                    match joined_net(na, nb, fresh) {
                        Some(net) => {
                            &&& r == Ok::<NetId, NetError>(net)
                            &&& final(self).node.entries@ == replaced(
                                replaced(
                                    old(self).node.entries@,
                                    a,
                                    with_net(old(self).node.item(a)->0, Some(net)),
                                ),
                                b,
                                with_net(old(self).node.item(b)->0, Some(net)),
                            )
                            &&& final(self).pad_net_of(a) == Ok::<Option<NetId>, NetError>(Some(net))
                            &&& final(self).pad_net_of(b) == Ok::<Option<NetId>, NetError>(Some(net))
                            &&& if na is None && nb is None {
                                &&& net_created(old(self).nets@, final(self).nets@, fresh.0)
                                &&& final(self).next_net_serial == fresh.0
                            } else {
                                &&& final(self).nets == old(self).nets
                                &&& final(self).next_net_serial == old(self).next_net_serial
                            }
                            &&& final(self).node.next == old(self).node.next
                            &&& final(self).node.revision == old(self).node.revision + 2
                        },
                        None => r == Err::<NetId, NetError>(NetError::AlreadyOnDifferentNets)
                            && *final(self) == *old(self),
                    }
                },
                _ => r == Err::<NetId, NetError>(NetError::NotAPad) && *final(self) == *old(self),
            },
    {
        let ghost before = self.node.entries@;
        let ghost item_a = self.node.item(a);
        let ghost item_b = self.node.item(b);
        let net_a = match self.pad_net(a) {
            Ok(net) => net,
            Err(e) => return Err(e),
        };
        let net_b = match self.pad_net(b) {
            Ok(net) => net,
            Err(e) => return Err(e),
        };
        let net = match (net_a, net_b) {
            (Some(x), Some(y)) => {
                if x == y {
                    x
                } else {
                    return Err(NetError::AlreadyOnDifferentNets);
                }
            },
            (Some(x), None) => x,
            (None, Some(y)) => y,
            (None, None) => self.create_net(),
        };
        let first = self.set_pad_net(a, Some(net));
        proof {
            let ia = with_net(item_a->0, Some(net));
            lemma_replaced_item(before, a, ia, a);
            lemma_replaced_item(before, a, ia, b);
            let ib = with_net(item_b->0, Some(net));
            assert(a == b ==> with_net(ia, Some(net)) == ib);
            lemma_replaced_item(replaced(before, a, ia), b, ib, a);
            lemma_replaced_item(replaced(before, a, ia), b, ib, b);
        }
        let second = self.set_pad_net(b, Some(net));
        Ok(net)
    }

    /// Takes the record of `net` out of the list.
    fn forget_net(&mut self, net: NetId)
        requires
            old(self).wf(),
        ensures
            final(self).wf(),
            final(self).same_but_nets(old(self)),
            final(self).nets@ == nets_without(old(self).nets@, net),
    {
        let ghost before = self.nets@;
        let mut i: usize = 0;
        while i < self.nets.len()
            invariant
                i <= self.nets@.len(),
                before == self.nets@,
                before == old(self).nets@,
                *self == *old(self),
                self.wf(),
                forall|k: int| 0 <= k < i ==> (#[trigger] before[k]).id != net,
            decreases self.nets@.len() - i,
        {
            if self.nets[i].id == net {
                proof {
                    lemma_nets_without_one(before, net, i as int);
                }
                self.nets.remove(i);
                return;
            }
            i += 1;
        }
        proof {
            lemma_nets_without_none(before, net);
        }
    }

    /// Takes a pad off its net; a net that nothing is on any more is forgotten.
    /// A net without pads stays on record while a track, a via or a pour is on
    /// it: copper must not be left on a net that nobody knows.
    pub fn disconnect_pad(&mut self, id: ItemId) -> (r: Result<(), NetError>)
        requires
            old(self).wf(),
            old(self).node.has_room_for(1),
        ensures
            final(self).wf(),
            final(self).same_but_node_and_nets(old(self)),
            final(self).next_net_serial == old(self).next_net_serial,
            match old(self).pad_net_of(id) {
                Ok(was) => {
                    &&& r is Ok
                    &&& final(self).node.entries@ == replaced(
                        old(self).node.entries@,
                        id,
                        with_net(old(self).node.item(id)->0, None),
                    )
                    &&& final(self).pad_net_of(id) == Ok::<Option<NetId>, NetError>(None)
                    &&& final(self).nets@ == match was {
                        Some(net) => if net_in_use(final(self).node.entries@, net) {
                            old(self).nets@
                        } else {
                            nets_without(old(self).nets@, net)
                        },
                        None => old(self).nets@,
                    }
                    &&& final(self).node.next == old(self).node.next
                    &&& final(self).node.revision == old(self).node.revision + 1
                },
                Err(e) => r == Err::<(), NetError>(e) && *final(self) == *old(self),
            },
    {
        let ghost before = self.node.entries@;
        let ghost item = self.node.item(id);
        let old_net = match self.pad_net(id) {
            Ok(net) => net,
            Err(e) => return Err(e),
        };
        let done = self.set_pad_net(id, None);
        proof {
            lemma_replaced_item(before, id, with_net(item->0, None), id);
        }
        match old_net {
            Some(net) => {
                if !self.is_net_in_use(net) {
                    self.forget_net(net);
                }
            },
            None => {},
        }
        Ok(())
    }

    /// Deletes a net: its tracks and vias go, its pads are taken off it, and
    /// its record is forgotten.
    pub fn remove_net(&mut self, id: NetId)
        requires
            old(self).wf(),
            old(self).node.has_room_for(old(self).node.entries@.len() as int),
        ensures
            final(self).wf(),
            final(self).same_but_node_and_nets(old(self)),
            final(self).next_net_serial == old(self).next_net_serial,
            final(self).node.entries@ == unassigned(
                without(old(self).node.entries@, wires_of_net(old(self).node.entries@, id)),
                id,
            ),
            final(self).nets@ == nets_without(old(self).nets@, id),
            final(self).node.next == old(self).node.next,
            final(self).node.revision == old(self).node.revision + old(self).node.entries@.len()
                - final(self).node.entries@.len() + pads_counted(old(self).node.entries@, id),
    {
        let ghost before = self.node.entries@;
        let mut copper: Vec<ItemId> = Vec::new();
        let mut i: usize = 0;
        while i < self.node.entries.len()
            invariant
                *self == *old(self),
                before == self.node.entries@,
                ids_are_unique(before),
                i <= before.len(),
                copper@.len() + pads_counted(before.take(i as int), id) <= i,
                forall|x: ItemId| #[trigger]
                    copper@.contains(x) <==> exists|k: int|
                        0 <= k < i && (#[trigger] before[k]).id == x && is_wire(before[k].item)
                            && item_net(before[k].item) == Some(id),
            decreases before.len() - i,
        {
            let ghost was = copper@;
            let ghost ours = is_wire(before[i as int].item) && item_net(before[i as int].item)
                == Some(id);
            assert(before.take(i + 1).drop_last() =~= before.take(i as int));
            assert(before.take(i + 1).last() == before[i as int]);
            if self.node.entries[i].item.is_track_or_via() && self.node.entries[i].item.net()
                == Some(id) {
                copper.push(self.node.entries[i].id);
            }
            proof {
                assert forall|x: ItemId| #[trigger]
                    copper@.contains(x) <==> exists|k: int|
                        0 <= k < i + 1 && (#[trigger] before[k]).id == x && is_wire(before[k].item)
                            && item_net(before[k].item) == Some(id) by {
                    if was.contains(x) {
                        let k = choose|k: int|
                            0 <= k < i && (#[trigger] before[k]).id == x && is_wire(before[k].item)
                                && item_net(before[k].item) == Some(id);
                        assert(before[k].id == x);
                        let m = choose|m: int| 0 <= m < was.len() && was[m] == x;
                        assert(copper@[m] == x);
                    }
                    if ours && x == before[i as int].id {
                        assert(copper@[was.len() as int] == x);
                    }
                    if copper@.contains(x) {
                        let m = choose|m: int| 0 <= m < copper@.len() && copper@[m] == x;
                        if m < was.len() {
                            assert(was[m] == x);
                            assert(was.contains(x));
                        }
                    }
                    if exists|k: int|
                        0 <= k < i + 1 && (#[trigger] before[k]).id == x && is_wire(before[k].item)
                            && item_net(before[k].item) == Some(id) {
                        let k = choose|k: int|
                            0 <= k < i + 1 && (#[trigger] before[k]).id == x && is_wire(
                                before[k].item,
                            ) && item_net(before[k].item) == Some(id);
                        if k < i {
                            assert(was.contains(x));
                        }
                    }
                }
            }
            i += 1;
        }
        proof {
            assert(before.take(i as int) =~= before);
            assert(wires_among(before, copper@.to_set()) =~= wires_of_net(before, id)) by {
                assert forall|x: ItemId|
                    wires_among(before, copper@.to_set()).contains(x) <==> wires_of_net(
                        before,
                        id,
                    ).contains(x) by {
                    if copper@.contains(x) {
                        let k = choose|k: int|
                            0 <= k < i && (#[trigger] before[k]).id == x && is_wire(before[k].item)
                                && item_net(before[k].item) == Some(id);
                        lemma_item_of_index(before, k);
                    }
                    if wires_of_net(before, id).contains(x) {
                        let k = lemma_item_of_some(before, x);
                        assert(before[k].id == x);
                        assert(copper@.contains(x));
                    }
                }
            }
        }
        self.remove_items(&copper);
        let ghost kept = self.node.entries@;
        let ghost mid = *self;
        proof {
            assert forall|k: int| 0 <= k < before.len() && (#[trigger] before[k]).item is Pad implies
                !wires_of_net(before, id).contains(before[k].id) by {
                lemma_item_of_index(before, k);
            }
            lemma_kept_pads(before, wires_of_net(before, id), id);
            lemma_kept_pads(kept, Set::empty(), id);
        }
        let mut j: usize = 0;
        assert(kept.take(0) =~= Seq::<Entry>::empty());
        assert(self.node.entries@ =~= unassigned(kept.take(0), id) + kept.skip(0));
        while j < self.node.entries.len()
            invariant
                self.wf(),
                self.same_but_node(&mid),
                mid.same_but_node(old(self)),
                kept.len() == self.node.entries@.len(),
                j <= kept.len(),
                ids_are_unique(kept),
                self.node.entries@ == unassigned(kept.take(j as int), id) + kept.skip(j as int),
                self.node.next == old(self).node.next,
                self.node.revision == mid.node.revision + pads_counted(kept.take(j as int), id),
                mid.node.revision + pads_counted(kept, id) <= u64::MAX,
                self.node.next <= u64::MAX - 1 || pads_counted(kept, id) == 0,
            decreases kept.len() - j,
        {
            let ghost now = self.node.entries@;
            assert(kept.take(j + 1).drop_last() =~= kept.take(j as int));
            assert(kept.take(j + 1).last() == kept[j as int]);
            assert(now[j as int] == kept[j as int]);
            if self.node.entries[j].item.is_pad() && self.node.entries[j].item.net() == Some(id) {
                let pad = self.node.entries[j].id;
                proof {
                    lemma_item_of_index(now, j as int);
                    lemma_pads_counted_grows(kept, id, j + 1);
                }
                let done = self.set_pad_net(pad, None);
                proof {
                    let after = unassigned(kept.take(j + 1), id) + kept.skip(j + 1);
                    assert forall|k: int| 0 <= k < after.len() implies self.node.entries@[k]
                        == after[k] by {
                        if k != j {
                            if k < j {
                                assert(now[k].id != now[j as int].id);
                            } else {
                                assert(now[j as int].id != now[k].id);
                            }
                            assert(self.node.entries@[k] == now[k]);
                        }
                    }
                    assert(self.node.entries@ =~= after);
                }
            } else {
                assert(now =~= unassigned(kept.take(j + 1), id) + kept.skip(j + 1));
            }
            j += 1;
        }
        assert(kept.take(j as int) =~= kept);
        assert(self.node.entries@ =~= unassigned(kept, id));
        self.forget_net(id);
    }

    /// Forgets every net that nothing is on.
    pub fn prune_empty_nets(&mut self)
        requires
            old(self).wf(),
        ensures
            final(self).wf(),
            final(self).same_but_nets(old(self)),
            final(self).nets@ == nets_in_use(old(self).nets@, old(self).node.entries@),
    {
        let ghost before = self.nets@;
        let ghost entries = self.node.entries@;
        let ghost mut done: int = 0;
        let mut i: usize = 0;
        assert(self.nets@ =~= nets_in_use(before.take(0), entries) + before.skip(0));
        while i < self.nets.len()
            invariant
                self.wf(),
                self.same_but_nets(old(self)),
                entries == old(self).node.entries@,
                before == old(self).nets@,
                0 <= done <= before.len(),
                i == nets_in_use(before.take(done), entries).len(),
                self.nets@ == nets_in_use(before.take(done), entries) + before.skip(done),
            decreases before.len() - done,
        {
            assert(self.nets@[i as int] == before[done]);
            assert(before.take(done + 1).drop_last() =~= before.take(done));
            assert(before.take(done + 1).last() == before[done]);
            if self.is_net_in_use(self.nets[i].id) {
                assert(self.nets@ =~= nets_in_use(before.take(done + 1), entries) + before.skip(
                    done + 1,
                ));
                i += 1;
            } else {
                let ghost now = self.nets@;
                self.nets.remove(i);
                proof {
                    lemma_removed_net_ids(now, i as int, self.next_net_serial as int);
                }
                assert(self.nets@ =~= nets_in_use(before.take(done + 1), entries) + before.skip(
                    done + 1,
                ));
            }
            proof {
                done = done + 1;
            }
        }
        assert(done == before.len());
        assert(before.take(done) =~= before);
        assert(self.nets@ =~= nets_in_use(before, entries));
    }
}

/// The lookup by name finds a net if one has the name, and then one that has
/// it.
pub proof fn lemma_net_named(nets: Seq<NetRecord>, name: Seq<char>)
    ensures
        match net_named(nets, name) {
            Some(net) => exists|i: int|
                0 <= i < nets.len() && (#[trigger] nets[i]).id == net && nets[i].name@ == name,
            None => forall|i: int| 0 <= i < nets.len() ==> (#[trigger] nets[i]).name@ != name,
        },
    decreases nets.len(),
{
    if nets.len() > 0 {
        let rest = nets.drop_first();
        if nets[0].name@ != name {
            lemma_net_named(rest, name);
            match net_named(rest, name) {
                Some(net) => {
                    let i = choose|i: int|
                        0 <= i < rest.len() && (#[trigger] rest[i]).id == net && rest[i].name@
                            == name;
                    assert(nets[i + 1] == rest[i]);
                },
                None => {
                    assert forall|i: int| 0 <= i < nets.len() implies (#[trigger] nets[i]).name@
                        != name by {
                        if i > 0 {
                            assert(rest[i - 1] == nets[i]);
                        }
                    }
                },
            }
        } else {
            assert(nets[0].id == net_named(nets, name)->0);
        }
    }
}

proof fn lemma_removed_net_ids(nets: Seq<NetRecord>, i: int, last: int)
    requires
        net_ids_ok(nets, last),
        0 <= i < nets.len(),
    ensures
        net_ids_ok(nets.remove(i), last),
{
    let rest = nets.remove(i);
    assert forall|a: int, b: int| #![trigger rest[a], rest[b]] 0 <= a < b < rest.len() implies
        rest[a].id != rest[b].id by {
        let x = if a < i {
            a
        } else {
            a + 1
        };
        let y = if b < i {
            b
        } else {
            b + 1
        };
        assert(rest[a] == nets[x] && rest[b] == nets[y]);
    }
    assert forall|a: int| #![trigger rest[a]] 0 <= a < rest.len() implies rest[a].id.0 <= last by {
        let x = if a < i {
            a
        } else {
            a + 1
        };
        assert(rest[a] == nets[x]);
    }
}

proof fn lemma_nets_without_none(nets: Seq<NetRecord>, net: NetId)
    requires
        forall|k: int| 0 <= k < nets.len() ==> (#[trigger] nets[k]).id != net,
    ensures
        nets_without(nets, net) == nets,
    decreases nets.len(),
{
    if nets.len() > 0 {
        let init = nets.drop_last();
        assert forall|k: int| 0 <= k < init.len() implies (#[trigger] init[k]).id != net by {
            assert(init[k] == nets[k]);
        }
        lemma_nets_without_none(init, net);
        assert(nets =~= init.push(nets.last()));
    }
}

proof fn lemma_nets_without_one(nets: Seq<NetRecord>, net: NetId, i: int)
    requires
        net_ids_ok(nets, u32::MAX as int),
        0 <= i < nets.len(),
        nets[i].id == net,
    ensures
        nets_without(nets, net) == nets.remove(i),
        forall|last: int| net_ids_ok(nets, last) ==> net_ids_ok(nets.remove(i), last),
    decreases nets.len(),
{
    assert forall|last: int| net_ids_ok(nets, last) implies net_ids_ok(nets.remove(i), last) by {
        lemma_removed_net_ids(nets, i, last);
    }
    let init = nets.drop_last();
    if i == nets.len() - 1 {
        assert forall|k: int| 0 <= k < init.len() implies (#[trigger] init[k]).id != net by {
            assert(init[k] == nets[k]);
            assert(nets[k].id != nets[i].id);
        }
        lemma_nets_without_none(init, net);
        assert(init =~= nets.remove(i));
    } else {
        assert(init[i] == nets[i]);
        assert(init =~= nets.remove(nets.len() - 1));
        lemma_removed_net_ids(nets, nets.len() - 1, u32::MAX as int);
        lemma_nets_without_one(init, net, i);
        assert(nets.last() == nets[nets.len() - 1]);
        assert(nets[i].id != nets[nets.len() - 1].id);
        assert(nets.remove(i) =~= init.remove(i).push(nets.last()));
    }
}

/// Deleting wires deletes no pad.
proof fn lemma_kept_pads(entries: Seq<Entry>, gone: Set<ItemId>, net: NetId)
    requires
        forall|i: int|
            0 <= i < entries.len() && (#[trigger] entries[i]).item is Pad ==> !gone.contains(
                entries[i].id,
            ),
    ensures
        pads_counted(without(entries, gone), net) == pads_counted(entries, net),
        pads_counted(entries, net) <= entries.len(),
    decreases entries.len(),
{
    if entries.len() > 0 {
        let init = entries.drop_last();
        assert forall|i: int| 0 <= i < init.len() && (#[trigger] init[i]).item is Pad implies
            !gone.contains(init[i].id) by {
            assert(init[i] == entries[i]);
        }
        lemma_kept_pads(init, gone, net);
        let kept = without(init, gone);
        assert(entries[entries.len() - 1] == entries.last());
        assert(kept.push(entries.last()).drop_last() =~= kept);
    }
}

proof fn lemma_pads_counted_grows(entries: Seq<Entry>, net: NetId, k: int)
    requires
        0 <= k <= entries.len(),
    ensures
        pads_counted(entries.take(k), net) <= pads_counted(entries, net),
    decreases entries.len(),
{
    if k < entries.len() {
        let init = entries.drop_last();
        assert(init.take(k) =~= entries.take(k));
        lemma_pads_counted_grows(init, net, k);
    } else {
        assert(entries.take(k) =~= entries);
    }
}

/// A newly created net has an id that no net on the board has.
pub proof fn law_created_nets_are_fresh(nets: Seq<NetRecord>, serial: u32)
    requires
        net_ids_ok(nets, serial as int),
        serial < u32::MAX,
    ensures
        !net_known(nets, NetId((serial + 1) as u32)),
{
    assert forall|i: int| 0 <= i < nets.len() implies (#[trigger] nets[i]).id != NetId(
        (serial + 1) as u32,
    ) by {
        assert(nets[i].id.0 <= serial);
    }
}

/// Renaming never makes two nets share a name.
pub proof fn law_rename_keeps_names_unique(
    before: Seq<NetRecord>,
    after: Seq<NetRecord>,
    net: NetId,
    name: Seq<char>,
    last: int,
)
    requires
        net_ids_ok(before, last),
        names_are_unique(before),
        !name_taken(before, net, name),
        net_renamed(before, after, net, name),
    ensures
        names_are_unique(after),
{
    assert forall|i: int, j: int| #![trigger after[i], after[j]] 0 <= i < j < after.len() implies
        after[i].name@ != after[j].name@ by {
        assert(before[i].id != before[j].id);
        assert(before[i].name@ != before[j].name@);
    }
}

/// A renamed net is found under its new name.
pub proof fn law_renamed_net_is_found(
    before: Seq<NetRecord>,
    after: Seq<NetRecord>,
    net: NetId,
    name: Seq<char>,
)
    requires
        net_known(before, net),
        !name_taken(before, net, name),
        net_renamed(before, after, net, name),
    ensures
        net_named(after, name) == Some(net),
{
    let i = choose|i: int| 0 <= i < before.len() && (#[trigger] before[i]).id == net;
    assert(after[i].id == net && after[i].name@ == name);
    assert forall|k: int| 0 <= k < after.len() && (#[trigger] after[k]).name@ == name implies
        after[k].id == net by {
        assert(before[k].id == net || before[k].name@ != name);
    }
    lemma_only_one_named(after, net, name, i);
}

proof fn lemma_only_one_named(nets: Seq<NetRecord>, net: NetId, name: Seq<char>, i: int)
    requires
        0 <= i < nets.len(),
        nets[i].name@ == name,
        forall|k: int|
            0 <= k < nets.len() && (#[trigger] nets[k]).name@ == name ==> nets[k].id == net,
    ensures
        net_named(nets, name) == Some(net),
    decreases nets.len(),
{
    if nets[0].name@ != name {
        let rest = nets.drop_first();
        assert(rest[i - 1] == nets[i]);
        assert forall|k: int| 0 <= k < rest.len() && (#[trigger] rest[k]).name@ == name implies
            rest[k].id == net by {
            assert(rest[k] == nets[k + 1]);
        }
        lemma_only_one_named(rest, net, name, i - 1);
    }
}

/// Taking a pad off the net it was just put on gives back the world as it
/// was.
pub proof fn law_disconnect_undoes_connect(entries: Seq<Entry>, id: ItemId, net: NetId)
    requires
        ids_are_unique(entries),
        item_of(entries, id) matches Some(pad) && pad is Pad && item_net(pad) is None,
    ensures
        ({
            let pad = item_of(entries, id)->0;
            let on = replaced(entries, id, with_net(pad, Some(net)));
            replaced(on, id, with_net(item_of(on, id)->0, None)) == entries
        }),
{
    let pad = item_of(entries, id)->0;
    let on = replaced(entries, id, with_net(pad, Some(net)));
    lemma_replaced_item(entries, id, with_net(pad, Some(net)), id);
    let off = replaced(on, id, with_net(item_of(on, id)->0, None));
    assert forall|k: int| 0 <= k < entries.len() implies off[k] == entries[k] by {
        lemma_item_of_index(entries, k);
    }
    assert(off =~= entries);
}

/// After a net is deleted, no pad, track or via is on it any more.
pub proof fn law_removed_net_holds_no_pad_or_wire(entries: Seq<Entry>, net: NetId, i: int)
    requires
        ids_are_unique(entries),
        0 <= i < unassigned(without(entries, wires_of_net(entries, net)), net).len(),
        item_net(unassigned(without(entries, wires_of_net(entries, net)), net)[i].item) == Some(net),
    ensures
        unassigned(without(entries, wires_of_net(entries, net)), net)[i].item is Zone,
{
    let kept = without(entries, wires_of_net(entries, net));
    lemma_without_contains(entries, wires_of_net(entries, net));
    let e = kept[i];
    assert(kept.contains(e));
    assert(entries.contains(e));
    let k = choose|k: int| 0 <= k < entries.len() && entries[k] == e;
    lemma_item_of_index(entries, k);
    assert(!wires_of_net(entries, net).contains(e.id));
}

/// Deleting a net takes no pad off the board.
pub proof fn law_removed_net_keeps_every_pad(entries: Seq<Entry>, net: NetId, id: ItemId)
    requires
        ids_are_unique(entries),
        item_of(entries, id) matches Some(pad) && pad is Pad,
    ensures
        ({
            let pad = item_of(entries, id)->0;
            let after = unassigned(without(entries, wires_of_net(entries, net)), net);
            item_of(after, id) == Some(
                if item_net(pad) == Some(net) {
                    with_net(pad, None)
                } else {
                    pad
                },
            )
        }),
{
    let gone = wires_of_net(entries, net);
    let kept = without(entries, gone);
    lemma_without_item(entries, gone, id);
    lemma_unassigned_item(kept, net, id);
}

proof fn lemma_unassigned_item(entries: Seq<Entry>, net: NetId, id: ItemId)
    ensures
        item_of(unassigned(entries, net), id) == match item_of(entries, id) {
            Some(item) => Some(
                if item is Pad && item_net(item) == Some(net) {
                    with_net(item, None)
                } else {
                    item
                },
            ),
            None => None,
        },
    decreases entries.len(),
{
    if entries.len() > 0 {
        assert(unassigned(entries, net).drop_first() =~= unassigned(entries.drop_first(), net));
        lemma_unassigned_item(entries.drop_first(), net, id);
    }
}

/// Joining two pads that are on one net already, or a pad to itself, leaves
/// the world as it was.
pub proof fn law_reconnecting_is_harmless(entries: Seq<Entry>, a: ItemId, b: ItemId, net: NetId)
    requires
        ids_are_unique(entries),
        item_of(entries, a) matches Some(pad) && pad is Pad && item_net(pad) == Some(net),
        item_of(entries, b) matches Some(pad) && pad is Pad && item_net(pad) == Some(net),
    ensures
        joined_net(Some(net), Some(net), net) == Some(net),
        replaced(
            replaced(entries, a, with_net(item_of(entries, a)->0, Some(net))),
            b,
            with_net(item_of(entries, b)->0, Some(net)),
        ) == entries,
{
    let once = replaced(entries, a, with_net(item_of(entries, a)->0, Some(net)));
    let twice = replaced(once, b, with_net(item_of(entries, b)->0, Some(net)));
    assert forall|k: int| 0 <= k < entries.len() implies twice[k] == entries[k] by {
        lemma_item_of_index(entries, k);
    }
    assert(twice =~= entries);
}

/// Taking pads off their nets orphans no net: if something was on every
/// recorded net before, something is on every recorded net after.
pub proof fn law_disconnect_orphans_no_net(
    entries: Seq<Entry>,
    nets: Seq<NetRecord>,
    id: ItemId,
    net: NetId,
    k: int,
)
    requires
        ids_are_unique(entries),
        item_of(entries, id) matches Some(pad) && pad is Pad && item_net(pad) == Some(net),
        forall|i: int| 0 <= i < nets.len() ==> net_in_use(entries, (#[trigger] nets[i]).id),
    ensures
        ({
            let after = replaced(entries, id, with_net(item_of(entries, id)->0, None));
            let left = if net_in_use(after, net) {
                nets
            } else {
                nets_without(nets, net)
            };
            0 <= k < left.len() ==> net_in_use(after, left[k].id)
        }),
{
    let after = replaced(entries, id, with_net(item_of(entries, id)->0, None));
    let left = if net_in_use(after, net) {
        nets
    } else {
        nets_without(nets, net)
    };
    if 0 <= k < left.len() {
        lemma_left_nets(nets, net, k);
        let other = left[k].id;
        if other != net {
            let i = choose|i: int| 0 <= i < nets.len() && (#[trigger] nets[i]).id == other;
            let e = choose|e: int|
                0 <= e < entries.len() && item_net((#[trigger] entries[e]).item) == Some(other);
            lemma_item_of_index(entries, e);
            assert(entries[e].id != id);
            assert(after[e] == entries[e]);
        }
    }
}

/// What is left of the records is among them, and not the one that was taken
/// out.
proof fn lemma_left_nets(nets: Seq<NetRecord>, net: NetId, k: int)
    ensures
        0 <= k < nets.len() ==> exists|i: int|
            0 <= i < nets.len() && (#[trigger] nets[i]).id == nets[k].id,
        0 <= k < nets_without(nets, net).len() ==> nets_without(nets, net)[k].id != net && exists|
            i: int,
        |
            0 <= i < nets.len() && (#[trigger] nets[i]).id == nets_without(nets, net)[k].id,
    decreases nets.len(),
{
    if nets.len() > 0 {
        let init = nets.drop_last();
        lemma_left_nets(init, net, k);
        let rest = nets_without(init, net);
        if 0 <= k < rest.len() {
            let i = choose|i: int| 0 <= i < init.len() && (#[trigger] init[i]).id == rest[k].id;
            assert(nets[i] == init[i]);
        } else if k == rest.len() {
            assert(nets[nets.len() - 1] == nets.last());
        }
    }
}

} // verus!
