//! Pin maps: which net each named pin of a new part goes on.

use vstd::prelude::*;

use crate::board_doc::{BoardDoc, FootprintId, NetRecord, PlacedFootprint};
use crate::footprint::{FootprintTemplate, PadTemplate};
use crate::item::{lemma_item_of_index, Entry, Item, ItemId, NetId};
use crate::matrix::reversed;
use crate::mcp_placement::{named_pins, tells_of, PlacePartSpec, PlaceStep, PlacedPart};
use crate::nets::{fresh_names, lemma_net_named, net_named, nets_added, NetError};
use crate::parts::{
    assign_pad_nets, find_pad_number, ids_of_kind, pad_numbered, pads_in, part_at, parts_only,
    with_pad_nets,
};
use crate::placement::PlacedShape;
use crate::text::pairs_of;

verus! {

/// The name of the net that pad `k` of a part goes on: the last that a pin
/// map gives it, if it gives it one.
pub open spec fn mapped_net(
    pads: Seq<PadTemplate>,
    pins: Seq<(Seq<char>, Seq<char>)>,
    k: int,
) -> Option<Seq<char>>
    decreases pins.len(),
{
    if pins.len() == 0 {
        None
    } else if pad_numbered(pads, pins.last().0) == Some(k) {
        Some(pins.last().1)
    } else {
        mapped_net(pads, pins.drop_last(), k)
    }
}

/// The nets of a part's pads by its pin map.
pub open spec fn mapped_nets(
    pads: Seq<PadTemplate>,
    pins: Seq<(Seq<char>, Seq<char>)>,
    nets: Seq<NetRecord>,
) -> Seq<Option<NetId>> {
    Seq::new(
        pads.len(),
        |k: int|
            match mapped_net(pads, pins, k) {
                Some(name) => net_named(nets, name),
                None => None,
            },
    )
}

/// The first pin of a map that is not among a part's pads.
pub open spec fn missing_pin(
    pads: Seq<PadTemplate>,
    pins: Seq<(Seq<char>, Seq<char>)>,
) -> Option<Seq<char>>
    decreases pins.len(),
{
    if pins.len() == 0 {
        None
    } else {
        match missing_pin(pads, pins.drop_last()) {
            Some(pin) => Some(pin),
            None => if pad_numbered(pads, pins.last().0) is None {
                Some(pins.last().0)
            } else {
                None
            },
        }
    }
}

/// The first pin that a batch names and that its part does not have: the
/// part's template, and the pin.
pub open spec fn first_missing_pin(
    templates: Seq<FootprintTemplate>,
    steps: Seq<PlaceStep>,
) -> Option<(Seq<char>, Seq<char>)>
    decreases steps.len(),
{
    if steps.len() == 0 {
        None
    } else {
        let template = templates[steps.last().template as int];
        match first_missing_pin(templates, steps.drop_last()) {
            Some(found) => Some(found),
            None => match missing_pin(template.pads@, pairs_of(steps.last().pins@)) {
                Some(pin) => Some((template.name@, pin)),
                None => None,
            },
        }
    }
}

/// The nets that a pin map names.
pub open spec fn map_nets(pins: Seq<(Seq<char>, Seq<char>)>) -> Seq<Seq<char>> {
    pins.map_values(|p: (Seq<char>, Seq<char>)| p.1)
}

/// The nets that the pin maps of a batch name, in order.
pub open spec fn batch_nets(steps: Seq<PlaceStep>) -> Seq<Seq<char>>
    decreases steps.len(),
{
    if steps.len() == 0 {
        Seq::empty()
    } else {
        batch_nets(steps.drop_last()) + map_nets(pairs_of(steps.last().pins@))
    }
}

/// `wired` is `shape` with its pads on the given nets, and on none beyond them.
pub open spec fn is_wired(
    wired: PlacedShape,
    shape: PlacedShape,
    nets: Seq<Option<NetId>>,
) -> bool {
    &&& wired.items@ == with_pad_nets(shape.items@, nets)
    &&& wired.courtyard == shape.courtyard
    &&& wired.drills == shape.drills
    &&& wired.marker == shape.marker
}

/// Every shape of a batch is wired by the pin map of its step.
pub open spec fn all_wired(
    wired: Seq<PlacedShape>,
    shapes: Seq<PlacedShape>,
    templates: Seq<FootprintTemplate>,
    steps: Seq<PlaceStep>,
    nets: Seq<NetRecord>,
) -> bool {
    &&& wired.len() == shapes.len()
    &&& forall|i: int|
        #![trigger wired[i]]
        0 <= i < wired.len() ==> is_wired(
            wired[i],
            shapes[i],
            mapped_nets(templates[steps[i].template as int].pads@, pairs_of(steps[i].pins@), nets),
        )
}

impl BoardDoc {
    /// `self` is `before` with a record for each net that `names` calls for
    /// and that was not there.
    pub open spec fn has_nets_for(&self, before: &BoardDoc, names: Seq<Seq<char>>) -> bool {
        let fresh = fresh_names(before.nets@, names);
        &&& self.node == before.node
        &&& self.same_but_node_and_nets(before)
        &&& nets_added(before.nets@, self.nets@, before.next_net_serial as int, fresh)
        &&& self.next_net_serial == before.next_net_serial + fresh.len()
    }

    /// Every pad of the part with that id is on the net that the pin map gives
    /// it, under the very name, and on none where it gives it none.
    pub open spec fn part_is_joined(
        &self,
        id: FootprintId,
        pads: Seq<PadTemplate>,
        pins: Seq<(Seq<char>, Seq<char>)>,
    ) -> bool {
        &&& part_at(self.footprints@, id) matches Some(f) && {
            let ids = self.footprints@[f].pad_item_ids@;
            &&& ids.len() == pads.len()
            &&& forall|k: int|
                #![trigger ids[k]]
                0 <= k < pads.len() ==> {
                    &&& self.pad_net_of(ids[k]) == Ok::<Option<NetId>, NetError>(
                        mapped_nets(pads, pins, self.nets@)[k],
                    )
                    &&& mapped_net(pads, pins, k) is Some ==> mapped_nets(
                        pads,
                        pins,
                        self.nets@,
                    )[k] is Some
                }
        }
    }

    /// Puts every net that the pin maps of a batch name on record.
    pub(crate) fn add_batch_nets(&mut self, steps: &[PlaceStep])
        requires
            old(self).wf(),
            old(self).next_net_serial + batch_nets(steps@).len() <= u32::MAX,
        ensures
            final(self).wf(),
            final(self).has_nets_for(old(self), batch_nets(steps@)),
    {
        let ghost before = *self;
        let mut i: usize = 0;
        while i < steps.len()
            invariant
                before == *old(self),
                i <= steps@.len(),
                before.next_net_serial + batch_nets(steps@).len() <= u32::MAX,
                self.wf(),
                self.has_nets_for(&before, batch_nets(steps@.take(i as int))),
            decreases steps@.len() - i,
        {
            let ghost done = batch_nets(steps@.take(i as int));
            let ghost pairs = pairs_of(steps@[i as int].pins@);
            proof {
                assert(steps@.take(i + 1).drop_last() =~= steps@.take(i as int));
                assert(steps@.take(i + 1).last() == steps@[i as int]);
                lemma_batch_nets_grow(steps@, i + 1);
                assert(done + map_nets(pairs.take(0)) =~= done);
            }
            let mut j: usize = 0;
            while j < steps[i].pins.len()
                invariant
                    i < steps@.len(),
                    j <= steps@[i as int].pins@.len(),
                    pairs == pairs_of(steps@[i as int].pins@),
                    before.next_net_serial + done.len() + pairs.len() <= u32::MAX,
                    self.wf(),
                    self.has_nets_for(&before, done + map_nets(pairs.take(j as int))),
                decreases steps@[i as int].pins@.len() - j,
            {
                let ghost now = *self;
                let ghost names = done + map_nets(pairs.take(j as int));
                let ghost more = done + map_nets(pairs.take(j + 1));
                let name = &steps[i].pins[j].1;
                proof {
                    assert(more.drop_last() =~= names);
                    assert(more.last() == name@);
                    lemma_fresh_few(before.nets@, names);
                    lemma_named_so_far(
                        before.nets@,
                        now.nets@,
                        before.next_net_serial as int,
                        fresh_names(before.nets@, names),
                        name@,
                    );
                }
                let _ = self.net_for_name(name);
                proof {
                    if net_named(now.nets@, name@) is None {
                        assert forall|k: int| 0 <= k < now.nets@.len() implies #[trigger] self.nets@[k]
                            == now.nets@[k] by {
                            assert(self.nets@.drop_last()[k] == now.nets@[k]);
                        }
                        assert(self.nets@[self.nets@.len() - 1] == self.nets@.last());
                    }
                }
                j += 1;
            }
            assert(pairs.take(j as int) =~= pairs);
            i += 1;
        }
        assert(steps@.take(i as int) =~= steps@);
    }

    /// The nets of a part's pads by its pin map.
    fn nets_for_pads(&self, pads: &[PadTemplate], pins: &[(String, String)]) -> (r: Vec<
        Option<NetId>,
    >)
        ensures
            r@ == mapped_nets(pads@, pairs_of(pins@), self.nets@),
    {
        let ghost pairs = pairs_of(pins@);
        let mut r: Vec<Option<NetId>> = Vec::new();
        let mut k: usize = 0;
        while k < pads.len()
            invariant
                k <= pads@.len(),
                r@.len() == k,
                forall|m: int| 0 <= m < k ==> #[trigger] r@[m] is None,
            decreases pads@.len() - k,
        {
            r.push(None);
            k += 1;
        }
        assert(r@ =~= mapped_nets(pads@, pairs.take(0), self.nets@));
        let mut j: usize = 0;
        while j < pins.len()
            invariant
                j <= pins@.len(),
                pairs == pairs_of(pins@),
                r@ == mapped_nets(pads@, pairs.take(j as int), self.nets@),
            decreases pins@.len() - j,
        {
            let ghost was = r@;
            proof {
                assert(pairs.take(j + 1).drop_last() =~= pairs.take(j as int));
                assert(pairs.take(j + 1).last() == pairs[j as int]);
            }
            match find_pad_number(pads, &pins[j].0) {
                Some(k) => {
                    let net = self.find_net_by_name(&pins[j].1);
                    r.set(k, net);
                },
                None => {},
            }
            assert(r@ =~= mapped_nets(pads@, pairs.take(j + 1), self.nets@));
            j += 1;
        }
        assert(pairs.take(j as int) =~= pairs);
        r
    }

    /// Puts the pads of every shape of a batch on the nets that the pin maps
    /// give them.
    pub(crate) fn wire_shapes(
        &self,
        templates: &[FootprintTemplate],
        steps: &[PlaceStep],
        shapes: Vec<PlacedShape>,
    ) -> (r: Vec<PlacedShape>)
        requires
            steps@.len() == shapes@.len(),
            forall|i: int|
                #![trigger steps@[i]]
                0 <= i < steps@.len() ==> steps@[i].template < templates@.len(),
        ensures
            all_wired(r@, shapes@, templates@, steps@, self.nets@),
    {
        let ghost all = shapes@;
        let mut pending = reversed(shapes);
        let mut r: Vec<PlacedShape> = Vec::new();
        let mut i: usize = 0;
        assert(all.skip(0) =~= all);
        while i < steps.len()
            invariant
                i <= steps@.len(),
                steps@.len() == all.len(),
                pending@ == all.skip(i as int).reverse(),
                forall|i: int|
                    #![trigger steps@[i]]
                    0 <= i < steps@.len() ==> steps@[i].template < templates@.len(),
                r@.len() == i,
                forall|k: int|
                    #![trigger r@[k]]
                    0 <= k < i ==> is_wired(
                        r@[k],
                        all[k],
                        mapped_nets(
                            templates@[steps@[k].template as int].pads@,
                            pairs_of(steps@[k].pins@),
                            self.nets@,
                        ),
                    ),
            decreases steps@.len() - i,
        {
            assert(pending@.last() == all[i as int]);
            let popped = pending.pop();
            assert(pending@ =~= all.skip(i + 1).reverse());
            let shape = match popped {
                Some(shape) => shape,
                None => {
                    assert(false);
                    return r;
                },
            };
            assert(steps@[i as int].template < templates@.len());
            let step = &steps[i];
            let nets = self.nets_for_pads(&templates[step.template].pads, &step.pins);
            let PlacedShape { items, courtyard, drills, marker } = shape;
            r.push(
                PlacedShape { items: assign_pad_nets(items, &nets), courtyard, drills, marker },
            );
            i += 1;
        }
        r
    }
}

/// Where the first pin stands that a batch names and that its part does not
/// have: the step, and the place in its map.
pub(crate) fn find_missing_pin(templates: &[FootprintTemplate], steps: &[PlaceStep]) -> (r: Option<
    (usize, usize),
>)
    requires
        forall|i: int|
            #![trigger steps@[i]]
            0 <= i < steps@.len() ==> steps@[i].template < templates@.len(),
    ensures
        match r {
            Some((i, j)) => {
                &&& i < steps@.len()
                &&& j < steps@[i as int].pins@.len()
                &&& first_missing_pin(templates@, steps@) == Some(
                    (
                        templates@[steps@[i as int].template as int].name@,
                        steps@[i as int].pins@[j as int].0@,
                    ),
                )
            },
            None => first_missing_pin(templates@, steps@) is None,
        },
{
    let mut i: usize = 0;
    while i < steps.len()
        invariant
            i <= steps@.len(),
            forall|i: int|
                #![trigger steps@[i]]
                0 <= i < steps@.len() ==> steps@[i].template < templates@.len(),
            first_missing_pin(templates@, steps@.take(i as int)) is None,
        decreases steps@.len() - i,
    {
        proof {
            assert(steps@.take(i + 1).drop_last() =~= steps@.take(i as int));
            assert(steps@.take(i + 1).last() == steps@[i as int]);
            assert(steps@[i as int].template < templates@.len());
        }
        let step = &steps[i];
        let pads = &templates[step.template].pads;
        let ghost pairs = pairs_of(step.pins@);
        let mut j: usize = 0;
        while j < step.pins.len()
            invariant
                j <= step.pins@.len(),
                i < steps@.len(),
                *step == steps@[i as int],
                *pads == templates@[step.template as int].pads,
                pairs == pairs_of(step.pins@),
                missing_pin(pads@, pairs.take(j as int)) is None,
                first_missing_pin(templates@, steps@.take(i as int)) is None,
                steps@.take(i + 1).drop_last() == steps@.take(i as int),
                steps@.take(i + 1).last() == steps@[i as int],
            decreases step.pins@.len() - j,
        {
            proof {
                assert(pairs.take(j + 1).drop_last() =~= pairs.take(j as int));
                assert(pairs.take(j + 1).last() == pairs[j as int]);
            }
            if find_pad_number(pads, &step.pins[j].0).is_none() {
                proof {
                    lemma_missing_stays(pads@, pairs, j + 1);
                    lemma_first_missing_stays(templates@, steps@, i + 1);
                }
                return Some((i, j));
            }
            j += 1;
        }
        assert(pairs.take(j as int) =~= pairs);
        i += 1;
    }
    assert(steps@.take(i as int) =~= steps@);
    None
}

proof fn lemma_missing_stays(pads: Seq<PadTemplate>, pins: Seq<(Seq<char>, Seq<char>)>, n: int)
    requires
        0 <= n <= pins.len(),
        missing_pin(pads, pins.take(n)) is Some,
    ensures
        missing_pin(pads, pins) == missing_pin(pads, pins.take(n)),
    decreases pins.len() - n,
{
    if n < pins.len() {
        assert(pins.take(n + 1).drop_last() =~= pins.take(n));
        lemma_missing_stays(pads, pins, n + 1);
    } else {
        assert(pins.take(n) =~= pins);
    }
}

proof fn lemma_first_missing_stays(
    templates: Seq<FootprintTemplate>,
    steps: Seq<PlaceStep>,
    n: int,
)
    requires
        0 <= n <= steps.len(),
        first_missing_pin(templates, steps.take(n)) is Some,
    ensures
        first_missing_pin(templates, steps) == first_missing_pin(templates, steps.take(n)),
    decreases steps.len() - n,
{
    if n < steps.len() {
        assert(steps.take(n + 1).drop_last() =~= steps.take(n));
        lemma_first_missing_stays(templates, steps, n + 1);
    } else {
        assert(steps.take(n) =~= steps);
    }
}

proof fn lemma_batch_nets_grow(steps: Seq<PlaceStep>, n: int)
    requires
        0 <= n <= steps.len(),
    ensures
        batch_nets(steps.take(n)).len() <= batch_nets(steps).len(),
    decreases steps.len(),
{
    if n < steps.len() {
        assert(steps.drop_last().take(n) =~= steps.take(n));
        lemma_batch_nets_grow(steps.drop_last(), n);
    } else {
        assert(steps.take(n) =~= steps);
    }
}

proof fn lemma_fresh_few(nets: Seq<NetRecord>, names: Seq<Seq<char>>)
    ensures
        fresh_names(nets, names).len() <= names.len(),
    decreases names.len(),
{
    if names.len() > 0 {
        lemma_fresh_few(nets, names.drop_last());
    }
}

/// A name is found once nets were added if it was found before, or is one of
/// theirs.
proof fn lemma_named_so_far(
    before: Seq<NetRecord>,
    after: Seq<NetRecord>,
    serial: int,
    names: Seq<Seq<char>>,
    name: Seq<char>,
)
    requires
        nets_added(before, after, serial, names),
    ensures
        net_named(after, name) is Some <==> net_named(before, name) is Some || names.contains(name),
{
    lemma_net_named(before, name);
    lemma_net_named(after, name);
    if net_named(before, name) is Some {
        let i = choose|i: int|
            0 <= i < before.len() && (#[trigger] before[i]).id == net_named(before, name)->0
                && before[i].name@ == name;
        assert(after[i] == before[i]);
    }
    if names.contains(name) {
        let j = choose|j: int| 0 <= j < names.len() && names[j] == name;
        assert(after[before.len() + j].name@ == name);
    }
    if net_named(after, name) is Some {
        let i = choose|i: int|
            0 <= i < after.len() && (#[trigger] after[i]).id == net_named(after, name)->0
                && after[i].name@ == name;
        if i < before.len() {
            assert(after[i] == before[i]);
            assert(before[i].name@ == name);
        } else {
            assert(names[i - before.len()] == name);
        }
    }
}

/// Every name is on record once the fresh ones are.
proof fn lemma_names_are_known(
    before: Seq<NetRecord>,
    after: Seq<NetRecord>,
    serial: int,
    names: Seq<Seq<char>>,
    name: Seq<char>,
)
    requires
        nets_added(before, after, serial, fresh_names(before, names)),
        names.contains(name),
    ensures
        net_named(after, name) is Some,
{
    lemma_fresh_or_known(before, names, name);
    lemma_named_so_far(before, after, serial, fresh_names(before, names), name);
}

proof fn lemma_fresh_or_known(nets: Seq<NetRecord>, names: Seq<Seq<char>>, name: Seq<char>)
    requires
        names.contains(name),
    ensures
        net_named(nets, name) is Some || fresh_names(nets, names).contains(name),
    decreases names.len(),
{
    let init = names.drop_last();
    let rest = fresh_names(nets, init);
    if names.last() != name {
        let i = choose|i: int| 0 <= i < names.len() && names[i] == name;
        assert(init[i] == name);
        lemma_fresh_or_known(nets, init, name);
        if rest.contains(name) {
            let j = choose|j: int| 0 <= j < rest.len() && rest[j] == name;
            assert(rest.push(names.last())[j] == name);
        }
    } else {
        assert(rest.push(name)[rest.len() as int] == name);
    }
}

proof fn lemma_mapped_is_named(
    pads: Seq<PadTemplate>,
    pins: Seq<(Seq<char>, Seq<char>)>,
    k: int,
)
    requires
        mapped_net(pads, pins, k) is Some,
    ensures
        map_nets(pins).contains(mapped_net(pads, pins, k)->0),
    decreases pins.len(),
{
    let name = mapped_net(pads, pins, k)->0;
    if pad_numbered(pads, pins.last().0) == Some(k) {
        assert(map_nets(pins)[pins.len() - 1] == name);
    } else {
        let init = pins.drop_last();
        lemma_mapped_is_named(pads, init, k);
        let i = choose|i: int| 0 <= i < map_nets(init).len() && map_nets(init)[i] == name;
        assert(map_nets(pins)[i] == name);
    }
}

proof fn lemma_batch_names(steps: Seq<PlaceStep>, i: int, name: Seq<char>)
    requires
        0 <= i < steps.len(),
        map_nets(pairs_of(steps[i].pins@)).contains(name),
    ensures
        batch_nets(steps).contains(name),
    decreases steps.len(),
{
    let init = steps.drop_last();
    let own = map_nets(pairs_of(steps.last().pins@));
    let before = batch_nets(init);
    if i == steps.len() - 1 {
        let j = choose|j: int| 0 <= j < own.len() && own[j] == name;
        assert((before + own)[before.len() + j] == name);
    } else {
        assert(init[i] == steps[i]);
        lemma_batch_names(init, i, name);
        let j = choose|j: int| 0 <= j < before.len() && before[j] == name;
        assert((before + own)[j] == name);
    }
}

/// Nets change neither how many pads there are nor where they stand.
pub(crate) proof fn lemma_wired_pads(items: Seq<Item>, nets: Seq<Option<NetId>>, n: int)
    requires
        0 <= n <= items.len(),
    ensures
        pads_in(with_pad_nets(items, nets).take(n)) == pads_in(items.take(n)),
    decreases n,
{
    if n > 0 {
        let wired = with_pad_nets(items, nets);
        assert(wired.take(n).drop_last() =~= wired.take(n - 1));
        assert(items.take(n).drop_last() =~= items.take(n - 1));
        lemma_wired_pads(items, nets, n - 1);
    }
}

/// Where the `k`-th pad stands among the items of a part.
pub(crate) proof fn lemma_pad_place(items: Seq<Item>, first: int, k: int) -> (p: int)
    requires
        parts_only(items),
        0 <= first,
        first + items.len() <= u64::MAX,
        0 <= k < pads_in(items),
    ensures
        ids_of_kind(items, first, false).len() == pads_in(items),
        0 <= p < items.len(),
        items[p] is Pad,
        pads_in(items.take(p)) == k,
        ids_of_kind(items, first, false)[k] == ItemId((first + p) as u64),
    decreases items.len(),
{
    let init = items.drop_last();
    assert(items[items.len() - 1] == items.last());
    assert forall|i: int| #![trigger init[i]] 0 <= i < init.len() implies init[i] is Pad
        || init[i] is Hole by {
        assert(items[i] == init[i]);
    }
    lemma_pad_count(init, first);
    if items.last() is Pad && k == pads_in(init) {
        assert(items.take(items.len() - 1) =~= init);
        items.len() - 1
    } else {
        let p = lemma_pad_place(init, first, k);
        assert(init.take(p) =~= items.take(p));
        assert(items[p] == init[p]);
        p
    }
}

pub(crate) proof fn lemma_pad_count(items: Seq<Item>, first: int)
    requires
        parts_only(items),
    ensures
        ids_of_kind(items, first, false).len() == pads_in(items),
    decreases items.len(),
{
    if items.len() > 0 {
        let init = items.drop_last();
        assert(items[items.len() - 1] == items.last());
        assert forall|i: int| #![trigger init[i]] 0 <= i < init.len() implies init[i] is Pad
            || init[i] is Hole by {
            assert(items[i] == init[i]);
        }
        lemma_pad_count(init, first);
    }
}

/// A part whose wired shape is on the board is joined as its pin map says.
pub(crate) proof fn lemma_part_is_joined(
    doc: BoardDoc,
    f: int,
    at: int,
    first: int,
    wired: PlacedShape,
    shape: PlacedShape,
    pads: Seq<PadTemplate>,
    pins: Seq<(Seq<char>, Seq<char>)>,
)
    requires
        doc.wf(),
        0 <= f < doc.footprints@.len(),
        0 <= at,
        at + wired.items@.len() <= doc.node.entries@.len(),
        0 <= first,
        first + wired.items@.len() <= u64::MAX,
        is_wired(wired, shape, mapped_nets(pads, pins, doc.nets@)),
        parts_only(shape.items@),
        pads_in(shape.items@) == pads.len(),
        doc.footprints@[f].pad_item_ids@ == ids_of_kind(wired.items@, first, false),
        forall|p: int|
            0 <= p < wired.items@.len() ==> #[trigger] doc.node.entries@[at + p] == (Entry {
                id: ItemId((first + p) as u64),
                item: wired.items@[p],
            }),
        forall|k: int|
            mapped_net(pads, pins, k) is Some ==> net_named(
                doc.nets@,
                (#[trigger] mapped_net(pads, pins, k))->0,
            ) is Some,
    ensures
        doc.part_is_joined(doc.footprints@[f].id, pads, pins),
{
    let nets = mapped_nets(pads, pins, doc.nets@);
    let items = shape.items@;
    let ids = doc.footprints@[f].pad_item_ids@;
    assert(wired.items@.take(wired.items@.len() as int) =~= wired.items@);
    assert(items.take(items.len() as int) =~= items);
    lemma_wired_pads(items, nets, items.len() as int);
    assert(parts_only(wired.items@)) by {
        assert forall|i: int| #![trigger wired.items@[i]] 0 <= i < wired.items@.len() implies
            wired.items@[i] is Pad || wired.items@[i] is Hole by {
            assert(items[i] is Pad || items[i] is Hole);
        }
    }
    lemma_pad_count(wired.items@, first);
    lemma_part_at_index(doc.footprints@, f);
    assert forall|k: int| #![trigger ids[k]] 0 <= k < pads.len() implies doc.pad_net_of(ids[k])
        == Ok::<Option<NetId>, NetError>(nets[k]) && (mapped_net(pads, pins, k) is Some ==> nets[k]
        is Some) by {
        let p = lemma_pad_place(wired.items@, first, k);
        lemma_wired_pads(items, nets, p);
        assert(doc.node.entries@[at + p].item == wired.items@[p]);
        lemma_item_of_index(doc.node.entries@, at + p);
    }
}

/// Ids being unique, a part is found where it stands.
pub(crate) proof fn lemma_part_at_index(fps: Seq<PlacedFootprint>, f: int)
    requires
        0 <= f < fps.len(),
        forall|i: int, j: int|
            #![trigger fps[i], fps[j]]
            0 <= i < j < fps.len() ==> fps[i].id != fps[j].id,
    ensures
        part_at(fps, fps[f].id) == Some(f),
    decreases fps.len(),
{
    if f > 0 {
        assert(fps[0].id != fps[f].id);
        let rest = fps.drop_first();
        assert(rest[f - 1] == fps[f]);
        assert forall|i: int, j: int|
            #![trigger rest[i], rest[j]]
            0 <= i < j < rest.len() implies rest[i].id != rest[j].id by {
            assert(rest[i] == fps[i + 1]);
            assert(rest[j] == fps[j + 1]);
        }
        lemma_part_at_index(rest, f - 1);
    }
}

/// The nets that the pin maps of a batch give its pads are all on record.
pub(crate) proof fn lemma_mapped_nets_are_known(
    before: BoardDoc,
    after: BoardDoc,
    steps: Seq<PlaceStep>,
    i: int,
    pads: Seq<PadTemplate>,
    k: int,
)
    requires
        after.has_nets_for(&before, batch_nets(steps)),
        0 <= i < steps.len(),
        mapped_net(pads, pairs_of(steps[i].pins@), k) is Some,
    ensures
        net_named(after.nets@, mapped_net(pads, pairs_of(steps[i].pins@), k)->0) is Some,
{
    let name = mapped_net(pads, pairs_of(steps[i].pins@), k)->0;
    lemma_mapped_is_named(pads, pairs_of(steps[i].pins@), k);
    lemma_batch_names(steps, i, name);
    lemma_names_are_known(
        before.nets@,
        after.nets@,
        before.next_net_serial as int,
        batch_nets(steps),
        name,
    );
}

/// Every pin of a map is on its net: the pad with the pin's number is on a net
/// on record under the name that the map gives, unless the map names the pin
/// again later.
pub proof fn law_a_named_pin_is_on_its_net(
    doc: BoardDoc,
    id: FootprintId,
    pads: Seq<PadTemplate>,
    pins: Seq<(Seq<char>, Seq<char>)>,
    j: int,
)
    requires
        doc.part_is_joined(id, pads, pins),
        0 <= j < pins.len(),
        pad_numbered(pads, pins[j].0) is Some,
        forall|m: int| j < m < pins.len() ==> (#[trigger] pins[m]).0 != pins[j].0,
    ensures
        ({
            let f = part_at(doc.footprints@, id)->0;
            let pad = doc.footprints@[f].pad_item_ids@[pad_numbered(pads, pins[j].0)->0];
            doc.pad_net_of(pad) matches Ok(Some(net)) && exists|i: int|
                0 <= i < doc.nets@.len() && (#[trigger] doc.nets@[i]).id == net
                    && doc.nets@[i].name@ == pins[j].1
        }),
{
    let k = pad_numbered(pads, pins[j].0)->0;
    let f = part_at(doc.footprints@, id)->0;
    let ids = doc.footprints@[f].pad_item_ids@;
    lemma_pad_numbered(pads, pins[j].0);
    lemma_last_pair_wins(pads, pins, j);
    assert(doc.pad_net_of(ids[k]) == Ok::<Option<NetId>, NetError>(
        mapped_nets(pads, pins, doc.nets@)[k],
    ));
    lemma_net_named(doc.nets@, pins[j].1);
}

/// What is told of a part that was placed is so: every pin is on the net that
/// is told for it.
pub proof fn law_the_nets_told_are_the_nets(
    doc: BoardDoc,
    entry: PlacedPart,
    part: PlacePartSpec,
    id: FootprintId,
    pads: Seq<PadTemplate>,
    j: int,
)
    requires
        tells_of(entry, doc.footprints@, part, id),
        doc.part_is_joined(id, pads, named_pins(part)),
        missing_pin(pads, named_pins(part)) is None,
        entry.nets matches Some(nets) && 0 <= j < nets@.len() && forall|m: int|
            j < m < nets@.len() ==> (#[trigger] nets@[m]).0@ != nets@[j].0@,
    ensures
        ({
            let (pin, name) = pairs_of(entry.nets->0@)[j];
            let f = part_at(doc.footprints@, id)->0;
            let pad = doc.footprints@[f].pad_item_ids@[pad_numbered(pads, pin)->0];
            doc.pad_net_of(pad) matches Ok(Some(net)) && exists|i: int|
                0 <= i < doc.nets@.len() && (#[trigger] doc.nets@[i]).id == net
                    && doc.nets@[i].name@ == name
        }),
{
    let nets = entry.nets->0@;
    let pins = named_pins(part);
    assert(pairs_of(nets) == pins);
    assert(pins[j] == (nets[j].0@, nets[j].1@));
    assert forall|m: int| j < m < pins.len() implies (#[trigger] pins[m]).0 != pins[j].0 by {
        assert(pins[m] == (nets[m].0@, nets[m].1@));
    }
    lemma_none_missing(pads, pins, j);
    law_a_named_pin_is_on_its_net(doc, id, pads, pins, j);
}

proof fn lemma_none_missing(pads: Seq<PadTemplate>, pins: Seq<(Seq<char>, Seq<char>)>, j: int)
    requires
        missing_pin(pads, pins) is None,
        0 <= j < pins.len(),
    ensures
        pad_numbered(pads, pins[j].0) is Some,
    decreases pins.len(),
{
    if j < pins.len() - 1 {
        let init = pins.drop_last();
        lemma_none_missing(pads, init, j);
        assert(init[j] == pins[j]);
    }
}

/// A pad that no pin of the map names is on no net.
pub proof fn law_an_unnamed_pin_is_on_no_net(
    doc: BoardDoc,
    id: FootprintId,
    pads: Seq<PadTemplate>,
    pins: Seq<(Seq<char>, Seq<char>)>,
    k: int,
)
    requires
        doc.part_is_joined(id, pads, pins),
        0 <= k < pads.len(),
        forall|m: int| 0 <= m < pins.len() ==> pad_numbered(pads, (#[trigger] pins[m]).0) != Some(k),
    ensures
        doc.pad_net_of(doc.footprints@[part_at(doc.footprints@, id)->0].pad_item_ids@[k])
            == Ok::<Option<NetId>, NetError>(None),
{
    let ids = doc.footprints@[part_at(doc.footprints@, id)->0].pad_item_ids@;
    lemma_unmapped(pads, pins, k);
    assert(doc.pad_net_of(ids[k]) == Ok::<Option<NetId>, NetError>(
        mapped_nets(pads, pins, doc.nets@)[k],
    ));
}

proof fn lemma_unmapped(pads: Seq<PadTemplate>, pins: Seq<(Seq<char>, Seq<char>)>, k: int)
    requires
        forall|m: int| 0 <= m < pins.len() ==> pad_numbered(pads, (#[trigger] pins[m]).0) != Some(k),
    ensures
        mapped_net(pads, pins, k) is None,
    decreases pins.len(),
{
    if pins.len() > 0 {
        let init = pins.drop_last();
        assert(pins[pins.len() - 1] == pins.last());
        assert forall|m: int| 0 <= m < init.len() implies pad_numbered(pads, (#[trigger] init[m]).0)
            != Some(k) by {
            assert(pins[m] == init[m]);
        }
        lemma_unmapped(pads, init, k);
    }
}

proof fn lemma_last_pair_wins(
    pads: Seq<PadTemplate>,
    pins: Seq<(Seq<char>, Seq<char>)>,
    j: int,
)
    requires
        0 <= j < pins.len(),
        pad_numbered(pads, pins[j].0) is Some,
        forall|m: int| j < m < pins.len() ==> (#[trigger] pins[m]).0 != pins[j].0,
    ensures
        mapped_net(pads, pins, pad_numbered(pads, pins[j].0)->0) == Some(pins[j].1),
    decreases pins.len(),
{
    if j < pins.len() - 1 {
        let init = pins.drop_last();
        assert(pins[pins.len() - 1] == pins.last());
        lemma_pad_numbered(pads, pins[j].0);
        lemma_pad_numbered(pads, pins.last().0);
        assert(init[j] == pins[j]);
        assert forall|m: int| j < m < init.len() implies (#[trigger] init[m]).0 != init[j].0 by {
            assert(pins[m] == init[m]);
        }
        lemma_last_pair_wins(pads, init, j);
    }
}

/// The pad that a number finds has that number.
proof fn lemma_pad_numbered(pads: Seq<PadTemplate>, number: Seq<char>)
    ensures
        pad_numbered(pads, number) matches Some(k) ==> 0 <= k < pads.len() && pads[k].number@
            == number,
    decreases pads.len(),
{
    if pads.len() > 0 && pads[0].number@ != number {
        lemma_pad_numbered(pads.drop_first(), number);
    }
}

} // verus!
