//! Tests of what the operations on a board rely on, for a board that comes
//! from outside the editor.

use vstd::prelude::*;

use crate::board_doc::{
    footprint_ids_ok, footprint_items_distinct, footprint_items_live, net_ids_ok, silk_dot_ids_ok,
    silk_text_ids_ok, zone_ids_ok, zone_items_ok, BoardDoc, NetRecord, PlacedFootprint, SilkDot,
    SilkText, ZoneRecord,
};
use crate::cli::pads_match;
use crate::footprint::FootprintTemplate;
use crate::item::{item_of, ItemId, Node};
use crate::parts::{find_template, template_named};

verus! {

/// No two of the keys are the same.
pub open spec fn all_distinct(keys: Seq<u64>) -> bool {
    forall|i: int, j: int| #![trigger keys[i], keys[j]] 0 <= i < j < keys.len() ==> keys[i] != keys[j]
}

/// No id stands in both lists.
pub open spec fn ids_apart(a: Seq<ItemId>, b: Seq<ItemId>) -> bool {
    forall|k: int, l: int|
        #![trigger a[k], b[l]]
        0 <= k < a.len() && 0 <= l < b.len() ==> a[k] != b[l]
}

/// No id stands twice in the list.
pub open spec fn ids_distinct(a: Seq<ItemId>) -> bool {
    forall|k: int, l: int| #![trigger a[k], a[l]] 0 <= k < a.len() && 0 <= l < a.len() && k != l ==> a[k] != a[l]
}

fn check_distinct(keys: &Vec<u64>) -> (r: bool)
    ensures
        r == all_distinct(keys@),
{
    let mut j: usize = 0;
    while j < keys.len()
        invariant
            j <= keys@.len(),
            forall|a: int, b: int|
                #![trigger keys@[a], keys@[b]]
                0 <= a < b < j ==> keys@[a] != keys@[b],
        decreases keys@.len() - j,
    {
        let mut i: usize = 0;
        while i < j
            invariant
                i <= j < keys@.len(),
                forall|a: int| #![trigger keys@[a]] 0 <= a < i ==> keys@[a] != keys@[j as int],
            decreases j - i,
        {
            if keys[i] == keys[j] {
                return false;
            }
            i += 1;
        }
        j += 1;
    }
    true
}

fn check_apart(a: &Vec<ItemId>, b: &Vec<ItemId>) -> (r: bool)
    ensures
        r == ids_apart(a@, b@),
{
    let mut k: usize = 0;
    while k < a.len()
        invariant
            k <= a@.len(),
            forall|x: int, y: int|
                #![trigger a@[x], b@[y]]
                0 <= x < k && 0 <= y < b@.len() ==> a@[x] != b@[y],
        decreases a@.len() - k,
    {
        let mut l: usize = 0;
        while l < b.len()
            invariant
                k < a@.len(),
                l <= b@.len(),
                forall|y: int| #![trigger b@[y]] 0 <= y < l ==> a@[k as int] != b@[y],
            decreases b@.len() - l,
        {
            if a[k] == b[l] {
                return false;
            }
            l += 1;
        }
        k += 1;
    }
    true
}

fn check_ids_distinct(a: &Vec<ItemId>) -> (r: bool)
    ensures
        r == ids_distinct(a@),
{
    let mut j: usize = 0;
    while j < a.len()
        invariant
            j <= a@.len(),
            forall|x: int, y: int|
                #![trigger a@[x], a@[y]]
                0 <= x < j && 0 <= y < j && x != y ==> a@[x] != a@[y],
        decreases a@.len() - j,
    {
        let mut i: usize = 0;
        while i < j
            invariant
                i <= j < a@.len(),
                forall|x: int| #![trigger a@[x]] 0 <= x < i ==> a@[x] != a@[j as int],
            decreases j - i,
        {
            if a[i] == a[j] {
                return false;
            }
            i += 1;
        }
        j += 1;
    }
    true
}

fn check_node(node: &Node) -> (r: bool)
    ensures
        r == node.wf(),
{
    let mut keys: Vec<u64> = Vec::new();
    let mut i: usize = 0;
    while i < node.entries.len()
        invariant
            i <= node.entries@.len(),
            keys@.len() == i,
            forall|a: int|
                #![trigger keys@[a]]
                #![trigger node.entries@[a]]
                0 <= a < i ==> keys@[a] == node.entries@[a].id.0 && keys@[a] < node.next,
        decreases node.entries@.len() - i,
    {
        let key: u64 = node.entries[i].id.0;
        if key >= node.next {
            return false;
        }
        keys.push(key);
        i += 1;
    }
    let r = check_distinct(&keys);
    proof {
        if !r {
            let (a, b) = choose|a: int, b: int|
                #![trigger keys@[a], keys@[b]]
                0 <= a < b < keys@.len() && keys@[a] == keys@[b];
            assert(node.entries@[a].id == node.entries@[b].id);
        }
    }
    r
}

fn check_footprint_ids(fps: &Vec<PlacedFootprint>, last: usize) -> (r: bool)
    ensures
        r == footprint_ids_ok(fps@, last as int),
{
    let mut keys: Vec<u64> = Vec::new();
    let mut i: usize = 0;
    while i < fps.len()
        invariant
            i <= fps@.len(),
            keys@.len() == i,
            forall|a: int|
                #![trigger keys@[a]]
                #![trigger fps@[a]]
                0 <= a < i ==> keys@[a] == fps@[a].id.0 && keys@[a] <= last,
        decreases fps@.len() - i,
    {
        let key: usize = fps[i].id.0;
        if key > last {
            return false;
        }
        keys.push(key as u64);
        i += 1;
    }
    let r = check_distinct(&keys);
    proof {
        if !r {
            let (a, b) = choose|a: int, b: int|
                #![trigger keys@[a], keys@[b]]
                0 <= a < b < keys@.len() && keys@[a] == keys@[b];
            assert(fps@[a].id == fps@[b].id);
        }
    }
    r
}

fn check_net_ids(nets: &Vec<NetRecord>, last: u32) -> (r: bool)
    ensures
        r == net_ids_ok(nets@, last as int),
{
    let mut keys: Vec<u64> = Vec::new();
    let mut i: usize = 0;
    while i < nets.len()
        invariant
            i <= nets@.len(),
            keys@.len() == i,
            forall|a: int|
                #![trigger keys@[a]]
                #![trigger nets@[a]]
                0 <= a < i ==> keys@[a] == nets@[a].id.0 && keys@[a] <= last,
        decreases nets@.len() - i,
    {
        let key: u32 = nets[i].id.0;
        if key > last {
            return false;
        }
        keys.push(key as u64);
        i += 1;
    }
    let r = check_distinct(&keys);
    proof {
        if !r {
            let (a, b) = choose|a: int, b: int|
                #![trigger keys@[a], keys@[b]]
                0 <= a < b < keys@.len() && keys@[a] == keys@[b];
            assert(nets@[a].id == nets@[b].id);
        }
    }
    r
}

fn check_zone_ids(zones: &Vec<ZoneRecord>, last: usize) -> (r: bool)
    ensures
        r == zone_ids_ok(zones@, last as int),
{
    let mut keys: Vec<u64> = Vec::new();
    let mut i: usize = 0;
    while i < zones.len()
        invariant
            i <= zones@.len(),
            keys@.len() == i,
            forall|a: int|
                #![trigger keys@[a]]
                #![trigger zones@[a]]
                0 <= a < i ==> keys@[a] == zones@[a].id.0 && keys@[a] <= last,
        decreases zones@.len() - i,
    {
        let key: usize = zones[i].id.0;
        if key > last {
            return false;
        }
        keys.push(key as u64);
        i += 1;
    }
    let r = check_distinct(&keys);
    proof {
        if !r {
            let (a, b) = choose|a: int, b: int|
                #![trigger keys@[a], keys@[b]]
                0 <= a < b < keys@.len() && keys@[a] == keys@[b];
            assert(zones@[a].id == zones@[b].id);
        }
    }
    r
}

fn check_silk_text_ids(texts: &Vec<SilkText>, next: usize) -> (r: bool)
    ensures
        r == silk_text_ids_ok(texts@, next as int),
{
    let mut keys: Vec<u64> = Vec::new();
    let mut i: usize = 0;
    while i < texts.len()
        invariant
            i <= texts@.len(),
            keys@.len() == i,
            forall|a: int|
                #![trigger keys@[a]]
                #![trigger texts@[a]]
                0 <= a < i ==> keys@[a] == texts@[a].id.0 && keys@[a] < next,
        decreases texts@.len() - i,
    {
        let key: usize = texts[i].id.0;
        if key >= next {
            return false;
        }
        keys.push(key as u64);
        i += 1;
    }
    let r = check_distinct(&keys);
    proof {
        if !r {
            let (a, b) = choose|a: int, b: int|
                #![trigger keys@[a], keys@[b]]
                0 <= a < b < keys@.len() && keys@[a] == keys@[b];
            assert(texts@[a].id == texts@[b].id);
        }
    }
    r
}

fn check_silk_dot_ids(dots: &Vec<SilkDot>, next: usize) -> (r: bool)
    ensures
        r == silk_dot_ids_ok(dots@, next as int),
{
    let mut keys: Vec<u64> = Vec::new();
    let mut i: usize = 0;
    while i < dots.len()
        invariant
            i <= dots@.len(),
            keys@.len() == i,
            forall|a: int|
                #![trigger keys@[a]]
                #![trigger dots@[a]]
                0 <= a < i ==> keys@[a] == dots@[a].id.0 && keys@[a] < next,
        decreases dots@.len() - i,
    {
        let key: usize = dots[i].id.0;
        if key >= next {
            return false;
        }
        keys.push(key as u64);
        i += 1;
    }
    let r = check_distinct(&keys);
    proof {
        if !r {
            let (a, b) = choose|a: int, b: int|
                #![trigger keys@[a], keys@[b]]
                0 <= a < b < keys@.len() && keys@[a] == keys@[b];
            assert(dots@[a].id == dots@[b].id);
        }
    }
    r
}

/// Every id names a live pad.
pub open spec fn all_pads(node: Node, ids: Seq<ItemId>) -> bool {
    forall|k: int|
        #![trigger ids[k]]
        0 <= k < ids.len() ==> (item_of(node.entries@, ids[k]) matches Some(item) && item is Pad)
}

/// Every id names a live hole.
pub open spec fn all_holes(node: Node, ids: Seq<ItemId>) -> bool {
    forall|k: int|
        #![trigger ids[k]]
        0 <= k < ids.len() ==> (item_of(node.entries@, ids[k]) matches Some(item) && item is Hole)
}

/// Every id names live pour copper.
pub open spec fn all_pours(node: Node, ids: Seq<ItemId>) -> bool {
    forall|k: int|
        #![trigger ids[k]]
        0 <= k < ids.len() ==> (item_of(node.entries@, ids[k]) matches Some(item) && item is Zone)
}

fn check_pads(node: &Node, ids: &Vec<ItemId>) -> (r: bool)
    ensures
        r == all_pads(*node, ids@),
{
    let mut k: usize = 0;
    while k < ids.len()
        invariant
            k <= ids@.len(),
            forall|x: int|
                #![trigger ids@[x]]
                0 <= x < k ==> (item_of(node.entries@, ids@[x]) matches Some(item) && item is Pad),
        decreases ids@.len() - k,
    {
        let live = match node.get(ids[k]) {
            Some(item) => item.is_pad(),
            None => false,
        };
        if !live {
            assert(!(item_of(node.entries@, ids@[k as int]) matches Some(item) && item is Pad));
            return false;
        }
        k += 1;
    }
    true
}

fn check_holes(node: &Node, ids: &Vec<ItemId>) -> (r: bool)
    ensures
        r == all_holes(*node, ids@),
{
    let mut k: usize = 0;
    while k < ids.len()
        invariant
            k <= ids@.len(),
            forall|x: int|
                #![trigger ids@[x]]
                0 <= x < k ==> (item_of(node.entries@, ids@[x]) matches Some(item) && item is Hole),
        decreases ids@.len() - k,
    {
        let live = match node.get(ids[k]) {
            Some(item) => item.is_hole(),
            None => false,
        };
        if !live {
            assert(!(item_of(node.entries@, ids@[k as int]) matches Some(item) && item is Hole));
            return false;
        }
        k += 1;
    }
    true
}

fn check_pours(node: &Node, ids: &Vec<ItemId>) -> (r: bool)
    ensures
        r == all_pours(*node, ids@),
{
    let mut k: usize = 0;
    while k < ids.len()
        invariant
            k <= ids@.len(),
            forall|x: int|
                #![trigger ids@[x]]
                0 <= x < k ==> (item_of(node.entries@, ids@[x]) matches Some(item) && item is Zone),
        decreases ids@.len() - k,
    {
        let live = match node.get(ids[k]) {
            Some(item) => item.is_zone(),
            None => false,
        };
        if !live {
            assert(!(item_of(node.entries@, ids@[k as int]) matches Some(item) && item is Zone));
            return false;
        }
        k += 1;
    }
    true
}

fn check_footprint_items(fps: &Vec<PlacedFootprint>, node: &Node) -> (r: bool)
    ensures
        r == footprint_items_live(fps@, node.entries@),
{
    let mut i: usize = 0;
    while i < fps.len()
        invariant
            i <= fps@.len(),
            forall|a: int|
                #![trigger fps@[a]]
                0 <= a < i ==> all_pads(*node, fps@[a].pad_item_ids@) && all_holes(
                    *node,
                    fps@[a].hole_item_ids@,
                ),
        decreases fps@.len() - i,
    {
        if !check_pads(node, &fps[i].pad_item_ids) {
            proof {
                let ids = fps@[i as int].pad_item_ids@;
                let k = choose|k: int|
                    #![trigger ids[k]]
                    0 <= k < ids.len() && !(item_of(node.entries@, ids[k]) matches Some(item)
                        && item is Pad);
                assert(fps@[i as int].pad_item_ids@[k] == ids[k]);
            }
            return false;
        }
        if !check_holes(node, &fps[i].hole_item_ids) {
            proof {
                let ids = fps@[i as int].hole_item_ids@;
                let k = choose|k: int|
                    #![trigger ids[k]]
                    0 <= k < ids.len() && !(item_of(node.entries@, ids[k]) matches Some(item)
                        && item is Hole);
                assert(fps@[i as int].hole_item_ids@[k] == ids[k]);
            }
            return false;
        }
        i += 1;
    }
    true
}

fn check_footprint_items_distinct(fps: &Vec<PlacedFootprint>) -> (r: bool)
    ensures
        r == footprint_items_distinct(fps@),
{
    let mut j: usize = 0;
    while j < fps.len()
        invariant
            j <= fps@.len(),
            forall|a: int|
                #![trigger fps@[a]]
                0 <= a < j ==> ids_distinct(fps@[a].pad_item_ids@) && ids_distinct(
                    fps@[a].hole_item_ids@,
                ),
            forall|a: int, b: int|
                #![trigger fps@[a], fps@[b]]
                0 <= a < b < j ==> ids_apart(fps@[a].pad_item_ids@, fps@[b].pad_item_ids@)
                    && ids_apart(fps@[a].hole_item_ids@, fps@[b].hole_item_ids@),
        decreases fps@.len() - j,
    {
        if !check_ids_distinct(&fps[j].pad_item_ids) || !check_ids_distinct(&fps[j].hole_item_ids) {
            proof {
                lemma_repeat_is_seen(fps@, j as int);
            }
            return false;
        }
        let mut i: usize = 0;
        while i < j
            invariant
                i <= j < fps@.len(),
                forall|a: int|
                    #![trigger fps@[a]]
                    0 <= a < i ==> ids_apart(fps@[a].pad_item_ids@, fps@[j as int].pad_item_ids@)
                        && ids_apart(fps@[a].hole_item_ids@, fps@[j as int].hole_item_ids@),
            decreases j - i,
        {
            if !check_apart(&fps[i].pad_item_ids, &fps[j].pad_item_ids) || !check_apart(
                &fps[i].hole_item_ids,
                &fps[j].hole_item_ids,
            ) {
                proof {
                    lemma_shared_item_is_seen(fps@, i as int, j as int);
                }
                return false;
            }
            i += 1;
        }
        j += 1;
    }
    true
}

/// A part that holds a pad or a hole twice breaks the ownership of items.
proof fn lemma_repeat_is_seen(fps: Seq<PlacedFootprint>, j: int)
    requires
        0 <= j < fps.len(),
        !ids_distinct(fps[j].pad_item_ids@) || !ids_distinct(fps[j].hole_item_ids@),
    ensures
        !footprint_items_distinct(fps),
{
    if !ids_distinct(fps[j].pad_item_ids@) {
        let ids = fps[j].pad_item_ids@;
        let (k, l) = choose|k: int, l: int|
            #![trigger ids[k], ids[l]]
            0 <= k < ids.len() && 0 <= l < ids.len() && k != l && ids[k] == ids[l];
        assert(fps[j].pad_item_ids@[k] == fps[j].pad_item_ids@[l]);
    } else {
        let ids = fps[j].hole_item_ids@;
        let (k, l) = choose|k: int, l: int|
            #![trigger ids[k], ids[l]]
            0 <= k < ids.len() && 0 <= l < ids.len() && k != l && ids[k] == ids[l];
        assert(fps[j].hole_item_ids@[k] == fps[j].hole_item_ids@[l]);
    }
}

/// Two parts that share a pad or a hole break the ownership of items.
proof fn lemma_shared_item_is_seen(fps: Seq<PlacedFootprint>, i: int, j: int)
    requires
        0 <= i < j < fps.len(),
        !ids_apart(fps[i].pad_item_ids@, fps[j].pad_item_ids@) || !ids_apart(
            fps[i].hole_item_ids@,
            fps[j].hole_item_ids@,
        ),
    ensures
        !footprint_items_distinct(fps),
{
    if !ids_apart(fps[i].pad_item_ids@, fps[j].pad_item_ids@) {
        let a = fps[i].pad_item_ids@;
        let b = fps[j].pad_item_ids@;
        let (k, l) = choose|k: int, l: int|
            #![trigger a[k], b[l]]
            0 <= k < a.len() && 0 <= l < b.len() && a[k] == b[l];
        assert(fps[i].pad_item_ids@[k] == fps[j].pad_item_ids@[l]);
    } else {
        let a = fps[i].hole_item_ids@;
        let b = fps[j].hole_item_ids@;
        let (k, l) = choose|k: int, l: int|
            #![trigger a[k], b[l]]
            0 <= k < a.len() && 0 <= l < b.len() && a[k] == b[l];
        assert(fps[i].hole_item_ids@[k] == fps[j].hole_item_ids@[l]);
    }
}

fn check_zone_items(zones: &Vec<ZoneRecord>, node: &Node) -> (r: bool)
    ensures
        r == zone_items_ok(zones@, node.entries@),
{
    let mut j: usize = 0;
    while j < zones.len()
        invariant
            j <= zones@.len(),
            forall|a: int|
                #![trigger zones@[a]]
                0 <= a < j ==> all_pours(*node, zones@[a].item_ids@) && ids_distinct(
                    zones@[a].item_ids@,
                ),
            forall|a: int, b: int|
                #![trigger zones@[a], zones@[b]]
                0 <= a < b < j ==> ids_apart(zones@[a].item_ids@, zones@[b].item_ids@),
        decreases zones@.len() - j,
    {
        let ghost ids = zones@[j as int].item_ids@;
        if !check_pours(node, &zones[j].item_ids) {
            proof {
                let k = choose|k: int|
                    #![trigger ids[k]]
                    0 <= k < ids.len() && !(item_of(node.entries@, ids[k]) matches Some(item)
                        && item is Zone);
                assert(zones@[j as int].item_ids@[k] == ids[k]);
            }
            return false;
        }
        if !check_ids_distinct(&zones[j].item_ids) {
            proof {
                let (k, l) = choose|k: int, l: int|
                    #![trigger ids[k], ids[l]]
                    0 <= k < ids.len() && 0 <= l < ids.len() && k != l && ids[k] == ids[l];
                assert(zones@[j as int].item_ids@[k] == zones@[j as int].item_ids@[l]);
            }
            return false;
        }
        let mut i: usize = 0;
        while i < j
            invariant
                i <= j < zones@.len(),
                ids == zones@[j as int].item_ids@,
                forall|a: int|
                    #![trigger zones@[a]]
                    0 <= a < i ==> ids_apart(zones@[a].item_ids@, ids),
            decreases j - i,
        {
            if !check_apart(&zones[i].item_ids, &zones[j].item_ids) {
                proof {
                    let a = zones@[i as int].item_ids@;
                    let (k, l) = choose|k: int, l: int|
                        #![trigger a[k], ids[l]]
                        0 <= k < a.len() && 0 <= l < ids.len() && a[k] == ids[l];
                    assert(zones@[i as int].item_ids@[k] == zones@[j as int].item_ids@[l]);
                }
                return false;
            }
            i += 1;
        }
        j += 1;
    }
    true
}

impl BoardDoc {
    /// Whether the board is in the state that every operation keeps.
    pub fn is_sound(&self) -> (r: bool)
        ensures
            r == self.wf(),
    {
        check_node(&self.node) && check_footprint_ids(&self.footprints, self.next_footprint_serial)
            && check_footprint_items(&self.footprints, &self.node) && check_footprint_items_distinct(
            &self.footprints,
        ) && check_net_ids(&self.nets, self.next_net_serial) && check_zone_ids(
            &self.zones,
            self.next_zone_serial,
        ) && check_zone_items(&self.zones, &self.node) && check_silk_text_ids(
            &self.silk_texts,
            self.next_silk_text_serial,
        ) && check_silk_dot_ids(&self.silk_dots, self.next_silk_dot_serial)
    }

    /// Whether every part whose template is known has a pad for each of the
    /// template's pads.
    pub fn fits_templates(&self, templates: &[FootprintTemplate]) -> (r: bool)
        ensures
            r == pads_match(*self, templates@),
    {
        let mut f: usize = 0;
        while f < self.footprints.len()
            invariant
                f <= self.footprints@.len(),
                forall|a: int|
                    #![trigger self.footprints@[a]]
                    0 <= a < f ==> (template_named(
                        templates@,
                        self.footprints@[a].template_name@,
                    ) matches Some(t) ==> templates@[t].pads@.len()
                        <= self.footprints@[a].pad_item_ids@.len()),
            decreases self.footprints@.len() - f,
        {
            if let Some(t) = find_template(templates, &self.footprints[f].template_name) {
                if templates[t].pads.len() > self.footprints[f].pad_item_ids.len() {
                    assert(template_named(
                        templates@,
                        self.footprints@[f as int].template_name@,
                    ) == Some(t as int));
                    return false;
                }
            }
            f += 1;
        }
        true
    }
}

} // verus!
