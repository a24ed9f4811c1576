//! A template in world space: the outline that each pad has before it is
//! turned, and the items that a pose makes of the template. The turning
//! itself is done by the caller.

use vstd::prelude::*;

use crate::board_doc::{half, halved};
use crate::footprint::{FootprintTemplate, HoleTemplate, PadShapeKind, PadTemplate};
use crate::geom::{Circle, Point, Polygon, Unit};
use crate::item::{Item, PadShape};
use crate::parts::{copy_polygon, parts_only};
use crate::placement::PlacedShape;

verus! {

/// The outline of a pad before it is turned: a rectangle around the origin
/// whose corners have this radius.
#[derive(Debug, Clone, Copy, PartialEq, Eq, Structural)]
pub struct PadOutline {
    pub width: Unit,
    pub height: Unit,
    pub corner_radius: Unit,
}

/// `side` and two per cent more, rounded, halves away from zero. The chords of
/// a rounded end lie inside its arc; so much more makes up for that.
pub open spec fn grown(side: int) -> int {
    if side >= 0 {
        (side * 102 + 50) / 100
    } else {
        -((-side * 102 + 50) / 100)
    }
}

/// The nearest length to `n`.
pub open spec fn as_unit(n: int) -> Unit {
    if n < Unit::MIN {
        Unit::MIN
    } else if n > Unit::MAX {
        Unit::MAX
    } else {
        n as Unit
    }
}

/// The shorter of two sides.
pub open spec fn shorter(a: Unit, b: Unit) -> Unit {
    if a <= b {
        a
    } else {
        b
    }
}

/// The outline of a pad that is no disc: sharp corners for a rectangle, and
/// for an oval, a little grown, half a turn at either end.
pub open spec fn outline_of(shape: PadShapeKind) -> Option<PadOutline> {
    match shape {
        PadShapeKind::Circle => None,
        PadShapeKind::Rect { width, height } => Some(
            PadOutline { width, height, corner_radius: 0 },
        ),
        PadShapeKind::Oval { width, height } => {
            let w = as_unit(grown(width as int));
            let h = as_unit(grown(height as int));
            Some(
                PadOutline {
                    width: w,
                    height: h,
                    corner_radius: half(shorter(w, h) as int) as Unit,
                },
            )
        },
    }
}

fn grow(side: Unit) -> (r: Unit)
    ensures
        r == as_unit(grown(side as int)),
{
    let n: i128 = if side >= 0 {
        (side as i128 * 102 + 50) / 100
    } else {
        -((-(side as i128) * 102 + 50) / 100)
    };
    if n < Unit::MIN as i128 {
        Unit::MIN
    } else if n > Unit::MAX as i128 {
        Unit::MAX
    } else {
        n as Unit
    }
}

/// The outline of a pad before it is turned; a disc has none.
pub fn pad_outline(shape: PadShapeKind) -> (r: Option<PadOutline>)
    ensures
        r == outline_of(shape),
{
    match shape {
        PadShapeKind::Circle => None,
        PadShapeKind::Rect { width, height } => Some(PadOutline { width, height, corner_radius: 0 }),
        PadShapeKind::Oval { width, height } => {
            let w: Unit = grow(width);
            let h: Unit = grow(height);
            let corner_radius: Unit = halved(
                if w <= h {
                    w
                } else {
                    h
                },
            );
            Some(PadOutline { width: w, height: h, corner_radius })
        },
    }
}

/// An oval is never covered by less than its own size.
pub proof fn law_an_oval_never_shrinks(width: Unit, height: Unit)
    requires
        width >= 0,
        height >= 0,
    ensures
        outline_of(PadShapeKind::Oval { width, height })->0.width >= width,
        outline_of(PadShapeKind::Oval { width, height })->0.height >= height,
{
}

/// Where a pose puts a pad: its centre, and its turned outline if it is no
/// disc.
#[derive(Debug, Clone)]
pub struct PadPose {
    pub center: Point,
    pub outline: Polygon,
}

/// Whether `item` is the pad at its pose, on no net yet.
pub open spec fn is_world_pad(item: Item, pad: PadTemplate, pose: PadPose) -> bool {
    item matches Item::Pad { shape, net, layer, zone_connection, hole_diameter } && {
        &&& net is None
        &&& layer == pad.layer
        &&& zone_connection == pad.zone_connection
        &&& hole_diameter == pad.hole_diameter
        &&& match shape {
            PadShape::Circle(disc) => pad.shape == PadShapeKind::Circle && disc == (Circle {
                center: pose.center,
                radius: pad.radius,
            }),
            PadShape::Polygon { outline, center } => pad.shape != PadShapeKind::Circle && center
                == pose.center && outline.points@ == pose.outline.points@,
        }
    }
}

/// Whether `items` are the pads of a template at their poses and then its
/// holes at theirs.
pub open spec fn are_world_items(
    items: Seq<Item>,
    pads: Seq<PadTemplate>,
    holes: Seq<HoleTemplate>,
    poses: Seq<PadPose>,
    centers: Seq<Point>,
) -> bool {
    &&& items.len() == pads.len() + holes.len()
    &&& forall|k: int|
        #![trigger pads[k]]
        0 <= k < pads.len() ==> is_world_pad(items[k], pads[k], poses[k])
    &&& forall|k: int|
        #![trigger holes[k]]
        0 <= k < holes.len() ==> items[pads.len() + k] == (Item::Hole {
            position: centers[k],
            drill: holes[k].drill,
        })
}

/// The items that a pose makes of a template: its pads, then its holes.
pub fn world_items(template: &FootprintTemplate, poses: &[PadPose], centers: &[Point]) -> (items: Vec<
    Item,
>)
    requires
        poses@.len() == template.pads@.len(),
        centers@.len() == template.holes@.len(),
    ensures
        are_world_items(items@, template.pads@, template.holes@, poses@, centers@),
        parts_only(items@),
{
    let mut items: Vec<Item> = Vec::new();
    let mut i: usize = 0;
    while i < template.pads.len()
        invariant
            i <= template.pads@.len(),
            poses@.len() == template.pads@.len(),
            items@.len() == i,
            forall|k: int|
                #![trigger template.pads@[k]]
                0 <= k < i ==> is_world_pad(items@[k], template.pads@[k], poses@[k]),
            parts_only(items@),
        decreases template.pads@.len() - i,
    {
        let pad = &template.pads[i];
        let center = poses[i].center;
        let shape = match pad.shape {
            PadShapeKind::Circle => PadShape::Circle(Circle::new(center, pad.radius)),
            _ => PadShape::Polygon { outline: copy_polygon(&poses[i].outline), center },
        };
        items.push(
            Item::Pad {
                shape,
                net: None,
                layer: pad.layer,
                zone_connection: pad.zone_connection,
                hole_diameter: pad.hole_diameter,
            },
        );
        i += 1;
    }
    let mut h: usize = 0;
    while h < template.holes.len()
        invariant
            h <= template.holes@.len(),
            poses@.len() == template.pads@.len(),
            centers@.len() == template.holes@.len(),
            items@.len() == template.pads@.len() + h,
            forall|k: int|
                #![trigger template.pads@[k]]
                0 <= k < template.pads@.len() ==> is_world_pad(
                    items@[k],
                    template.pads@[k],
                    poses@[k],
                ),
            forall|k: int|
                #![trigger template.holes@[k]]
                0 <= k < h ==> items@[template.pads@.len() + k] == (Item::Hole {
                    position: centers@[k],
                    drill: template.holes@[k].drill,
                }),
            parts_only(items@),
        decreases template.holes@.len() - h,
    {
        items.push(Item::Hole { position: centers[h], drill: template.holes[h].drill });
        h += 1;
    }
    items
}

/// The drills of the first pads: of every through-hole pad whose drill is
/// positive.
pub open spec fn pad_drills(pads: Seq<PadTemplate>, poses: Seq<PadPose>) -> Seq<Circle>
    decreases pads.len(),
{
    if pads.len() == 0 {
        Seq::empty()
    } else {
        let rest = pad_drills(pads.drop_last(), poses);
        match pads.last().hole_diameter {
            Some(drill) if drill > 0 => rest.push(
                Circle {
                    center: poses[pads.len() - 1].center,
                    radius: half(drill as int) as Unit,
                },
            ),
            _ => rest,
        }
    }
}

/// The drills of the mechanical holes.
pub open spec fn hole_drills(holes: Seq<HoleTemplate>, centers: Seq<Point>) -> Seq<Circle> {
    Seq::new(
        holes.len(),
        |k: int| Circle { center: centers[k], radius: half(holes[k].drill as int) as Unit },
    )
}

/// Every drill of a template at a pose, plated and mechanical.
pub fn world_assembly_drills(template: &FootprintTemplate, poses: &[PadPose], centers: &[Point]) -> (r:
    Vec<Circle>)
    requires
        poses@.len() == template.pads@.len(),
        centers@.len() == template.holes@.len(),
    ensures
        r@ == pad_drills(template.pads@, poses@) + hole_drills(template.holes@, centers@),
{
    let mut r: Vec<Circle> = Vec::new();
    let mut i: usize = 0;
    while i < template.pads.len()
        invariant
            i <= template.pads@.len(),
            poses@.len() == template.pads@.len(),
            r@ == pad_drills(template.pads@.take(i as int), poses@),
        decreases template.pads@.len() - i,
    {
        assert(template.pads@.take(i + 1).drop_last() =~= template.pads@.take(i as int));
        if let Some(drill) = template.pads[i].hole_diameter {
            if drill > 0 {
                r.push(Circle::new(poses[i].center, halved(drill)));
            }
        }
        i += 1;
    }
    assert(template.pads@.take(i as int) =~= template.pads@);
    let ghost plated = r@;
    let mut h: usize = 0;
    while h < template.holes.len()
        invariant
            h <= template.holes@.len(),
            centers@.len() == template.holes@.len(),
            r@ == plated + hole_drills(template.holes@, centers@).take(h as int),
        decreases template.holes@.len() - h,
    {
        r.push(Circle::new(centers[h], halved(template.holes[h].drill)));
        h += 1;
        assert(r@ =~= plated + hole_drills(template.holes@, centers@).take(h as int));
    }
    assert(hole_drills(template.holes@, centers@).take(h as int) =~= hole_drills(
        template.holes@,
        centers@,
    ));
    r
}

/// A template at a pose: `poses` and `centers` say where its pads and holes
/// come to lie, `courtyard` is its turned body, `marker` where the pin-1
/// marker that it carries lands.
pub fn posed(
    template: &FootprintTemplate,
    poses: &[PadPose],
    centers: &[Point],
    courtyard: Polygon,
    marker: Option<Point>,
) -> (r: PlacedShape)
    requires
        poses@.len() == template.pads@.len(),
        centers@.len() == template.holes@.len(),
    ensures
        are_world_items(r.items@, template.pads@, template.holes@, poses@, centers@),
        parts_only(r.items@),
        r.courtyard == courtyard,
        r.drills@ == pad_drills(template.pads@, poses@) + hole_drills(template.holes@, centers@),
        r.marker == marker,
{
    PlacedShape {
        items: world_items(template, poses, centers),
        courtyard,
        drills: world_assembly_drills(template, poses, centers),
        marker,
    }
}

} // verus!
