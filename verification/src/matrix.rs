//! Matrix placement: a whole grid of one part, placed as one indivisible
//! step.

use vstd::prelude::*;

use crate::batch::{is_placing, new_ids, targets};
use crate::board_doc::{BoardDoc, FootprintId};
use crate::dfm::FabRules;
use crate::footprint::{fits, FootprintTemplate};
use crate::geom::{Angle, Point, Unit};
use crate::parts::{parts_only, TemplateVerdicts};
use crate::placement::{flag2, flag2_at, PlacedShape, PlacementError, PlacementProbe};
use crate::text::decimal;

verus! {

/// Half of `n`, a half rounded away from zero.
pub open spec fn rounded_half(n: int) -> int {
    if n >= 0 {
        (n + 1) / 2
    } else {
        -((-n + 1) / 2)
    }
}

/// Where member `k` of `count` stands along one axis around `center`.
pub open spec fn spread(k: int, count: int, pitch: int, center: int) -> int {
    center + rounded_half((2 * k - (count - 1)) * pitch)
}

/// Where the cell at `row` and `col` stands.
pub open spec fn cell(
    row: int,
    col: int,
    rows: int,
    cols: int,
    pitch_x: int,
    pitch_y: int,
    center: Point,
) -> Point {
    Point {
        x: spread(col, cols, pitch_x, center.x as int) as Unit,
        y: spread(row, rows, pitch_y, center.y as int) as Unit,
    }
}

/// Every member along one axis has a coordinate that can be represented.
pub open spec fn spread_fits(count: int, pitch: int, center: int) -> bool {
    forall|k: int| 0 <= k < count ==> fits(#[trigger] spread(k, count, pitch, center))
}

/// Half of `n`, a half rounded away from zero.
fn half_away(n: i128) -> (r: i128)
    requires
        -0x1000_0000_0000_0000_0000_0000_0000 <= n <= 0x1000_0000_0000_0000_0000_0000_0000,
    ensures
        r == rounded_half(n as int),
{
    if n >= 0 {
        (n + 1) / 2
    } else {
        -((-n + 1) / 2)
    }
}

/// Where member `k` stands along one axis.
fn spread_at(k: u32, count: u32, pitch: Unit, center: Unit) -> (r: Unit)
    requires
        k < count,
        fits(spread(k as int, count as int, pitch as int, center as int)),
    ensures
        r == spread(k as int, count as int, pitch as int, center as int),
{
    let steps: i128 = 2 * (k as i128) - (count as i128 - 1);
    let p: i128 = pitch as i128;
    proof {
        assert(-0x1_0000_0000 <= steps <= 0x1_0000_0000);
        assert(-0x8000_0000_0000_0000_0000_0000 <= steps * p <= 0x8000_0000_0000_0000_0000_0000)
            by (nonlinear_arith)
            requires
                -0x1_0000_0000 <= steps <= 0x1_0000_0000,
                -0x8000_0000_0000_0000 <= p <= 0x8000_0000_0000_0000,
        ;
    }
    (center as i128 + half_away(steps * p)) as Unit
}

/// What was measured among the members of a batch: `bodies[i][j]` for the
/// bodies of members `i` and `j`, `items[i][k]` for item `k` of member `i`
/// against every item of the batch before it.
#[derive(Debug, Clone)]
pub struct MatrixProbe {
    pub bodies: Vec<Vec<bool>>,
    pub items: Vec<Vec<bool>>,
}

/// What is wrong with member `i` among the members before it.
pub open spec fn member_error(
    shapes: Seq<PlacedShape>,
    probe: MatrixProbe,
    i: int,
) -> Option<PlacementError> {
    if exists|j: int| 0 <= j < i && #[trigger] flag2(probe.bodies@, i, j) {
        Some(PlacementError::BodyOverlap)
    } else if exists|k: int|
        0 <= k < shapes[i].items@.len() && #[trigger] flag2(probe.items@, i, k) {
        Some(PlacementError::Collision(1))
    } else {
        None
    }
}

/// What is wrong with the first of the first `n` members that is in the way
/// of an earlier one.
pub open spec fn first_member_error(
    shapes: Seq<PlacedShape>,
    probe: MatrixProbe,
    n: int,
) -> Option<PlacementError>
    decreases n,
{
    if n <= 0 {
        None
    } else {
        match first_member_error(shapes, probe, n - 1) {
            Some(e) => Some(e),
            None => member_error(shapes, probe, n - 1),
        }
    }
}

impl BoardDoc {
    /// What is wrong with the first of the first `n` members on the board as
    /// it is.
    pub open spec fn first_pose_error(
        &self,
        template: FootprintTemplate,
        shapes: Seq<PlacedShape>,
        probes: Seq<PlacementProbe>,
        rules: FabRules,
        n: int,
    ) -> Option<PlacementError>
        decreases n,
    {
        if n <= 0 {
            None
        } else {
            match self.first_pose_error(template, shapes, probes, rules, n - 1) {
                Some(e) => Some(e),
                None => match self.placement_verdict(
                    template,
                    shapes[n - 1],
                    probes[n - 1],
                    rules,
                    Seq::empty(),
                ) {
                    Err(e) => Some(e),
                    Ok(_) => None,
                },
            }
        }
    }

    /// The verdict on a batch: every member on its own, then the members
    /// against each other.
    pub open spec fn matrix_verdict(
        &self,
        template: FootprintTemplate,
        shapes: Seq<PlacedShape>,
        probes: Seq<PlacementProbe>,
        among: MatrixProbe,
        rules: FabRules,
    ) -> Result<(), PlacementError> {
        match self.first_pose_error(template, shapes, probes, rules, shapes.len() as int) {
            Some(e) => Err(e),
            None => match first_member_error(shapes, among, shapes.len() as int) {
                Some(e) => Err(e),
                None => Ok(()),
            },
        }
    }

    /// The grid of positions of a `rows` by `cols` matrix, row by row, around
    /// its centre.
    pub fn matrix_positions(
        rows: u32,
        cols: u32,
        pitch_x: Unit,
        pitch_y: Unit,
        center: Point,
    ) -> (r: Vec<Point>)
        requires
            spread_fits(cols as int, pitch_x as int, center.x as int),
            spread_fits(rows as int, pitch_y as int, center.y as int),
        ensures
            r@ == Seq::new(
                (rows * cols) as nat,
                |k: int|
                    cell(
                        k / (cols as int),
                        k % (cols as int),
                        rows as int,
                        cols as int,
                        pitch_x as int,
                        pitch_y as int,
                        center,
                    ),
            ),
    {
        let ghost at = |k: int|
            cell(
                k / (cols as int),
                k % (cols as int),
                rows as int,
                cols as int,
                pitch_x as int,
                pitch_y as int,
                center,
            );
        let mut r: Vec<Point> = Vec::new();
        let mut row: u32 = 0;
        assert(0 * (cols as int) == 0) by (nonlinear_arith);
        while row < rows
            invariant
                row <= rows,
                spread_fits(cols as int, pitch_x as int, center.x as int),
                spread_fits(rows as int, pitch_y as int, center.y as int),
                at == (|k: int|
                    cell(
                        k / (cols as int),
                        k % (cols as int),
                        rows as int,
                        cols as int,
                        pitch_x as int,
                        pitch_y as int,
                        center,
                    )),
                r@.len() == row * cols,
                forall|k: int| #![trigger r@[k]] 0 <= k < r@.len() ==> r@[k] == at(k),
            decreases rows - row,
        {
            let mut col: u32 = 0;
            while col < cols
                invariant
                    row < rows,
                    col <= cols,
                    spread_fits(cols as int, pitch_x as int, center.x as int),
                    spread_fits(rows as int, pitch_y as int, center.y as int),
                    at == (|k: int|
                        cell(
                            k / (cols as int),
                            k % (cols as int),
                            rows as int,
                            cols as int,
                            pitch_x as int,
                            pitch_y as int,
                            center,
                        )),
                    r@.len() == row * cols + col,
                    forall|k: int| #![trigger r@[k]] 0 <= k < r@.len() ==> r@[k] == at(k),
                decreases cols - col,
            {
                proof {
                    let k = r@.len() as int;
                    vstd::arithmetic::div_mod::lemma_fundamental_div_mod_converse(
                        k,
                        cols as int,
                        row as int,
                        col as int,
                    );
                    assert(fits(spread(col as int, cols as int, pitch_x as int, center.x as int)));
                    assert(fits(spread(row as int, rows as int, pitch_y as int, center.y as int)));
                }
                let x: Unit = spread_at(col, cols, pitch_x, center.x);
                let y: Unit = spread_at(row, rows, pitch_y, center.y);
                r.push(Point::new(x, y));
                col += 1;
            }
            assert((row + 1) * cols == row * cols + cols) by (nonlinear_arith);
            row += 1;
        }
        assert(r@ =~= Seq::new((rows * cols) as nat, at));
        r
    }

    /// Whether a whole batch may be placed.
    pub fn check_matrix_placement(
        &self,
        template: &FootprintTemplate,
        shapes: &[PlacedShape],
        probes: &[PlacementProbe],
        among: &MatrixProbe,
        rules: &FabRules,
    ) -> (r: Result<(), PlacementError>)
        requires
            probes@.len() == shapes@.len(),
            forall|i: int|
                #![trigger shapes@[i]]
                0 <= i < shapes@.len() ==> BoardDoc::probe_fits(shapes@[i], probes@[i]),
        ensures
            r == self.matrix_verdict(*template, shapes@, probes@, *among, *rules),
    {
        let mut i: usize = 0;
        while i < shapes.len()
            invariant
                i <= shapes@.len(),
                probes@.len() == shapes@.len(),
                forall|i: int|
                    #![trigger shapes@[i]]
                    0 <= i < shapes@.len() ==> BoardDoc::probe_fits(shapes@[i], probes@[i]),
                self.first_pose_error(*template, shapes@, probes@, *rules, i as int) is None,
            decreases shapes@.len() - i,
        {
            assert(BoardDoc::probe_fits(shapes@[i as int], probes@[i as int]));
            match self.check_placement(template, &shapes[i], &probes[i], rules, None) {
                Ok(_) => {},
                Err(e) => {
                    proof {
                        self.lemma_pose_error_stays(
                            *template,
                            shapes@,
                            probes@,
                            *rules,
                            i + 1,
                            shapes@.len() as int,
                        );
                    }
                    return Err(e);
                },
            }
            i += 1;
        }
        match first_member_failure(shapes, among) {
            Some(e) => Err(e),
            None => Ok(()),
        }
    }

    proof fn lemma_pose_error_stays(
        &self,
        template: FootprintTemplate,
        shapes: Seq<PlacedShape>,
        probes: Seq<PlacementProbe>,
        rules: FabRules,
        n: int,
        m: int,
    )
        requires
            n <= m,
            self.first_pose_error(template, shapes, probes, rules, n) is Some,
        ensures
            self.first_pose_error(template, shapes, probes, rules, m) == self.first_pose_error(
                template,
                shapes,
                probes,
                rules,
                n,
            ),
        decreases m - n,
    {
        if n < m {
            self.lemma_pose_error_stays(template, shapes, probes, rules, n, m - 1);
        }
    }

    /// Places a whole batch, or, if any member is refused, nothing at all.
    /// `probes` were measured on the board as it is, `commit_probes[i]` on the
    /// board with the first `i` members in place.
    pub fn place_matrix(
        &mut self,
        template: &FootprintTemplate,
        positions: &[Point],
        rotation_deg: Angle,
        shapes: Vec<PlacedShape>,
        probes: &[PlacementProbe],
        among: &MatrixProbe,
        commit_probes: &[PlacementProbe],
        verdicts: &TemplateVerdicts,
        rules: &FabRules,
    ) -> (r: Result<Vec<FootprintId>, PlacementError>)
        requires
            old(self).wf(),
            positions@.len() == shapes@.len(),
            probes@.len() == shapes@.len(),
            commit_probes@.len() == shapes@.len(),
            forall|i: int|
                #![trigger shapes@[i]]
                0 <= i < shapes@.len() ==> parts_only(shapes@[i].items@) && BoardDoc::probe_fits(
                    shapes@[i],
                    probes@[i],
                ) && BoardDoc::probe_fits(shapes@[i], commit_probes@[i]),
            old(self).node.has_room_for(item_total(shapes@) as int),
            old(self).next_footprint_serial + shapes@.len() <= usize::MAX,
        ensures
            final(self).wf(),
            old(self).matrix_verdict(*template, shapes@, probes@, *among, *rules) matches Err(e)
                ==> r == Err::<Vec<FootprintId>, PlacementError>(e),
            old(self).matrix_verdict(*template, shapes@, probes@, *among, *rules) is Ok
                ==> exists|boards: Seq<BoardDoc>|
                {
                    &&& #[trigger] is_chain(
                        boards,
                        *template,
                        positions@,
                        rotation_deg,
                        shapes@,
                        commit_probes@,
                        *verdicts,
                        *rules,
                    )
                    &&& boards[0] == *old(self)
                    &&& match r {
                        Ok(_) => boards.len() == shapes@.len() + 1 && *final(self) == boards.last(),
                        Err(e) => boards.len() <= shapes@.len() && boards.last().place_verdict(
                            *template,
                            shapes@[boards.len() - 1],
                            commit_probes@[boards.len() - 1],
                            *verdicts,
                            *rules,
                        ) == Err::<(), PlacementError>(e),
                    }
                },
            r matches Ok(ids) ==> ids@ == new_ids(old(self).next_footprint_serial, shapes@.len()),
            r is Err ==> final(self).same_board(old(self)),
    {
        match self.check_matrix_placement(template, &shapes, probes, among, rules) {
            Ok(_) => {},
            Err(e) => {
                return Err(e);
            },
        }
        let mut templates: Vec<&FootprintTemplate> = Vec::new();
        let mut rotations: Vec<Angle> = Vec::new();
        let mut said: Vec<&TemplateVerdicts> = Vec::new();
        let mut i: usize = 0;
        while i < shapes.len()
            invariant
                i <= shapes@.len(),
                templates@.len() == i,
                rotations@.len() == i,
                said@.len() == i,
                forall|k: int| 0 <= k < i ==> *(#[trigger] templates@[k]) == *template,
                forall|k: int| 0 <= k < i ==> #[trigger] rotations@[k] == rotation_deg,
                forall|k: int| 0 <= k < i ==> *(#[trigger] said@[k]) == *verdicts,
            decreases shapes@.len() - i,
        {
            templates.push(template);
            rotations.push(rotation_deg);
            said.push(verdicts);
            i += 1;
        }
        let ghost all = shapes@;
        let r = self.place_each(
            &templates,
            positions,
            &rotations,
            shapes,
            commit_probes,
            &said,
            rules,
        );
        proof {
            let boards = choose|boards: Seq<BoardDoc>|
                {
                    &&& #[trigger] is_placing(
                        boards,
                        targets(templates@),
                        positions@,
                        rotations@,
                        all,
                        commit_probes@,
                        targets(said@),
                        *rules,
                    )
                    &&& boards[0] == *old(self)
                    &&& match r {
                        Ok(_) => boards.len() == all.len() + 1 && *self == boards.last(),
                        Err(e) => boards.len() <= all.len() && boards.last().place_verdict(
                            *templates@[boards.len() - 1],
                            all[boards.len() - 1],
                            commit_probes@[boards.len() - 1],
                            *said@[boards.len() - 1],
                            *rules,
                        ) == Err::<(), PlacementError>(e),
                    }
                };
            assert(is_chain(
                boards,
                *template,
                positions@,
                rotation_deg,
                all,
                commit_probes@,
                *verdicts,
                *rules,
            ));
        }
        r
    }
}

/// The members back to front.
pub(crate) fn reversed(shapes: Vec<PlacedShape>) -> (r: Vec<PlacedShape>)
    ensures
        r@ == shapes@.reverse(),
{
    let ghost all = shapes@;
    let mut shapes = shapes;
    let mut r: Vec<PlacedShape> = Vec::new();
    while shapes.len() > 0
        invariant
            shapes@.len() <= all.len(),
            shapes@ == all.take(shapes@.len() as int),
            r@ == all.skip(shapes@.len() as int).reverse(),
        decreases shapes@.len(),
    {
        let ghost n = shapes@.len();
        match shapes.pop() {
            Some(shape) => {
                r.push(shape);
            },
            None => {},
        }
        assert(shapes@ =~= all.take(n - 1));
        assert(r@ =~= all.skip(n - 1).reverse());
    }
    assert(all.skip(0) =~= all);
    r
}

/// `after` is `before` with one member placed, as the rules allowed.
pub open spec fn is_step(
    before: BoardDoc,
    after: BoardDoc,
    template: FootprintTemplate,
    position: Point,
    rotation_deg: Angle,
    shape: PlacedShape,
    probe: PlacementProbe,
    verdicts: TemplateVerdicts,
    rules: FabRules,
) -> bool {
    &&& before.place_verdict(template, shape, probe, verdicts, rules) is Ok
    &&& after.has_new_part(
        &before,
        template.name@,
        template.reference_prefix@ + decimal((before.next_footprint_serial + 1) as nat),
        position,
        rotation_deg,
        shape.items@,
        shape.courtyard,
        shape.drills,
    )
}

/// Boards each of which has one more member placed than the one before.
pub open spec fn is_chain(
    boards: Seq<BoardDoc>,
    template: FootprintTemplate,
    positions: Seq<Point>,
    rotation_deg: Angle,
    shapes: Seq<PlacedShape>,
    probes: Seq<PlacementProbe>,
    verdicts: TemplateVerdicts,
    rules: FabRules,
) -> bool {
    &&& boards.len() > 0
    &&& forall|i: int|
        #![trigger boards[i]]
        0 <= i < boards.len() - 1 ==> is_step(
            boards[i],
            boards[i + 1],
            template,
            positions[i],
            rotation_deg,
            shapes[i],
            probes[i],
            verdicts,
            rules,
        )
}

/// How many items a batch consists of.
pub open spec fn item_total(shapes: Seq<PlacedShape>) -> nat
    decreases shapes.len(),
{
    if shapes.len() == 0 {
        0
    } else {
        item_total(shapes.drop_last()) + shapes.last().items@.len()
    }
}

pub proof fn lemma_item_total_grows(shapes: Seq<PlacedShape>, k: int)
    requires
        0 <= k <= shapes.len(),
    ensures
        item_total(shapes.take(k)) <= item_total(shapes),
    decreases shapes.len(),
{
    if k < shapes.len() {
        assert(shapes.drop_last().take(k) =~= shapes.take(k));
        lemma_item_total_grows(shapes.drop_last(), k);
    } else {
        assert(shapes.take(k) =~= shapes);
    }
}

fn member_failure(shapes: &[PlacedShape], among: &MatrixProbe, i: usize) -> (r: Option<
    PlacementError,
>)
    requires
        i < shapes@.len(),
    ensures
        r == member_error(shapes@, *among, i as int),
{
    let mut j: usize = 0;
    while j < i
        invariant
            j <= i,
            forall|m: int| 0 <= m < j ==> !#[trigger] flag2(among.bodies@, i as int, m),
        decreases i - j,
    {
        if flag2_at(&among.bodies, i, j) {
            assert(flag2(among.bodies@, i as int, j as int));
            return Some(PlacementError::BodyOverlap);
        }
        j += 1;
    }
    let mut k: usize = 0;
    while k < shapes[i].items.len()
        invariant
            i < shapes@.len(),
            k <= shapes@[i as int].items@.len(),
            forall|m: int| 0 <= m < i ==> !#[trigger] flag2(among.bodies@, i as int, m),
            forall|m: int| 0 <= m < k ==> !#[trigger] flag2(among.items@, i as int, m),
        decreases shapes@[i as int].items@.len() - k,
    {
        if flag2_at(&among.items, i, k) {
            assert(flag2(among.items@, i as int, k as int));
            return Some(PlacementError::Collision(1));
        }
        k += 1;
    }
    None
}

/// What is wrong with the first member that is in the way of an earlier one.
pub(crate) fn first_member_failure(shapes: &[PlacedShape], among: &MatrixProbe) -> (r: Option<
    PlacementError,
>)
    ensures
        r == first_member_error(shapes@, *among, shapes@.len() as int),
{
    let mut m: usize = 0;
    while m < shapes.len()
        invariant
            m <= shapes@.len(),
            first_member_error(shapes@, *among, m as int) is None,
        decreases shapes@.len() - m,
    {
        let failure = member_failure(shapes, among, m);
        match failure {
            Some(e) => {
                proof {
                    lemma_member_error_stays(shapes@, *among, m + 1, shapes@.len() as int);
                }
                return Some(e);
            },
            None => {},
        }
        m += 1;
    }
    None
}

proof fn lemma_member_error_stays(shapes: Seq<PlacedShape>, probe: MatrixProbe, n: int, m: int)
    requires
        n <= m,
        first_member_error(shapes, probe, n) is Some,
    ensures
        first_member_error(shapes, probe, m) == first_member_error(shapes, probe, n),
    decreases m - n,
{
    if n < m {
        lemma_member_error_stays(shapes, probe, n, m - 1);
    }
}

/// The grid is symmetric around its centre: opposite members lie equally far
/// from it on either side.
pub proof fn law_matrix_is_symmetric(k: int, count: int, pitch: int, center: int)
    requires
        0 <= k < count,
    ensures
        spread(k, count, pitch, center) + spread(count - 1 - k, count, pitch, center) == 2 * center,
{
    assert((2 * (count - 1 - k) - (count - 1)) * pitch == -((2 * k - (count - 1)) * pitch))
        by (nonlinear_arith);
}

/// A single member stands at the centre.
pub proof fn law_single_member_is_the_center(pitch: int, center: int)
    ensures
        spread(0, 1, pitch, center) == center,
{
    assert((2 * 0 - (1 - 1)) * pitch == 0) by (nonlinear_arith);
}

} // verus!
