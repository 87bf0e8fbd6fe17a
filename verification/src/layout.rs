//! The edge layout engine: edges sharing an unordered endpoint pair fan out
//! into distinct shift levels, self-loops on one node take distinct nesting
//! levels, and curve control points are derived from the shifts.
use vstd::prelude::*;

use crate::consts::{CONTROL_OFFSET, MIN_NODE_SIZE};
use crate::edge::{Edge, EdgeModel};
use crate::geom::{Point, Rotation, UNIT_LIMIT};
use crate::ids::EdgeId;

verus! {

/// The unordered endpoint pair of an edge: the key that groups parallel
/// edges.
pub open spec fn unordered_pair(e: EdgeModel) -> (usize, usize) {
    if e.start_id <= e.end_id {
        (e.start_id, e.end_id)
    } else {
        (e.end_id, e.start_id)
    }
}

pub open spec fn same_group(a: EdgeModel, b: EdgeModel) -> bool {
    unordered_pair(a) == unordered_pair(b)
}

/// How many of the first `upto` edges share the group of `e`.
pub open spec fn group_count(edges: Seq<(usize, EdgeModel)>, e: EdgeModel, upto: int) -> int
    decreases upto,
{
    if upto <= 0 {
        0
    } else {
        group_count(edges, e, upto - 1) + if same_group(edges[upto - 1].1, e) {
            1int
        } else {
            0int
        }
    }
}

/// The rank of edge `i` within its group: how many earlier edges share its
/// unordered endpoint pair.
pub open spec fn rank_of(edges: Seq<(usize, EdgeModel)>, i: int) -> int {
    group_count(edges, edges[i].1, i)
}

/// The size of the group of edge `i`.
pub open spec fn group_size_of(edges: Seq<(usize, EdgeModel)>, i: int) -> int {
    group_count(edges, edges[i].1, edges.len() as int)
}

/// The symmetric shift sequence around zero: for odd `k` the values
/// `-k/2 .. k/2`; for even `k` the same with `0` skipped.
pub open spec fn sym_shift(r: int, k: int) -> int {
    if k % 2 == 1 {
        r - k / 2
    } else if r < k / 2 {
        r - k / 2
    } else {
        r - k / 2 + 1
    }
}

/// The shift level assigned to edge `i`: its rank for a self-loop, the
/// symmetric sequence value of its rank for a parallel edge.
pub open spec fn edge_shift_of(edges: Seq<(usize, EdgeModel)>, i: int) -> int {
    if edges[i].1.is_loop() {
        rank_of(edges, i)
    } else {
        sym_shift(rank_of(edges, i), group_size_of(edges, i))
    }
}

/// Law: the shift values of the symmetric sequence are pairwise distinct,
/// symmetric around zero, within `[-k/2, k/2]`, and include zero exactly
/// when the group size is odd.
pub proof fn lemma_fanout_symmetry(k: int)
    requires
        1 <= k,
    ensures
        forall|r1: int, r2: int|
            0 <= r1 < r2 < k ==> #[trigger] sym_shift(r1, k) != #[trigger] sym_shift(r2, k),
        forall|r: int| 0 <= r < k ==> #[trigger] sym_shift(k - 1 - r, k) == -sym_shift(r, k),
        k % 2 == 0 ==> forall|r: int| 0 <= r < k ==> #[trigger] sym_shift(r, k) != 0,
        k % 2 == 1 ==> sym_shift(k / 2, k) == 0,
        forall|r: int| 0 <= r < k ==> -(k / 2) <= #[trigger] sym_shift(r, k) <= k / 2,
{
    assert(k == 2 * (k / 2) + k % 2);
    assert forall|r: int| 0 <= r < k implies #[trigger] sym_shift(k - 1 - r, k) == -sym_shift(
        r,
        k,
    ) by {
        assert(k == 2 * (k / 2) + k % 2);
    }
}

/// A later edge of the same group has a strictly larger rank.
pub proof fn lemma_rank_strictly_increases(
    edges: Seq<(usize, EdgeModel)>,
    i1: int,
    i2: int,
)
    requires
        0 <= i1 < i2 < edges.len(),
        same_group(edges[i1].1, edges[i2].1),
    ensures
        rank_of(edges, i1) < rank_of(edges, i2),
{
    lemma_group_count_same(edges, edges[i1].1, edges[i2].1, i1);
    lemma_group_count_monotone(edges, edges[i2].1, i1 + 1, i2);
    lemma_group_count_at_most(edges, edges[i1].1, i1);
}

/// Counting against two edges of the same group gives the same counts.
proof fn lemma_group_count_same(
    edges: Seq<(usize, EdgeModel)>,
    a: EdgeModel,
    b: EdgeModel,
    upto: int,
)
    requires
        same_group(a, b),
    ensures
        group_count(edges, a, upto) == group_count(edges, b, upto),
    decreases upto,
{
    if upto > 0 {
        lemma_group_count_same(edges, a, b, upto - 1);
    }
}

/// Counting further never loses matches; each matching position adds one.
proof fn lemma_group_count_monotone(
    edges: Seq<(usize, EdgeModel)>,
    e: EdgeModel,
    lo: int,
    hi: int,
)
    requires
        lo <= hi,
    ensures
        group_count(edges, e, lo) <= group_count(edges, e, hi),
        0 <= hi - 1 && same_group(edges[hi - 1].1, e) && lo <= hi - 1 ==> group_count(edges, e, lo)
            < group_count(edges, e, hi),
    decreases hi - lo,
{
    if lo < hi {
        lemma_group_count_monotone(edges, e, lo, hi - 1);
    }
}

/// A count over a prefix is at most the prefix length.
proof fn lemma_group_count_at_most(edges: Seq<(usize, EdgeModel)>, e: EdgeModel, upto: int)
    ensures
        0 <= group_count(edges, e, upto),
        upto >= 0 ==> group_count(edges, e, upto) <= upto,
    decreases upto,
{
    if upto > 0 {
        lemma_group_count_at_most(edges, e, upto - 1);
    }
}

/// The rank of a group member is below the group size.
pub proof fn lemma_rank_below_size(edges: Seq<(usize, EdgeModel)>, i: int)
    requires
        0 <= i < edges.len(),
    ensures
        0 <= rank_of(edges, i) < group_size_of(edges, i),
    decreases 0int,
{
    lemma_group_count_at_most(edges, edges[i].1, i);
    let e = edges[i].1;
    assert(same_group(e, e));
    lemma_group_count_monotone(edges, e, i + 1, edges.len() as int);
    assert(group_count(edges, e, i + 1) == group_count(edges, e, i) + 1);
    assert(group_count(edges, e, 0) == 0);
    lemma_group_count_monotone(edges, e, 0, i);
}

/// Law: two distinct parallel (non-loop) edges of one group never share a
/// shift value, and two distinct self-loops on one node never share theirs.
pub proof fn lemma_group_shifts_distinct(edges: Seq<(usize, EdgeModel)>, i1: int, i2: int)
    requires
        0 <= i1 < i2 < edges.len(),
        same_group(edges[i1].1, edges[i2].1),
        edges[i1].1.is_loop() == edges[i2].1.is_loop(),
    ensures
        edge_shift_of(edges, i1) != edge_shift_of(edges, i2),
{
    lemma_rank_strictly_increases(edges, i1, i2);
    lemma_rank_below_size(edges, i1);
    lemma_rank_below_size(edges, i2);
    lemma_group_count_same(edges, edges[i1].1, edges[i2].1, edges.len() as int);
    if !edges[i1].1.is_loop() {
        let k = group_size_of(edges, i1);
        lemma_fanout_symmetry(k);
    }
}

/// Assigns every edge its shift level, in insertion order.
pub fn assign_shifts(edges: &Vec<(EdgeId, Edge)>) -> (r: Vec<(EdgeId, i64)>)
    requires
        edges@.len() < 0x1000_0000,
    ensures
        r@.len() == edges@.len(),
        forall|i: int| 0 <= i < r@.len() ==> (#[trigger] r@[i]).0 == edges@[i].0,
        forall|i: int|
            0 <= i < r@.len() ==> (#[trigger] r@[i]).1 as int == edge_shift_of(
                edges@.map_values(|p: (EdgeId, Edge)| ((p.0).0, p.1@)),
                i,
            ),
    {
    let ghost ev = edges@.map_values(|p: (EdgeId, Edge)| ((p.0).0, p.1@));
    let n = edges.len();
    let mut out: Vec<(EdgeId, i64)> = Vec::new();
    let mut i: usize = 0;
    while i < n
        invariant
            0 <= i <= n == edges@.len(),
            n < 0x1000_0000,
            ev == edges@.map_values(|p: (EdgeId, Edge)| ((p.0).0, p.1@)),
            out@.len() == i,
            forall|j: int| 0 <= j < i ==> (#[trigger] out@[j]).0 == edges@[j].0,
            forall|j: int| 0 <= j < i ==> (#[trigger] out@[j]).1 as int == edge_shift_of(ev, j),
        decreases n - i,
    {
        let rank = count_group_until(edges, i, i);
        let this_loop = (edges[i].1.start_id).0 == (edges[i].1.end_id).0;
        let shift: i64 = if this_loop {
            rank as i64
        } else {
            let k = count_group_until(edges, i, n);
            proof {
                lemma_rank_below_size(ev, i as int);
            }
            let half = (k / 2) as i64;
            if k % 2 == 1 {
                rank as i64 - half
            } else if rank < k / 2 {
                rank as i64 - half
            } else {
                rank as i64 - half + 1
            }
        };
        out.push((edges[i].0, shift));
        i = i + 1;
    }
    out
}

/// Counts, among the first `upto` edges, those sharing the unordered
/// endpoint pair of edge `at`.
fn count_group_until(edges: &Vec<(EdgeId, Edge)>, at: usize, upto: usize) -> (r: usize)
    requires
        at < edges@.len(),
        upto <= edges@.len(),
    ensures
        r as int == group_count(
            edges@.map_values(|p: (EdgeId, Edge)| ((p.0).0, p.1@)),
            edges@.map_values(|p: (EdgeId, Edge)| ((p.0).0, p.1@))[at as int].1,
            upto as int,
        ),
        r <= upto,
{
    let ghost ev = edges@.map_values(|p: (EdgeId, Edge)| ((p.0).0, p.1@));
    let sa = (edges[at].1.start_id).0;
    let ea = (edges[at].1.end_id).0;
    let (pa, pb) = if sa <= ea {
        (sa, ea)
    } else {
        (ea, sa)
    };
    let mut count: usize = 0;
    let mut j: usize = 0;
    while j < upto
        invariant
            0 <= j <= upto <= edges@.len(),
            at < edges@.len(),
            ev == edges@.map_values(|p: (EdgeId, Edge)| ((p.0).0, p.1@)),
            (pa, pb) == unordered_pair(ev[at as int].1),
            count <= j,
            count as int == group_count(ev, ev[at as int].1, j as int),
        decreases upto - j,
    {
        let sb = (edges[j].1.start_id).0;
        let eb = (edges[j].1.end_id).0;
        let (qa, qb) = if sb <= eb {
            (sb, eb)
        } else {
            (eb, sb)
        };
        if qa == pa && qb == pb {
            proof {
                assert(same_group(ev[j as int].1, ev[at as int].1));
            }
            count = count + 1;
        } else {
            proof {
                assert(!same_group(ev[j as int].1, ev[at as int].1));
            }
        }
        j = j + 1;
    }
    count
}

/// The control-point offset of a self-loop at nesting level `shift`: the
/// base offset scaled by the node's size relative to the minimum node size,
/// growing with `1 + shift`, clamped into the coordinate limits.
pub open spec fn loop_offset(size: int, shift: int) -> int {
    let raw = (CONTROL_OFFSET * size * (1 + shift)) / (MIN_NODE_SIZE as int);
    if raw > UNIT_LIMIT {
        UNIT_LIMIT as int
    } else {
        raw
    }
}

/// Computes the loop control-point offset.
pub fn loop_control_offset(size: i64, shift: i64) -> (r: i64)
    requires
        0 <= size <= UNIT_LIMIT,
        0 <= shift <= UNIT_LIMIT,
    ensures
        r == loop_offset(size as int, shift as int),
        0 <= r <= UNIT_LIMIT,
{
    proof {
        assert(0 <= CONTROL_OFFSET as int * size as int <= 0x100_0000_0000);
        crate::geom::lemma_mul_bound(
            CONTROL_OFFSET as int * size as int,
            1 + shift as int,
            0x100_0000_0000,
        );
        assert(0 <= CONTROL_OFFSET as int * size as int * (1 + shift as int))
            by (nonlinear_arith)
            requires
                0 <= CONTROL_OFFSET as int * size as int,
                0 <= shift,
        ;
        vstd::arithmetic::div_mod::lemma_div_pos_is_pos(
            CONTROL_OFFSET as int * size as int * (1 + shift as int),
            MIN_NODE_SIZE as int,
        );
    }
    let raw: i128 = (CONTROL_OFFSET as i128) * (size as i128) * (1 + shift as i128) / (
    MIN_NODE_SIZE as i128);
    if raw > UNIT_LIMIT as i128 {
        UNIT_LIMIT
    } else {
        raw as i64
    }
}

/// Law: for a node of positive size, strictly larger loop shifts give
/// strictly larger control offsets, as long as the larger one is not
/// clamped; so same-node loops nest instead of overlapping.
pub proof fn lemma_loop_offsets_distinct(size: int, s1: int, s2: int)
    requires
        1 <= size,
        0 <= s1 < s2,
        (CONTROL_OFFSET * size * (1 + s2)) / (MIN_NODE_SIZE as int) <= UNIT_LIMIT,
    ensures
        loop_offset(size, s1) < loop_offset(size, s2),
{
    let a = CONTROL_OFFSET * size;
    let x = a * (1 + s1);
    let y = a * (1 + s2);
    assert(a == 50 * size);
    assert(a >= 50) by (nonlinear_arith)
        requires
            size >= 1,
            a == 50 * size,
    ;
    assert(y >= x + 40) by (nonlinear_arith)
        requires
            a >= 50,
            s1 < s2,
            x == a * (1 + s1),
            y == a * (1 + s2),
            0 <= s1,
    ;
    assert(x >= 0) by (nonlinear_arith)
        requires
            a >= 50,
            0 <= s1,
            x == a * (1 + s1),
    ;
    vstd::arithmetic::div_mod::lemma_div_plus_one(x, 20);
    vstd::arithmetic::div_mod::lemma_div_plus_one(x + 20, 20);
    vstd::arithmetic::div_mod::lemma_div_is_ordered(x + 40, y, 20);
    vstd::arithmetic::div_mod::lemma_div_is_ordered(x, y, 20);
    assert(x / 20 < y / 20);
}

/// The geometry of one self-loop on a circle node at its default anchors:
/// the start point at the node's north, the end point at its west, and the
/// two control points pushed outward by the nesting offset.
pub struct LoopLayout {
    pub start: Point,
    pub end: Point,
    pub control1: Point,
    pub control2: Point,
}

/// Computes the curve anchors of a self-loop on a circle node with the
/// anchors unrotated: start north, end west, controls pushed out by the
/// nesting offset of `shift`.
pub fn circle_loop_layout(center: Point, size: i64, shift: i64) -> (r: LoopLayout)
    requires
        crate::geom::unit_ok(center),
        0 <= size <= UNIT_LIMIT,
        0 <= shift <= UNIT_LIMIT,
    ensures
        r.start == (Point { x: center.x, y: (center.y - size) as i64 }),
        r.end == (Point { x: (center.x - size) as i64, y: center.y }),
        r.control1 == (Point {
            x: center.x,
            y: (center.y - size - loop_offset(size as int, shift as int)) as i64,
        }),
        r.control2 == (Point {
            x: (center.x - size - loop_offset(size as int, shift as int)) as i64,
            y: center.y,
        }),
{
    let off = loop_control_offset(size, shift);
    LoopLayout {
        start: Point { x: center.x, y: center.y - size },
        end: Point { x: center.x - size, y: center.y },
        control1: Point { x: center.x, y: center.y - size - off },
        control2: Point { x: center.x - size - off, y: center.y },
    }
}

/// Law: two self-loops on one circle node with distinct shifts have
/// distinct control points, whenever the larger offset is not clamped.
pub proof fn lemma_loop_controls_distinct(center: Point, size: i64, s1: i64, s2: i64)
    requires
        1 <= size,
        0 <= s1 < s2,
        (CONTROL_OFFSET * size * (1 + s2)) / (MIN_NODE_SIZE as int) <= UNIT_LIMIT,
    ensures
        center.y - size - loop_offset(size as int, s1 as int) != center.y - size - loop_offset(
            size as int,
            s2 as int,
        ),
{
    lemma_loop_offsets_distinct(size as int, s1 as int, s2 as int);
}

/// The point a quadratic curve passes through at its half-way parameter:
/// `(start + 2 * control + end) / 4`, componentwise and rounded toward
/// zero; where labels are centered.
pub fn quad_curve_midpoint(start: Point, control: Point, end: Point) -> (r: Point)
    requires
        crate::geom::unit_ok(start),
        crate::geom::unit_ok(control),
        crate::geom::unit_ok(end),
    ensures
        r.x == crate::geom::div_towards_zero(start.x + 2 * control.x + end.x, 4),
        r.y == crate::geom::div_towards_zero(start.y + 2 * control.y + end.y, 4),
{
    let x = crate::geom::div_wide(start.x as i128 + 2 * control.x as i128 + end.x as i128, 4);
    let y = crate::geom::div_wide(start.y as i128 + 2 * control.y as i128 + end.y as i128, 4);
    Point { x, y }
}

/// The point a cubic curve passes through at its half-way parameter:
/// `(start + 3 * control1 + 3 * control2 + end) / 8`, componentwise and
/// rounded toward zero.
pub fn cubic_curve_midpoint(start: Point, control1: Point, control2: Point, end: Point) -> (r:
    Point)
    requires
        crate::geom::unit_ok(start),
        crate::geom::unit_ok(control1),
        crate::geom::unit_ok(control2),
        crate::geom::unit_ok(end),
    ensures
        r.x == crate::geom::div_towards_zero(
            start.x + 3 * control1.x + 3 * control2.x + end.x,
            8,
        ),
        r.y == crate::geom::div_towards_zero(
            start.y + 3 * control1.y + 3 * control2.y + end.y,
            8,
        ),
{
    let x = crate::geom::div_wide(
        start.x as i128 + 3 * control1.x as i128 + 3 * control2.x as i128 + end.x as i128,
        8,
    );
    let y = crate::geom::div_wide(
        start.y as i128 + 3 * control1.y as i128 + 3 * control2.y as i128 + end.y as i128,
        8,
    );
    Point { x, y }
}

/// The fixed-point scale of the unit direction vectors the curve layout
/// works with.
pub const DIR_SCALE: i64 = 65536;

/// Coordinates and sizes admitted by the edge-curve composition; canvas
/// bounds with room for the border and rotation intermediates.
pub const LAYOUT_LIMIT: i64 = 0x400_0000;

/// The chord direction the fan bows away from, oriented by the endpoint-id
/// comparison as `direction_sign`.
pub open spec fn fan_dir(start: Point, end: Point, direction_sign: int) -> Point {
    if direction_sign == 1 {
        Point { x: (start.x - end.x) as i64, y: (start.y - end.y) as i64 }
    } else {
        Point { x: (end.x - start.x) as i64, y: (end.y - start.y) as i64 }
    }
}

/// The distance of a fanned curve's control point from the chord midpoint:
/// the shift level times the base offset, clamped into the coordinate
/// limits.
pub open spec fn fan_magnitude(shift: int) -> int {
    let raw = crate::geom::abs_of(shift) * CONTROL_OFFSET;
    if raw > UNIT_LIMIT {
        UNIT_LIMIT as int
    } else {
        raw
    }
}

/// x of the control point of a fanned (non-loop) curve: the chord midpoint
/// pushed perpendicular to the chord by the shift's magnitude.
pub open spec fn edge_control_x(start: Point, end: Point, shift: int, direction_sign: int) -> int {
    let d = fan_dir(start, end, direction_sign);
    let o = Point { x: 0 as i64, y: 0 as i64 };
    let uy = crate::geom::circle_border_y(o, DIR_SCALE, d);
    crate::geom::div_towards_zero(start.x + end.x, 2) + crate::geom::sign_of(shift)
        * crate::geom::mul_div_v(uy, fan_magnitude(shift), DIR_SCALE as int)
}

/// y of the control point of a fanned curve.
pub open spec fn edge_control_y(start: Point, end: Point, shift: int, direction_sign: int) -> int {
    let d = fan_dir(start, end, direction_sign);
    let o = Point { x: 0 as i64, y: 0 as i64 };
    let ux = crate::geom::circle_border_x(o, DIR_SCALE, d);
    crate::geom::div_towards_zero(start.y + end.y, 2) + crate::geom::sign_of(shift)
        * crate::geom::mul_div_v(-ux, fan_magnitude(shift), DIR_SCALE as int)
}

/// Computes the control point of a fanned (non-loop) curve between the two
/// border points: the chord midpoint offset perpendicular to the chord by
/// `shift` times the base offset, to the side picked by `direction_sign`,
/// so that the curve bows increasingly for larger shift magnitudes.
pub fn edge_control_point(start: Point, end: Point, shift: i64, direction_sign: i64) -> (r: Point)
    requires
        -0x2000_0000 <= start.x <= 0x2000_0000,
        -0x2000_0000 <= start.y <= 0x2000_0000,
        -0x2000_0000 <= end.x <= 0x2000_0000,
        -0x2000_0000 <= end.y <= 0x2000_0000,
        direction_sign == 1 || direction_sign == -1,
        -UNIT_LIMIT <= shift <= UNIT_LIMIT,
    ensures
        r.x == edge_control_x(start, end, shift as int, direction_sign as int),
        r.y == edge_control_y(start, end, shift as int, direction_sign as int),
{
    let o = Point { x: 0, y: 0 };
    let d = if direction_sign == 1 {
        Point { x: start.x - end.x, y: start.y - end.y }
    } else {
        Point { x: end.x - start.x, y: end.y - start.y }
    };
    let u = crate::geom::circle_border_point(o, DIR_SCALE, d);
    let sa: i64 = if shift >= 0 {
        shift
    } else {
        -shift
    };
    let raw: i64 = sa * CONTROL_OFFSET;
    let mag: i64 = if raw > UNIT_LIMIT {
        UNIT_LIMIT
    } else {
        raw
    };
    let offx = crate::geom::mul_div(u.y, mag, DIR_SCALE);
    let offy = crate::geom::mul_div(-u.x, mag, DIR_SCALE);
    let midx = crate::geom::div_wide(start.x as i128 + end.x as i128, 2);
    let midy = crate::geom::div_wide(start.y as i128 + end.y as i128, 2);
    proof {
        crate::geom::lemma_div_towards_zero_bound(
            start.x as int + end.x as int,
            2,
            0x2000_0000,
        );
        crate::geom::lemma_div_towards_zero_bound(
            start.y as int + end.y as int,
            2,
            0x2000_0000,
        );
    }
    proof {
        let sh = shift as int;
        let sg = direction_sign as int;
        assert(d == fan_dir(start, end, sg));
        assert(mag as int == fan_magnitude(sh));
        assert(u.y as int == crate::geom::circle_border_y(
            Point { x: 0 as i64, y: 0 as i64 },
            DIR_SCALE,
            d,
        ));
        assert(u.x as int == crate::geom::circle_border_x(
            Point { x: 0 as i64, y: 0 as i64 },
            DIR_SCALE,
            d,
        ));
        assert(offx as int == crate::geom::mul_div_v(
            u.y as int,
            mag as int,
            DIR_SCALE as int,
        ));
        assert(offy as int == crate::geom::mul_div_v(
            -(u.x as int),
            mag as int,
            DIR_SCALE as int,
        ));
        assert(midx as int == crate::geom::div_towards_zero(start.x + end.x, 2));
        if shift > 0 {
            assert(crate::geom::sign_of(sh) == 1);
        } else if shift < 0 {
            assert(crate::geom::sign_of(sh) == -1);
        } else {
            assert(crate::geom::sign_of(sh) == 0);
        }
    }
    if shift > 0 {
        Point { x: midx + offx, y: midy + offy }
    } else if shift < 0 {
        Point { x: midx - offx, y: midy - offy }
    } else {
        Point { x: midx, y: midy }
    }
}

/// The three corners of an oriented edge's arrowhead.
pub struct ArrowLayout {
    pub base: Point,
    pub left: Point,
    pub right: Point,
}

/// Computes the arrowhead of an oriented edge along the direction from
/// `start` to `end`: the two back corners are the unit direction rotated by
/// the arrow half-angle either way and scaled by the arrow length, the base
/// sits slightly before the end point.
pub fn arrow_points(start: Point, end: Point, width: i64, half_angle: Rotation) -> (r: ArrowLayout)
    requires
        -0x2000_0000 <= start.x <= 0x2000_0000,
        -0x2000_0000 <= start.y <= 0x2000_0000,
        -0x2000_0000 <= end.x <= 0x2000_0000,
        -0x2000_0000 <= end.y <= 0x2000_0000,
        0 <= width <= 0x1000,
        half_angle.wf(),
    ensures
        ({
            let o = Point { x: 0 as i64, y: 0 as i64 };
            let d = Point { x: (end.x - start.x) as i64, y: (end.y - start.y) as i64 };
            let u = Point {
                x: crate::geom::circle_border_x(o, DIR_SCALE, d) as i64,
                y: crate::geom::circle_border_y(o, DIR_SCALE, d) as i64,
            };
            let rl = crate::geom::rotated_point(u, o, half_angle);
            let rr = crate::geom::rotated_point(
                u,
                o,
                Rotation {
                    cos: half_angle.cos,
                    sin: (-half_angle.sin as int) as i64,
                    scale: half_angle.scale,
                },
            );
            &&& r.base.x == end.x - crate::geom::div_towards_zero(
                u.x * (3 * width),
                5 * DIR_SCALE,
            )
            &&& r.base.y == end.y - crate::geom::div_towards_zero(
                u.y * (3 * width),
                5 * DIR_SCALE,
            )
            &&& r.left.x == end.x - crate::geom::div_towards_zero(
                rl.x * (crate::consts::ARROW_LEN_COEF * width),
                DIR_SCALE as int,
            )
            &&& r.left.y == end.y - crate::geom::div_towards_zero(
                rl.y * (crate::consts::ARROW_LEN_COEF * width),
                DIR_SCALE as int,
            )
            &&& r.right.x == end.x - crate::geom::div_towards_zero(
                rr.x * (crate::consts::ARROW_LEN_COEF * width),
                DIR_SCALE as int,
            )
            &&& r.right.y == end.y - crate::geom::div_towards_zero(
                rr.y * (crate::consts::ARROW_LEN_COEF * width),
                DIR_SCALE as int,
            )
        }),
{
    let o = Point { x: 0, y: 0 };
    let d = Point { x: end.x - start.x, y: end.y - start.y };
    let u = crate::geom::circle_border_point(o, DIR_SCALE, d);
    let rl = crate::geom::rotate_around(u, o, half_angle);
    let rr = crate::geom::rotate_around(u, o, half_angle.inverse());
    let cw: i64 = crate::consts::ARROW_LEN_COEF * width;
    proof {
        crate::geom::lemma_mul_bound(rl.x as int, cw as int, 0x40000);
        crate::geom::lemma_mul_bound(rl.y as int, cw as int, 0x40000);
        crate::geom::lemma_mul_bound(rr.x as int, cw as int, 0x40000);
        crate::geom::lemma_mul_bound(rr.y as int, cw as int, 0x40000);
        crate::geom::lemma_mul_bound(u.x as int, 3 * width as int, 0x40000);
        crate::geom::lemma_mul_bound(u.y as int, 3 * width as int, 0x40000);
    }
    let base = Point {
        x: end.x - crate::geom::div_wide((u.x as i128) * ((3 * width) as i128), 5 * DIR_SCALE),
        y: end.y - crate::geom::div_wide((u.y as i128) * ((3 * width) as i128), 5 * DIR_SCALE),
    };
    let left = Point {
        x: end.x - crate::geom::div_wide((rl.x as i128) * (cw as i128), DIR_SCALE),
        y: end.y - crate::geom::div_wide((rl.y as i128) * (cw as i128), DIR_SCALE),
    };
    let right = Point {
        x: end.x - crate::geom::div_wide((rr.x as i128) * (cw as i128), DIR_SCALE),
        y: end.y - crate::geom::div_wide((rr.y as i128) * (cw as i128), DIR_SCALE),
    };
    ArrowLayout { base, left, right }
}

/// Computes the curve anchors of one self-loop in the general case: the
/// north and west border anchors rotated around the node by the loop's own
/// rotation `rot`, and the two control points pushed outward from each
/// anchor along the center-to-anchor direction by the nesting offset of
/// `shift`.
pub fn loop_layout(node: &crate::node::Node, rot: Rotation, shift: i64) -> (r: LoopLayout)
    requires
        layout_ok(node@),
        rot.wf(),
        0 <= shift <= UNIT_LIMIT,
    ensures
        ({
            let north = Point { x: node.position.x, y: (node.position.y - node.size) as i64 };
            let west = Point { x: (node.position.x - node.size) as i64, y: node.position.y };
            r.start.x == node@.rotated_border_x(north, rot) && r.start.y
                == node@.rotated_border_y(north, rot) && r.end.x == node@.rotated_border_x(
                west,
                rot,
            ) && r.end.y == node@.rotated_border_y(west, rot)
        }),
        ({
            let o = Point { x: 0 as i64, y: 0 as i64 };
            let d1 = Point {
                x: (node.position.x - r.start.x) as i64,
                y: (node.position.y - r.start.y) as i64,
            };
            let d2 = Point {
                x: (node.position.x - r.end.x) as i64,
                y: (node.position.y - r.end.y) as i64,
            };
            let off = loop_offset(node.size as int, shift as int);
            &&& r.control1.x == r.start.x - crate::geom::mul_div_v(
                crate::geom::circle_border_x(o, DIR_SCALE, d1),
                off,
                DIR_SCALE as int,
            )
            &&& r.control1.y == r.start.y - crate::geom::mul_div_v(
                crate::geom::circle_border_y(o, DIR_SCALE, d1),
                off,
                DIR_SCALE as int,
            )
            &&& r.control2.x == r.end.x - crate::geom::mul_div_v(
                crate::geom::circle_border_x(o, DIR_SCALE, d2),
                off,
                DIR_SCALE as int,
            )
            &&& r.control2.y == r.end.y - crate::geom::mul_div_v(
                crate::geom::circle_border_y(o, DIR_SCALE, d2),
                off,
                DIR_SCALE as int,
            )
        }),
{
    let o = Point { x: 0, y: 0 };
    let north = Point { x: node.position.x, y: node.position.y - node.size };
    let west = Point { x: node.position.x - node.size, y: node.position.y };
    let start = node.rotate_border_point(north, rot);
    let end = node.rotate_border_point(west, rot);
    let off = loop_control_offset(node.size, shift);
    let d1 = Point { x: node.position.x - start.x, y: node.position.y - start.y };
    let d2 = Point { x: node.position.x - end.x, y: node.position.y - end.y };
    let u1 = crate::geom::circle_border_point(o, DIR_SCALE, d1);
    let u2 = crate::geom::circle_border_point(o, DIR_SCALE, d2);
    let control1 = Point {
        x: start.x - crate::geom::mul_div(u1.x, off, DIR_SCALE),
        y: start.y - crate::geom::mul_div(u1.y, off, DIR_SCALE),
    };
    let control2 = Point {
        x: end.x - crate::geom::mul_div(u2.x, off, DIR_SCALE),
        y: end.y - crate::geom::mul_div(u2.y, off, DIR_SCALE),
    };
    LoopLayout { start, end, control1, control2 }
}

/// The anchors of a fanned (non-loop) curve between two nodes.
pub struct EdgeLayout {
    pub start: Point,
    pub end: Point,
    pub control: Point,
}

/// Node attributes admitted by the curve composition.
pub open spec fn layout_ok(n: crate::node::NodeModel) -> bool {
    &&& -LAYOUT_LIMIT <= n.position.x <= LAYOUT_LIMIT
    &&& -LAYOUT_LIMIT <= n.position.y <= LAYOUT_LIMIT
    &&& 0 <= n.size <= LAYOUT_LIMIT
}

/// Computes the curve anchors of one fanned (non-loop) edge: the direct
/// border-to-border points of the two nodes, each rotated around its own
/// node by the fan rotation `alpha` (the shift-dependent angle, supplied as
/// a fixed-point rotation; the end point turns the opposite way), and the
/// control point the curve bows through.
pub fn edge_layout(
    start_node: &crate::node::Node,
    end_node: &crate::node::Node,
    direction_sign: i64,
    shift: i64,
    alpha: Rotation,
) -> (r: EdgeLayout)
    requires
        layout_ok(start_node@),
        layout_ok(end_node@),
        direction_sign == 1 || direction_sign == -1,
        -UNIT_LIMIT <= shift <= UNIT_LIMIT,
        alpha.wf(),
    ensures
        ({
            let dir = Point {
                x: (end_node.position.x - start_node.position.x) as i64,
                y: (end_node.position.y - start_node.position.y) as i64,
            };
            let rev = Point { x: (-dir.x as int) as i64, y: (-dir.y as int) as i64 };
            let s0 = Point {
                x: start_node@.border_x(dir) as i64,
                y: start_node@.border_y(dir) as i64,
            };
            let e0 = Point {
                x: end_node@.border_x(rev) as i64,
                y: end_node@.border_y(rev) as i64,
            };
            let inv = Rotation {
                cos: alpha.cos,
                sin: (-alpha.sin as int) as i64,
                scale: alpha.scale,
            };
            &&& r.start.x == start_node@.rotated_border_x(s0, alpha)
            &&& r.start.y == start_node@.rotated_border_y(s0, alpha)
            &&& r.end.x == end_node@.rotated_border_x(e0, inv)
            &&& r.end.y == end_node@.rotated_border_y(e0, inv)
            &&& r.control.x == edge_control_x(r.start, r.end, shift as int, direction_sign
                as int)
            &&& r.control.y == edge_control_y(r.start, r.end, shift as int, direction_sign
                as int)
        }),
{
    let dir = Point {
        x: end_node.position.x - start_node.position.x,
        y: end_node.position.y - start_node.position.y,
    };
    let rev = Point { x: -dir.x, y: -dir.y };
    let s0 = start_node.border_point_in_direction(dir);
    let e0 = end_node.border_point_in_direction(rev);
    let s1 = start_node.rotate_border_point(s0, alpha);
    let e1 = end_node.rotate_border_point(e0, alpha.inverse());
    let control = edge_control_point(s1, e1, shift, direction_sign);
    EdgeLayout { start: s1, end: e1, control }
}

} // verus!
