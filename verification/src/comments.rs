//! Free-hand comment strokes: insertion-ordered polylines with a paint
//! style, a sibling structure of the graph store with the same identifier
//! discipline.
use vstd::prelude::*;
use vstd::seq_lib::*;

use crate::geom::{coord_ok, rect_contains_point, segments_intersect, segments_intersect_at,
    Point, Rect};
use crate::ids::CommentId;
use crate::style::StrokeStyle;

verus! {

/// One free-hand stroke: the recorded pointer positions in order, and the
/// paint style it is drawn with.
#[derive(Debug)]
pub struct CommentLine {
    pub points: Vec<Point>,
    pub stroke: StrokeStyle,
}

/// The mathematical value of a stroke.
#[verifier::ext_equal]
pub struct CommentLineModel {
    pub points: Seq<Point>,
    pub stroke: StrokeStyle,
}

impl View for CommentLine {
    type V = CommentLineModel;

    open spec fn view(&self) -> CommentLineModel {
        CommentLineModel { points: self.points@, stroke: self.stroke }
    }
}

impl CommentLineModel {
    pub open spec fn points_ok(self) -> bool {
        forall|i: int| 0 <= i < self.points.len() ==> coord_ok(#[trigger] self.points[i])
    }
}

/// Whether the polyline `points` has a segment intersecting the segment
/// (c, d).
pub open spec fn polyline_hits_segment(points: Seq<Point>, c: Point, d: Point) -> bool {
    exists|i: int|
        0 <= i < points.len() - 1 && segments_intersect_at(
            #[trigger] points[i],
            points[i + 1],
            c,
            d,
        )
}

/// The four corner-to-corner edges of a rectangle, as endpoint pairs in the
/// order top, right, bottom, left.
pub open spec fn rect_edge_ends(r: Rect, e: int) -> (Point, Point) {
    if e == 0 {
        (r.min, Point { x: r.max.x, y: r.min.y })
    } else if e == 1 {
        (Point { x: r.max.x, y: r.min.y }, r.max)
    } else if e == 2 {
        (r.max, Point { x: r.min.x, y: r.max.y })
    } else {
        (Point { x: r.min.x, y: r.max.y }, r.min)
    }
}

/// Whether a stroke is hit by the eraser square: some recorded point lies in
/// the square, or (for a nonempty stroke) some square edge crosses the
/// polyline.
pub open spec fn stroke_hits_square(m: CommentLineModel, square: Rect) -> bool {
    ||| exists|i: int|
        0 <= i < m.points.len() && rect_contains_point(square, #[trigger] m.points[i])
    ||| (m.points.len() > 0 && exists|e: int|
        0 <= e < 4 && polyline_hits_segment(
            m.points,
            (#[trigger] rect_edge_ends(square, e)).0,
            rect_edge_ends(square, e).1,
        ))
}

impl CommentLine {
    /// An empty stroke with the default thin black style.
    pub fn new() -> (r: CommentLine)
        ensures
            r@.points == Seq::<Point>::empty(),
            r@.stroke == (StrokeStyle {
                width: 1i64,
                color: crate::style::Color { r: 0u8, g: 0u8, b: 0u8, a: 255u8 },
            }),
    {
        CommentLine { points: Vec::new(), stroke: StrokeStyle::thin_black() }
    }

    /// An empty stroke with the given style.
    pub fn from(stroke: StrokeStyle) -> (r: CommentLine)
        ensures
            r@.points == Seq::<Point>::empty(),
            r@.stroke == stroke,
    {
        CommentLine { points: Vec::new(), stroke }
    }

    /// The number of recorded points.
    pub fn len(&self) -> (r: usize)
        ensures
            r == self@.points.len(),
    {
        self.points.len()
    }

    /// Whether no point has been recorded yet.
    pub fn is_empty(&self) -> (r: bool)
        ensures
            r == (self@.points.len() == 0),
    {
        self.points.is_empty()
    }

    /// Whether this stroke's polyline crosses the segment `line`.
    pub fn is_intersect(&self, line: [Point; 2]) -> (r: bool)
        requires
            self@.points_ok(),
            coord_ok(line[0]),
            coord_ok(line[1]),
        ensures
            r == polyline_hits_segment(self@.points, line[0], line[1]),
    {
        let c = line[0];
        let d = line[1];
        let n = self.points.len();
        if n < 2 {
            return false;
        }
        let mut i: usize = 0;
        while i < n - 1
            invariant
                n == self@.points.len(),
                2 <= n,
                0 <= i <= n - 1,
                self@.points_ok(),
                coord_ok(c),
                coord_ok(d),
                c == line[0],
                d == line[1],
                forall|j: int|
                    0 <= j < i ==> !segments_intersect_at(
                        #[trigger] self@.points[j],
                        self@.points[j + 1],
                        c,
                        d,
                    ),
            decreases n - i,
        {
            if segments_intersect(self.points[i], self.points[i + 1], c, d) {
                return true;
            }
            i = i + 1;
        }
        false
    }

    /// Whether this stroke is hit by the eraser square.
    pub fn is_intersect_square(&self, square: Rect) -> (r: bool)
        requires
            self@.points_ok(),
            coord_ok(square.min),
            coord_ok(square.max),
        ensures
            r == stroke_hits_square(self@, square),
    {
        let n = self.points.len();
        if n == 0 {
            return false;
        }
        let top = [square.min, Point { x: square.max.x, y: square.min.y }];
        let right = [Point { x: square.max.x, y: square.min.y }, square.max];
        let bottom = [square.max, Point { x: square.min.x, y: square.max.y }];
        let left = [Point { x: square.min.x, y: square.max.y }, square.min];
        let edge_hit = self.is_intersect(top) || self.is_intersect(right) || self.is_intersect(
            bottom,
        ) || self.is_intersect(left);
        proof {
            if edge_hit {
                assert(exists|e: int|
                    0 <= e < 4 && polyline_hits_segment(
                        self@.points,
                        (#[trigger] rect_edge_ends(square, e)).0,
                        rect_edge_ends(square, e).1,
                    )) by {
                    if polyline_hits_segment(self@.points, top[0], top[1]) {
                        assert(rect_edge_ends(square, 0) == (top[0], top[1]));
                    } else if polyline_hits_segment(self@.points, right[0], right[1]) {
                        assert(rect_edge_ends(square, 1) == (right[0], right[1]));
                    } else if polyline_hits_segment(self@.points, bottom[0], bottom[1]) {
                        assert(rect_edge_ends(square, 2) == (bottom[0], bottom[1]));
                    } else {
                        assert(rect_edge_ends(square, 3) == (left[0], left[1]));
                    }
                }
            } else {
                assert forall|e: int|
                    0 <= e < 4 implies !polyline_hits_segment(
                    self@.points,
                    (#[trigger] rect_edge_ends(square, e)).0,
                    rect_edge_ends(square, e).1,
                ) by {
                    if e == 0 {
                        assert(rect_edge_ends(square, 0) == (top[0], top[1]));
                    } else if e == 1 {
                        assert(rect_edge_ends(square, 1) == (right[0], right[1]));
                    } else if e == 2 {
                        assert(rect_edge_ends(square, 2) == (bottom[0], bottom[1]));
                    } else {
                        assert(rect_edge_ends(square, 3) == (left[0], left[1]));
                    }
                }
            }
        }
        if edge_hit {
            return true;
        }
        let mut i: usize = 0;
        while i < n
            invariant
                n == self@.points.len(),
                0 <= i <= n,
                forall|j: int|
                    0 <= j < i ==> !rect_contains_point(square, #[trigger] self@.points[j]),
            decreases n - i,
        {
            if crate::geom::rect_contains(&square, self.points[i]) {
                return true;
            }
            i = i + 1;
        }
        false
    }
}

impl Clone for CommentLine {
    /// Clones the stroke, point for point.
    fn clone(&self) -> (r: Self)
        ensures
            r@ == self@,
    {
        let mut pts: Vec<Point> = Vec::new();
        let n = self.points.len();
        let mut i: usize = 0;
        while i < n
            invariant
                n == self.points@.len(),
                0 <= i <= n,
                pts@ =~= self.points@.take(i as int),
            decreases n - i,
        {
            pts.push(self.points[i]);
            proof {
                assert(pts@ =~= self.points@.take(i + 1));
            }
            i = i + 1;
        }
        proof {
            assert(self.points@.take(n as int) =~= self.points@);
        }
        let r = CommentLine { points: pts, stroke: self.stroke };
        proof {
            assert(r@.points =~= self@.points);
        }
        r
    }
}

/// The mathematical value of a comment group: the strokes in insertion
/// order and the id counter.
#[verifier::ext_equal]
pub struct CommentsModel {
    pub lines: Seq<(usize, CommentLineModel)>,
    pub counter: usize,
}

impl CommentsModel {
    pub open spec fn has_line(self, id: usize) -> bool {
        exists|i: int| 0 <= i < self.lines.len() && (#[trigger] self.lines[i]).0 == id
    }

    /// The group invariant: ids strictly increase in insertion order and
    /// never exceed the counter, and all points are within coordinate
    /// limits.
    pub open spec fn wf(self) -> bool {
        &&& forall|i: int, j: int|
            0 <= i < j < self.lines.len() ==> (#[trigger] self.lines[i]).0 < (
            #[trigger] self.lines[j]).0
        &&& forall|i: int|
            0 <= i < self.lines.len() ==> 1 <= (#[trigger] self.lines[i]).0 <= self.counter
        &&& forall|i: int| 0 <= i < self.lines.len() ==> (#[trigger] self.lines[i]).1.points_ok()
    }
}

/// The line-entry predicate that keeps every id but `id`.
pub open spec fn line_keep(id: usize) -> spec_fn((usize, CommentLineModel)) -> bool {
    |p: (usize, CommentLineModel)| p.0 != id
}

/// The insertion-ordered group of comment strokes.
pub struct CommentsGroup {
    data: Vec<(CommentId, CommentLine)>,
    comment_id_counter: usize,
}

impl View for CommentsGroup {
    type V = CommentsModel;

    closed spec fn view(&self) -> CommentsModel {
        CommentsModel {
            lines: self.data@.map_values(|p: (CommentId, CommentLine)| ((p.0).0, p.1@)),
            counter: self.comment_id_counter,
        }
    }
}

impl CommentsGroup {
    /// The empty group with the counter at zero.
    pub fn new() -> (r: CommentsGroup)
        ensures
            r@.lines =~= Seq::<(usize, CommentLineModel)>::empty(),
            r@.counter == 0,
            r@.wf(),
    {
        CommentsGroup { data: Vec::new(), comment_id_counter: 0 }
    }

    /// Inserts a stroke under a freshly minted id.
    pub fn insert(&mut self, line: CommentLine)
        requires
            old(self)@.counter < usize::MAX,
        ensures
            final(self)@.counter == old(self)@.counter + 1,
            final(self)@.lines =~= old(self)@.lines.push(
                ((old(self)@.counter + 1) as usize, line@),
            ),
            old(self)@.wf() && line@.points_ok() ==> final(self)@.wf(),
    {
        self.comment_id_counter = self.comment_id_counter + 1;
        let id = self.comment_id_counter;
        self.data.push((CommentId(id), line));
        proof {
            assert(self@.lines =~= old(self)@.lines.push((id, self.data@.last().1@)));
        }
    }

    /// Removes the stroke `id`, returning it if it was present.
    pub fn remove(&mut self, id: CommentId) -> (r: Option<CommentLine>)
        ensures
            final(self)@.counter == old(self)@.counter,
            match r {
                Some(line) => exists|k: int|
                    0 <= k < old(self)@.lines.len() && (#[trigger] old(self)@.lines[k]).0 == id.0
                        && old(self)@.lines[k].1 == line@ && (forall|j: int|
                        0 <= j < k ==> (#[trigger] old(self)@.lines[j]).0 != id.0)
                        && final(self)@.lines =~= old(self)@.lines.remove(k),
                None => !old(self)@.has_line(id.0) && final(self)@.lines == old(self)@.lines,
            },
            old(self)@.wf() ==> final(self)@.wf(),
    {
        let ghost m0 = self@;
        let n = self.data.len();
        let mut i: usize = 0;
        while i < n
            invariant
                0 <= i <= n == self.data@.len(),
                self@ == m0,
                old(self)@ == m0,
                forall|j: int| 0 <= j < i ==> ((#[trigger] self.data@[j]).0).0 != id.0,
            decreases n - i,
        {
            if (self.data[i].0).0 == id.0 {
                proof {
                    assert((m0.lines[i as int]).0 == id.0);
                }
                let entry = self.data.remove(i);
                proof {
                    assert(self@.lines =~= m0.lines.remove(i as int));
                    if m0.wf() {
                        let m1 = self@;
                        assert forall|a: int, b: int|
                            0 <= a < b < m1.lines.len() implies (#[trigger] m1.lines[a]).0 < (
                        #[trigger] m1.lines[b]).0 by {
                            if b < i {
                            } else if a < i {
                                assert(m1.lines[b] == m0.lines[b + 1]);
                            } else {
                                assert(m1.lines[a] == m0.lines[a + 1]);
                                assert(m1.lines[b] == m0.lines[b + 1]);
                            }
                        }
                        assert forall|a: int|
                            0 <= a < m1.lines.len() implies 1 <= (#[trigger] m1.lines[a]).0
                            <= m1.counter && m1.lines[a].1.points_ok() by {
                            if a < i {
                            } else {
                                assert(m1.lines[a] == m0.lines[a + 1]);
                            }
                        }
                        assert(m1.wf());
                    }
                }
                return Some(entry.1);
            }
            i = i + 1;
        }
        proof {
            assert(!m0.has_line(id.0));
        }
        None
    }

    /// The stroke entries, in insertion order.
    pub fn lines(&self) -> (r: &Vec<(CommentId, CommentLine)>)
        ensures
            r@.len() == self@.lines.len(),
            forall|i: int|
                0 <= i < r@.len() ==> ((#[trigger] r@[i]).0).0 == self@.lines[i].0 && r@[i].1@
                    == self@.lines[i].1,
    {
        &self.data
    }

    /// The number of strokes.
    pub fn len(&self) -> (r: usize)
        ensures
            r == self@.lines.len(),
    {
        self.data.len()
    }

    /// Whether the group holds no stroke.
    pub fn is_empty(&self) -> (r: bool)
        ensures
            r == (self@.lines.len() == 0),
    {
        self.data.is_empty()
    }

    /// The most recently inserted stroke, if it is still present.
    pub fn last_added(&self) -> (r: Option<&CommentLine>)
        ensures
            match r {
                Some(line) => self@.lines.len() > 0 && self@.lines.last() == (
                    self@.counter,
                    line@,
                ),
                None => self@.lines.len() == 0 || self@.lines.last().0 != self@.counter,
            },
    {
        let n = self.data.len();
        if n == 0 {
            return None;
        }
        if (self.data[n - 1].0).0 == self.comment_id_counter {
            Some(&self.data[n - 1].1)
        } else {
            None
        }
    }

    /// Drops every stroke and resets the counter.
    pub fn clear(&mut self)
        ensures
            final(self)@.lines =~= Seq::<(usize, CommentLineModel)>::empty(),
            final(self)@.counter == 0,
            final(self)@.wf(),
    {
        self.data.clear();
        self.comment_id_counter = 0;
    }

    /// One frame of the draw gesture: record the pointer position into the
    /// most recent stroke, or close the stroke when the pointer is released.
    ///
    /// A fresh stroke with the given style is opened when the group is empty
    /// or the most recent stroke is gone (erased); an empty current stroke
    /// adopts the given style; a held pointer appends its position unless it
    /// equals the last recorded point; a released pointer closes a nonempty
    /// current stroke by opening a new empty one.
    pub fn draw_step(&mut self, pointer_pos: Option<Point>, stroke: StrokeStyle)
        requires
            old(self)@.counter < usize::MAX - 1,
            old(self)@.wf(),
            match pointer_pos {
                Some(p) => coord_ok(p),
                None => true,
            },
        ensures
            final(self)@.wf(),
            final(self)@ == draw_step_model(old(self)@, pointer_pos, stroke),
    {
        let ghost m0 = self@;
        if self.needs_new_line() {
            self.insert(CommentLine::from(stroke));
        }
        let ghost m1 = self@;
        let n = self.data.len();
        proof {
            assert(n > 0);
            assert((m1.lines.last()).0 == m1.counter);
        }
        let last = n - 1;
        let cur_len = self.data[last].1.points.len();
        if cur_len == 0 {
            self.set_last_stroke(stroke);
        }
        match pointer_pos {
            Some(p) => {
                let should_push = if cur_len == 0 {
                    true
                } else {
                    let lp = self.data[last].1.points[cur_len - 1];
                    !(lp.x == p.x && lp.y == p.y)
                };
                if should_push {
                    self.push_point_to_last(p);
                }
            },
            None => {
                if cur_len > 0 {
                    self.insert(CommentLine::new());
                }
            },
        }
        proof {
            assert(self@ == draw_step_model(m0, pointer_pos, stroke));
        }
    }

    /// Whether the draw gesture must open a fresh stroke first: the group is
    /// empty, or the most recently inserted stroke is no longer present.
    fn needs_new_line(&self) -> (r: bool)
        ensures
            r == (self@.lines.len() == 0 || self@.lines.last().0 != self@.counter),
    {
        let n = self.data.len();
        n == 0 || (self.data[n - 1].0).0 != self.comment_id_counter
    }

    /// Restyles the most recent stroke.
    fn set_last_stroke(&mut self, stroke: StrokeStyle)
        requires
            old(self)@.lines.len() > 0,
        ensures
            final(self)@.counter == old(self)@.counter,
            final(self)@.lines =~= old(self)@.lines.update(
                old(self)@.lines.len() - 1,
                (
                    old(self)@.lines.last().0,
                    CommentLineModel {
                        points: old(self)@.lines.last().1.points,
                        stroke,
                    },
                ),
            ),
    {
        let last = self.data.len() - 1;
        self.data[last].1.stroke = stroke;
        proof {
            assert(final(self)@.lines =~= old(self)@.lines.update(
                old(self)@.lines.len() - 1,
                (
                    old(self)@.lines.last().0,
                    CommentLineModel { points: old(self)@.lines.last().1.points, stroke },
                ),
            ));
        }
    }

    /// Appends a point to the most recent stroke.
    fn push_point_to_last(&mut self, p: Point)
        requires
            old(self)@.lines.len() > 0,
        ensures
            final(self)@.counter == old(self)@.counter,
            final(self)@.lines =~= old(self)@.lines.update(
                old(self)@.lines.len() - 1,
                (
                    old(self)@.lines.last().0,
                    CommentLineModel {
                        points: old(self)@.lines.last().1.points.push(p),
                        stroke: old(self)@.lines.last().1.stroke,
                    },
                ),
            ),
    {
        let last = self.data.len() - 1;
        self.data[last].1.points.push(p);
        proof {
            assert(final(self)@.lines =~= old(self)@.lines.update(
                old(self)@.lines.len() - 1,
                (
                    old(self)@.lines.last().0,
                    CommentLineModel {
                        points: old(self)@.lines.last().1.points.push(p),
                        stroke: old(self)@.lines.last().1.stroke,
                    },
                ),
            ));
        }
    }
}

/// The group after one frame of the draw gesture; see
/// [`CommentsGroup::draw_step`].
pub open spec fn draw_step_model(
    m: CommentsModel,
    pointer_pos: Option<Point>,
    stroke: StrokeStyle,
) -> CommentsModel {
    let opened = if m.lines.len() == 0 || m.lines.last().0 != m.counter {
        CommentsModel {
            lines: m.lines.push(
                (
                    (m.counter + 1) as usize,
                    CommentLineModel { points: Seq::<Point>::empty(), stroke },
                ),
            ),
            counter: (m.counter + 1) as usize,
        }
    } else {
        m
    };
    let cur = opened.lines.last().1;
    let styled = if cur.points.len() == 0 {
        CommentsModel {
            lines: opened.lines.update(
                opened.lines.len() - 1,
                (opened.lines.last().0, CommentLineModel { points: cur.points, stroke }),
            ),
            counter: opened.counter,
        }
    } else {
        opened
    };
    let cur2 = styled.lines.last().1;
    match pointer_pos {
        Some(p) => {
            if cur2.points.len() == 0 || cur2.points.last() != p {
                CommentsModel {
                    lines: styled.lines.update(
                        styled.lines.len() - 1,
                        (
                            styled.lines.last().0,
                            CommentLineModel {
                                points: cur2.points.push(p),
                                stroke: cur2.stroke,
                            },
                        ),
                    ),
                    counter: styled.counter,
                }
            } else {
                styled
            }
        },
        None => {
            if cur2.points.len() > 0 {
                CommentsModel {
                    lines: styled.lines.push(
                        (
                            (styled.counter + 1) as usize,
                            CommentLineModel {
                                points: Seq::<Point>::empty(),
                                stroke: StrokeStyle {
                                    width: 1i64,
                                    color: crate::style::Color {
                                        r: 0u8,
                                        g: 0u8,
                                        b: 0u8,
                                        a: 255u8,
                                    },
                                },
                            },
                        ),
                    ),
                    counter: (styled.counter + 1) as usize,
                }
            } else {
                styled
            }
        },
    }
}

} // verus!
