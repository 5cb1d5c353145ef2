//! The box around a drawing, and moving a drawing so that the box is centred.

use vstd::prelude::*;

use fcmlib::{Outline, PathShape, Point, SegmentBezier, SegmentLine};

use crate::single::{
    half_toward_zero, is_even_single, lemma_nearest_single, nearest_single, to_single,
};

verus! {

/// The points of a run of lines: where each ends.
pub open spec fn line_points(segments: Seq<SegmentLine>) -> Seq<Point>
    decreases segments.len(),
{
    if segments.len() == 0 {
        seq![]
    } else {
        line_points(segments.drop_last()).push(segments.last().end)
    }
}

/// The points of a run of curves: where each ends, and its two control points.
pub open spec fn bezier_points(segments: Seq<SegmentBezier>) -> Seq<Point>
    decreases segments.len(),
{
    if segments.len() == 0 {
        seq![]
    } else {
        let last = segments.last();
        bezier_points(segments.drop_last()).push(last.end).push(last.control1).push(last.control2)
    }
}

/// The points of an outline.
pub open spec fn outline_points(outline: Outline) -> Seq<Point> {
    match outline {
        Outline::Line(segments) => line_points(segments@),
        Outline::Bezier(segments) => bezier_points(segments@),
    }
}

/// The points of several outlines.
pub open spec fn outlines_points(outlines: Seq<Outline>) -> Seq<Point>
    decreases outlines.len(),
{
    if outlines.len() == 0 {
        seq![]
    } else {
        outlines_points(outlines.drop_last()) + outline_points(outlines.last())
    }
}

/// The points of a shape: its start and those of its outlines.
pub open spec fn shape_points(shape: PathShape) -> Seq<Point> {
    seq![shape.start] + outlines_points(shape.outlines@)
}

/// The points of a drawing.
pub open spec fn drawing_points(shapes: Seq<PathShape>) -> Seq<Point>
    decreases shapes.len(),
{
    if shapes.len() == 0 {
        seq![]
    } else {
        drawing_points(shapes.drop_last()) + shape_points(shapes.last())
    }
}

/// A box, by its least and its greatest coordinates.
#[derive(Clone, Copy, PartialEq, Eq, Structural, Debug)]
pub struct Bounds {
    pub min_x: i32,
    pub min_y: i32,
    pub max_x: i32,
    pub max_y: i32,
}

/// The six entries of an affine transform, counted in halves: a scale or a shift by one is 2.
/// Single precision holds each of them, and its half, exactly.
#[derive(Clone, Copy, PartialEq, Eq, Structural, Debug)]
pub struct TransformHalves {
    pub a: i64,
    pub b: i64,
    pub c: i64,
    pub d: i64,
    pub x: i64,
    pub y: i64,
}

impl Bounds {
    /// The box around nothing.
    pub open spec fn none() -> Bounds {
        Bounds { min_x: i32::MAX, min_y: i32::MAX, max_x: i32::MIN, max_y: i32::MIN }
    }

    /// The box, made just large enough to hold `p` as well.
    pub open spec fn with(self, p: Point) -> Bounds {
        Bounds {
            min_x: if p.x < self.min_x {
                p.x
            } else {
                self.min_x
            },
            min_y: if p.y < self.min_y {
                p.y
            } else {
                self.min_y
            },
            max_x: if p.x > self.max_x {
                p.x
            } else {
                self.max_x
            },
            max_y: if p.y > self.max_y {
                p.y
            } else {
                self.max_y
            },
        }
    }

    /// The box, made just large enough to hold all of `points` as well.
    pub open spec fn with_all(self, points: Seq<Point>) -> Bounds
        decreases points.len(),
    {
        if points.len() == 0 {
            self
        } else {
            self.with_all(points.drop_last()).with(points.last())
        }
    }

    /// The box around `points`.
    pub open spec fn around(points: Seq<Point>) -> Bounds {
        Bounds::none().with_all(points)
    }

    /// `p` lies in the box.
    pub open spec fn holds(self, p: Point) -> bool {
        &&& self.min_x <= p.x <= self.max_x
        &&& self.min_y <= p.y <= self.max_y
    }

    /// The size of the box and the sums of its opposite coordinates can be computed with `i32`.
    pub open spec fn is_measurable(self) -> bool {
        &&& i32::MIN <= self.max_x - self.min_x <= i32::MAX
        &&& i32::MIN <= self.max_y - self.min_y <= i32::MAX
        &&& i32::MIN <= self.min_x + self.max_x <= i32::MAX
        &&& i32::MIN <= self.min_y + self.max_y <= i32::MAX
    }

    /// Whether the box can be measured.
    pub fn measurable(&self) -> (r: bool)
        ensures
            r == self.is_measurable(),
    {
        let (min_x, max_x): (i64, i64) = (self.min_x as i64, self.max_x as i64);
        let (min_y, max_y): (i64, i64) = (self.min_y as i64, self.max_y as i64);
        let (low, high): (i64, i64) = (i32::MIN as i64, i32::MAX as i64);
        low <= max_x - min_x && max_x - min_x <= high && low <= max_y - min_y && max_y - min_y
            <= high && low <= min_x + max_x && min_x + max_x <= high && low <= min_y + max_y
            && min_y + max_y <= high
    }

    /// The centre of the box across, as a whole number: half the sum of the two sides, which
    /// is first stored in single precision, without its fraction.
    pub open spec fn spec_centre_x(self) -> int {
        half_toward_zero(nearest_single(self.min_x + self.max_x))
    }

    /// The centre of the box from top to bottom, likewise.
    pub open spec fn spec_centre_y(self) -> int {
        half_toward_zero(nearest_single(self.min_y + self.max_y))
    }

    /// How wide the box is.
    pub fn width(&self) -> (r: u32)
        requires
            self.is_measurable(),
            self.min_x <= self.max_x,
        ensures
            r == self.max_x - self.min_x,
    {
        (self.max_x - self.min_x) as u32
    }

    /// How high the box is.
    pub fn height(&self) -> (r: u32)
        requires
            self.is_measurable(),
            self.min_y <= self.max_y,
        ensures
            r == self.max_y - self.min_y,
    {
        (self.max_y - self.min_y) as u32
    }

    /// The centre of the box in whole units.
    pub fn centre(&self) -> (r: (i32, i32))
        requires
            self.is_measurable(),
        ensures
            r.0 == self.spec_centre_x(),
            r.1 == self.spec_centre_y(),
    {
        proof {
            lemma_nearest_single(self.min_x + self.max_x);
            lemma_nearest_single(self.min_y + self.max_y);
        }
        let x: i64 = to_single(self.min_x + self.max_x);
        let y: i64 = to_single(self.min_y + self.max_y);
        (half(x), half(y))
    }

    /// The transform that puts a centred drawing back in its place: the identity, and the
    /// centre of the box.
    pub open spec fn spec_transform(self) -> TransformHalves {
        TransformHalves {
            a: 2,
            b: 0,
            c: 0,
            d: 2,
            x: nearest_single(self.min_x + self.max_x) as i64,
            y: nearest_single(self.min_y + self.max_y) as i64,
        }
    }

    /// Computes that transform.
    pub fn transform(&self) -> (r: TransformHalves)
        requires
            self.is_measurable(),
        ensures
            r == self.spec_transform(),
            r.x == nearest_single(self.min_x + self.max_x),
            r.y == nearest_single(self.min_y + self.max_y),
    {
        TransformHalves {
            a: 2,
            b: 0,
            c: 0,
            d: 2,
            x: to_single(self.min_x + self.max_x),
            y: to_single(self.min_y + self.max_y),
        }
    }

    /// Adds a point.
    fn add_point(&mut self, p: &Point)
        ensures
            *final(self) == old(self).with(*p),
    {
        if p.x < self.min_x {
            self.min_x = p.x;
        }
        if p.y < self.min_y {
            self.min_y = p.y;
        }
        if p.x > self.max_x {
            self.max_x = p.x;
        }
        if p.y > self.max_y {
            self.max_y = p.y;
        }
    }

    /// Adds the points of an outline.
    fn add_outline(&mut self, outline: &Outline)
        ensures
            *final(self) == old(self).with_all(outline_points(*outline)),
    {
        let ghost before = *self;
        let mut i: usize = 0;
        match outline {
            Outline::Line(segments) => {
                while i < segments.len()
                    invariant
                        i <= segments@.len(),
                        *self == before.with_all(line_points(segments@.take(i as int))),
                    decreases segments@.len() - i,
                {
                    self.add_point(&segments[i].end);
                    proof {
                        let next = segments@.take(i + 1);
                        assert(next.drop_last() =~= segments@.take(i as int));
                        assert(line_points(next).drop_last() =~= line_points(
                            segments@.take(i as int),
                        ));
                    }
                    i += 1;
                }
                assert(segments@.take(i as int) =~= segments@);
            },
            Outline::Bezier(segments) => {
                while i < segments.len()
                    invariant
                        i <= segments@.len(),
                        *self == before.with_all(bezier_points(segments@.take(i as int))),
                    decreases segments@.len() - i,
                {
                    let segment = &segments[i];
                    self.add_point(&segment.end);
                    self.add_point(&segment.control1);
                    self.add_point(&segment.control2);
                    proof {
                        let sofar = bezier_points(segments@.take(i as int));
                        let next = segments@.take(i + 1);
                        assert(next.drop_last() =~= segments@.take(i as int));
                        let one = sofar.push(segment.end);
                        let two = one.push(segment.control1);
                        let three = two.push(segment.control2);
                        assert(one.drop_last() =~= sofar);
                        assert(two.drop_last() =~= one);
                        assert(three.drop_last() =~= two);
                        assert(bezier_points(next) == three);
                        assert(before.with_all(one) == before.with_all(sofar).with(segment.end));
                        assert(before.with_all(two) == before.with_all(one).with(
                            segment.control1,
                        ));
                    }
                    i += 1;
                }
                assert(segments@.take(i as int) =~= segments@);
            },
        }
    }

    /// Adds the points of a shape.
    fn add_shape(&mut self, shape: &PathShape)
        ensures
            *final(self) == old(self).with_all(shape_points(*shape)),
    {
        let ghost before = *self;
        let ghost first = seq![shape.start];
        self.add_point(&shape.start);
        assert(first.drop_last() =~= Seq::<Point>::empty());
        assert(before.with_all(first.drop_last()) == before);
        assert(*self == before.with_all(first));
        let mut i: usize = 0;
        while i < shape.outlines.len()
            invariant
                i <= shape.outlines@.len(),
                *self == before.with_all(first).with_all(
                    outlines_points(shape.outlines@.take(i as int)),
                ),
            decreases shape.outlines@.len() - i,
        {
            self.add_outline(&shape.outlines[i]);
            proof {
                let next = shape.outlines@.take(i + 1);
                assert(next.drop_last() =~= shape.outlines@.take(i as int));
                lemma_with_all_concat(
                    before.with_all(first),
                    outlines_points(shape.outlines@.take(i as int)),
                    outline_points(shape.outlines@[i as int]),
                );
            }
            i += 1;
        }
        proof {
            assert(shape.outlines@.take(i as int) =~= shape.outlines@);
            lemma_with_all_concat(before, first, outlines_points(shape.outlines@));
        }
    }

    /// The box around every point of every shape, control points as well as ends.
    pub fn of(shapes: &Vec<PathShape>) -> (r: Bounds)
        ensures
            r == Bounds::around(drawing_points(shapes@)),
    {
        let mut r = Bounds {
            min_x: i32::MAX,
            min_y: i32::MAX,
            max_x: i32::MIN,
            max_y: i32::MIN,
        };
        let mut i: usize = 0;
        while i < shapes.len()
            invariant
                i <= shapes@.len(),
                r == Bounds::around(drawing_points(shapes@.take(i as int))),
            decreases shapes@.len() - i,
        {
            r.add_shape(&shapes[i]);
            proof {
                let next = shapes@.take(i + 1);
                assert(next.drop_last() =~= shapes@.take(i as int));
                lemma_with_all_concat(
                    Bounds::none(),
                    drawing_points(shapes@.take(i as int)),
                    shape_points(shapes@[i as int]),
                );
            }
            i += 1;
        }
        assert(shapes@.take(i as int) =~= shapes@);
        r
    }
}

/// Half of `n`, without the fraction.
fn half(n: i64) -> (r: i32)
    requires
        2 * i32::MIN <= n <= 2 * i32::MAX,
    ensures
        r == half_toward_zero(n as int),
{
    if n < 0 {
        -((-n) / 2) as i32
    } else {
        (n / 2) as i32
    }
}

/// `p`, seen from (`x`, `y`).
pub open spec fn seen_from(p: Point, x: int, y: int) -> Point {
    Point { x: (p.x - x) as i32, y: (p.y - y) as i32 }
}

/// The coordinates of `p` seen from (`x`, `y`) fit an `i32`.
pub open spec fn is_near(p: Point, x: int, y: int) -> bool {
    &&& i32::MIN <= p.x - x <= i32::MAX
    &&& i32::MIN <= p.y - y <= i32::MAX
}

/// The same lines, seen from (`x`, `y`).
pub open spec fn lines_seen_from(segments: Seq<SegmentLine>, x: int, y: int) -> Seq<SegmentLine> {
    segments.map_values(|g: SegmentLine| SegmentLine { end: seen_from(g.end, x, y) })
}

/// The same curves, seen from (`x`, `y`).
pub open spec fn beziers_seen_from(segments: Seq<SegmentBezier>, x: int, y: int) -> Seq<
    SegmentBezier,
> {
    segments.map_values(
        |g: SegmentBezier|
            SegmentBezier {
                control1: seen_from(g.control1, x, y),
                control2: seen_from(g.control2, x, y),
                end: seen_from(g.end, x, y),
            },
    )
}

/// `to` is `from`, seen from (`x`, `y`).
pub open spec fn is_outline_seen_from(to: Outline, from: Outline, x: int, y: int) -> bool {
    match (from, to) {
        (Outline::Line(s), Outline::Line(t)) => t@ == lines_seen_from(s@, x, y),
        (Outline::Bezier(s), Outline::Bezier(t)) => t@ == beziers_seen_from(s@, x, y),
        _ => false,
    }
}

/// `to` is `from`, seen from (`x`, `y`).
pub open spec fn is_shape_seen_from(to: PathShape, from: PathShape, x: int, y: int) -> bool {
    &&& to.start == seen_from(from.start, x, y)
    &&& to.outlines@.len() == from.outlines@.len()
    &&& forall|i: int|
        0 <= i < from.outlines@.len() ==> is_outline_seen_from(
            #[trigger] to.outlines@[i],
            from.outlines@[i],
            x,
            y,
        )
}

proof fn lemma_line_points(segments: Seq<SegmentLine>)
    ensures
        line_points(segments).len() == segments.len(),
        forall|i: int|
            0 <= i < segments.len() ==> line_points(segments)[i] == (#[trigger] segments[i]).end,
    decreases segments.len(),
{
    if segments.len() > 0 {
        lemma_line_points(segments.drop_last());
        assert forall|i: int| 0 <= i < segments.len() implies line_points(segments)[i] == (
        #[trigger] segments[i]).end by {
            if i < segments.len() - 1 {
                assert(segments.drop_last()[i] == segments[i]);
            }
        }
    }
}

proof fn lemma_bezier_points(segments: Seq<SegmentBezier>)
    ensures
        bezier_points(segments).len() == 3 * segments.len(),
        forall|i: int|
            0 <= i < segments.len() ==> {
                &&& bezier_points(segments)[3 * i] == (#[trigger] segments[i]).end
                &&& bezier_points(segments)[3 * i + 1] == segments[i].control1
                &&& bezier_points(segments)[3 * i + 2] == segments[i].control2
            },
    decreases segments.len(),
{
    if segments.len() > 0 {
        lemma_bezier_points(segments.drop_last());
        assert forall|i: int| 0 <= i < segments.len() implies {
            &&& bezier_points(segments)[3 * i] == (#[trigger] segments[i]).end
            &&& bezier_points(segments)[3 * i + 1] == segments[i].control1
            &&& bezier_points(segments)[3 * i + 2] == segments[i].control2
        } by {
            if i < segments.len() - 1 {
                assert(segments.drop_last()[i] == segments[i]);
            }
        }
    }
}

/// The points of an outline are among those of the list that it stands in.
proof fn lemma_outlines_points(outlines: Seq<Outline>, i: int, p: Point)
    requires
        0 <= i < outlines.len(),
        outline_points(outlines[i]).contains(p),
    ensures
        outlines_points(outlines).contains(p),
    decreases outlines.len(),
{
    let before = outlines_points(outlines.drop_last());
    let last = outline_points(outlines.last());
    if i == outlines.len() - 1 {
        let k = choose|k: int| 0 <= k < last.len() && last[k] == p;
        assert((before + last)[before.len() + k] == p);
    } else {
        assert(outlines.drop_last()[i] == outlines[i]);
        lemma_outlines_points(outlines.drop_last(), i, p);
        let k = choose|k: int| 0 <= k < before.len() && before[k] == p;
        assert((before + last)[k] == p);
    }
}

/// The points of a shape are among those of the drawing.
pub proof fn lemma_drawing_points(shapes: Seq<PathShape>, i: int, p: Point)
    requires
        0 <= i < shapes.len(),
        shape_points(shapes[i]).contains(p),
    ensures
        drawing_points(shapes).contains(p),
    decreases shapes.len(),
{
    let before = drawing_points(shapes.drop_last());
    let last = shape_points(shapes.last());
    if i == shapes.len() - 1 {
        let k = choose|k: int| 0 <= k < last.len() && last[k] == p;
        assert((before + last)[before.len() + k] == p);
    } else {
        assert(shapes.drop_last()[i] == shapes[i]);
        lemma_drawing_points(shapes.drop_last(), i, p);
        let k = choose|k: int| 0 <= k < before.len() && before[k] == p;
        assert((before + last)[k] == p);
    }
}

/// `p` is where a segment of the outline ends, or one of its control points.
pub open spec fn is_on_outline(outline: Outline, p: Point) -> bool {
    match outline {
        Outline::Line(segments) => exists|k: int|
            0 <= k < segments@.len() && (#[trigger] segments@[k]).end == p,
        Outline::Bezier(segments) => exists|k: int|
            0 <= k < segments@.len() && ((#[trigger] segments@[k]).end == p
                || segments@[k].control1 == p || segments@[k].control2 == p),
    }
}

/// `p` is the start of the shape or stands on one of its outlines.
pub open spec fn is_on_shape(shape: PathShape, p: Point) -> bool {
    shape.start == p || exists|j: int|
        0 <= j < shape.outlines@.len() && is_on_outline(#[trigger] shape.outlines@[j], p)
}

/// `p` stands on one of the shapes.
pub open spec fn is_drawn(shapes: Seq<PathShape>, p: Point) -> bool {
    exists|i: int| 0 <= i < shapes.len() && is_on_shape(#[trigger] shapes[i], p)
}

proof fn lemma_on_outline(outline: Outline, p: Point)
    ensures
        outline_points(outline).contains(p) == is_on_outline(outline, p),
{
    let points = outline_points(outline);
    match outline {
        Outline::Line(segments) => {
            lemma_line_points(segments@);
            if points.contains(p) {
                let k = choose|k: int| 0 <= k < points.len() && points[k] == p;
                assert(segments@[k].end == p);
            }
            if is_on_outline(outline, p) {
                let k = choose|k: int|
                    0 <= k < segments@.len() && (#[trigger] segments@[k]).end == p;
                assert(points[k] == p);
            }
        },
        Outline::Bezier(segments) => {
            lemma_bezier_points(segments@);
            if points.contains(p) {
                let m = choose|m: int| 0 <= m < points.len() && points[m] == p;
                let k = m / 3;
                assert(points[3 * k] == segments@[k].end);
                assert(points[3 * k + 1] == segments@[k].control1);
                assert(points[3 * k + 2] == segments@[k].control2);
                assert(m == 3 * k || m == 3 * k + 1 || m == 3 * k + 2);
            }
            if is_on_outline(outline, p) {
                let k = choose|k: int|
                    0 <= k < segments@.len() && ((#[trigger] segments@[k]).end == p
                        || segments@[k].control1 == p || segments@[k].control2 == p);
                assert(points[3 * k] == segments@[k].end);
                assert(points[3 * k + 1] == segments@[k].control1);
                assert(points[3 * k + 2] == segments@[k].control2);
            }
        },
    }
}

proof fn lemma_on_outlines(outlines: Seq<Outline>, p: Point)
    requires
        outlines_points(outlines).contains(p),
    ensures
        exists|j: int| 0 <= j < outlines.len() && is_on_outline(#[trigger] outlines[j], p),
    decreases outlines.len(),
{
    let all = outlines_points(outlines);
    if outlines.len() > 0 {
        let before = outlines_points(outlines.drop_last());
        let last = outline_points(outlines.last());
        let k = choose|k: int| 0 <= k < all.len() && all[k] == p;
        if k < before.len() {
            assert(before[k] == p);
            assert(before.contains(p));
            lemma_on_outlines(outlines.drop_last(), p);
            let j = choose|j: int|
                0 <= j < outlines.drop_last().len() && is_on_outline(
                    #[trigger] outlines.drop_last()[j],
                    p,
                );
            assert(outlines[j] == outlines.drop_last()[j]);
        } else {
            assert(last[k - before.len()] == p);
            assert(last.contains(p));
            lemma_on_outline(outlines.last(), p);
            assert(outlines[outlines.len() - 1] == outlines.last());
        }
    }
}

proof fn lemma_on_shape(shape: PathShape, p: Point)
    ensures
        shape_points(shape).contains(p) == is_on_shape(shape, p),
{
    let points = shape_points(shape);
    let rest = outlines_points(shape.outlines@);
    if points.contains(p) {
        let k = choose|k: int| 0 <= k < points.len() && points[k] == p;
        if k > 0 {
            assert(rest[k - 1] == p);
            assert(rest.contains(p));
            lemma_on_outlines(shape.outlines@, p);
        }
    }
    if is_on_shape(shape, p) {
        if shape.start == p {
            assert(points[0] == p);
        } else {
            let j = choose|j: int|
                0 <= j < shape.outlines@.len() && is_on_outline(#[trigger] shape.outlines@[j], p);
            lemma_on_outline(shape.outlines@[j], p);
            lemma_outlines_points(shape.outlines@, j, p);
            let k = choose|k: int| 0 <= k < rest.len() && rest[k] == p;
            assert(points[1 + k] == p);
        }
    }
}

proof fn lemma_on_drawing(shapes: Seq<PathShape>, p: Point)
    requires
        drawing_points(shapes).contains(p),
    ensures
        is_drawn(shapes, p),
    decreases shapes.len(),
{
    let all = drawing_points(shapes);
    if shapes.len() > 0 {
        let before = drawing_points(shapes.drop_last());
        let last = shape_points(shapes.last());
        let k = choose|k: int| 0 <= k < all.len() && all[k] == p;
        if k < before.len() {
            assert(before[k] == p);
            assert(before.contains(p));
            lemma_on_drawing(shapes.drop_last(), p);
            let j = choose|j: int|
                0 <= j < shapes.drop_last().len() && is_on_shape(
                    #[trigger] shapes.drop_last()[j],
                    p,
                );
            assert(shapes[j] == shapes.drop_last()[j]);
        } else {
            assert(last[k - before.len()] == p);
            assert(last.contains(p));
            lemma_on_shape(shapes.last(), p);
            assert(shapes[shapes.len() - 1] == shapes.last());
        }
    }
}

/// The points of a drawing are the starts of its shapes, the ends of their segments and the
/// control points, and no others.
pub proof fn law_points_of_drawing(shapes: Seq<PathShape>, p: Point)
    ensures
        drawing_points(shapes).contains(p) == is_drawn(shapes, p),
{
    if drawing_points(shapes).contains(p) {
        lemma_on_drawing(shapes, p);
    }
    if is_drawn(shapes, p) {
        let i = choose|i: int| 0 <= i < shapes.len() && is_on_shape(#[trigger] shapes[i], p);
        lemma_on_shape(shapes[i], p);
        lemma_drawing_points(shapes, i, p);
    }
}

/// The box around a drawing holds every start, end and control point, and each of its sides
/// touches one.
pub proof fn law_box_of_drawing(shapes: Seq<PathShape>)
    requires
        shapes.len() > 0,
    ensures
        ({
            let b = Bounds::around(drawing_points(shapes));
            &&& forall|p: Point| #[trigger]
                is_drawn(shapes, p) ==> b.min_x <= p.x <= b.max_x && b.min_y <= p.y <= b.max_y
            &&& exists|p: Point| #[trigger] is_drawn(shapes, p) && p.x == b.min_x
            &&& exists|p: Point| #[trigger] is_drawn(shapes, p) && p.x == b.max_x
            &&& exists|p: Point| #[trigger] is_drawn(shapes, p) && p.y == b.min_y
            &&& exists|p: Point| #[trigger] is_drawn(shapes, p) && p.y == b.max_y
        }),
{
    let points = drawing_points(shapes);
    let b = Bounds::around(points);
    assert(shape_points(shapes.last()).len() > 0);
    law_bounds_are_tight(points);
    assert forall|p: Point| #[trigger] is_drawn(shapes, p) implies b.min_x <= p.x <= b.max_x
        && b.min_y <= p.y <= b.max_y by {
        law_points_of_drawing(shapes, p);
        let i = choose|i: int| 0 <= i < points.len() && points[i] == p;
        assert(b.holds(points[i]));
    }
    let i = choose|i: int| 0 <= i < points.len() && (#[trigger] points[i]).x == b.min_x;
    law_points_of_drawing(shapes, points[i]);
    assert(points.contains(points[i]));
    assert(is_drawn(shapes, points[i]));
    let i = choose|i: int| 0 <= i < points.len() && (#[trigger] points[i]).x == b.max_x;
    law_points_of_drawing(shapes, points[i]);
    assert(points.contains(points[i]));
    assert(is_drawn(shapes, points[i]));
    let i = choose|i: int| 0 <= i < points.len() && (#[trigger] points[i]).y == b.min_y;
    law_points_of_drawing(shapes, points[i]);
    assert(points.contains(points[i]));
    assert(is_drawn(shapes, points[i]));
    let i = choose|i: int| 0 <= i < points.len() && (#[trigger] points[i]).y == b.max_y;
    law_points_of_drawing(shapes, points[i]);
    assert(points.contains(points[i]));
    assert(is_drawn(shapes, points[i]));
}

/// `q` is `p`, moved by (`-x`, `-y`).
pub open spec fn is_moved(q: Point, p: Point, x: int, y: int) -> bool {
    q.x == p.x - x && q.y == p.y - y
}

/// `to` is `from`, moved by (`-x`, `-y`): the same outlines in the same order, lines as lines and
/// curves as curves, none left out, and every point moved alike.
pub open spec fn is_moved_shape(to: PathShape, from: PathShape, x: int, y: int) -> bool {
    &&& is_moved(to.start, from.start, x, y)
    &&& to.outlines@.len() == from.outlines@.len()
    &&& forall|j: int|
        0 <= j < from.outlines@.len() ==> match (#[trigger] from.outlines@[j], to.outlines@[j]) {
            (Outline::Line(s), Outline::Line(t)) => {
                &&& t@.len() == s@.len()
                &&& forall|k: int|
                    0 <= k < s@.len() ==> is_moved(t@[k].end, (#[trigger] s@[k]).end, x, y)
            },
            (Outline::Bezier(s), Outline::Bezier(t)) => {
                &&& t@.len() == s@.len()
                &&& forall|k: int|
                    0 <= k < s@.len() ==> {
                        &&& is_moved(t@[k].end, (#[trigger] s@[k]).end, x, y)
                        &&& is_moved(t@[k].control1, s@[k].control1, x, y)
                        &&& is_moved(t@[k].control2, s@[k].control2, x, y)
                    }
            },
            _ => false,
        }
}

/// A shape that is seen from (`x`, `y`) is the same shape with every coordinate less by that.
pub proof fn law_shape_is_moved(to: PathShape, from: PathShape, x: int, y: int)
    requires
        is_shape_seen_from(to, from, x, y),
        forall|p: Point| #[trigger]
            is_on_shape(from, p) ==> i32::MIN <= p.x - x <= i32::MAX && i32::MIN <= p.y - y
                <= i32::MAX,
    ensures
        is_moved_shape(to, from, x, y),
{
    assert(is_on_shape(from, from.start));
    assert forall|j: int| 0 <= j < from.outlines@.len() implies match (
        #[trigger] from.outlines@[j],
        to.outlines@[j],
    ) {
        (Outline::Line(s), Outline::Line(t)) => {
            &&& t@.len() == s@.len()
            &&& forall|k: int|
                0 <= k < s@.len() ==> is_moved(t@[k].end, (#[trigger] s@[k]).end, x, y)
        },
        (Outline::Bezier(s), Outline::Bezier(t)) => {
            &&& t@.len() == s@.len()
            &&& forall|k: int|
                0 <= k < s@.len() ==> {
                    &&& is_moved(t@[k].end, (#[trigger] s@[k]).end, x, y)
                    &&& is_moved(t@[k].control1, s@[k].control1, x, y)
                    &&& is_moved(t@[k].control2, s@[k].control2, x, y)
                }
        },
        _ => false,
    } by {
        let (f, t) = (from.outlines@[j], to.outlines@[j]);
        assert(is_outline_seen_from(t, f, x, y));
        match (f, t) {
            (Outline::Line(s), Outline::Line(t)) => {
                assert forall|k: int| 0 <= k < s@.len() implies is_moved(
                    t@[k].end,
                    (#[trigger] s@[k]).end,
                    x,
                    y,
                ) by {
                    assert(is_on_outline(f, s@[k].end));
                    assert(is_on_shape(from, s@[k].end));
                }
            },
            (Outline::Bezier(s), Outline::Bezier(t)) => {
                assert forall|k: int| 0 <= k < s@.len() implies {
                    &&& is_moved(t@[k].end, (#[trigger] s@[k]).end, x, y)
                    &&& is_moved(t@[k].control1, s@[k].control1, x, y)
                    &&& is_moved(t@[k].control2, s@[k].control2, x, y)
                } by {
                    assert(is_on_outline(f, s@[k].end));
                    assert(is_on_outline(f, s@[k].control1));
                    assert(is_on_outline(f, s@[k].control2));
                    assert(is_on_shape(from, s@[k].end));
                    assert(is_on_shape(from, s@[k].control1));
                    assert(is_on_shape(from, s@[k].control2));
                }
            },
            _ => {},
        }
    }
}

/// The points of two drawings one after the other.
pub proof fn lemma_drawing_concat(s: Seq<PathShape>, t: Seq<PathShape>)
    ensures
        drawing_points(s + t) == drawing_points(s) + drawing_points(t),
    decreases t.len(),
{
    if t.len() == 0 {
        assert(s + t =~= s);
        assert(drawing_points(s) + drawing_points(t) =~= drawing_points(s));
    } else {
        lemma_drawing_concat(s, t.drop_last());
        assert((s + t).drop_last() =~= s + t.drop_last());
        assert(drawing_points(s + t) =~= drawing_points(s) + drawing_points(t));
    }
}

fn point_seen_from(p: &Point, x: i32, y: i32) -> (r: Point)
    requires
        is_near(*p, x as int, y as int),
    ensures
        r == seen_from(*p, x as int, y as int),
{
    Point { x: p.x - x, y: p.y - y }
}

fn outline_seen_from(outline: &Outline, x: i32, y: i32) -> (r: Outline)
    requires
        forall|p: Point|
            #[trigger] outline_points(*outline).contains(p) ==> is_near(p, x as int, y as int),
    ensures
        is_outline_seen_from(r, *outline, x as int, y as int),
{
    let mut i: usize = 0;
    match outline {
        Outline::Line(segments) => {
            let mut seen: Vec<SegmentLine> = Vec::new();
            while i < segments.len()
                invariant
                    i <= segments@.len(),
                    *outline == Outline::Line(*segments),
                    forall|p: Point|
                        #[trigger] outline_points(*outline).contains(p) ==> is_near(
                            p,
                            x as int,
                            y as int,
                        ),
                    seen@ == lines_seen_from(segments@.take(i as int), x as int, y as int),
                decreases segments@.len() - i,
            {
                proof {
                    lemma_line_points(segments@);
                    assert(line_points(segments@)[i as int] == segments@[i as int].end);
                    assert(outline_points(*outline).contains(segments@[i as int].end));
                }
                seen.push(SegmentLine { end: point_seen_from(&segments[i].end, x, y) });
                i += 1;
                assert(seen@ =~= lines_seen_from(segments@.take(i as int), x as int, y as int));
            }
            assert(segments@.take(i as int) =~= segments@);
            Outline::Line(seen)
        },
        Outline::Bezier(segments) => {
            let mut seen: Vec<SegmentBezier> = Vec::new();
            while i < segments.len()
                invariant
                    i <= segments@.len(),
                    *outline == Outline::Bezier(*segments),
                    forall|p: Point|
                        #[trigger] outline_points(*outline).contains(p) ==> is_near(
                            p,
                            x as int,
                            y as int,
                        ),
                    seen@ == beziers_seen_from(segments@.take(i as int), x as int, y as int),
                decreases segments@.len() - i,
            {
                let segment = &segments[i];
                proof {
                    let points = bezier_points(segments@);
                    lemma_bezier_points(segments@);
                    assert(points[3 * i] == segment.end);
                    assert(points[3 * i + 1] == segment.control1);
                    assert(points[3 * i + 2] == segment.control2);
                    assert(outline_points(*outline).contains(segment.end));
                    assert(outline_points(*outline).contains(segment.control1));
                    assert(outline_points(*outline).contains(segment.control2));
                }
                seen.push(
                    SegmentBezier {
                        control1: point_seen_from(&segment.control1, x, y),
                        control2: point_seen_from(&segment.control2, x, y),
                        end: point_seen_from(&segment.end, x, y),
                    },
                );
                i += 1;
                assert(seen@ =~= beziers_seen_from(segments@.take(i as int), x as int, y as int));
            }
            assert(segments@.take(i as int) =~= segments@);
            Outline::Bezier(seen)
        },
    }
}

/// The shape, seen from (`x`, `y`): the same outlines, every point moved alike.
pub fn shape_seen_from(shape: &PathShape, x: i32, y: i32) -> (r: PathShape)
    requires
        forall|p: Point|
            #[trigger] shape_points(*shape).contains(p) ==> is_near(p, x as int, y as int),
    ensures
        is_shape_seen_from(r, *shape, x as int, y as int),
{
    proof {
        assert(shape_points(*shape)[0] == shape.start);
        assert(shape_points(*shape).contains(shape.start));
    }
    let start = point_seen_from(&shape.start, x, y);
    let mut outlines: Vec<Outline> = Vec::new();
    let mut i: usize = 0;
    while i < shape.outlines.len()
        invariant
            i <= shape.outlines@.len(),
            forall|p: Point|
                #[trigger] shape_points(*shape).contains(p) ==> is_near(p, x as int, y as int),
            outlines@.len() == i,
            forall|j: int|
                0 <= j < i ==> is_outline_seen_from(
                    #[trigger] outlines@[j],
                    shape.outlines@[j],
                    x as int,
                    y as int,
                ),
        decreases shape.outlines@.len() - i,
    {
        assert forall|p: Point| #[trigger]
            outline_points(shape.outlines@[i as int]).contains(p) implies is_near(
            p,
            x as int,
            y as int,
        ) by {
            lemma_outlines_points(shape.outlines@, i as int, p);
            let rest = outlines_points(shape.outlines@);
            let k = choose|k: int| 0 <= k < rest.len() && rest[k] == p;
            assert(shape_points(*shape)[1 + k] == p);
            assert(shape_points(*shape).contains(p));
        }
        outlines.push(outline_seen_from(&shape.outlines[i], x, y));
        i += 1;
    }
    PathShape { start, outlines }
}

/// The box around some points holds each of them, and each of its sides touches one.
pub proof fn law_bounds_are_tight(points: Seq<Point>)
    requires
        points.len() > 0,
    ensures
        forall|i: int| 0 <= i < points.len() ==> Bounds::around(points).holds(#[trigger] points[i]),
        exists|i: int|
            0 <= i < points.len() && (#[trigger] points[i]).x == Bounds::around(points).min_x,
        exists|i: int|
            0 <= i < points.len() && (#[trigger] points[i]).x == Bounds::around(points).max_x,
        exists|i: int|
            0 <= i < points.len() && (#[trigger] points[i]).y == Bounds::around(points).min_y,
        exists|i: int|
            0 <= i < points.len() && (#[trigger] points[i]).y == Bounds::around(points).max_y,
    decreases points.len(),
{
    let rest = points.drop_last();
    let last = points.last();
    let n = points.len() - 1;
    assert(points[n] == last);
    assert(Bounds::around(points) == Bounds::around(rest).with(last));
    if n > 0 {
        law_bounds_are_tight(rest);
        assert forall|i: int| 0 <= i < points.len() implies Bounds::around(points).holds(
            #[trigger] points[i],
        ) by {
            if i < n {
                assert(rest[i] == points[i]);
            }
        }
        let b = Bounds::around(rest);
        let i = choose|i: int| 0 <= i < rest.len() && (#[trigger] rest[i]).x == b.min_x;
        assert(points[i].x == b.min_x);
        let i = choose|i: int| 0 <= i < rest.len() && (#[trigger] rest[i]).x == b.max_x;
        assert(points[i].x == b.max_x);
        let i = choose|i: int| 0 <= i < rest.len() && (#[trigger] rest[i]).y == b.min_y;
        assert(points[i].y == b.min_y);
        let i = choose|i: int| 0 <= i < rest.len() && (#[trigger] rest[i]).y == b.max_y;
        assert(points[i].y == b.max_y);
    } else {
        assert(Bounds::around(rest) == Bounds::none());
    }
}

/// Every point of a drawing whose box can be measured can be seen from the box's centre.
pub proof fn lemma_near_centre(points: Seq<Point>)
    requires
        points.len() > 0,
        Bounds::around(points).is_measurable(),
    ensures
        Bounds::around(points).min_x <= Bounds::around(points).max_x,
        Bounds::around(points).min_y <= Bounds::around(points).max_y,
        forall|p: Point| #[trigger]
            points.contains(p) ==> is_near(
                p,
                Bounds::around(points).spec_centre_x(),
                Bounds::around(points).spec_centre_y(),
            ),
{
    let b = Bounds::around(points);
    law_bounds_are_tight(points);
    assert(b.holds(points[0]));
    lemma_nearest_single(b.min_x + b.max_x);
    lemma_nearest_single(b.min_y + b.max_y);
}

/// The points, each seen from (`x`, `y`).
pub open spec fn points_seen_from(points: Seq<Point>, x: int, y: int) -> Seq<Point> {
    points.map_values(|p: Point| seen_from(p, x, y))
}

/// The drawing `to` is the drawing `from`, seen from (`x`, `y`).
pub open spec fn is_drawing_seen_from(
    to: Seq<PathShape>,
    from: Seq<PathShape>,
    x: int,
    y: int,
) -> bool {
    &&& to.len() == from.len()
    &&& forall|i: int|
        0 <= i < from.len() ==> is_shape_seen_from(#[trigger] to[i], from[i], x, y)
}

proof fn lemma_lines_seen_from(segments: Seq<SegmentLine>, x: int, y: int)
    ensures
        line_points(lines_seen_from(segments, x, y)) == points_seen_from(
            line_points(segments),
            x,
            y,
        ),
    decreases segments.len(),
{
    let seen = lines_seen_from(segments, x, y);
    if segments.len() > 0 {
        lemma_lines_seen_from(segments.drop_last(), x, y);
        assert(seen.drop_last() =~= lines_seen_from(segments.drop_last(), x, y));
    }
    assert(line_points(seen) =~= points_seen_from(line_points(segments), x, y));
}

proof fn lemma_beziers_seen_from(segments: Seq<SegmentBezier>, x: int, y: int)
    ensures
        bezier_points(beziers_seen_from(segments, x, y)) == points_seen_from(
            bezier_points(segments),
            x,
            y,
        ),
    decreases segments.len(),
{
    let seen = beziers_seen_from(segments, x, y);
    if segments.len() > 0 {
        lemma_beziers_seen_from(segments.drop_last(), x, y);
        assert(seen.drop_last() =~= beziers_seen_from(segments.drop_last(), x, y));
    }
    assert(bezier_points(seen) =~= points_seen_from(bezier_points(segments), x, y));
}

proof fn lemma_outlines_seen_from(to: Seq<Outline>, from: Seq<Outline>, x: int, y: int)
    requires
        to.len() == from.len(),
        forall|i: int|
            0 <= i < from.len() ==> is_outline_seen_from(#[trigger] to[i], from[i], x, y),
    ensures
        outlines_points(to) == points_seen_from(outlines_points(from), x, y),
    decreases from.len(),
{
    if from.len() > 0 {
        assert forall|i: int| 0 <= i < from.drop_last().len() implies is_outline_seen_from(
            #[trigger] to.drop_last()[i],
            from.drop_last()[i],
            x,
            y,
        ) by {
            assert(is_outline_seen_from(to[i], from[i], x, y));
        }
        lemma_outlines_seen_from(to.drop_last(), from.drop_last(), x, y);
        let n = from.len() - 1;
        assert(is_outline_seen_from(to[n], from[n], x, y));
        match from[n] {
            Outline::Line(segments) => lemma_lines_seen_from(segments@, x, y),
            Outline::Bezier(segments) => lemma_beziers_seen_from(segments@, x, y),
        }
        assert(outline_points(to[n]) == points_seen_from(outline_points(from[n]), x, y));
    }
    assert(outlines_points(to) =~= points_seen_from(outlines_points(from), x, y));
}

/// Moving a drawing moves every one of its points alike, and adds or drops none.
pub proof fn law_every_point_moves_alike(to: Seq<PathShape>, from: Seq<PathShape>, x: int, y: int)
    requires
        is_drawing_seen_from(to, from, x, y),
    ensures
        drawing_points(to) == points_seen_from(drawing_points(from), x, y),
    decreases from.len(),
{
    if from.len() > 0 {
        assert forall|i: int| 0 <= i < from.drop_last().len() implies is_shape_seen_from(
            #[trigger] to.drop_last()[i],
            from.drop_last()[i],
            x,
            y,
        ) by {
            assert(is_shape_seen_from(to[i], from[i], x, y));
        }
        law_every_point_moves_alike(to.drop_last(), from.drop_last(), x, y);
        let n = from.len() - 1;
        assert(is_shape_seen_from(to[n], from[n], x, y));
        lemma_outlines_seen_from(to[n].outlines@, from[n].outlines@, x, y);
        assert(shape_points(to[n]) =~= points_seen_from(shape_points(from[n]), x, y));
    }
    assert(drawing_points(to) =~= points_seen_from(drawing_points(from), x, y));
}

/// The box moves with the points.
proof fn lemma_bounds_seen_from(points: Seq<Point>, x: int, y: int)
    requires
        points.len() > 0,
        forall|p: Point| #[trigger] points.contains(p) ==> is_near(p, x, y),
    ensures
        ({
            let b = Bounds::around(points);
            let seen = Bounds::around(points_seen_from(points, x, y));
            &&& seen.min_x == b.min_x - x
            &&& seen.max_x == b.max_x - x
            &&& seen.min_y == b.min_y - y
            &&& seen.max_y == b.max_y - y
        }),
    decreases points.len(),
{
    let rest = points.drop_last();
    let seen = points_seen_from(points, x, y);
    assert(points.contains(points.last()));
    assert(seen.drop_last() =~= points_seen_from(rest, x, y));
    assert(Bounds::around(points) == Bounds::around(rest).with(points.last()));
    assert(Bounds::around(seen) == Bounds::around(seen.drop_last()).with(seen.last()));
    if rest.len() > 0 {
        assert forall|p: Point| #[trigger] rest.contains(p) implies is_near(p, x, y) by {
            let i = choose|i: int| 0 <= i < rest.len() && rest[i] == p;
            assert(points[i] == p);
            assert(points.contains(p));
        }
        lemma_bounds_seen_from(rest, x, y);
    } else {
        assert(Bounds::around(rest) == Bounds::none());
        assert(Bounds::around(seen.drop_last()) == Bounds::none());
    }
}

/// A drawing that is seen from the centre of its box keeps its size, and its box lies evenly
/// around the origin: opposite sides are equally far from it, where their sum is even and single
/// precision holds it, and otherwise up to one unit of rounding and what single precision loses
/// of the sum.
pub proof fn law_centred_drawing_lies_around_origin(points: Seq<Point>)
    requires
        points.len() > 0,
        Bounds::around(points).is_measurable(),
    ensures
        ({
            let b = Bounds::around(points);
            let c = Bounds::around(
                points_seen_from(points, b.spec_centre_x(), b.spec_centre_y()),
            );
            &&& c.max_x - c.min_x == b.max_x - b.min_x
            &&& c.max_y - c.min_y == b.max_y - b.min_y
            &&& -129 <= c.min_x + c.max_x <= 129
            &&& -129 <= c.min_y + c.max_y <= 129
            &&& -0x100_0000 < b.min_x + b.max_x < 0x100_0000 ==> -1 <= c.min_x + c.max_x <= 1
            &&& -0x100_0000 < b.min_y + b.max_y < 0x100_0000 ==> -1 <= c.min_y + c.max_y <= 1
            &&& is_even_single(b.min_x + b.max_x) ==> c.min_x + c.max_x == 0
            &&& is_even_single(b.min_y + b.max_y) ==> c.min_y + c.max_y == 0
        }),
{
    let b = Bounds::around(points);
    lemma_near_centre(points);
    lemma_bounds_seen_from(points, b.spec_centre_x(), b.spec_centre_y());
    lemma_nearest_single(b.min_x + b.max_x);
    lemma_nearest_single(b.min_y + b.max_y);
}

/// Looking from a place and then from the opposite one shows the point where it was.
pub proof fn law_moving_back_restores(p: Point, x: int, y: int)
    requires
        is_near(p, x, y),
    ensures
        seen_from(seen_from(p, x, y), -x, -y) == p,
{
}

/// Adding points in two goes is adding them in one.
proof fn lemma_with_all_concat(b: Bounds, s: Seq<Point>, t: Seq<Point>)
    ensures
        b.with_all(s + t) == b.with_all(s).with_all(t),
    decreases t.len(),
{
    if t.len() == 0 {
        assert(s + t =~= s);
    } else {
        lemma_with_all_concat(b, s, t.drop_last());
        assert((s + t).drop_last() =~= s + t.drop_last());
    }
}

} // verus!
