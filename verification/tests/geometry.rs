use fcmlib::{Outline, PathShape, Point, SegmentBezier, SegmentLine};
use printandcut::geometry::{shape_seen_from, Bounds};
use printandcut::single::to_single;

fn point(x: i32, y: i32) -> Point {
    Point { x, y }
}

fn shapes() -> Vec<PathShape> {
    vec![
        PathShape {
            start: point(10, -20),
            outlines: vec![
                Outline::Line(vec![
                    SegmentLine { end: point(30, 5) },
                    SegmentLine { end: point(7, 6) },
                ]),
                Outline::Bezier(vec![SegmentBezier {
                    control1: point(-4, 40),
                    control2: point(61, 2),
                    end: point(8, -33),
                }]),
            ],
        },
        PathShape { start: point(9, 9), outlines: vec![] },
    ]
}

fn bounds(min_x: i32, min_y: i32, max_x: i32, max_y: i32) -> Bounds {
    Bounds { min_x, min_y, max_x, max_y }
}

#[test]
fn bounds_hold_every_point() {
    assert_eq!(Bounds::of(&shapes()), bounds(-4, -33, 61, 40));
    assert_eq!(Bounds::of(&Vec::new()), bounds(i32::MAX, i32::MAX, i32::MIN, i32::MIN));
}

#[test]
fn bounds_of_one_point() {
    let one = vec![PathShape { start: point(3, -7), outlines: vec![] }];
    assert_eq!(Bounds::of(&one), bounds(3, -7, 3, -7));
}

#[test]
fn size_and_centre() {
    let b = bounds(-4, -33, 61, 40);
    assert!(b.measurable());
    assert_eq!(b.width(), 65);
    assert_eq!(b.height(), 73);
    assert_eq!(b.centre(), (28, 3));
    let t = b.transform();
    assert_eq!((t.a, t.b, t.c, t.d, t.x, t.y), (2, 0, 0, 2, 57, 7));
    assert_eq!(bounds(-62, -4, 5, 3).centre(), (-28, 0));
}

#[test]
fn centre_is_that_of_single_precision() {
    for (low, high) in [
        (0, 1),
        (-1, 0),
        (16_777_215, 16_777_216),
        (50_000_001, 90_000_002),
        (-90_000_003, -50_000_000),
        (1_000_000_000, 1_147_483_647),
        (-1_073_741_824, -1_073_741_824),
        (7, 2_000_000_011),
    ] {
        let centre = (low + high) as f32 / 2.0;
        let b = bounds(low, low, high, high);
        assert_eq!(b.centre(), (centre as i32, centre as i32));
        assert_eq!(b.transform().x as f32 / 2.0, centre);
    }
}

#[test]
fn single_precision_of_whole_numbers() {
    let mut n: i32 = 1;
    for _ in 0..200_000 {
        n = n.wrapping_mul(1664525).wrapping_add(1013904223);
        for k in [n, n >> 4, n >> 7, i32::MAX, i32::MIN, 0, 1 << 24, (1 << 24) + 1, (1 << 24) + 3] {
            assert_eq!(to_single(k), k as f32 as i64);
        }
    }
}

#[test]
fn single_precision_is_stable() {
    for n in [33_554_433, 100_000_007, -100_000_007, i32::MAX - 64, i32::MIN] {
        let once = to_single(n);
        assert_eq!(to_single(once as i32), once);
    }
}

#[test]
fn boxes_that_cannot_be_measured() {
    assert!(!bounds(i32::MIN, 0, 0, 0).measurable());
    assert!(!bounds(0, i32::MIN, 0, 1).measurable());
    assert!(!bounds(1, 0, i32::MAX, 0).measurable());
    assert!(!bounds(0, -1_073_741_825, 0, -1_073_741_824).measurable());
    assert!(bounds(0, 0, i32::MAX, 0).measurable());
    assert!(bounds(-1_073_741_824, 0, -1_073_741_824, 0).measurable());
}

#[test]
fn moved_shape_keeps_its_outlines() {
    let moved = shape_seen_from(&shapes()[0], 28, 3);
    assert_eq!((moved.start.x, moved.start.y), (-18, -23));
    assert_eq!(moved.outlines.len(), 2);
    match &moved.outlines[0] {
        Outline::Line(segments) => {
            assert_eq!(segments.len(), 2);
            assert_eq!((segments[0].end.x, segments[0].end.y), (2, 2));
            assert_eq!((segments[1].end.x, segments[1].end.y), (-21, 3));
        }
        Outline::Bezier(_) => panic!("a curve in the place of lines"),
    }
    match &moved.outlines[1] {
        Outline::Bezier(segments) => {
            assert_eq!(segments.len(), 1);
            let segment = &segments[0];
            assert_eq!((segment.control1.x, segment.control1.y), (-32, 37));
            assert_eq!((segment.control2.x, segment.control2.y), (33, -1));
            assert_eq!((segment.end.x, segment.end.y), (-20, -36));
        }
        Outline::Line(_) => panic!("lines in the place of a curve"),
    }
}

#[test]
fn centred_drawing_lies_around_the_origin() {
    let drawing = shapes();
    let b = Bounds::of(&drawing);
    let (x, y) = b.centre();
    let moved: Vec<PathShape> = drawing.iter().map(|shape| shape_seen_from(shape, x, y)).collect();
    let c = Bounds::of(&moved);
    assert_eq!((c.width(), c.height()), (b.width(), b.height()));
    assert!((c.min_x + c.max_x).abs() <= 1);
    assert!((c.min_y + c.max_y).abs() <= 1);
    let back: Vec<PathShape> = moved.iter().map(|shape| shape_seen_from(shape, -x, -y)).collect();
    assert_eq!(format!("{:?}", back), format!("{:?}", drawing));
}

#[test]
fn drawing_with_an_even_sum_is_centred_exactly() {
    let dot = |x: i32, y: i32| PathShape { start: point(x, y), outlines: vec![] };
    let drawing = vec![dot(-7, 16_777_216), dot(31, 0), dot(3, 5)];
    let (x, y) = Bounds::of(&drawing).centre();
    assert_eq!((x, y), (12, 8_388_608));
    let moved: Vec<PathShape> = drawing.iter().map(|shape| shape_seen_from(shape, x, y)).collect();
    assert_eq!(Bounds::of(&moved), bounds(-19, -8_388_608, 19, 8_388_608));
}
