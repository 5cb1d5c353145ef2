//! What a conversion gives, step by step and field by field.

use vstd::prelude::*;
use vstd::string::*;
use vstd::utf8::*;

use fcmlib::{FcmFile, Generator, PathShape, Piece, Point};

use crate::contents::file_contents;
use crate::convert::{is_conversion, is_converted_by, is_outcome_of, taken_apart, Conversion};
use crate::cut_layer::{bytes_of, layer_bounds, path_data};
use crate::drawing::is_drawing_conversion;
use crate::error::ConvertError;
use crate::fcm::{
    cuts, fcm_encoding, is_job_file, is_parsed_by, law_all_shapes_are_gathered,
    law_first_failure_is_said, law_parsed_texts_are_the_paths, parsed_shapes, restriction_flags,
    tool_flags, PageLayout,
};
use crate::geometry::{
    drawing_points, is_drawn, is_moved_shape, is_near, is_on_shape, law_box_of_drawing,
    law_points_of_drawing, law_shape_is_moved, lemma_near_centre, Bounds, TransformHalves,
};
use crate::page::{is_page_of, PageSize};
use crate::single::{is_rounded, law_stored_number_is_nearest, lemma_nearest_single, nearest_single};

verus! {

/// `b` is the box around a drawing: every start, end and control point lies in it, and each of
/// its sides touches one.
pub open spec fn is_box(b: Bounds, shapes: Seq<PathShape>) -> bool {
    &&& forall|p: Point| #[trigger]
        is_drawn(shapes, p) ==> b.min_x <= p.x <= b.max_x && b.min_y <= p.y <= b.max_y
    &&& exists|p: Point| #[trigger] is_drawn(shapes, p) && p.x == b.min_x
    &&& exists|p: Point| #[trigger] is_drawn(shapes, p) && p.x == b.max_x
    &&& exists|p: Point| #[trigger] is_drawn(shapes, p) && p.y == b.min_y
    &&& exists|p: Point| #[trigger] is_drawn(shapes, p) && p.y == b.max_y
}

/// The size of the box and the sums of its opposite sides are numbers of 32 bits.
pub open spec fn is_small(b: Bounds) -> bool {
    &&& b.max_x - b.min_x <= 0x7fff_ffff
    &&& b.max_y - b.min_y <= 0x7fff_ffff
    &&& -0x8000_0000 <= b.min_x + b.max_x <= 0x7fff_ffff
    &&& -0x8000_0000 <= b.min_y + b.max_y <= 0x7fff_ffff
}

/// `c` is half of `s` without a fraction.
pub open spec fn is_half(c: int, s: int) -> bool {
    2 * c == s || (s > 0 && 2 * c == s - 1) || (s < 0 && 2 * c == s + 1)
}

/// A drawing has one box.
proof fn lemma_one_box(b: Bounds, shapes: Seq<PathShape>)
    requires
        shapes.len() > 0,
        is_box(b, shapes),
    ensures
        b == Bounds::around(drawing_points(shapes)),
{
    law_box_of_drawing(shapes);
}

/// The box around a drawing is found, and whether it can be measured.
pub proof fn law_drawing_has_its_box(shapes: Seq<PathShape>) -> (b: Bounds)
    requires
        shapes.len() > 0,
    ensures
        is_box(b, shapes),
        b == Bounds::around(drawing_points(shapes)),
        b.is_measurable() == is_small(b),
{
    law_box_of_drawing(shapes);
    let b = Bounds::around(drawing_points(shapes));
    let p = choose|p: Point| #[trigger] is_drawn(shapes, p) && p.x == b.min_x;
    assert(b.min_x <= b.max_x && b.min_y <= b.max_y);
    b
}

/// The numbers that a job's piece is placed by: across, the sum of the box's sides as single
/// precision holds it, the step of single precision at that sum, and half the sum; from top to
/// bottom likewise.
pub struct Placing {
    pub step_x: int,
    pub sum_x: int,
    pub x: int,
    pub step_y: int,
    pub sum_y: int,
    pub y: int,
}

/// The file of a job is a print-and-cut file of the fixed kind, of the page's size and marks,
/// with one piece as large as the drawing's box. The piece has one cutting path for each shape,
/// moved so that the centre of the box is the origin, and the transform that moves it back.
pub proof fn law_job_file_field_by_field<F: Fn(TransformHalves) -> Piece>(
    file: FcmFile,
    shapes: Seq<PathShape>,
    page: PageLayout,
    place: F,
    b: Bounds,
) -> (r: (Placing, Piece))
    requires
        shapes.len() > 0,
        is_box(b, shapes),
        is_small(b),
        is_job_file(file, shapes, page, place),
    ensures
        file.file_header.variant is VCM,
        file.file_header.version@ == "0100"@,
        file.file_header.content_id == 400000002,
        file.file_header.short_name@ == ""@,
        file.file_header.long_name@ == " "@,
        file.file_header.author_name@ == " "@,
        file.file_header.copyright@ == ""@,
        file.file_header.thumbnail_block_size_width == 3,
        file.file_header.thumbnail_block_size_height == 3,
        file.file_header.thumbnail@ == seq![0u8, 0, 0, 0, 0, 0, 0, 0, 0],
        file.file_header.generator == Generator::App(1),
        file.file_header.print_to_cut == Some(true),
        file.cut_data.file_type is PrintAndCut,
        file.cut_data.mat_id == 0,
        file.cut_data.cut_width == page.width,
        file.cut_data.cut_height == page.height,
        file.cut_data.seam_allowance_width == 0,
        file.cut_data.alignment is Some,
        file.cut_data.alignment->0.needed,
        file.cut_data.alignment->0.marks@ == page.marks@,
        file.piece_table.pieces@.len() == 1,
        file.piece_table.pieces@[0].0 == 0,
        ({
            let piece = file.piece_table.pieces@[0].1;
            let (at, placement) = r;
            &&& piece.width == b.max_x - b.min_x
            &&& piece.height == b.max_y - b.min_y
            &&& piece.expansion_limit_value == 0
            &&& piece.reduction_limit_value == 0
            &&& restriction_flags(piece.restriction_flags) == 0
            &&& piece.label@ == ""@
            &&& is_rounded(at.sum_x, b.min_x + b.max_x, at.step_x)
            &&& is_rounded(at.sum_y, b.min_y + b.max_y, at.step_y)
            &&& is_half(at.x, at.sum_x)
            &&& is_half(at.y, at.sum_y)
            &&& call_ensures(
                place,
                (TransformHalves {
                    a: 2,
                    b: 0,
                    c: 0,
                    d: 2,
                    x: at.sum_x as i64,
                    y: at.sum_y as i64,
                },),
                placement,
            )
            &&& piece.transform == placement.transform
            &&& piece.paths@.len() == shapes.len()
            &&& forall|i: int|
                0 <= i < shapes.len() ==> {
                    let path = #[trigger] piece.paths@[i];
                    &&& tool_flags(path.tool) == 2
                    &&& path.shape is Some
                    &&& is_moved_shape(path.shape->0, shapes[i], at.x, at.y)
                    &&& path.rhinestone_diameter is None
                    &&& path.rhinestones@.len() == 0
                }
        }),
{
    lemma_one_box(b, shapes);
    let piece = file.piece_table.pieces@[0].1;
    let transform = b.spec_transform();
    let placement = choose|placement: Piece| #[trigger]
        call_ensures(place, (transform,), placement) && piece.transform == placement.transform;
    let (sum_x, sum_y) = (nearest_single(b.min_x + b.max_x), nearest_single(b.min_y + b.max_y));
    law_stored_number_is_nearest(b.min_x + b.max_x);
    law_stored_number_is_nearest(b.min_y + b.max_y);
    lemma_nearest_single(b.min_x + b.max_x);
    lemma_nearest_single(b.min_y + b.max_y);
    let step_x = choose|step: int| #[trigger] is_rounded(sum_x, b.min_x + b.max_x, step);
    let step_y = choose|step: int| #[trigger] is_rounded(sum_y, b.min_y + b.max_y, step);
    let (x, y) = (b.spec_centre_x(), b.spec_centre_y());
    let p = choose|p: Point| #[trigger] is_drawn(shapes, p) && p.x == b.min_x;
    law_points_of_drawing(shapes, p);
    lemma_near_centre(drawing_points(shapes));
    assert forall|i: int| 0 <= i < shapes.len() implies {
        let path = #[trigger] piece.paths@[i];
        &&& tool_flags(path.tool) == 2
        &&& path.shape is Some
        &&& is_moved_shape(path.shape->0, shapes[i], x, y)
        &&& path.rhinestone_diameter is None
        &&& path.rhinestones@.len() == 0
    } by {
        assert(cuts(piece.paths@[i], shapes[i], x, y));
        assert forall|p: Point| #[trigger] is_on_shape(shapes[i], p) implies i32::MIN <= p.x - x
            <= i32::MAX && i32::MIN <= p.y - y <= i32::MAX by {
            assert(is_drawn(shapes, p));
            law_points_of_drawing(shapes, p);
            assert(is_near(p, x, y));
        }
        law_shape_is_moved(piece.paths@[i].shape->0, shapes[i], x, y);
    }
    (Placing { step_x, sum_x, x, step_y, sum_y, y }, placement)
}

/// The steps of a conversion: the texts that were parsed and what came of each, the box around
/// all the shapes, and the file of the job.
pub struct Steps<'a> {
    pub texts: Seq<&'a str>,
    pub parsed: Seq<Result<Vec<PathShape>, String>>,
    pub around: Bounds,
    pub file: FcmFile,
}

/// The steps lead from the values of the layer to the outcome. Every value is parsed as it
/// stands, up to the first that fails, which is what the outcome says. Otherwise the shapes of
/// all values make the file of the job.
pub open spec fn lead_to<
    P: Fn(&str) -> Result<Vec<PathShape>, String>,
    F: Fn(TransformHalves) -> Piece,
>(
    steps: Steps,
    r: Result<Conversion, ConvertError>,
    data: Seq<Seq<u8>>,
    printed: Seq<u8>,
    page: PageLayout,
    parse: P,
    place: F,
) -> bool {
    let (texts, parsed) = (steps.texts, steps.parsed);
    let shapes = parsed.map_values(parsed_shapes()).flatten();
    &&& 0 < texts.len() == parsed.len() <= data.len()
    &&& forall|i: int| 0 <= i < texts.len() ==> encode_utf8((#[trigger] texts[i])@) == data[i]
    &&& forall|i: int|
        0 <= i < texts.len() ==> call_ensures(parse, (#[trigger] texts[i],), parsed[i])
    &&& forall|i: int| 0 <= i < parsed.len() - 1 ==> (#[trigger] parsed[i]) is Ok
    &&& match parsed.last() {
        Err(cause) => r is Err && r->Err_0.0@ == "SVG path parse error: "@ + cause@,
        Ok(_) => {
            &&& parsed.len() == data.len()
            &&& if shapes.len() == 0 {
                r is Err && r->Err_0.0@ == "No shapes produced from SVG paths"@
            } else {
                &&& is_box(steps.around, shapes)
                &&& if !is_small(steps.around) {
                    r is Err && r->Err_0.0@ == "Drawing is too large to be measured"@
                } else {
                    &&& is_job_file(steps.file, shapes, page, place)
                    &&& match fcm_encoding(file_contents(steps.file)) {
                        Ok(bytes) => {
                            &&& r is Ok
                            &&& r->Ok_0.fcm@ == bytes
                            &&& encode_utf8(r->Ok_0.print_svg@) == printed
                        },
                        Err(cause) => r is Err && r->Err_0.0@ == "Failed to serialize fcm: "@
                            + cause,
                    }
                }
            }
        },
    }
}

/// A conversion says what the drawing lacks, or goes through its steps and prints the drawing
/// with the marks exactly where the layer stood.
pub proof fn law_conversion_step_by_step<
    'a,
    P: Fn(&str) -> Result<Vec<PathShape>, String>,
    F: Fn(TransformHalves) -> Piece,
>(
    r: Result<Conversion, ConvertError>,
    svg: Seq<u8>,
    marks: Seq<u8>,
    page: PageLayout,
    parse: P,
    place: F,
) -> (steps: Steps<'a>)
    requires
        is_conversion(r, svg, marks, page, parse, place),
    ensures
        match layer_bounds(svg) {
            Err(message) => r is Err && r->Err_0.0@ == message,
            Ok((start, end)) => {
                let data = path_data(svg.subrange(start, end), 0);
                let printed = svg.subrange(0, start) + marks + svg.subrange(end, svg.len() as int);
                if data.len() == 0 {
                    r is Err && r->Err_0.0@ == "No path data found in Cut-Layer group"@
                } else {
                    lead_to(steps, r, data, printed, page, parse, place)
                }
            },
        },
{
    match taken_apart(svg, marks) {
        Err(_) => arbitrary(),
        Ok((data, printed)) => {
            let (start, end) = layer_bounds(svg)->Ok_0;
            assert(data == path_data(svg.subrange(start, end), 0));
            assert(printed == svg.subrange(0, start) + marks + svg.subrange(
                end,
                svg.len() as int,
            ));
            lemma_steps(r, data, printed, page, parse, place)
        },
    }
}

proof fn lemma_steps<
    'a,
    P: Fn(&str) -> Result<Vec<PathShape>, String>,
    F: Fn(TransformHalves) -> Piece,
>(
    r: Result<Conversion, ConvertError>,
    data: Seq<Seq<u8>>,
    printed: Seq<u8>,
    page: PageLayout,
    parse: P,
    place: F,
) -> (steps: Steps<'a>)
    requires
        data.len() > 0,
        is_converted_by(r, data, printed, page, parse, place),
    ensures
        lead_to(steps, r, data, printed, page, parse, place),
{
    let (paths, parsed) = choose|
        paths: Seq<String>,
        parsed: Seq<Result<Vec<PathShape>, String>>,
    |
        bytes_of(paths) == data && #[trigger] is_parsed_by(parsed, paths, parse) && is_outcome_of(
            r,
            parsed,
            printed,
            page,
            place,
        );
    assert(bytes_of(paths).len() == paths.len());
    let texts = law_parsed_texts_are_the_paths(parsed, paths, parse);
    assert forall|i: int| 0 <= i < texts.len() implies encode_utf8((#[trigger] texts[i])@)
        == data[i] by {
        assert(bytes_of(paths)[i] == encode_utf8(paths[i]@));
    }
    let shapes = parsed.map_values(parsed_shapes()).flatten();
    let n = parsed.len() - 1;
    if parsed[n] is Err {
        law_first_failure_is_said(parsed, n);
        Steps { texts, parsed, around: arbitrary(), file: arbitrary() }
    } else {
        assert forall|i: int| 0 <= i < parsed.len() implies (#[trigger] parsed[i]) is Ok by {}
        law_all_shapes_are_gathered(parsed);
        if shapes.len() == 0 {
            Steps { texts, parsed, around: arbitrary(), file: arbitrary() }
        } else {
            let around = law_drawing_has_its_box(shapes);
            let file = choose|file: FcmFile| #[trigger]
                is_job_file(file, shapes, page, place) && match fcm_encoding(file_contents(file)) {
                    Ok(bytes) => {
                        &&& r is Ok
                        &&& r->Ok_0.fcm@ == bytes
                        &&& encode_utf8(r->Ok_0.print_svg@) == printed
                    },
                    Err(cause) => r is Err && r->Err_0.0@ == "Failed to serialize fcm: "@ + cause,
                };
            Steps { texts, parsed, around, file }
        }
    }
}

/// A drawing is converted on the page that its view box asks for, with the marks and the layout
/// of that page.
pub proof fn law_drawing_is_converted_on_its_page<
    T,
    R: Fn(&str) -> Option<T>,
    D: Fn(T, T) -> u64,
    M: Fn(PageSize) -> String,
    L: Fn(PageSize) -> PageLayout,
    P: Fn(&str) -> Result<Vec<PathShape>, String>,
    F: Fn(TransformHalves) -> Piece,
>(
    r: Result<Conversion, ConvertError>,
    svg: Seq<u8>,
    read: R,
    divide: D,
    marks_of: M,
    layout_of: L,
    parse: P,
    place: F,
) -> (found: (PageSize, String, PageLayout))
    requires
        is_drawing_conversion(r, svg, read, divide, marks_of, layout_of, parse, place),
    ensures
        is_page_of(found.0, svg, read, divide),
        call_ensures(marks_of, (found.0,), found.1),
        call_ensures(layout_of, (found.0,), found.2),
        is_conversion(r, svg, encode_utf8(found.1@), found.2, parse, place),
        r is Ok ==> layer_bounds(svg) is Ok && {
            let (start, end) = layer_bounds(svg)->Ok_0;
            encode_utf8(r->Ok_0.print_svg@) == svg.subrange(0, start) + encode_utf8(found.1@)
                + svg.subrange(end, svg.len() as int)
        },
{
    let (size, marks, page) = choose|size: PageSize, marks: String, page: PageLayout| #[trigger]
        is_page_of(size, svg, read, divide) && #[trigger] call_ensures(marks_of, (size,), marks)
            && #[trigger] call_ensures(layout_of, (size,), page) && is_conversion(
            r,
            svg,
            encode_utf8(marks@),
            page,
            parse,
            place,
        );
    let steps = law_conversion_step_by_step(r, svg, encode_utf8(marks@), page, parse, place);
    (size, marks, page)
}

} // verus!
