//! A conversion. Its first step takes the drawing apart, and its last makes the files of the
//! shapes that the path data was parsed into.

use vstd::prelude::*;
use vstd::string::*;
use vstd::utf8::*;

use fcmlib::{FcmFile, PathShape, Piece};

use crate::contents::file_contents;
use crate::cut_layer::{
    bytes_of, extract_cut_layer, find_cut_layer_bounds, law_layer_is_a_group, layer_bounds,
    path_data, print_svg, replaced,
};
use crate::error::ConvertError;
use crate::fcm::{
    explain_failure, fcm_encoding, gathered, is_job_file, is_parsed_by, parse_shapes,
    svg_to_print_and_cut_fcm, to_bytes, PageLayout,
};
use crate::geometry::{drawing_points, Bounds, TransformHalves};
use crate::job::{is_same_page, law_same_paths_give_same_job, parses_alike, places_alike};
use crate::joined::law_appended_text_keeps_layer;
use crate::words::chars_of;

verus! {

/// A drawing, taken apart.
#[derive(Debug)]
pub struct Prepared {
    /// The path data of the cut layer.
    pub paths: Vec<String>,
    /// The drawing to print, with registration marks in the place of the cut layer.
    pub print_svg: String,
}

/// The path data of a drawing's cut layer and the drawing with `marks` in the layer's place, or
/// the message that says what the drawing lacks.
pub open spec fn taken_apart(svg: Seq<u8>, marks: Seq<u8>) -> Result<
    (Seq<Seq<u8>>, Seq<u8>),
    Seq<char>,
> {
    match layer_bounds(svg) {
        Err(message) => Err(message),
        Ok((start, end)) => {
            let data = path_data(svg.subrange(start, end), 0);
            if data.len() == 0 {
                Err("No path data found in Cut-Layer group"@)
            } else {
                Ok((data, replaced(svg, start, end, marks)))
            }
        },
    }
}

/// Takes a drawing apart; `marks` are the registration marks as SVG.
pub fn prepare_conversion(svg_input: &str, marks: &str) -> (r: Result<Prepared, ConvertError>)
    ensures
        match taken_apart(encode_utf8(svg_input@), encode_utf8(marks@)) {
            Ok((data, printed)) => {
                &&& r is Ok
                &&& bytes_of(r->Ok_0.paths@) == data
                &&& encode_utf8(r->Ok_0.print_svg@) == printed
            },
            Err(message) => r is Err && r->Err_0.0@ == message,
        },
        match layer_bounds(encode_utf8(svg_input@)) {
            Err(message) => r is Err && r->Err_0.0@ == message,
            Ok((start, end)) => {
                let svg = encode_utf8(svg_input@);
                let data = path_data(svg.subrange(start, end), 0);
                if data.len() == 0 {
                    r is Err && r->Err_0.0@ == "No path data found in Cut-Layer group"@
                } else {
                    &&& r is Ok
                    &&& r->Ok_0.paths@.len() == data.len()
                    &&& forall|i: int|
                        0 <= i < data.len() ==> encode_utf8((#[trigger] r->Ok_0.paths@[i])@)
                            == data[i]
                    &&& encode_utf8(r->Ok_0.print_svg@) == svg.subrange(0, start) + encode_utf8(
                        marks@,
                    ) + svg.subrange(end, svg.len() as int)
                }
            },
        },
{
    let (start, end): (usize, usize) = match find_cut_layer_bounds(svg_input) {
        Ok(bounds) => bounds,
        Err(e) => {
            return Err(e);
        },
    };
    let paths = match extract_cut_layer(svg_input, start, end) {
        Ok(paths) => paths,
        Err(e) => {
            return Err(e);
        },
    };
    Ok(Prepared { paths, print_svg: print_svg(svg_input, start, end, marks) })
}

/// The two files that a drawing is converted into.
#[derive(Debug)]
pub struct Conversion {
    /// The file for the cutting machine.
    pub fcm: Vec<u8>,
    /// The drawing to print.
    pub print_svg: String,
}

/// Makes the file of the shapes that the path data was parsed into, and hands it out with the
/// drawing to print.
pub fn finish_conversion<F: Fn(TransformHalves) -> Piece>(
    print_svg: String,
    shapes: &Vec<PathShape>,
    page: PageLayout,
    place: F,
) -> (r: Result<Conversion, ConvertError>)
    requires
        shapes@.len() > 0,
        Bounds::around(drawing_points(shapes@)).is_measurable(),
        forall|transform: TransformHalves| call_requires(place, (transform,)),
    ensures
        exists|file: FcmFile| #[trigger]
            is_job_file(file, shapes@, page, place) && match fcm_encoding(file_contents(file)) {
                Ok(bytes) => r is Ok && r->Ok_0.fcm@ == bytes && r->Ok_0.print_svg == print_svg,
                Err(cause) => r is Err && r->Err_0.0@ == "Failed to serialize fcm: "@ + cause,
            },
{
    let file = svg_to_print_and_cut_fcm(shapes, page, place);
    let fcm = match explain_failure(to_bytes(&file), "Failed to serialize fcm: ") {
        Ok(fcm) => fcm,
        Err(e) => {
            return Err(e);
        },
    };
    Ok(Conversion { fcm, print_svg })
}

/// `r` is the outcome for a drawing whose path data was parsed into `parsed` and whose printed
/// form is `printed`: the two files, or the first message that applies.
pub open spec fn is_outcome_of<F: Fn(TransformHalves) -> Piece>(
    r: Result<Conversion, ConvertError>,
    parsed: Seq<Result<Vec<PathShape>, String>>,
    printed: Seq<u8>,
    page: PageLayout,
    place: F,
) -> bool {
    match gathered(parsed) {
        Err(message) => r is Err && r->Err_0.0@ == message,
        Ok(shapes) => if shapes.len() == 0 {
            r is Err && r->Err_0.0@ == "No shapes produced from SVG paths"@
        } else if !Bounds::around(drawing_points(shapes)).is_measurable() {
            r is Err && r->Err_0.0@ == "Drawing is too large to be measured"@
        } else {
            exists|file: FcmFile| #[trigger]
                is_job_file(file, shapes, page, place) && match fcm_encoding(file_contents(file)) {
                    Ok(bytes) => {
                        &&& r is Ok
                        &&& r->Ok_0.fcm@ == bytes
                        &&& encode_utf8(r->Ok_0.print_svg@) == printed
                    },
                    Err(cause) => r is Err && r->Err_0.0@ == "Failed to serialize fcm: "@ + cause,
                }
        },
    }
}

/// The path data of the cut layer was parsed by `parse` with an outcome that leads to `r`.
pub open spec fn is_converted_by<
    P: Fn(&str) -> Result<Vec<PathShape>, String>,
    F: Fn(TransformHalves) -> Piece,
>(
    r: Result<Conversion, ConvertError>,
    data: Seq<Seq<u8>>,
    printed: Seq<u8>,
    page: PageLayout,
    parse: P,
    place: F,
) -> bool {
    exists|paths: Seq<String>, parsed: Seq<Result<Vec<PathShape>, String>>|
        bytes_of(paths) == data && #[trigger] is_parsed_by(parsed, paths, parse) && is_outcome_of(
            r,
            parsed,
            printed,
            page,
            place,
        )
}

/// `r` is the outcome of converting the drawing `svg`.
pub open spec fn is_conversion<
    P: Fn(&str) -> Result<Vec<PathShape>, String>,
    F: Fn(TransformHalves) -> Piece,
>(
    r: Result<Conversion, ConvertError>,
    svg: Seq<u8>,
    marks: Seq<u8>,
    page: PageLayout,
    parse: P,
    place: F,
) -> bool {
    match taken_apart(svg, marks) {
        Err(message) => r is Err && r->Err_0.0@ == message,
        Ok((data, printed)) => is_converted_by(r, data, printed, page, parse, place),
    }
}

/// Converts a drawing into a print-and-cut job: takes it apart, lets `parse` read the path data,
/// and makes the two files. `marks` are the registration marks as SVG, and `place` puts the
/// piece's transform into single precision. Fails for a drawing whose box cannot be measured
/// with `i32`.
pub fn convert_inner<
    P: Fn(&str) -> Result<Vec<PathShape>, String>,
    F: Fn(TransformHalves) -> Piece,
>(svg_input: &str, marks: &str, page: PageLayout, parse: P, place: F) -> (r: Result<
    Conversion,
    ConvertError,
>)
    requires
        forall|path: &str| call_requires(parse, (path,)),
        forall|transform: TransformHalves| call_requires(place, (transform,)),
    ensures
        is_conversion(r, encode_utf8(svg_input@), encode_utf8(marks@), page, parse, place),
        r matches Ok(done) ==> {
            let svg = encode_utf8(svg_input@);
            &&& layer_bounds(svg) matches Ok((start, end)) && path_data(
                svg.subrange(start, end),
                0,
            ).len() > 0 && encode_utf8(done.print_svg@) == svg.subrange(0, start) + encode_utf8(
                marks@,
            ) + svg.subrange(end, svg.len() as int)
        },
        layer_bounds(encode_utf8(svg_input@)) matches Err(message) ==> r is Err
            && r->Err_0.0@ == message,
        layer_bounds(encode_utf8(svg_input@)) matches Ok((start, end)) ==> path_data(
            encode_utf8(svg_input@).subrange(start, end),
            0,
        ).len() == 0 ==> r is Err && r->Err_0.0@ == "No path data found in Cut-Layer group"@,
{
    let prepared = match prepare_conversion(svg_input, marks) {
        Ok(prepared) => prepared,
        Err(e) => {
            return Err(e);
        },
    };
    let shapes = match parse_shapes(&prepared.paths, parse) {
        Ok(shapes) => shapes,
        Err(e) => {
            return Err(e);
        },
    };
    if !Bounds::of(&shapes).measurable() {
        return Err(ConvertError::from("Drawing is too large to be measured"));
    }
    finish_conversion(prepared.print_svg, &shapes, page, place)
}

/// Two conversions give the same cutting file, or fail with the same message.
pub open spec fn is_same_cut(
    a: Result<Conversion, ConvertError>,
    b: Result<Conversion, ConvertError>,
) -> bool {
    match (a, b) {
        (Ok(s), Ok(t)) => s.fcm@ == t.fcm@,
        (Err(e), Err(f)) => e.0@ == f.0@,
        _ => false,
    }
}

/// The path data of the layer and the page alone decide what is cut.
pub proof fn law_same_data_gives_same_cut<
    P: Fn(&str) -> Result<Vec<PathShape>, String>,
    F: Fn(TransformHalves) -> Piece,
>(
    a: Result<Conversion, ConvertError>,
    b: Result<Conversion, ConvertError>,
    data: Seq<Seq<u8>>,
    printed1: Seq<u8>,
    printed2: Seq<u8>,
    page1: PageLayout,
    page2: PageLayout,
    parse: P,
    place: F,
)
    requires
        parses_alike(parse),
        places_alike(place),
        is_same_page(page1, page2),
        is_converted_by(a, data, printed1, page1, parse, place),
        is_converted_by(b, data, printed2, page2, parse, place),
    ensures
        is_same_cut(a, b),
        a is Ok ==> encode_utf8(a->Ok_0.print_svg@) == printed1,
        b is Ok ==> encode_utf8(b->Ok_0.print_svg@) == printed2,
{
    let (paths1, parsed1) = choose|
        paths: Seq<String>,
        parsed: Seq<Result<Vec<PathShape>, String>>,
    |
        bytes_of(paths) == data && #[trigger] is_parsed_by(parsed, paths, parse) && is_outcome_of(
            a,
            parsed,
            printed1,
            page1,
            place,
        );
    let (paths2, parsed2) = choose|
        paths: Seq<String>,
        parsed: Seq<Result<Vec<PathShape>, String>>,
    |
        bytes_of(paths) == data && #[trigger] is_parsed_by(parsed, paths, parse) && is_outcome_of(
            b,
            parsed,
            printed2,
            page2,
            place,
        );
    assert(bytes_of(paths1).len() == paths1.len());
    assert(bytes_of(paths2).len() == paths2.len());
    assert forall|i: int| 0 <= i < paths1.len() implies chars_of(paths1)[i] == chars_of(
        paths2,
    )[i] by {
        assert(bytes_of(paths1)[i] == encode_utf8(paths1[i]@));
        assert(bytes_of(paths2)[i] == encode_utf8(paths2[i]@));
        encode_utf8_decode_utf8(paths1[i]@);
        encode_utf8_decode_utf8(paths2[i]@);
    }
    assert(chars_of(paths1) =~= chars_of(paths2));
    law_same_paths_give_same_job(
        paths1,
        paths2,
        parsed1,
        parsed2,
        page1,
        page2,
        parse,
        place,
    );
    if gathered(parsed1) is Ok {
        let (s, t) = (gathered(parsed1)->Ok_0, gathered(parsed2)->Ok_0);
        if s.len() > 0 && Bounds::around(drawing_points(s)).is_measurable() {
            let file1 = choose|file: FcmFile| #[trigger]
                is_job_file(file, s, page1, place) && match fcm_encoding(file_contents(file)) {
                    Ok(bytes) => {
                        &&& a is Ok
                        &&& a->Ok_0.fcm@ == bytes
                        &&& encode_utf8(a->Ok_0.print_svg@) == printed1
                    },
                    Err(cause) => a is Err && a->Err_0.0@ == "Failed to serialize fcm: "@ + cause,
                };
            let file2 = choose|file: FcmFile| #[trigger]
                is_job_file(file, t, page2, place) && match fcm_encoding(file_contents(file)) {
                    Ok(bytes) => {
                        &&& b is Ok
                        &&& b->Ok_0.fcm@ == bytes
                        &&& encode_utf8(b->Ok_0.print_svg@) == printed2
                    },
                    Err(cause) => b is Err && b->Err_0.0@ == "Failed to serialize fcm: "@ + cause,
                };
            assert(file_contents(file1) == file_contents(file2));
        }
    }
}

/// What stands outside the cut layer never reaches the cutting file: two drawings with the same
/// layer, on the same page, give the same file or fail with the same message.
pub proof fn law_artwork_outside_the_layer_is_not_cut<
    P: Fn(&str) -> Result<Vec<PathShape>, String>,
    F: Fn(TransformHalves) -> Piece,
>(
    a: Result<Conversion, ConvertError>,
    b: Result<Conversion, ConvertError>,
    layer: Seq<u8>,
    before1: Seq<u8>,
    after1: Seq<u8>,
    before2: Seq<u8>,
    after2: Seq<u8>,
    marks1: Seq<u8>,
    marks2: Seq<u8>,
    page1: PageLayout,
    page2: PageLayout,
    parse: P,
    place: F,
)
    requires
        parses_alike(parse),
        places_alike(place),
        is_same_page(page1, page2),
        layer_bounds(before1 + layer + after1) == Ok::<(int, int), Seq<char>>(
            (before1.len() as int, (before1.len() + layer.len()) as int),
        ),
        layer_bounds(before2 + layer + after2) == Ok::<(int, int), Seq<char>>(
            (before2.len() as int, (before2.len() + layer.len()) as int),
        ),
        is_conversion(a, before1 + layer + after1, marks1, page1, parse, place),
        is_conversion(b, before2 + layer + after2, marks2, page2, parse, place),
    ensures
        is_same_cut(a, b),
{
    let (svg1, svg2) = (before1 + layer + after1, before2 + layer + after2);
    let (start1, start2) = (before1.len() as int, before2.len() as int);
    let (end1, end2) = (start1 + layer.len(), start2 + layer.len());
    assert(svg1.subrange(start1, end1) =~= layer);
    assert(svg2.subrange(start2, end2) =~= layer);
    let data = path_data(layer, 0);
    if data.len() > 0 {
        law_same_data_gives_same_cut(
            a,
            b,
            data,
            replaced(svg1, start1, end1, marks1),
            replaced(svg2, start2, end2, marks2),
            page1,
            page2,
            parse,
            place,
        );
    }
}

/// Text that is appended to a drawing is appended to what is printed, and the path data stays the
/// same.
pub proof fn law_appended_text_is_printed(svg: Seq<u8>, more: Seq<u8>, marks: Seq<u8>)
    requires
        taken_apart(svg, marks) is Ok,
    ensures
        taken_apart(svg + more, marks) == Ok::<(Seq<Seq<u8>>, Seq<u8>), Seq<char>>(
            (taken_apart(svg, marks)->Ok_0.0, taken_apart(svg, marks)->Ok_0.1 + more),
        ),
{
    law_appended_text_keeps_layer(svg, more);
    law_layer_is_a_group(svg);
    let (start, end) = layer_bounds(svg)->Ok_0;
    assert((svg + more).subrange(start, end) =~= svg.subrange(start, end));
    assert(replaced(svg + more, start, end, marks) =~= replaced(svg, start, end, marks) + more);
}

/// Where a drawing is converted, so is the drawing with text appended to it, on the same page:
/// into the same cutting file, and into the same print with the text appended.
pub proof fn law_text_behind_is_only_printed<
    P: Fn(&str) -> Result<Vec<PathShape>, String>,
    F: Fn(TransformHalves) -> Piece,
>(
    a: Result<Conversion, ConvertError>,
    b: Result<Conversion, ConvertError>,
    svg: Seq<u8>,
    more: Seq<u8>,
    marks: Seq<u8>,
    page1: PageLayout,
    page2: PageLayout,
    parse: P,
    place: F,
)
    requires
        parses_alike(parse),
        places_alike(place),
        is_same_page(page1, page2),
        is_conversion(a, svg, marks, page1, parse, place),
        is_conversion(b, svg + more, marks, page2, parse, place),
        a is Ok,
    ensures
        b is Ok,
        b->Ok_0.fcm@ == a->Ok_0.fcm@,
        encode_utf8(b->Ok_0.print_svg@) == encode_utf8(a->Ok_0.print_svg@) + more,
{
    law_appended_text_is_printed(svg, more, marks);
    let (data, printed) = taken_apart(svg, marks)->Ok_0;
    law_same_data_gives_same_cut(
        a,
        b,
        data,
        printed,
        printed + more,
        page1,
        page2,
        parse,
        place,
    );
}

} // verus!
