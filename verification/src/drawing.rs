//! A whole conversion: the page is chosen for the drawing, and the drawing is converted on it.

use vstd::prelude::*;
use vstd::string::*;
use vstd::utf8::*;

use fcmlib::{PathShape, Piece};

use crate::convert::{
    convert_inner, is_conversion, is_same_cut, law_artwork_outside_the_layer_is_not_cut,
    law_text_behind_is_only_printed, Conversion,
};
use crate::cut_layer::layer_bounds;
use crate::error::ConvertError;
use crate::fcm::PageLayout;
use crate::geometry::TransformHalves;
use crate::job::{is_same_page, parses_alike, places_alike};
use crate::page::{
    divides_alike, is_page_of, law_appended_text_keeps_page, law_same_view_box_same_page, page_of,
    reads_alike, PageSize,
};
use crate::text::first_at;

verus! {

/// `r` is the outcome of converting the drawing `svg` on the page that its view box asks for:
/// both the registration marks and the layout are those of that page.
pub open spec fn is_drawing_conversion<
    T,
    R: Fn(&str) -> Option<T>,
    D: Fn(T, T) -> u64,
    M: Fn(PageSize) -> String,
    L: Fn(PageSize) -> PageLayout,
    P: Fn(&str) -> Result<Vec<PathShape>, String>,
    F: Fn(TransformHalves) -> Piece,
>(
    r: Result<Conversion, ConvertError>,
    svg: Seq<u8>,
    read: R,
    divide: D,
    marks_of: M,
    layout_of: L,
    parse: P,
    place: F,
) -> bool {
    exists|size: PageSize, marks: String, page: PageLayout| #[trigger]
        is_page_of(size, svg, read, divide) && #[trigger] call_ensures(marks_of, (size,), marks)
            && #[trigger] call_ensures(layout_of, (size,), page) && is_conversion(
            r,
            svg,
            encode_utf8(marks@),
            page,
            parse,
            place,
        )
}

/// Converts a drawing into a print-and-cut job on the page that its view box asks for. `read` and
/// `divide` read and divide the numbers of the view box, `marks_of` gives the registration marks
/// of a page as SVG and `layout_of` its layout, `parse` reads path data, and `place` puts a
/// piece's transform into single precision.
pub fn convert_drawing<
    T: Copy,
    R: Fn(&str) -> Option<T>,
    D: Fn(T, T) -> u64,
    M: Fn(PageSize) -> String,
    L: Fn(PageSize) -> PageLayout,
    P: Fn(&str) -> Result<Vec<PathShape>, String>,
    F: Fn(TransformHalves) -> Piece,
>(
    svg_input: &str,
    read: R,
    divide: D,
    marks_of: M,
    layout_of: L,
    parse: P,
    place: F,
) -> (r: Result<Conversion, ConvertError>)
    requires
        forall|word: &str| call_requires(read, (word,)),
        forall|width: T, height: T| call_requires(divide, (width, height)),
        forall|size: PageSize| call_requires(marks_of, (size,)),
        forall|size: PageSize| call_requires(layout_of, (size,)),
        forall|path: &str| call_requires(parse, (path,)),
        forall|transform: TransformHalves| call_requires(place, (transform,)),
    ensures
        is_drawing_conversion(
            r,
            encode_utf8(svg_input@),
            read,
            divide,
            marks_of,
            layout_of,
            parse,
            place,
        ),
        r matches Ok(done) ==> exists|size: PageSize, marks: String|
            {
                let svg = encode_utf8(svg_input@);
                let (start, end) = layer_bounds(svg)->Ok_0;
                &&& #[trigger] is_page_of(size, encode_utf8(svg_input@), read, divide)
                &&& #[trigger] call_ensures(marks_of, (size,), marks)
                &&& layer_bounds(svg) is Ok
                &&& encode_utf8(done.print_svg@) == svg.subrange(0, start) + encode_utf8(marks@)
                    + svg.subrange(end, svg.len() as int)
            },
{
    let size = page_of(svg_input, read, divide);
    let marks = marks_of(size);
    let page = layout_of(size);
    convert_inner(svg_input, marks.as_str(), page, parse, place)
}

/// Every part of a conversion that is handed in does the same with the same every time.
pub open spec fn work_alike<
    T,
    R: Fn(&str) -> Option<T>,
    D: Fn(T, T) -> u64,
    M: Fn(PageSize) -> String,
    L: Fn(PageSize) -> PageLayout,
    P: Fn(&str) -> Result<Vec<PathShape>, String>,
    F: Fn(TransformHalves) -> Piece,
>(read: R, divide: D, marks_of: M, layout_of: L, parse: P, place: F) -> bool {
    &&& reads_alike(read)
    &&& divides_alike(divide)
    &&& forall|size: PageSize, a: String, b: String|
        #[trigger] call_ensures(marks_of, (size,), a) && #[trigger] call_ensures(
            marks_of,
            (size,),
            b,
        ) ==> a@ == b@
    &&& forall|size: PageSize, a: PageLayout, b: PageLayout|
        #[trigger] call_ensures(layout_of, (size,), a) && #[trigger] call_ensures(
            layout_of,
            (size,),
            b,
        ) ==> is_same_page(a, b)
    &&& parses_alike(parse)
    &&& places_alike(place)
}

/// Where a drawing whose own tag ends is converted, so is the drawing with text appended to it:
/// into the same cutting file, and into the same print with the text appended.
pub proof fn law_text_behind_a_drawing_is_only_printed<
    T,
    R: Fn(&str) -> Option<T>,
    D: Fn(T, T) -> u64,
    M: Fn(PageSize) -> String,
    L: Fn(PageSize) -> PageLayout,
    P: Fn(&str) -> Result<Vec<PathShape>, String>,
    F: Fn(TransformHalves) -> Piece,
>(
    a: Result<Conversion, ConvertError>,
    b: Result<Conversion, ConvertError>,
    svg: Seq<u8>,
    more: Seq<u8>,
    read: R,
    divide: D,
    marks_of: M,
    layout_of: L,
    parse: P,
    place: F,
)
    requires
        work_alike(read, divide, marks_of, layout_of, parse, place),
        first_at(svg, encode_utf8("<svg "@), 0) is Some,
        first_at(
            svg,
            encode_utf8(">"@),
            first_at(svg, encode_utf8("<svg "@), 0)->0,
        ) is Some,
        is_drawing_conversion(a, svg, read, divide, marks_of, layout_of, parse, place),
        is_drawing_conversion(b, svg + more, read, divide, marks_of, layout_of, parse, place),
        a is Ok,
    ensures
        b is Ok,
        b->Ok_0.fcm@ == a->Ok_0.fcm@,
        encode_utf8(b->Ok_0.print_svg@) == encode_utf8(a->Ok_0.print_svg@) + more,
{
    let (size1, marks1, page1) = choose|size: PageSize, marks: String, page: PageLayout| #[trigger]
        is_page_of(size, svg, read, divide) && #[trigger] call_ensures(marks_of, (size,), marks)
            && #[trigger] call_ensures(layout_of, (size,), page) && is_conversion(
            a,
            svg,
            encode_utf8(marks@),
            page,
            parse,
            place,
        );
    let (size2, marks2, page2) = choose|size: PageSize, marks: String, page: PageLayout| #[trigger]
        is_page_of(size, svg + more, read, divide) && #[trigger] call_ensures(
            marks_of,
            (size,),
            marks,
        ) && #[trigger] call_ensures(layout_of, (size,), page) && is_conversion(
            b,
            svg + more,
            encode_utf8(marks@),
            page,
            parse,
            place,
        );
    law_appended_text_keeps_page(svg, more, size2, read, divide);
    law_same_view_box_same_page(size1, size2, svg, svg + more, read, divide);
    law_text_behind_is_only_printed(
        a,
        b,
        svg,
        more,
        encode_utf8(marks1@),
        page1,
        page2,
        parse,
        place,
    );
}

/// What stands outside the cut layer never reaches the cutting file: two drawings with the same
/// layer that are made for the same page give the same file or fail with the same message.
pub proof fn law_artwork_of_a_drawing_is_not_cut<
    T,
    R: Fn(&str) -> Option<T>,
    D: Fn(T, T) -> u64,
    M: Fn(PageSize) -> String,
    L: Fn(PageSize) -> PageLayout,
    P: Fn(&str) -> Result<Vec<PathShape>, String>,
    F: Fn(TransformHalves) -> Piece,
>(
    a: Result<Conversion, ConvertError>,
    b: Result<Conversion, ConvertError>,
    layer: Seq<u8>,
    before1: Seq<u8>,
    after1: Seq<u8>,
    before2: Seq<u8>,
    after2: Seq<u8>,
    size: PageSize,
    read: R,
    divide: D,
    marks_of: M,
    layout_of: L,
    parse: P,
    place: F,
)
    requires
        work_alike(read, divide, marks_of, layout_of, parse, place),
        layer_bounds(before1 + layer + after1) == Ok::<(int, int), Seq<char>>(
            (before1.len() as int, (before1.len() + layer.len()) as int),
        ),
        layer_bounds(before2 + layer + after2) == Ok::<(int, int), Seq<char>>(
            (before2.len() as int, (before2.len() + layer.len()) as int),
        ),
        is_page_of(size, before1 + layer + after1, read, divide),
        is_page_of(size, before2 + layer + after2, read, divide),
        is_drawing_conversion(
            a,
            before1 + layer + after1,
            read,
            divide,
            marks_of,
            layout_of,
            parse,
            place,
        ),
        is_drawing_conversion(
            b,
            before2 + layer + after2,
            read,
            divide,
            marks_of,
            layout_of,
            parse,
            place,
        ),
    ensures
        is_same_cut(a, b),
{
    let (svg1, svg2) = (before1 + layer + after1, before2 + layer + after2);
    let (size1, marks1, page1) = choose|size: PageSize, marks: String, page: PageLayout| #[trigger]
        is_page_of(size, svg1, read, divide) && #[trigger] call_ensures(marks_of, (size,), marks)
            && #[trigger] call_ensures(layout_of, (size,), page) && is_conversion(
            a,
            svg1,
            encode_utf8(marks@),
            page,
            parse,
            place,
        );
    let (size2, marks2, page2) = choose|size: PageSize, marks: String, page: PageLayout| #[trigger]
        is_page_of(size, svg2, read, divide) && #[trigger] call_ensures(marks_of, (size,), marks)
            && #[trigger] call_ensures(layout_of, (size,), page) && is_conversion(
            b,
            svg2,
            encode_utf8(marks@),
            page,
            parse,
            place,
        );
    law_same_view_box_same_page(size1, size, svg1, svg1, read, divide);
    law_same_view_box_same_page(size2, size, svg2, svg2, read, divide);
    law_artwork_outside_the_layer_is_not_cut(
        a,
        b,
        layer,
        before1,
        after1,
        before2,
        after2,
        encode_utf8(marks1@),
        encode_utf8(marks2@),
        page1,
        page2,
        parse,
        place,
    );
}

} // verus!
