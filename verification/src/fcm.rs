//! The cutting machine's file: from shapes to an FCM file, and from the file to bytes.

use vstd::prelude::*;
use vstd::string::*;
use vstd::utf8::*;

use fcmlib::{
    AlignmentData, CutData, FcmFile, FileHeader, FileType, FileVariant, Generator, Path, PathShape,
    PathTool, Piece, PieceRestrictions, PieceTable, Point,
};

use crate::contents::{file_contents, table_end, FileContents};
use crate::error::ConvertError;
use crate::geometry::{
    drawing_points, is_near, is_shape_seen_from, law_centred_drawing_lies_around_origin,
    law_every_point_moves_alike, lemma_drawing_points, lemma_near_centre, points_seen_from,
    shape_points, shape_seen_from, Bounds, TransformHalves,
};
use crate::single::is_even_single;

verus! {

/// The flags of a tool, as `PathTool::bits` gives them.
pub uninterp spec fn tool_flags(tool: PathTool) -> u32;

/// The flags of a piece's restrictions, as `PieceRestrictions::bits` gives them.
pub uninterp spec fn restriction_flags(restrictions: PieceRestrictions) -> u32;

/// What `FcmFile::to_bytes` makes of a file that holds this: its bytes, or the text of the error.
pub uninterp spec fn fcm_encoding(contents: FileContents) -> Result<Seq<u8>, Seq<char>>;

/// The constant `fcmlib::PathTool::TOOL_CUT`: the cutting tool, flag 2 and no other.
#[verifier::external_body]
fn cutting_tool() -> (tool: PathTool)
    ensures
        tool_flags(tool) == 2,
{
    PathTool::TOOL_CUT
}

/// `fcmlib::PieceRestrictions::empty`: no flag is set.
#[verifier::external_body]
fn no_restrictions() -> (restrictions: PieceRestrictions)
    ensures
        restriction_flags(restrictions) == 0,
{
    PieceRestrictions::empty()
}

/// A name that is cut off after 255 bytes is cut between two characters.
pub open spec fn can_be_cut_off(name: Seq<char>) -> bool {
    encode_utf8(name).len() > 255 ==> is_char_boundary(encode_utf8(name), 255)
}

/// A file that `FcmFile::to_bytes` can write: the version has its four bytes, a label has none
/// or at least three, the names can be cut off, and no offset in the piece table exceeds 32 bits.
/// The table counts with the low 32 bits of a piece's size, so a single piece always fits.
pub open spec fn is_writable(file: FcmFile) -> bool {
    &&& encode_utf8(file.file_header.version@).len() >= 4
    &&& can_be_cut_off(file.file_header.long_name@)
    &&& can_be_cut_off(file.file_header.author_name@)
    &&& can_be_cut_off(file.file_header.copyright@)
    &&& table_end(file.piece_table.pieces@) <= u32::MAX
    &&& forall|i: int|
        0 <= i < file.piece_table.pieces@.len() ==> {
            let label = (#[trigger] file.piece_table.pieces@[i]).1.label@;
            label.len() == 0 || encode_utf8(label).len() >= 3
        }
}

/// `fcmlib::FcmFile::to_bytes`, with its error as text: the result depends on what the file holds
/// alone.
#[verifier::external_body]
pub(crate) fn to_bytes(file: &FcmFile) -> (r: Result<Vec<u8>, String>)
    requires
        is_writable(*file),
    ensures
        match r {
            Ok(bytes) => fcm_encoding(file_contents(*file)) == Ok::<Seq<u8>, Seq<char>>(bytes@),
            Err(e) => fcm_encoding(file_contents(*file)) == Err::<Seq<u8>, Seq<char>>(e@),
        },
{
    match file.to_bytes() {
        Ok(bytes) => Ok(bytes),
        Err(e) => Err(e.to_string()),
    }
}

/// Turns a failure's text into an error that says what failed.
pub fn explain_failure(result: Result<Vec<u8>, String>, what: &str) -> (r: Result<
    Vec<u8>,
    ConvertError,
>)
    ensures
        match result {
            Ok(bytes) => r == Ok::<Vec<u8>, ConvertError>(bytes),
            Err(cause) => r is Err && r->Err_0.0@ == what@ + cause@,
        },
{
    match result {
        Ok(bytes) => Ok(bytes),
        Err(cause) => {
            let mut message: String = what.to_owned();
            message.append(cause.as_str());
            Err(ConvertError(message))
        },
    }
}

/// Writes a file into bytes without touching the file system.
pub fn fcm_to_bytes(fcm: FcmFile) -> (r: Result<Vec<u8>, ConvertError>)
    requires
        is_writable(fcm),
    ensures
        match (fcm_encoding(file_contents(fcm)), r) {
            (Ok(encoding), Ok(bytes)) => bytes@ == encoding,
            (Err(cause), Err(e)) => e.0@ == "Failed to serialise FCM: "@ + cause,
            _ => false,
        },
{
    explain_failure(to_bytes(&fcm), "Failed to serialise FCM: ")
}

/// The shapes of all paths in order; the message of the first path that could not be parsed.
pub open spec fn gathered(parsed: Seq<Result<Vec<PathShape>, String>>) -> Result<
    Seq<PathShape>,
    Seq<char>,
>
    decreases parsed.len(),
{
    if parsed.len() == 0 {
        Ok(seq![])
    } else {
        match gathered(parsed.drop_last()) {
            Err(message) => Err(message),
            Ok(shapes) => match parsed.last() {
                Ok(more) => Ok(shapes + more@),
                Err(cause) => Err("SVG path parse error: "@ + cause@),
            },
        }
    }
}

/// A path that could not be parsed decides the outcome.
proof fn lemma_gathered_error(parsed: Seq<Result<Vec<PathShape>, String>>, n: int)
    requires
        0 <= n <= parsed.len(),
        gathered(parsed.take(n)) is Err,
    ensures
        gathered(parsed) == gathered(parsed.take(n)),
    decreases parsed.len() - n,
{
    if n == parsed.len() {
        assert(parsed.take(n) =~= parsed);
    } else {
        assert(parsed.take(n + 1).drop_last() =~= parsed.take(n));
        lemma_gathered_error(parsed, n + 1);
    }
}

/// `r` holds the shapes of all paths, or says which path could not be parsed, or that there is
/// no shape at all.
pub open spec fn is_gathered(
    parsed: Seq<Result<Vec<PathShape>, String>>,
    r: Result<Vec<PathShape>, ConvertError>,
) -> bool {
    match gathered(parsed) {
        Ok(all) => if all.len() > 0 {
            r is Ok && r->Ok_0@ == all
        } else {
            r is Err && r->Err_0.0@ == "No shapes produced from SVG paths"@
        },
        Err(message) => r is Err && r->Err_0.0@ == message,
    }
}

/// Gathers the shapes of all paths. Fails with the first path that could not be parsed, and if
/// there is no shape at all.
pub fn gather_shapes(parsed: Vec<Result<Vec<PathShape>, String>>) -> (r: Result<
    Vec<PathShape>,
    ConvertError,
>)
    ensures
        is_gathered(parsed@, r),
{
    let mut shapes: Vec<PathShape> = Vec::new();
    let ghost all = parsed@;
    assert(all.take(0) =~= seq![]);
    for result in it: parsed
        invariant
            it.seq() == all,
            gathered(all.take(it.index() as int)) == Ok::<Seq<PathShape>, Seq<char>>(shapes@),
    {
        assert(all.take(it.index() + 1).drop_last() =~= all.take(it.index() as int));
        match result {
            Ok(more) => {
                let mut more = more;
                shapes.append(&mut more);
            },
            Err(cause) => {
                let mut message: String = "SVG path parse error: ".to_owned();
                message.append(cause.as_str());
                proof {
                    lemma_gathered_error(all, it.index() + 1);
                }
                return Err(ConvertError(message));
            },
        }
    }
    assert(all.take(all.len() as int) =~= all);
    if shapes.len() == 0 {
        return Err(ConvertError::from("No shapes produced from SVG paths"));
    }
    Ok(shapes)
}

/// `result` is what `parse` may make of the text.
pub open spec fn is_outcome<F: Fn(&str) -> Result<Vec<PathShape>, String>>(
    result: Result<Vec<PathShape>, String>,
    text: Seq<char>,
    parse: F,
) -> bool {
    exists|path: &str| path@ == text && #[trigger] call_ensures(parse, (path,), result)
}

/// `parsed` is what `parse` made of the paths in order, up to the first that it failed on.
pub open spec fn is_parsed_by<F: Fn(&str) -> Result<Vec<PathShape>, String>>(
    parsed: Seq<Result<Vec<PathShape>, String>>,
    paths: Seq<String>,
    parse: F,
) -> bool {
    &&& parsed.len() <= paths.len()
    &&& forall|i: int|
        0 <= i < parsed.len() ==> is_outcome(#[trigger] parsed[i], paths[i]@, parse)
    &&& forall|i: int| 0 <= i < parsed.len() - 1 ==> (#[trigger] parsed[i]) is Ok
    &&& parsed.len() < paths.len() ==> parsed.len() > 0 && parsed.last() is Err
}

/// Every result is what `parse` returned for the path in the same place, the whole of it; only
/// the last can be a failure, and only after a failure are paths left out.
pub proof fn law_parsed_texts_are_the_paths<'a, F: Fn(&str) -> Result<Vec<PathShape>, String>>(
    parsed: Seq<Result<Vec<PathShape>, String>>,
    paths: Seq<String>,
    parse: F,
) -> (texts: Seq<&'a str>)
    requires
        is_parsed_by(parsed, paths, parse),
    ensures
        texts.len() == parsed.len() <= paths.len(),
        forall|i: int| 0 <= i < texts.len() ==> (#[trigger] texts[i])@ == paths[i]@,
        forall|i: int|
            0 <= i < texts.len() ==> call_ensures(parse, (#[trigger] texts[i],), parsed[i]),
        forall|i: int| 0 <= i < parsed.len() - 1 ==> (#[trigger] parsed[i]) is Ok,
        parsed.len() < paths.len() ==> parsed.len() > 0 && parsed.last() is Err,
{
    let texts = Seq::new(
        parsed.len(),
        |i: int|
            choose|path: &str|
                path@ == paths[i]@ && #[trigger] call_ensures(parse, (path,), parsed[i]),
    );
    assert forall|i: int| 0 <= i < texts.len() implies (#[trigger] texts[i])@ == paths[i]@
        && call_ensures(parse, (texts[i],), parsed[i]) by {
        assert(is_outcome(parsed[i], paths[i]@, parse));
    }
    texts
}

/// The shapes of what was parsed.
pub open spec fn parsed_shapes() -> spec_fn(Result<Vec<PathShape>, String>) -> Seq<PathShape> {
    |result: Result<Vec<PathShape>, String>| result->Ok_0@
}

/// Where every path was parsed, what is gathered is all their shapes, one path after the other.
pub proof fn law_all_shapes_are_gathered(parsed: Seq<Result<Vec<PathShape>, String>>)
    requires
        forall|i: int| 0 <= i < parsed.len() ==> (#[trigger] parsed[i]) is Ok,
    ensures
        gathered(parsed) == Ok::<Seq<PathShape>, Seq<char>>(
            parsed.map_values(parsed_shapes()).flatten(),
        ),
    decreases parsed.len(),
{
    let lists = parsed.map_values(parsed_shapes());
    lists.lemma_flatten_and_flatten_alt_are_equivalent();
    if parsed.len() > 0 {
        let front = parsed.drop_last();
        assert forall|i: int| 0 <= i < front.len() implies (#[trigger] front[i]) is Ok by {
            assert(parsed[i] is Ok);
        }
        law_all_shapes_are_gathered(front);
        let before = front.map_values(parsed_shapes());
        before.lemma_flatten_and_flatten_alt_are_equivalent();
        assert(lists.drop_last() =~= before);
        assert(parsed[parsed.len() - 1] is Ok);
        assert(lists.last() == parsed.last()->Ok_0@);
    } else {
        assert(lists.flatten_alt() =~= Seq::<PathShape>::empty());
    }
}

/// Where a path could not be parsed, the first such one is what is said.
pub proof fn law_first_failure_is_said(parsed: Seq<Result<Vec<PathShape>, String>>, k: int)
    requires
        0 <= k < parsed.len(),
        forall|i: int| 0 <= i < k ==> (#[trigger] parsed[i]) is Ok,
        parsed[k] is Err,
    ensures
        gathered(parsed) == Err::<Seq<PathShape>, Seq<char>>(
            "SVG path parse error: "@ + parsed[k]->Err_0@,
        ),
{
    let front = parsed.take(k);
    assert forall|i: int| 0 <= i < front.len() implies (#[trigger] front[i]) is Ok by {
        assert(parsed[i] is Ok);
    }
    law_all_shapes_are_gathered(front);
    assert(parsed.take(k + 1).drop_last() =~= front);
    lemma_gathered_error(parsed, k + 1);
}

/// What is gathered is all the shapes, one path after the other, or the first failure, or that
/// there is no shape.
pub proof fn law_gathered_shapes(
    parsed: Seq<Result<Vec<PathShape>, String>>,
    r: Result<Vec<PathShape>, ConvertError>,
)
    requires
        is_gathered(parsed, r),
    ensures
        (forall|i: int| 0 <= i < parsed.len() ==> (#[trigger] parsed[i]) is Ok) ==> {
            let shapes = parsed.map_values(parsed_shapes()).flatten();
            if shapes.len() == 0 {
                r is Err && r->Err_0.0@ == "No shapes produced from SVG paths"@
            } else {
                r is Ok && r->Ok_0@ == shapes
            }
        },
        forall|k: int|
            0 <= k < parsed.len() && (#[trigger] parsed[k]) is Err && (forall|i: int|
                0 <= i < k ==> (#[trigger] parsed[i]) is Ok) ==> r is Err && r->Err_0.0@
                == "SVG path parse error: "@ + parsed[k]->Err_0@,
{
    if forall|i: int| 0 <= i < parsed.len() ==> (#[trigger] parsed[i]) is Ok {
        law_all_shapes_are_gathered(parsed);
    }
    assert forall|k: int|
        0 <= k < parsed.len() && (#[trigger] parsed[k]) is Err && (forall|i: int|
            0 <= i < k ==> (#[trigger] parsed[i]) is Ok) implies r is Err && r->Err_0.0@
        == "SVG path parse error: "@ + parsed[k]->Err_0@ by {
        law_first_failure_is_said(parsed, k);
    }
}

/// Parses the paths in order, up to the first that fails, and gathers their shapes.
pub fn parse_shapes<F: Fn(&str) -> Result<Vec<PathShape>, String>>(
    paths: &Vec<String>,
    parse: F,
) -> (r: Result<Vec<PathShape>, ConvertError>)
    requires
        forall|path: &str| call_requires(parse, (path,)),
    ensures
        exists|parsed: Seq<Result<Vec<PathShape>, String>>| #[trigger]
            is_parsed_by(parsed, paths@, parse) && is_gathered(parsed, r),
        exists|texts: Seq<&str>, parsed: Seq<Result<Vec<PathShape>, String>>|
            {
                &&& #[trigger] texts.len() == #[trigger] parsed.len() <= paths@.len()
                &&& forall|i: int| 0 <= i < texts.len() ==> (#[trigger] texts[i])@ == paths@[i]@
                &&& forall|i: int|
                    0 <= i < texts.len() ==> call_ensures(
                        parse,
                        (#[trigger] texts[i],),
                        parsed[i],
                    )
                &&& forall|i: int| 0 <= i < parsed.len() - 1 ==> (#[trigger] parsed[i]) is Ok
                &&& parsed.len() < paths@.len() ==> parsed.len() > 0 && parsed.last() is Err
                &&& is_gathered(parsed, r)
            },
{
    let mut parsed: Vec<Result<Vec<PathShape>, String>> = Vec::new();
    let mut i: usize = 0;
    let mut failed: bool = false;
    while i < paths.len() && !failed
        invariant
            i == parsed@.len() <= paths@.len(),
            forall|path: &str| call_requires(parse, (path,)),
            forall|j: int|
                0 <= j < i ==> is_outcome(#[trigger] parsed@[j], paths@[j]@, parse),
            forall|j: int| 0 <= j < i - 1 ==> (#[trigger] parsed@[j]) is Ok,
            i > 0 ==> failed == parsed@.last() is Err,
            failed ==> i > 0,
        decreases paths@.len() - i,
    {
        let path = paths[i].as_str();
        let result = parse(path);
        failed = result.is_err();
        assert(is_outcome(result, paths@[i as int]@, parse));
        parsed.push(result);
        i += 1;
    }
    assert(is_parsed_by(parsed@, paths@, parse));
    let ghost all = parsed@;
    let ghost texts = law_parsed_texts_are_the_paths(all, paths@, parse);
    assert(texts.len() == all.len());
    gather_shapes(parsed)
}

/// What a page contributes to a file: its size and the registration marks, in hundredths of a
/// millimetre.
#[derive(Debug)]
pub struct PageLayout {
    pub width: u32,
    pub height: u32,
    pub marks: Vec<Point>,
}

/// `path` cuts the outlines of `shape`, seen from (`x`, `y`), and sets no rhinestones.
pub open spec fn cuts(path: Path, shape: PathShape, x: int, y: int) -> bool {
    &&& tool_flags(path.tool) == 2
    &&& path.shape is Some
    &&& is_shape_seen_from(path.shape->0, shape, x, y)
    &&& path.rhinestone_diameter is None
    &&& path.rhinestones@.len() == 0
}

/// The header of every file: a print-and-cut job without names and with a blank thumbnail of
/// three by three blocks.
pub open spec fn is_job_header(header: FileHeader) -> bool {
    &&& header.variant is VCM
    &&& header.version@ == "0100"@
    &&& header.content_id == 400000002
    &&& header.short_name@ == ""@
    &&& header.long_name@ == " "@
    &&& header.author_name@ == " "@
    &&& header.copyright@ == ""@
    &&& header.thumbnail_block_size_width == 3
    &&& header.thumbnail_block_size_height == 3
    &&& header.thumbnail@ == seq![0u8, 0, 0, 0, 0, 0, 0, 0, 0]
    &&& header.generator == Generator::App(1)
    &&& header.print_to_cut == Some(true)
}

/// The page in the file: its size, and its marks for the machine to find.
pub open spec fn is_job_page(data: CutData, page: PageLayout) -> bool {
    &&& data.file_type is PrintAndCut
    &&& data.mat_id == 0
    &&& data.cut_width == page.width
    &&& data.cut_height == page.height
    &&& data.seam_allowance_width == 0
    &&& data.alignment is Some
    &&& data.alignment->0.needed
    &&& data.alignment->0.marks@ == page.marks@
}

/// The piece that is cut: as large as the box around the shapes, one path for each shape, and
/// every path seen from the centre of the box.
pub open spec fn is_job_piece(piece: Piece, shapes: Seq<PathShape>) -> bool {
    let bounds = Bounds::around(drawing_points(shapes));
    &&& piece.width == bounds.max_x - bounds.min_x
    &&& piece.height == bounds.max_y - bounds.min_y
    &&& piece.expansion_limit_value == 0
    &&& piece.reduction_limit_value == 0
    &&& restriction_flags(piece.restriction_flags) == 0
    &&& piece.label@ == ""@
    &&& piece.paths@.len() == shapes.len()
    &&& forall|i: int|
        0 <= i < shapes.len() ==> cuts(
            #[trigger] piece.paths@[i],
            shapes[i],
            bounds.spec_centre_x(),
            bounds.spec_centre_y(),
        )
}

/// Makes one cutting path of each shape, seen from the centre of the box around all of them.
fn cutting_paths(shapes: &Vec<PathShape>, bounds: &Bounds) -> (paths: Vec<Path>)
    requires
        shapes@.len() > 0,
        *bounds == Bounds::around(drawing_points(shapes@)),
        bounds.is_measurable(),
    ensures
        paths@.len() == shapes@.len(),
        forall|i: int|
            0 <= i < shapes@.len() ==> cuts(
                #[trigger] paths@[i],
                shapes@[i],
                bounds.spec_centre_x(),
                bounds.spec_centre_y(),
            ),
{
    let (x, y): (i32, i32) = bounds.centre();
    let mut paths: Vec<Path> = Vec::new();
    let mut i: usize = 0;
    proof {
        assert(shape_points(shapes@.last()).len() > 0);
        lemma_near_centre(drawing_points(shapes@));
    }
    while i < shapes.len()
        invariant
            i <= shapes@.len(),
            forall|p: Point| #[trigger]
                drawing_points(shapes@).contains(p) ==> is_near(p, x as int, y as int),
            paths@.len() == i,
            forall|j: int|
                0 <= j < i ==> cuts(#[trigger] paths@[j], shapes@[j], x as int, y as int),
        decreases shapes@.len() - i,
    {
        assert forall|p: Point| #[trigger] shape_points(shapes@[i as int]).contains(p) implies is_near(
            p,
            x as int,
            y as int,
        ) by {
            lemma_drawing_points(shapes@, i as int, p);
        }
        let shape = shape_seen_from(&shapes[i], x, y);
        paths.push(
            Path {
                tool: cutting_tool(),
                shape: Some(shape),
                rhinestone_diameter: None,
                rhinestones: Vec::new(),
            },
        );
        i += 1;
    }
    paths
}

/// `file` is the print-and-cut file of the shapes on the page. The entries of the piece's
/// transform are in single precision, as `place` made them of the transform in halves.
pub open spec fn is_job_file<F: Fn(TransformHalves) -> Piece>(
    file: FcmFile,
    shapes: Seq<PathShape>,
    page: PageLayout,
    place: F,
) -> bool {
    let transform = Bounds::around(drawing_points(shapes)).spec_transform();
    &&& is_job_header(file.file_header)
    &&& is_job_page(file.cut_data, page)
    &&& file.piece_table.pieces@.len() == 1
    &&& file.piece_table.pieces@[0].0 == 0
    &&& is_job_piece(file.piece_table.pieces@[0].1, shapes)
    &&& exists|placement: Piece| #[trigger]
        call_ensures(place, (transform,), placement) && file.piece_table.pieces@[0].1.transform
            == placement.transform
}

/// Makes a print-and-cut file of the shapes. `place` puts the transform into single precision:
/// of the piece that it returns, the transform is taken over and nothing else is used.
pub fn svg_to_print_and_cut_fcm<F: Fn(TransformHalves) -> Piece>(
    shapes: &Vec<PathShape>,
    page: PageLayout,
    place: F,
) -> (file: FcmFile)
    requires
        shapes@.len() > 0,
        Bounds::around(drawing_points(shapes@)).is_measurable(),
        forall|transform: TransformHalves| call_requires(place, (transform,)),
    ensures
        is_job_file(file, shapes@, page, place),
        is_writable(file),
{
    let bounds = Bounds::of(shapes);
    proof {
        assert(shape_points(shapes@.last()).len() > 0);
        lemma_near_centre(drawing_points(shapes@));
        reveal_strlit("0100");
        reveal_strlit(" ");
        reveal_strlit("");
        is_ascii_chars_encode_utf8("0100"@);
        is_ascii_chars_encode_utf8(" "@);
        is_ascii_chars_encode_utf8(""@);
    }
    let placement = place(bounds.transform());
    let piece = Piece {
        width: bounds.width(),
        height: bounds.height(),
        transform: placement.transform,
        expansion_limit_value: 0,
        reduction_limit_value: 0,
        restriction_flags: no_restrictions(),
        label: "".to_owned(),
        paths: cutting_paths(shapes, &bounds),
    };
    let mut pieces: Vec<(u16, Piece)> = Vec::new();
    pieces.push((0, piece));
    assert(table_end(pieces@.drop_last()) == 0);
    assert(table_end(pieces@) <= u32::MAX);
    let thumbnail: Vec<u8> = vec![0, 0, 0, 0, 0, 0, 0, 0, 0];
    FcmFile {
        file_header: FileHeader {
            variant: FileVariant::VCM,
            version: "0100".to_owned(),
            content_id: 400000002,
            short_name: "".to_owned(),
            long_name: " ".to_owned(),
            author_name: " ".to_owned(),
            copyright: "".to_owned(),
            thumbnail_block_size_width: 3,
            thumbnail_block_size_height: 3,
            thumbnail,
            generator: Generator::App(1),
            print_to_cut: Some(true),
        },
        cut_data: CutData {
            file_type: FileType::PrintAndCut,
            mat_id: 0,
            cut_width: page.width,
            cut_height: page.height,
            seam_allowance_width: 0,
            alignment: Some(AlignmentData { needed: true, marks: page.marks }),
        },
        piece_table: PieceTable { pieces },
    }
}

/// The shapes that a piece's paths cut.
pub open spec fn piece_shapes(piece: Piece) -> Seq<PathShape> {
    piece.paths@.map_values(|path: Path| path.shape->0)
}

/// The box around the paths of a job's piece is as wide and as high as the piece says, and lies
/// evenly around the origin: exactly, where the sum of the drawing's sides is even and single
/// precision holds it, otherwise up to one unit of rounding and what single precision loses of
/// the sum. The piece holds the drawing's points, each moved alike.
pub proof fn law_piece_is_centred(piece: Piece, shapes: Seq<PathShape>)
    requires
        shapes.len() > 0,
        Bounds::around(drawing_points(shapes)).is_measurable(),
        is_job_piece(piece, shapes),
    ensures
        ({
            let drawn = Bounds::around(drawing_points(shapes));
            let cut = Bounds::around(drawing_points(piece_shapes(piece)));
            &&& drawing_points(piece_shapes(piece)) == points_seen_from(
                drawing_points(shapes),
                drawn.spec_centre_x(),
                drawn.spec_centre_y(),
            )
            &&& cut.max_x - cut.min_x == piece.width
            &&& cut.max_y - cut.min_y == piece.height
            &&& -129 <= cut.min_x + cut.max_x <= 129
            &&& -129 <= cut.min_y + cut.max_y <= 129
            &&& -0x100_0000 < drawn.min_x + drawn.max_x < 0x100_0000 ==> -1 <= cut.min_x
                + cut.max_x <= 1
            &&& -0x100_0000 < drawn.min_y + drawn.max_y < 0x100_0000 ==> -1 <= cut.min_y
                + cut.max_y <= 1
            &&& is_even_single(drawn.min_x + drawn.max_x) ==> cut.min_x + cut.max_x == 0
            &&& is_even_single(drawn.min_y + drawn.max_y) ==> cut.min_y + cut.max_y == 0
        }),
{
    let drawn = Bounds::around(drawing_points(shapes));
    let (x, y) = (drawn.spec_centre_x(), drawn.spec_centre_y());
    let cut = piece_shapes(piece);
    assert forall|i: int| 0 <= i < shapes.len() implies is_shape_seen_from(
        #[trigger] cut[i],
        shapes[i],
        x,
        y,
    ) by {
        assert(cuts(piece.paths@[i], shapes[i], x, y));
    }
    law_every_point_moves_alike(cut, shapes, x, y);
    assert(shape_points(shapes.last()).len() > 0);
    law_centred_drawing_lies_around_origin(drawing_points(shapes));
}

} // verus!
