//! What a cutting machine's file holds, as plain values. Nothing else of a file is written.

use vstd::float::FloatBitsProperties;
use vstd::prelude::*;

use fcmlib::{
    CutData, FcmFile, FileHeader, FileType, FileVariant, Generator, Outline, Path, PathShape, Piece,
    Point, SegmentBezier, SegmentLine,
};

use crate::fcm::{restriction_flags, tool_flags};
use crate::geometry::{
    beziers_seen_from, drawing_points, is_outline_seen_from, is_shape_seen_from, lines_seen_from,
    outline_points, outlines_points, seen_from, shape_points,
};

verus! {

/// What an outline holds.
#[verifier::ext_equal]
pub enum OutlineContents {
    Line(Seq<SegmentLine>),
    Bezier(Seq<SegmentBezier>),
}

/// What a shape holds.
#[verifier::ext_equal]
pub struct ShapeContents {
    pub start: Point,
    pub outlines: Seq<OutlineContents>,
}

/// What a path holds, its tool by the flags.
#[verifier::ext_equal]
pub struct PathContents {
    pub tool: u32,
    pub shape: Option<ShapeContents>,
    pub rhinestone_diameter: Option<u32>,
    pub rhinestones: Seq<Point>,
}

/// What a piece holds, its restrictions by the flags and its transform by the bits of the
/// numbers.
#[verifier::ext_equal]
pub struct PieceContents {
    pub width: u32,
    pub height: u32,
    pub transform: Option<(u32, u32, u32, u32, u32, u32)>,
    pub expansion_limit_value: u32,
    pub reduction_limit_value: u32,
    pub restrictions: u32,
    pub label: Seq<char>,
    pub paths: Seq<PathContents>,
}

/// What the header of a file holds.
#[verifier::ext_equal]
pub struct HeaderContents {
    pub variant: FileVariant,
    pub version: Seq<char>,
    pub content_id: u32,
    pub short_name: Seq<char>,
    pub long_name: Seq<char>,
    pub author_name: Seq<char>,
    pub copyright: Seq<char>,
    pub thumbnail_block_size: (u8, u8),
    pub thumbnail: Seq<u8>,
    pub generator: Generator,
    pub print_to_cut: Option<bool>,
}

/// What a file says of its page.
#[verifier::ext_equal]
pub struct PageContents {
    pub file_type: FileType,
    pub mat_id: u32,
    pub cut_width: u32,
    pub cut_height: u32,
    pub seam_allowance_width: u32,
    pub alignment: Option<(bool, Seq<Point>)>,
}

/// What a file holds.
#[verifier::ext_equal]
pub struct FileContents {
    pub header: HeaderContents,
    pub page: PageContents,
    pub pieces: Seq<(u16, PieceContents)>,
}

/// What is held of an outline: its segments.
pub open spec fn outline_contents(outline: Outline) -> OutlineContents {
    match outline {
        Outline::Line(segments) => OutlineContents::Line(segments@),
        Outline::Bezier(segments) => OutlineContents::Bezier(segments@),
    }
}

/// What is held of a shape: its start and its outlines.
pub open spec fn shape_contents(shape: PathShape) -> ShapeContents {
    ShapeContents {
        start: shape.start,
        outlines: shape.outlines@.map_values(|outline: Outline| outline_contents(outline)),
    }
}

/// What is held of several shapes, one by one.
pub open spec fn shapes_contents(shapes: Seq<PathShape>) -> Seq<ShapeContents> {
    shapes.map_values(|shape: PathShape| shape_contents(shape))
}

/// What is held of a path.
pub open spec fn path_contents(path: Path) -> PathContents {
    PathContents {
        tool: tool_flags(path.tool),
        shape: match path.shape {
            Some(shape) => Some(shape_contents(shape)),
            None => None,
        },
        rhinestone_diameter: path.rhinestone_diameter,
        rhinestones: path.rhinestones@,
    }
}

/// The numbers of a piece's transform, by their bits.
pub open spec fn transform_bits(piece: Piece) -> Option<(u32, u32, u32, u32, u32, u32)> {
    match piece.transform {
        Some(t) => Some(
            (
                t.0.to_bits_spec(),
                t.1.to_bits_spec(),
                t.2.to_bits_spec(),
                t.3.to_bits_spec(),
                t.4.to_bits_spec(),
                t.5.to_bits_spec(),
            ),
        ),
        None => None,
    }
}

/// What is held of a piece.
pub open spec fn piece_contents(piece: Piece) -> PieceContents {
    PieceContents {
        width: piece.width,
        height: piece.height,
        transform: transform_bits(piece),
        expansion_limit_value: piece.expansion_limit_value,
        reduction_limit_value: piece.reduction_limit_value,
        restrictions: restriction_flags(piece.restriction_flags),
        label: piece.label@,
        paths: piece.paths@.map_values(|path: Path| path_contents(path)),
    }
}

/// What is held of a header.
pub open spec fn header_contents(header: FileHeader) -> HeaderContents {
    HeaderContents {
        variant: header.variant,
        version: header.version@,
        content_id: header.content_id,
        short_name: header.short_name@,
        long_name: header.long_name@,
        author_name: header.author_name@,
        copyright: header.copyright@,
        thumbnail_block_size: (
            header.thumbnail_block_size_width,
            header.thumbnail_block_size_height,
        ),
        thumbnail: header.thumbnail@,
        generator: header.generator,
        print_to_cut: header.print_to_cut,
    }
}

/// What is held of the page.
pub open spec fn page_contents(data: CutData) -> PageContents {
    PageContents {
        file_type: data.file_type,
        mat_id: data.mat_id,
        cut_width: data.cut_width,
        cut_height: data.cut_height,
        seam_allowance_width: data.seam_allowance_width,
        alignment: match data.alignment {
            Some(alignment) => Some((alignment.needed, alignment.marks@)),
            None => None,
        },
    }
}

/// What is held of a file.
pub open spec fn file_contents(file: FcmFile) -> FileContents {
    FileContents {
        header: header_contents(file.file_header),
        page: page_contents(file.cut_data),
        pieces: file.piece_table.pieces@.map_values(
            |entry: (u16, Piece)| (entry.0, piece_contents(entry.1)),
        ),
    }
}

/// How many bytes an outline takes up: its tag, how many segments there are, and their points.
pub open spec fn outline_size(outline: Outline) -> nat {
    match outline {
        Outline::Line(segments) => 8 + 8 * segments@.len(),
        Outline::Bezier(segments) => 8 + 24 * segments@.len(),
    }
}

/// How many bytes several outlines take up.
pub open spec fn outlines_size(outlines: Seq<Outline>) -> nat
    decreases outlines.len(),
{
    if outlines.len() == 0 {
        0
    } else {
        outlines_size(outlines.drop_last()) + outline_size(outlines.last())
    }
}

/// How many bytes a path takes up: its tool, how many outlines and rhinestones there are, the
/// rhinestones' diameter, the start and the outlines of its shape, and the rhinestones.
pub open spec fn path_size(path: Path) -> nat {
    20 + 8 * path.rhinestones@.len() + match path.shape {
        Some(shape) => 8 + outlines_size(shape.outlines@),
        None => 0,
    }
}

/// How many bytes paths take up, each with its size before it.
pub open spec fn paths_size(paths: Seq<Path>) -> nat
    decreases paths.len(),
{
    if paths.len() == 0 {
        0
    } else {
        paths_size(paths.drop_last()) + 4 + path_size(paths.last())
    }
}

/// How many bytes a piece takes up: eleven words, six more for a transform, and the paths.
pub open spec fn piece_size(piece: Piece) -> nat {
    44 + paths_size(piece.paths@) + if piece.transform is Some {
        24nat
    } else {
        0nat
    }
}

/// Where the piece table says that the pieces end: their sizes one after the other, each as a
/// word of 32 bits holds it.
pub open spec fn table_end(pieces: Seq<(u16, Piece)>) -> nat
    decreases pieces.len(),
{
    if pieces.len() == 0 {
        0
    } else {
        table_end(pieces.drop_last()) + piece_size(pieces.last().1) % 0x1_0000_0000
    }
}

/// The outline, seen from (`x`, `y`).
pub open spec fn outline_contents_seen_from(
    outline: OutlineContents,
    x: int,
    y: int,
) -> OutlineContents {
    match outline {
        OutlineContents::Line(segments) => OutlineContents::Line(lines_seen_from(segments, x, y)),
        OutlineContents::Bezier(segments) => OutlineContents::Bezier(
            beziers_seen_from(segments, x, y),
        ),
    }
}

/// The shape, seen from (`x`, `y`).
pub open spec fn shape_contents_seen_from(shape: ShapeContents, x: int, y: int) -> ShapeContents {
    ShapeContents {
        start: seen_from(shape.start, x, y),
        outlines: shape.outlines.map_values(
            |outline: OutlineContents| outline_contents_seen_from(outline, x, y),
        ),
    }
}

/// A shape that is seen from elsewhere holds what the other holds, seen from there.
pub proof fn lemma_shape_seen_from(to: PathShape, from: PathShape, x: int, y: int)
    requires
        is_shape_seen_from(to, from, x, y),
    ensures
        shape_contents(to) == shape_contents_seen_from(shape_contents(from), x, y),
{
    let seen = shape_contents_seen_from(shape_contents(from), x, y);
    assert forall|i: int| 0 <= i < to.outlines@.len() implies shape_contents(to).outlines[i]
        == #[trigger] seen.outlines[i] by {
        assert(is_outline_seen_from(to.outlines@[i], from.outlines@[i], x, y));
    }
    assert(shape_contents(to).outlines =~= seen.outlines);
}

/// Outlines that hold the same have the same points.
proof fn lemma_same_outlines(s: Seq<Outline>, t: Seq<Outline>)
    requires
        s.len() == t.len(),
        forall|i: int|
            0 <= i < s.len() ==> outline_contents(#[trigger] s[i]) == outline_contents(t[i]),
    ensures
        outlines_points(s) == outlines_points(t),
    decreases s.len(),
{
    if s.len() > 0 {
        assert forall|i: int| 0 <= i < s.drop_last().len() implies outline_contents(
            #[trigger] s.drop_last()[i],
        ) == outline_contents(t.drop_last()[i]) by {
            assert(outline_contents(s[i]) == outline_contents(t[i]));
        }
        lemma_same_outlines(s.drop_last(), t.drop_last());
        let n = s.len() - 1;
        assert(outline_contents(s[n]) == outline_contents(t[n]));
        assert(outline_points(s[n]) == outline_points(t[n]));
    }
}

/// Drawings that hold the same have the same points.
pub proof fn lemma_same_drawings(s: Seq<PathShape>, t: Seq<PathShape>)
    requires
        shapes_contents(s) == shapes_contents(t),
    ensures
        s.len() == t.len(),
        drawing_points(s) == drawing_points(t),
    decreases s.len(),
{
    assert(s.len() == shapes_contents(s).len());
    assert(t.len() == shapes_contents(t).len());
    if s.len() > 0 {
        let n = s.len() - 1;
        assert(shapes_contents(s.drop_last()) =~= shapes_contents(s).drop_last());
        assert(shapes_contents(t.drop_last()) =~= shapes_contents(t).drop_last());
        lemma_same_drawings(s.drop_last(), t.drop_last());
        let (a, b) = (s[n], t[n]);
        assert(shapes_contents(s)[n] == shape_contents(a));
        assert(shapes_contents(t)[n] == shape_contents(b));
        assert(a.outlines@.len() == shape_contents(a).outlines.len());
        assert(b.outlines@.len() == shape_contents(b).outlines.len());
        assert forall|i: int| 0 <= i < a.outlines@.len() implies outline_contents(
            #[trigger] a.outlines@[i],
        ) == outline_contents(b.outlines@[i]) by {
            assert(shape_contents(a).outlines[i] == outline_contents(a.outlines@[i]));
            assert(shape_contents(b).outlines[i] == outline_contents(b.outlines@[i]));
        }
        lemma_same_outlines(a.outlines@, b.outlines@);
        assert(shape_points(a) == shape_points(b));
    }
}

/// Two shapes hold the same where they start alike and have the same outlines in the same order.
pub open spec fn is_same_shape(s: PathShape, t: PathShape) -> bool {
    &&& s.start == t.start
    &&& s.outlines@.len() == t.outlines@.len()
    &&& forall|j: int|
        0 <= j < s.outlines@.len() ==> match (#[trigger] s.outlines@[j], t.outlines@[j]) {
            (Outline::Line(a), Outline::Line(b)) => a@ == b@,
            (Outline::Bezier(a), Outline::Bezier(b)) => a@ == b@,
            _ => false,
        }
}

/// What is held of a shape is all of it.
pub proof fn law_shape_is_held_whole(s: PathShape, t: PathShape)
    ensures
        shape_contents(s) == shape_contents(t) <==> is_same_shape(s, t),
{
    let (a, b) = (shape_contents(s).outlines, shape_contents(t).outlines);
    if shape_contents(s) == shape_contents(t) {
        assert(s.outlines@.len() == a.len() && t.outlines@.len() == b.len());
        assert forall|j: int| 0 <= j < s.outlines@.len() implies match (
            #[trigger] s.outlines@[j],
            t.outlines@[j],
        ) {
            (Outline::Line(a), Outline::Line(b)) => a@ == b@,
            (Outline::Bezier(a), Outline::Bezier(b)) => a@ == b@,
            _ => false,
        } by {
            assert(a[j] == outline_contents(s.outlines@[j]));
            assert(b[j] == outline_contents(t.outlines@[j]));
        }
    }
    if is_same_shape(s, t) {
        assert forall|j: int| 0 <= j < a.len() implies a[j] == b[j] by {
            assert(a[j] == outline_contents(s.outlines@[j]));
            assert(b[j] == outline_contents(t.outlines@[j]));
        }
        assert(a =~= b);
    }
}

/// Two files hold the same only where every field says the same: of the header, of the page, of
/// every piece and of every path.
pub proof fn law_file_is_held_whole(f: FcmFile, g: FcmFile)
    requires
        file_contents(f) == file_contents(g),
    ensures
        f.file_header.variant == g.file_header.variant,
        f.file_header.version@ == g.file_header.version@,
        f.file_header.content_id == g.file_header.content_id,
        f.file_header.short_name@ == g.file_header.short_name@,
        f.file_header.long_name@ == g.file_header.long_name@,
        f.file_header.author_name@ == g.file_header.author_name@,
        f.file_header.copyright@ == g.file_header.copyright@,
        f.file_header.thumbnail_block_size_width == g.file_header.thumbnail_block_size_width,
        f.file_header.thumbnail_block_size_height == g.file_header.thumbnail_block_size_height,
        f.file_header.thumbnail@ == g.file_header.thumbnail@,
        f.file_header.generator == g.file_header.generator,
        f.file_header.print_to_cut == g.file_header.print_to_cut,
        f.cut_data.file_type == g.cut_data.file_type,
        f.cut_data.mat_id == g.cut_data.mat_id,
        f.cut_data.cut_width == g.cut_data.cut_width,
        f.cut_data.cut_height == g.cut_data.cut_height,
        f.cut_data.seam_allowance_width == g.cut_data.seam_allowance_width,
        match (f.cut_data.alignment, g.cut_data.alignment) {
            (Some(a), Some(b)) => a.needed == b.needed && a.marks@ == b.marks@,
            (None, None) => true,
            _ => false,
        },
        f.piece_table.pieces@.len() == g.piece_table.pieces@.len(),
        forall|i: int|
            0 <= i < f.piece_table.pieces@.len() ==> {
                let (s, t) = (#[trigger] f.piece_table.pieces@[i], g.piece_table.pieces@[i]);
                s.0 == t.0 && is_same_piece(s.1, t.1)
            },
{
    let (s, t) = (file_contents(f).pieces, file_contents(g).pieces);
    assert(s.len() == f.piece_table.pieces@.len() && t.len() == g.piece_table.pieces@.len());
    assert(f.cut_data.alignment is Some ==> file_contents(f).page.alignment is Some);
    assert forall|i: int| 0 <= i < f.piece_table.pieces@.len() implies {
        let (s, t) = (#[trigger] f.piece_table.pieces@[i], g.piece_table.pieces@[i]);
        s.0 == t.0 && is_same_piece(s.1, t.1)
    } by {
        let (a, b) = (f.piece_table.pieces@[i], g.piece_table.pieces@[i]);
        assert(s[i] == (a.0, piece_contents(a.1)));
        assert(t[i] == (b.0, piece_contents(b.1)));
        lemma_same_piece(a.1, b.1);
    }
}

/// Two pieces say the same in every field and in every path. The numbers of a transform are told
/// apart by their bits.
pub open spec fn is_same_piece(p: Piece, q: Piece) -> bool {
    &&& p.width == q.width
    &&& p.height == q.height
    &&& p.expansion_limit_value == q.expansion_limit_value
    &&& p.reduction_limit_value == q.reduction_limit_value
    &&& restriction_flags(p.restriction_flags) == restriction_flags(q.restriction_flags)
    &&& p.label@ == q.label@
    &&& match (p.transform, q.transform) {
        (Some(s), Some(t)) => {
            &&& s.0.to_bits_spec() == t.0.to_bits_spec()
            &&& s.1.to_bits_spec() == t.1.to_bits_spec()
            &&& s.2.to_bits_spec() == t.2.to_bits_spec()
            &&& s.3.to_bits_spec() == t.3.to_bits_spec()
            &&& s.4.to_bits_spec() == t.4.to_bits_spec()
            &&& s.5.to_bits_spec() == t.5.to_bits_spec()
        },
        (None, None) => true,
        _ => false,
    }
    &&& p.paths@.len() == q.paths@.len()
    &&& forall|i: int|
        0 <= i < p.paths@.len() ==> {
            let (s, t) = (#[trigger] p.paths@[i], q.paths@[i]);
            &&& tool_flags(s.tool) == tool_flags(t.tool)
            &&& s.rhinestone_diameter == t.rhinestone_diameter
            &&& s.rhinestones@ == t.rhinestones@
            &&& match (s.shape, t.shape) {
                (Some(a), Some(b)) => is_same_shape(a, b),
                (None, None) => true,
                _ => false,
            }
        }
}

proof fn lemma_same_piece(p: Piece, q: Piece)
    requires
        piece_contents(p) == piece_contents(q),
    ensures
        is_same_piece(p, q),
{
    let (s, t) = (piece_contents(p).paths, piece_contents(q).paths);
    assert(s.len() == p.paths@.len() && t.len() == q.paths@.len());
    assert(transform_bits(p) == transform_bits(q));
    assert forall|i: int| 0 <= i < p.paths@.len() implies {
        let (s, t) = (#[trigger] p.paths@[i], q.paths@[i]);
        &&& tool_flags(s.tool) == tool_flags(t.tool)
        &&& s.rhinestone_diameter == t.rhinestone_diameter
        &&& s.rhinestones@ == t.rhinestones@
        &&& match (s.shape, t.shape) {
            (Some(a), Some(b)) => is_same_shape(a, b),
            (None, None) => true,
            _ => false,
        }
    } by {
        let (a, b) = (p.paths@[i], q.paths@[i]);
        assert(s[i] == path_contents(a) && t[i] == path_contents(b));
        if a.shape is Some && b.shape is Some {
            law_shape_is_held_whole(a.shape->0, b.shape->0);
        }
    }
}

} // verus!
