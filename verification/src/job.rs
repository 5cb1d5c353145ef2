//! What the file of a job holds, and which inputs lead to the same file.

use vstd::prelude::*;
use vstd::seq_lib::lemma_multiset_commutative;

use fcmlib::{FcmFile, FileType, FileVariant, Generator, PathShape, Piece, Point};

use crate::contents::{
    file_contents, header_contents, lemma_same_drawings, lemma_shape_seen_from, page_contents,
    path_contents, piece_contents, shape_contents_seen_from, shapes_contents, transform_bits,
    FileContents, HeaderContents, PageContents, PathContents, PieceContents, ShapeContents,
};
use crate::fcm::{cuts, gathered, is_job_file, is_outcome, is_parsed_by, PageLayout};
use crate::geometry::{
    drawing_points, law_bounds_are_tight, lemma_drawing_concat, Bounds, TransformHalves,
};
use crate::words::chars_of;

verus! {

/// What the header of every job holds.
pub open spec fn job_header() -> HeaderContents {
    HeaderContents {
        variant: FileVariant::VCM,
        version: "0100"@,
        content_id: 400000002,
        short_name: ""@,
        long_name: " "@,
        author_name: " "@,
        copyright: ""@,
        thumbnail_block_size: (3, 3),
        thumbnail: seq![0u8, 0, 0, 0, 0, 0, 0, 0, 0],
        generator: Generator::App(1),
        print_to_cut: Some(true),
    }
}

/// What a job says of its page.
pub open spec fn job_page(page: PageLayout) -> PageContents {
    PageContents {
        file_type: FileType::PrintAndCut,
        mat_id: 0,
        cut_width: page.width,
        cut_height: page.height,
        seam_allowance_width: 0,
        alignment: Some((true, page.marks@)),
    }
}

/// The path that cuts a shape, seen from (`x`, `y`).
pub open spec fn cut_path(shape: ShapeContents, x: int, y: int) -> PathContents {
    PathContents {
        tool: 2,
        shape: Some(shape_contents_seen_from(shape, x, y)),
        rhinestone_diameter: None,
        rhinestones: seq![],
    }
}

/// The paths that cut some shapes, seen from (`x`, `y`).
pub open spec fn cut_paths(shapes: Seq<ShapeContents>, x: int, y: int) -> Seq<PathContents> {
    shapes.map_values(|shape: ShapeContents| cut_path(shape, x, y))
}

/// What the piece of a job holds whose transform has these bits.
pub open spec fn job_piece(
    shapes: Seq<PathShape>,
    transform: Option<(u32, u32, u32, u32, u32, u32)>,
) -> PieceContents {
    let bounds = Bounds::around(drawing_points(shapes));
    PieceContents {
        width: (bounds.max_x - bounds.min_x) as u32,
        height: (bounds.max_y - bounds.min_y) as u32,
        transform,
        expansion_limit_value: 0,
        reduction_limit_value: 0,
        restrictions: 0,
        label: ""@,
        paths: cut_paths(
            shapes_contents(shapes),
            bounds.spec_centre_x(),
            bounds.spec_centre_y(),
        ),
    }
}

/// What the file of a job holds.
pub open spec fn job_contents(
    shapes: Seq<PathShape>,
    page: PageLayout,
    transform: Option<(u32, u32, u32, u32, u32, u32)>,
) -> FileContents {
    FileContents {
        header: job_header(),
        page: job_page(page),
        pieces: seq![(0u16, job_piece(shapes, transform))],
    }
}

/// The shapes, the page and the transform that `place` made fix all that the file of a job holds.
pub proof fn law_job_contents<F: Fn(TransformHalves) -> Piece>(
    file: FcmFile,
    shapes: Seq<PathShape>,
    page: PageLayout,
    place: F,
)
    requires
        is_job_file(file, shapes, page, place),
    ensures
        ({
            let transform = Bounds::around(drawing_points(shapes)).spec_transform();
            exists|placement: Piece| #[trigger]
                call_ensures(place, (transform,), placement) && file_contents(file)
                    == job_contents(shapes, page, transform_bits(placement))
        }),
{
    let bounds = Bounds::around(drawing_points(shapes));
    let (x, y) = (bounds.spec_centre_x(), bounds.spec_centre_y());
    let transform = bounds.spec_transform();
    let piece = file.piece_table.pieces@[0].1;
    let placement = choose|placement: Piece| #[trigger]
        call_ensures(place, (transform,), placement) && piece.transform == placement.transform;
    let held = piece_contents(piece);
    let wanted = job_piece(shapes, transform_bits(placement));
    assert forall|i: int| 0 <= i < shapes.len() implies held.paths[i]
        == #[trigger] wanted.paths[i] by {
        assert(cuts(piece.paths@[i], shapes[i], x, y));
        lemma_shape_seen_from(piece.paths@[i].shape->0, shapes[i], x, y);
        assert(held.paths[i] == path_contents(piece.paths@[i]));
        assert(wanted.paths[i] == cut_path(shapes_contents(shapes)[i], x, y));
        assert(held.paths[i].rhinestones =~= wanted.paths[i].rhinestones);
    }
    assert(held.paths =~= wanted.paths);
    assert(held == wanted);
    assert(header_contents(file.file_header) == job_header());
    assert(page_contents(file.cut_data) == job_page(page));
    assert(file_contents(file).pieces =~= seq![(0u16, wanted)]);
}

/// Two outcomes of parsing say the same.
pub open spec fn is_same_parse(
    a: Result<Vec<PathShape>, String>,
    b: Result<Vec<PathShape>, String>,
) -> bool {
    match (a, b) {
        (Ok(s), Ok(t)) => shapes_contents(s@) == shapes_contents(t@),
        (Err(e), Err(f)) => e@ == f@,
        _ => false,
    }
}

/// `parse` makes the same of the same text every time.
pub open spec fn parses_alike<P: Fn(&str) -> Result<Vec<PathShape>, String>>(parse: P) -> bool {
    forall|text: Seq<char>, a: Result<Vec<PathShape>, String>, b: Result<Vec<PathShape>, String>|
        #[trigger] is_outcome(a, text, parse) && #[trigger] is_outcome(b, text, parse)
            ==> is_same_parse(a, b)
}

/// `place` makes the same numbers of the same transform every time.
pub open spec fn places_alike<F: Fn(TransformHalves) -> Piece>(place: F) -> bool {
    forall|transform: TransformHalves, a: Piece, b: Piece|
        #[trigger] call_ensures(place, (transform,), a) && #[trigger] call_ensures(
            place,
            (transform,),
            b,
        ) ==> transform_bits(a) == transform_bits(b)
}

/// Two layouts say the same of a page.
pub open spec fn is_same_page(p: PageLayout, q: PageLayout) -> bool {
    p.width == q.width && p.height == q.height && p.marks@ == q.marks@
}

/// The same texts are parsed to the same end.
proof fn lemma_parsed_alike<P: Fn(&str) -> Result<Vec<PathShape>, String>>(
    parsed1: Seq<Result<Vec<PathShape>, String>>,
    parsed2: Seq<Result<Vec<PathShape>, String>>,
    paths1: Seq<String>,
    paths2: Seq<String>,
    parse: P,
)
    requires
        parses_alike(parse),
        chars_of(paths1) == chars_of(paths2),
        is_parsed_by(parsed1, paths1, parse),
        is_parsed_by(parsed2, paths2, parse),
    ensures
        parsed1.len() == parsed2.len(),
        forall|i: int|
            0 <= i < parsed1.len() ==> is_same_parse(#[trigger] parsed1[i], parsed2[i]),
{
    assert(paths1.len() == chars_of(paths1).len());
    assert(paths2.len() == chars_of(paths2).len());
    assert forall|i: int| 0 <= i < parsed1.len() && i < parsed2.len() implies is_same_parse(
        #[trigger] parsed1[i],
        parsed2[i],
    ) by {
        assert(chars_of(paths1)[i] == paths1[i]@);
        assert(chars_of(paths2)[i] == paths2[i]@);
        assert(is_outcome(parsed1[i], paths1[i]@, parse));
        assert(is_outcome(parsed2[i], paths1[i]@, parse));
    }
    if parsed1.len() < parsed2.len() {
        let n = parsed1.len() - 1;
        assert(parsed1[n] is Err);
        assert(is_same_parse(parsed1[n], parsed2[n]));
        assert(parsed2[n] is Ok);
    }
    if parsed2.len() < parsed1.len() {
        let n = parsed2.len() - 1;
        assert(parsed2[n] is Err);
        assert(is_same_parse(parsed1[n], parsed2[n]));
        assert(parsed1[n] is Ok);
    }
}

/// What was parsed alike is gathered alike.
proof fn lemma_gathered_alike(
    parsed1: Seq<Result<Vec<PathShape>, String>>,
    parsed2: Seq<Result<Vec<PathShape>, String>>,
)
    requires
        parsed1.len() == parsed2.len(),
        forall|i: int|
            0 <= i < parsed1.len() ==> is_same_parse(#[trigger] parsed1[i], parsed2[i]),
    ensures
        match (gathered(parsed1), gathered(parsed2)) {
            (Ok(s), Ok(t)) => shapes_contents(s) == shapes_contents(t),
            (Err(e), Err(f)) => e == f,
            _ => false,
        },
    decreases parsed1.len(),
{
    if parsed1.len() > 0 {
        let (rest1, rest2) = (parsed1.drop_last(), parsed2.drop_last());
        assert forall|i: int| 0 <= i < rest1.len() implies is_same_parse(
            #[trigger] rest1[i],
            rest2[i],
        ) by {
            assert(is_same_parse(parsed1[i], parsed2[i]));
        }
        lemma_gathered_alike(rest1, rest2);
        let n = parsed1.len() - 1;
        assert(is_same_parse(parsed1[n], parsed2[n]));
        if gathered(parsed1) is Ok {
            let (s, t) = (gathered(rest1)->Ok_0, gathered(rest2)->Ok_0);
            let (u, v) = (parsed1[n]->Ok_0@, parsed2[n]->Ok_0@);
            assert(shapes_contents(s + u) =~= shapes_contents(s) + shapes_contents(u));
            assert(shapes_contents(t + v) =~= shapes_contents(t) + shapes_contents(v));
        }
    } else {
        assert(shapes_contents(gathered(parsed1)->Ok_0) =~= shapes_contents(
            gathered(parsed2)->Ok_0,
        ));
    }
}

/// The same texts lead to files that differ at most in what they say of the page, or fail alike;
/// and on the same page, to files that hold the same.
pub proof fn law_same_paths_give_same_job<
    P: Fn(&str) -> Result<Vec<PathShape>, String>,
    F: Fn(TransformHalves) -> Piece,
>(
    paths1: Seq<String>,
    paths2: Seq<String>,
    parsed1: Seq<Result<Vec<PathShape>, String>>,
    parsed2: Seq<Result<Vec<PathShape>, String>>,
    page1: PageLayout,
    page2: PageLayout,
    parse: P,
    place: F,
)
    requires
        parses_alike(parse),
        places_alike(place),
        chars_of(paths1) == chars_of(paths2),
        is_parsed_by(parsed1, paths1, parse),
        is_parsed_by(parsed2, paths2, parse),
    ensures
        match (gathered(parsed1), gathered(parsed2)) {
            (Ok(s), Ok(t)) => {
                &&& s.len() == t.len()
                &&& Bounds::around(drawing_points(s)) == Bounds::around(drawing_points(t))
                &&& forall|file1: FcmFile, file2: FcmFile|
                    is_job_file(file1, s, page1, place) && is_job_file(file2, t, page2, place)
                        ==> {
                        let (held1, held2) = (
                            #[trigger] file_contents(file1),
                            #[trigger] file_contents(file2),
                        );
                        &&& held1.header == held2.header
                        &&& held1.pieces == held2.pieces
                        &&& is_same_page(page1, page2) ==> held1 == held2
                    }
            },
            (Err(e), Err(f)) => e == f,
            _ => false,
        },
{
    lemma_parsed_alike(parsed1, parsed2, paths1, paths2, parse);
    lemma_gathered_alike(parsed1, parsed2);
    if gathered(parsed1) is Ok {
        let (s, t) = (gathered(parsed1)->Ok_0, gathered(parsed2)->Ok_0);
        lemma_same_drawings(s, t);
        let transform = Bounds::around(drawing_points(s)).spec_transform();
        assert forall|file1: FcmFile, file2: FcmFile|
            is_job_file(file1, s, page1, place) && is_job_file(
                file2,
                t,
                page2,
                place,
            ) implies {
            let (held1, held2) = (#[trigger] file_contents(file1), #[trigger] file_contents(file2));
            &&& held1.header == held2.header
            &&& held1.pieces == held2.pieces
            &&& is_same_page(page1, page2) ==> held1 == held2
        } by {
            law_job_contents(file1, s, page1, place);
            law_job_contents(file2, t, page2, place);
        }
    }
}

/// What `f` makes of each item, one after the other.
pub open spec fn flat<A, B>(items: Seq<A>, f: spec_fn(A) -> Seq<B>) -> Seq<B>
    decreases items.len(),
{
    if items.len() == 0 {
        seq![]
    } else {
        flat(items.drop_last(), f) + f(items.last())
    }
}

proof fn lemma_flat_concat<A, B>(s: Seq<A>, t: Seq<A>, f: spec_fn(A) -> Seq<B>)
    ensures
        flat(s + t, f) == flat(s, f) + flat(t, f),
    decreases t.len(),
{
    if t.len() == 0 {
        assert(s + t =~= s);
        assert(flat(s, f) + flat(t, f) =~= flat(s, f));
    } else {
        lemma_flat_concat(s, t.drop_last(), f);
        assert((s + t).drop_last() =~= s + t.drop_last());
        assert(flat(s + t, f) =~= flat(s, f) + flat(t, f));
    }
}

/// Reordering the items reorders what is made of them.
proof fn lemma_flat_reordered<A, B>(s: Seq<A>, t: Seq<A>, f: spec_fn(A) -> Seq<B>)
    requires
        s.to_multiset() == t.to_multiset(),
    ensures
        flat(s, f).to_multiset() == flat(t, f).to_multiset(),
    decreases s.len(),
{
    s.to_multiset_ensures();
    t.to_multiset_ensures();
    assert(s.len() == t.len());
    if s.len() > 0 {
        let n = s.len() - 1;
        let item = s[n];
        assert(s.contains(item));
        assert(t.to_multiset().count(item) > 0);
        let i = choose|i: int| 0 <= i < t.len() && t[i] == item;
        assert(s.drop_last() =~= s.remove(n));
        lemma_flat_reordered(s.drop_last(), t.remove(i), f);
        let (before, after) = (t.take(i), t.skip(i + 1));
        let one = seq![item];
        assert(flat(one.drop_last(), f) =~= seq![]);
        assert(flat(one, f) =~= f(item));
        assert(t =~= (before + one) + after);
        assert(t.remove(i) =~= before + after);
        lemma_flat_concat(before + one, after, f);
        lemma_flat_concat(before, one, f);
        lemma_flat_concat(before, after, f);
        lemma_multiset_commutative(flat(s.drop_last(), f), f(item));
        lemma_multiset_commutative(flat(before, f), f(item));
        lemma_multiset_commutative(flat(before, f) + f(item), flat(after, f));
        lemma_multiset_commutative(flat(before, f), flat(after, f));
        assert(flat(s, f).to_multiset() =~= flat(t, f).to_multiset());
    } else {
        assert(s =~= t);
    }
}

/// The shapes that `parse` makes of a text.
pub open spec fn parse_of<P: Fn(&str) -> Result<Vec<PathShape>, String>>(
    text: Seq<char>,
    parse: P,
) -> Seq<PathShape> {
    let shapes = choose|shapes: Vec<PathShape>|
        is_outcome(Ok::<Vec<PathShape>, String>(shapes), text, parse);
    shapes@
}

/// The points of what `parse` makes of a text.
pub open spec fn points_of<P: Fn(&str) -> Result<Vec<PathShape>, String>>(parse: P) -> spec_fn(
    Seq<char>,
) -> Seq<Point> {
    |text: Seq<char>| drawing_points(parse_of(text, parse))
}

/// The paths that cut what `parse` makes of a text, seen from (`x`, `y`).
pub open spec fn cuts_of<P: Fn(&str) -> Result<Vec<PathShape>, String>>(
    parse: P,
    x: int,
    y: int,
) -> spec_fn(Seq<char>) -> Seq<PathContents> {
    |text: Seq<char>| cut_paths(shapes_contents(parse_of(text, parse)), x, y)
}

/// Where all texts could be parsed, the shapes are those of the texts, one after the other.
proof fn lemma_gathered_flat<P: Fn(&str) -> Result<Vec<PathShape>, String>>(
    parsed: Seq<Result<Vec<PathShape>, String>>,
    texts: Seq<Seq<char>>,
    parse: P,
    x: int,
    y: int,
)
    requires
        parses_alike(parse),
        parsed.len() == texts.len(),
        forall|i: int|
            0 <= i < parsed.len() ==> (#[trigger] parsed[i]) is Ok && is_outcome(
                parsed[i],
                texts[i],
                parse,
            ),
    ensures
        gathered(parsed) is Ok,
        drawing_points(gathered(parsed)->Ok_0) == flat(texts, points_of(parse)),
        cut_paths(shapes_contents(gathered(parsed)->Ok_0), x, y) == flat(
            texts,
            cuts_of(parse, x, y),
        ),
        cut_paths(shapes_contents(gathered(parsed)->Ok_0), x, y).len() == gathered(
            parsed,
        )->Ok_0.len(),
    decreases parsed.len(),
{
    if parsed.len() > 0 {
        let n = parsed.len() - 1;
        let (rest, before) = (parsed.drop_last(), texts.drop_last());
        assert forall|i: int| 0 <= i < rest.len() implies (#[trigger] rest[i]) is Ok && is_outcome(
            rest[i],
            before[i],
            parse,
        ) by {
            assert(parsed[i] is Ok && is_outcome(parsed[i], texts[i], parse));
        }
        lemma_gathered_flat(rest, before, parse, x, y);
        let found = gathered(rest)->Ok_0;
        assert(parsed[n] is Ok && is_outcome(parsed[n], texts[n], parse));
        let more = parsed[n]->Ok_0;
        assert(is_outcome(Ok::<Vec<PathShape>, String>(more), texts[n], parse));
        let chosen = choose|shapes: Vec<PathShape>|
            is_outcome(Ok::<Vec<PathShape>, String>(shapes), texts[n], parse);
        assert(is_same_parse(parsed[n], Ok::<Vec<PathShape>, String>(chosen)));
        lemma_same_drawings(more@, chosen@);
        lemma_drawing_concat(found, more@);
        assert(cut_paths(shapes_contents(found + more@), x, y) =~= cut_paths(
            shapes_contents(found),
            x,
            y,
        ) + cut_paths(shapes_contents(more@), x, y));
    } else {
        assert(cut_paths(shapes_contents(gathered(parsed)->Ok_0), x, y) =~= seq![]);
    }
}

/// Every text was parsed where the shapes could be gathered.
proof fn lemma_all_parsed(parsed: Seq<Result<Vec<PathShape>, String>>, i: int)
    requires
        gathered(parsed) is Ok,
        0 <= i < parsed.len(),
    ensures
        parsed[i] is Ok,
    decreases parsed.len(),
{
    if i < parsed.len() - 1 {
        lemma_all_parsed(parsed.drop_last(), i);
    }
}

/// The box around points does not depend on their order.
proof fn lemma_same_points_same_bounds(s: Seq<Point>, t: Seq<Point>)
    requires
        s.to_multiset() == t.to_multiset(),
    ensures
        Bounds::around(s) == Bounds::around(t),
{
    s.to_multiset_ensures();
    t.to_multiset_ensures();
    assert(s.len() == t.len());
    if s.len() > 0 {
        assert forall|p: Point| s.contains(p) == t.contains(p) by {
            assert(s.contains(p) <==> s.to_multiset().count(p) > 0);
            assert(t.contains(p) <==> t.to_multiset().count(p) > 0);
        }
        lemma_bounds_within(s, t);
        lemma_bounds_within(t, s);
    } else {
        assert(s =~= t);
    }
}

/// The box around points holds that around points which are all among them.
proof fn lemma_bounds_within(s: Seq<Point>, t: Seq<Point>)
    requires
        s.len() > 0,
        t.len() > 0,
        forall|p: Point| s.contains(p) ==> t.contains(p),
    ensures
        Bounds::around(t).min_x <= Bounds::around(s).min_x,
        Bounds::around(t).min_y <= Bounds::around(s).min_y,
        Bounds::around(s).max_x <= Bounds::around(t).max_x,
        Bounds::around(s).max_y <= Bounds::around(t).max_y,
{
    let (b, c) = (Bounds::around(s), Bounds::around(t));
    law_bounds_are_tight(s);
    law_bounds_are_tight(t);
    assert forall|i: int| 0 <= i < s.len() implies c.holds(#[trigger] s[i]) by {
        assert(s.contains(s[i]));
        let j = choose|j: int| 0 <= j < t.len() && t[j] == s[i];
        assert(c.holds(t[j]));
    }
    let i = choose|i: int| 0 <= i < s.len() && (#[trigger] s[i]).x == b.min_x;
    assert(c.holds(s[i]));
    let i = choose|i: int| 0 <= i < s.len() && (#[trigger] s[i]).x == b.max_x;
    assert(c.holds(s[i]));
    let i = choose|i: int| 0 <= i < s.len() && (#[trigger] s[i]).y == b.min_y;
    assert(c.holds(s[i]));
    let i = choose|i: int| 0 <= i < s.len() && (#[trigger] s[i]).y == b.max_y;
    assert(c.holds(s[i]));
}

/// Reordering the texts that are parsed changes nothing but the order of the cuts: where the one
/// order can be made into a file, the other can, with the same header and page and a piece of
/// the same size and transform, whose paths are the same ones in another order. In either file
/// the cuts of one text stand together, in the order of the texts.
pub proof fn law_reordered_paths_reorder_the_cuts<
    P: Fn(&str) -> Result<Vec<PathShape>, String>,
    F: Fn(TransformHalves) -> Piece,
>(
    paths1: Seq<String>,
    paths2: Seq<String>,
    parsed1: Seq<Result<Vec<PathShape>, String>>,
    parsed2: Seq<Result<Vec<PathShape>, String>>,
    file1: FcmFile,
    file2: FcmFile,
    page1: PageLayout,
    page2: PageLayout,
    parse: P,
    place: F,
)
    requires
        parses_alike(parse),
        places_alike(place),
        is_same_page(page1, page2),
        chars_of(paths1).to_multiset() == chars_of(paths2).to_multiset(),
        is_parsed_by(parsed1, paths1, parse),
        is_parsed_by(parsed2, paths2, parse),
        gathered(parsed1) is Ok,
    ensures
        gathered(parsed2) is Ok,
        ({
            let (s, t) = (gathered(parsed1)->Ok_0, gathered(parsed2)->Ok_0);
            let bounds = Bounds::around(drawing_points(s));
            &&& s.len() == t.len()
            &&& Bounds::around(drawing_points(t)) == bounds
            &&& is_job_file(file1, s, page1, place) && is_job_file(file2, t, page2, place) ==> {
                let (x, y) = (bounds.spec_centre_x(), bounds.spec_centre_y());
                let (held1, held2) = (file_contents(file1), file_contents(file2));
                &&& held1.header == held2.header
                &&& held1.page == held2.page
                &&& held1.pieces.len() == held2.pieces.len() == 1
                &&& held1.pieces[0].0 == held2.pieces[0].0
                &&& held2.pieces[0].1 == (PieceContents {
                    paths: held2.pieces[0].1.paths,
                    ..held1.pieces[0].1
                })
                &&& held1.pieces[0].1.paths.to_multiset() == held2.pieces[0].1.paths.to_multiset()
                &&& held1.pieces[0].1.paths == flat(chars_of(paths1), cuts_of(parse, x, y))
                &&& held2.pieces[0].1.paths == flat(chars_of(paths2), cuts_of(parse, x, y))
            }
        }),
{
    let (texts1, texts2) = (chars_of(paths1), chars_of(paths2));
    let bounds = Bounds::around(drawing_points(gathered(parsed1)->Ok_0));
    let (x, y) = (bounds.spec_centre_x(), bounds.spec_centre_y());
    assert(texts1.len() == paths1.len());
    assert(texts2.len() == paths2.len());
    texts1.to_multiset_ensures();
    texts2.to_multiset_ensures();
    assert forall|i: int| 0 <= i < parsed1.len() implies (#[trigger] parsed1[i]) is Ok
        && is_outcome(parsed1[i], texts1[i], parse) by {
        lemma_all_parsed(parsed1, i);
        assert(texts1[i] == paths1[i]@);
    }
    assert(parsed1.len() == texts1.len());
    assert forall|i: int| 0 <= i < parsed2.len() implies (#[trigger] parsed2[i]) is Ok
        && is_outcome(parsed2[i], texts2[i], parse) by {
        assert(texts2[i] == paths2[i]@);
        assert(is_outcome(parsed2[i], texts2[i], parse));
        assert(texts2.contains(texts2[i]));
        assert(texts1.to_multiset().count(texts2[i]) > 0);
        let j = choose|j: int| 0 <= j < texts1.len() && texts1[j] == texts2[i];
        assert(parsed1[j] is Ok && is_outcome(parsed1[j], texts1[j], parse));
        assert(is_same_parse(parsed1[j], parsed2[i]));
    }
    assert(parsed2.len() == texts2.len());
    lemma_gathered_flat(parsed1, texts1, parse, x, y);
    lemma_gathered_flat(parsed2, texts2, parse, x, y);
    let (s, t) = (gathered(parsed1)->Ok_0, gathered(parsed2)->Ok_0);
    lemma_flat_reordered(texts1, texts2, points_of(parse));
    lemma_same_points_same_bounds(drawing_points(s), drawing_points(t));
    lemma_flat_reordered(texts1, texts2, cuts_of(parse, x, y));
    let (cuts1, cuts2) = (flat(texts1, cuts_of(parse, x, y)), flat(texts2, cuts_of(parse, x, y)));
    cuts1.to_multiset_ensures();
    cuts2.to_multiset_ensures();
    assert(cuts1.len() == cuts2.len());
    if is_job_file(file1, s, page1, place) && is_job_file(file2, t, page2, place) {
        law_job_contents(file1, s, page1, place);
        law_job_contents(file2, t, page2, place);
    }
}

} // verus!
