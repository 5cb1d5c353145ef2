use fcmlib::{
    FcmFile, FileType, FileVariant, Generator, Outline, PathShape, PathTool, Piece,
    PieceRestrictions, Point, SegmentLine,
};
use printandcut::fcm::{
    explain_failure, fcm_to_bytes, gather_shapes, parse_shapes, svg_to_print_and_cut_fcm, PageLayout,
};
use printandcut::geometry::TransformHalves;

fn square(x: i32, y: i32, size: i32) -> PathShape {
    let line = |x, y| SegmentLine { end: Point { x, y } };
    PathShape {
        start: Point { x, y },
        outlines: vec![Outline::Line(vec![
            line(x + size, y),
            line(x + size, y + size),
            line(x, y + size),
            line(x, y),
        ])],
    }
}

fn place(transform: TransformHalves) -> Piece {
    let single = |halves: i64| halves as f32 / 2.0;
    Piece {
        width: 77,
        height: 77,
        transform: Some((
            single(transform.a),
            single(transform.b),
            single(transform.c),
            single(transform.d),
            single(transform.x),
            single(transform.y),
        )),
        expansion_limit_value: 77,
        reduction_limit_value: 77,
        restriction_flags: PieceRestrictions::all(),
        label: String::from("unused"),
        paths: vec![],
    }
}

fn page() -> PageLayout {
    PageLayout {
        width: 27940,
        height: 21590,
        marks: vec![Point { x: 1, y: 2 }, Point { x: 3, y: 4 }],
    }
}

fn job() -> FcmFile {
    svg_to_print_and_cut_fcm(&vec![square(100, 200, 50), square(-7, 0, 2)], page(), place)
}

#[test]
fn file_header_is_that_of_a_job() {
    let header = job().file_header;
    assert!(matches!(header.variant, FileVariant::VCM));
    assert_eq!(header.version, "0100");
    assert_eq!(header.content_id, 400000002);
    assert_eq!(header.short_name, "");
    assert_eq!(header.long_name, " ");
    assert_eq!(header.author_name, " ");
    assert_eq!(header.copyright, "");
    assert_eq!((header.thumbnail_block_size_width, header.thumbnail_block_size_height), (3, 3));
    assert_eq!(header.thumbnail, vec![0; 9]);
    assert!(matches!(header.generator, Generator::App(1)));
    assert_eq!(header.print_to_cut, Some(true));
}

#[test]
fn file_holds_the_page() {
    let data = job().cut_data;
    assert_eq!(data.file_type, FileType::PrintAndCut);
    assert_eq!(data.mat_id, 0);
    assert_eq!((data.cut_width, data.cut_height), (27940, 21590));
    assert_eq!(data.seam_allowance_width, 0);
    let alignment = data.alignment.unwrap();
    assert!(alignment.needed);
    let marks: Vec<(i32, i32)> = alignment.marks.iter().map(|mark| (mark.x, mark.y)).collect();
    assert_eq!(marks, vec![(1, 2), (3, 4)]);
}

#[test]
fn file_holds_one_centred_piece() {
    let pieces = job().piece_table.pieces;
    assert_eq!(pieces.len(), 1);
    let (id, piece) = &pieces[0];
    assert_eq!(*id, 0);
    assert_eq!((piece.width, piece.height), (157, 250));
    assert_eq!(piece.transform, Some((1.0, 0.0, 0.0, 1.0, 71.5, 125.0)));
    assert_eq!((piece.expansion_limit_value, piece.reduction_limit_value), (0, 0));
    assert_eq!(piece.restriction_flags, PieceRestrictions::empty());
    assert_eq!(piece.label, "");
    assert_eq!(piece.paths.len(), 2);
    for path in &piece.paths {
        assert_eq!(path.tool, PathTool::TOOL_CUT);
        assert_eq!(path.rhinestone_diameter, None);
        assert!(path.rhinestones.is_empty());
    }
    let shape = piece.paths[0].shape.as_ref().unwrap();
    assert_eq!(format!("{:?}", shape), format!("{:?}", square(29, 75, 50)));
    let shape = piece.paths[1].shape.as_ref().unwrap();
    assert_eq!(format!("{:?}", shape), format!("{:?}", square(-78, -125, 2)));
}

#[test]
fn bytes_are_those_of_the_file() {
    let expected = job().to_bytes().unwrap();
    let bytes = fcm_to_bytes(job()).unwrap();
    assert_eq!(bytes, expected);
    assert_eq!(&bytes[0..8], "#VCM0100".as_bytes());
    let read = FcmFile::from_bytes(&bytes).unwrap();
    assert_eq!(format!("{:?}", read), format!("{:?}", job()));
}

#[test]
fn files_with_several_pieces_are_written() {
    let mut file = job();
    let second = svg_to_print_and_cut_fcm(&vec![square(1, 1, 4)], page(), place)
        .piece_table
        .pieces
        .remove(0)
        .1;
    file.piece_table.pieces.push((1, second));
    file.piece_table.pieces[0].1.transform = None;
    let expected = format!("{:?}", file);
    // Both pieces: 44 bytes, 4 for each path's size, and 36 for a path with an outline of four
    // lines, of which each takes up 8; the second has a transform of 24 bytes.
    let sizes = (44 + 2 * (4 + 36 + 32), 44 + 24 + (4 + 36 + 32));
    let bytes = fcm_to_bytes(file).unwrap();
    let read = FcmFile::from_bytes(&bytes).unwrap();
    assert_eq!(format!("{:?}", read), expected);
    let table = bytes.len() - sizes.0 - sizes.1 - 24;
    let word = |at: usize| {
        u32::from_le_bytes([bytes[at], bytes[at + 1], bytes[at + 2], bytes[at + 3]]) as usize
    };
    assert_eq!(word(table), 2);
    assert_eq!((word(table + 4), word(table + 8), word(table + 12)), (0, sizes.0, sizes.0 + sizes.1));
}

#[test]
fn failures_are_explained() {
    let failed = explain_failure(Err(String::from("no room")), "Failed to serialise FCM: ");
    assert_eq!(failed.unwrap_err().to_string(), "Failed to serialise FCM: no room");
    assert_eq!(explain_failure(Ok(vec![1, 2]), "unused").unwrap(), vec![1, 2]);
}

#[test]
fn shapes_are_gathered_in_order() {
    let parsed = vec![
        Ok(vec![square(1, 1, 1), square(2, 2, 2)]),
        Ok(vec![]),
        Ok(vec![square(3, 3, 3)]),
    ];
    let shapes = gather_shapes(parsed).unwrap();
    let starts: Vec<i32> = shapes.iter().map(|shape| shape.start.x).collect();
    assert_eq!(starts, vec![1, 2, 3]);
}

#[test]
fn first_failure_decides() {
    let parsed = vec![
        Ok(vec![square(1, 1, 1)]),
        Err(String::from("bad command")),
        Err(String::from("later")),
    ];
    let e = gather_shapes(parsed).unwrap_err();
    assert_eq!(e.to_string(), "SVG path parse error: bad command");
}

#[test]
fn no_shapes_is_a_failure() {
    for parsed in [vec![], vec![Ok(vec![]), Ok(vec![])]] {
        let e = gather_shapes(parsed).unwrap_err();
        assert_eq!(e.to_string(), "No shapes produced from SVG paths");
    }
}

fn parse(path: &str) -> Result<Vec<PathShape>, String> {
    match path {
        "" => Ok(vec![]),
        "last" => panic!("parsed after a failure"),
        _ => match path.parse() {
            Ok(size) => Ok(vec![square(0, 0, size), square(size, 0, 1)]),
            Err(_) => Err(format!("bad path {}", path)),
        },
    }
}

fn texts(paths: &[&str]) -> Vec<String> {
    paths.iter().map(|path| String::from(*path)).collect()
}

#[test]
fn paths_are_parsed_in_order() {
    let shapes = parse_shapes(&texts(&["3", "", "5"]), parse).unwrap();
    let starts: Vec<i32> = shapes.iter().map(|shape| shape.start.x).collect();
    assert_eq!(starts, vec![0, 3, 0, 5]);
}

#[test]
fn parsing_stops_at_a_failure() {
    let e = parse_shapes(&texts(&["3", "x", "last"]), parse).unwrap_err();
    assert_eq!(e.to_string(), "SVG path parse error: bad path x");
    let e = parse_shapes(&texts(&["", ""]), parse).unwrap_err();
    assert_eq!(e.to_string(), "No shapes produced from SVG paths");
}
