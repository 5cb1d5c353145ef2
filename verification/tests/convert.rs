use fcmlib::{FcmFile, Outline, PathShape, Piece, PieceRestrictions, Point, SegmentLine};
use printandcut::convert::{convert_inner, finish_conversion, prepare_conversion, Conversion};
use printandcut::drawing::convert_drawing;
use printandcut::fcm::PageLayout;
use printandcut::geometry::TransformHalves;
use printandcut::page::PageSize;
use printandcut::ConvertError;

fn place(transform: TransformHalves) -> Piece {
    let single = |halves: i64| halves as f32 / 2.0;
    Piece {
        width: 0,
        height: 0,
        transform: Some((
            single(transform.a),
            single(transform.b),
            single(transform.c),
            single(transform.d),
            single(transform.x),
            single(transform.y),
        )),
        expansion_limit_value: 0,
        reduction_limit_value: 0,
        restriction_flags: PieceRestrictions::empty(),
        label: String::new(),
        paths: vec![],
    }
}

#[test]
fn drawing_is_taken_apart() {
    let svg = "<svg ><g id=\"Cut-Layer\"><path d=\"M1 2\"/><path d=\"M3 4\"/></g><rect/></svg>";
    let prepared = prepare_conversion(svg, "<marks/>").unwrap();
    assert_eq!(prepared.paths, vec!["M1 2", "M3 4"]);
    assert_eq!(prepared.print_svg, "<svg ><marks/><rect/></svg>");
}

#[test]
fn incomplete_drawings_are_refused() {
    let e = prepare_conversion("", "<marks/>").unwrap_err();
    assert_eq!(
        e.to_string(),
        "Cut-Layer group not found (expected id=\"Cut-Layer\" on a <g> element)"
    );
    let e = prepare_conversion("<g id=\"Cut-Layer\"></g>", "<marks/>").unwrap_err();
    assert_eq!(e.to_string(), "No path data found in Cut-Layer group");
}

#[test]
fn conversion_hands_out_both_files() {
    let shapes = vec![
        PathShape { start: Point { x: 0, y: 0 }, outlines: vec![] },
        PathShape { start: Point { x: 11, y: 20 }, outlines: vec![] },
    ];
    let page = PageLayout { width: 21590, height: 27940, marks: vec![] };
    let done = finish_conversion(String::from("<svg/>"), &shapes, page, place).unwrap();
    assert_eq!(done.print_svg, "<svg/>");
    let file = FcmFile::from_bytes(&done.fcm).unwrap();
    assert_eq!((file.cut_data.cut_width, file.cut_data.cut_height), (21590, 27940));
    let piece = &file.piece_table.pieces[0].1;
    assert_eq!((piece.width, piece.height), (11, 20));
    assert_eq!(piece.transform, Some((1.0, 0.0, 0.0, 1.0, 5.5, 10.0)));
    assert_eq!(piece.paths.len(), 2);
}

#[test]
fn errors_keep_their_message() {
    assert_eq!(ConvertError::from("a").to_string(), "a");
    assert_eq!(ConvertError::from(String::from("b")).0, "b");
}

fn parse(path: &str) -> Result<Vec<PathShape>, String> {
    if path == "nothing" {
        return Ok(vec![]);
    }
    let numbers: Vec<i32> = path.split(' ').filter_map(|word| word.parse().ok()).collect();
    if numbers.len() == 2 {
        let here = || Point { x: numbers[0], y: numbers[1] };
        let outline = Outline::Line(vec![SegmentLine { end: here() }]);
        Ok(vec![PathShape { start: here(), outlines: vec![outline] }])
    } else {
        Err(format!("cannot read {}", path))
    }
}

fn run(svg: &str) -> Result<Conversion, ConvertError> {
    let page = PageLayout { width: 21590, height: 27940, marks: vec![Point { x: 800, y: 900 }] };
    convert_inner(svg, "<marks/>", page, parse, place)
}

fn drawing(paths: &[&str]) -> String {
    let tags: Vec<String> = paths.iter().map(|path| format!("<path d=\"{}\"/>", path)).collect();
    format!("<svg ><g id=\"Cut-Layer\">{}</g></svg>", tags.concat())
}

#[test]
fn drawing_is_converted() {
    let done = run(&drawing(&["10 20", "nothing", "-30 41"])).unwrap();
    assert_eq!(done.print_svg, "<svg ><marks/></svg>");
    let file = FcmFile::from_bytes(&done.fcm).unwrap();
    let marks = file.cut_data.alignment.unwrap().marks;
    assert_eq!((marks.len(), marks[0].x, marks[0].y), (1, 800, 900));
    let piece = &file.piece_table.pieces[0].1;
    assert_eq!((piece.width, piece.height), (40, 21));
    assert_eq!(piece.transform, Some((1.0, 0.0, 0.0, 1.0, -10.0, 30.5)));
    assert_eq!(piece.paths.len(), 2);
}

#[test]
fn each_failure_has_its_message() {
    let message = |svg: &str| run(svg).unwrap_err().to_string();
    assert!(message("").starts_with("Cut-Layer group not found"));
    assert_eq!(message(&drawing(&[])), "No path data found in Cut-Layer group");
    assert_eq!(message(&drawing(&["1 2", "x", "y"])), "SVG path parse error: cannot read x");
    assert_eq!(message(&drawing(&["nothing"])), "No shapes produced from SVG paths");
}

#[test]
fn drawing_that_cannot_be_measured_is_refused() {
    let too_large = "Drawing is too large to be measured";
    let message = |paths: &[&str]| run(&drawing(paths)).unwrap_err().to_string();
    assert_eq!(message(&["-2147483648 0", "2147483647 0"]), too_large);
    assert_eq!(message(&["2147483647 0", "1 0"]), too_large);
    assert!(run(&drawing(&["2147483647 0", "0 0"])).is_ok());
}

#[test]
fn artwork_outside_the_layer_is_not_cut() {
    let layer = "<g id=\"Cut-Layer\"><path d=\"1 2\"/></g>";
    let one = run(&format!("<svg ><path d=\"9 9\"/>{}</svg>", layer)).unwrap();
    let two = run(&format!("<svg a=\"b\">{}<rect d=\"x\"/><path d=\"8 8\"/></svg>", layer)).unwrap();
    assert_eq!(one.fcm, two.fcm);
    assert_eq!(one.print_svg, "<svg ><path d=\"9 9\"/><marks/></svg>");
    let layer = "<g id=\"Cut-Layer\"><path d=\"x\"/></g>";
    let one = run(&format!("<svg ><path d=\"9 9\"/>{}</svg>", layer)).unwrap_err();
    let two = run(&format!("<svg >{}</svg>", layer)).unwrap_err();
    assert_eq!(one.to_string(), "SVG path parse error: cannot read x");
    assert_eq!(two.to_string(), one.to_string());
}

#[test]
fn text_after_the_drawing_is_only_printed() {
    let svg = drawing(&["10 20", "-30 41"]);
    let plain = run(&svg).unwrap();
    for more in ["\n", "</g>", "<g id=\"Cut-Layer\"><path d=\"x\"/></g>", "\"/>\u{e9}"] {
        let longer = run(&format!("{}{}", svg, more)).unwrap();
        assert_eq!(longer.fcm, plain.fcm);
        assert_eq!(longer.print_svg, format!("{}{}", plain.print_svg, more));
    }
}

#[test]
fn reordered_paths_reorder_the_cuts() {
    let job = |paths: &[&str]| FcmFile::from_bytes(&run(&drawing(paths)).unwrap().fcm).unwrap();
    let one = job(&["10 20", "-30 41", "0 0"]);
    let two = job(&["0 0", "10 20", "-30 41"]);
    assert_eq!(format!("{:?}", one.file_header), format!("{:?}", two.file_header));
    assert_eq!(format!("{:?}", one.cut_data), format!("{:?}", two.cut_data));
    let (a, b) = (&one.piece_table.pieces[0].1, &two.piece_table.pieces[0].1);
    assert_eq!((a.width, a.height), (40, 41));
    assert_eq!((a.width, a.height, a.transform), (b.width, b.height, b.transform));
    let cuts = |piece: &Piece| -> Vec<String> {
        piece.paths.iter().map(|path| format!("{:?}", path)).collect()
    };
    let (a, b) = (cuts(a), cuts(b));
    assert_ne!(a, b);
    assert_eq!(vec![&a[2], &a[0], &a[1]], vec![&b[0], &b[1], &b[2]]);
}

fn convert(svg: &str) -> Result<Conversion, ConvertError> {
    let size = |size: PageSize| match size {
        PageSize::Letter => (21590, 27940),
        PageSize::LetterLandscape => (27940, 21590),
        PageSize::A4 => (21000, 29700),
        PageSize::A4Landscape => (29700, 21000),
    };
    convert_drawing(
        svg,
        |word: &str| word.parse::<f64>().ok(),
        |width, height| (width / height).to_bits(),
        |page| format!("<marks for=\"{:?}\"/>", page),
        |page| PageLayout {
            width: size(page).0,
            height: size(page).1,
            marks: vec![Point { x: size(page).0 as i32, y: 1 }],
        },
        parse,
        place,
    )
}

#[test]
fn drawing_is_converted_on_its_page() {
    let layer = "<g id=\"Cut-Layer\"><path d=\"1 2\"/></g>";
    for (view_box, page, width, height) in [
        ("viewBox=\"0 0 11 8.5\"", "LetterLandscape", 27940, 21590),
        ("viewBox=\"0 0 210 297\"", "A4", 21000, 29700),
        ("viewBox=\"0 0 297 210\"", "A4Landscape", 29700, 21000),
        ("", "Letter", 21590, 27940),
    ] {
        let done = convert(&format!("<svg {}>{}</svg>", view_box, layer)).unwrap();
        assert_eq!(done.print_svg, format!("<svg {}><marks for=\"{}\"/></svg>", view_box, page));
        let data = FcmFile::from_bytes(&done.fcm).unwrap().cut_data;
        assert_eq!((data.cut_width, data.cut_height), (width, height));
        assert_eq!(data.alignment.unwrap().marks[0].x, width as i32);
    }
    assert!(convert("<svg viewBox=\"0 0 11 8.5\"></svg>").is_err());
}

#[test]
fn whole_drawing_is_cut_by_its_layer_and_page_alone() {
    let layer = "<g id=\"Cut-Layer\"><path d=\"1 2\"/></g>";
    let one = convert(&format!("<svg viewBox=\"0 0 11 8.5\">{}</svg>", layer)).unwrap();
    let two = convert(&format!("<svg viewBox=\"5 5 22 17\"><path d=\"x\"/>{}", layer)).unwrap();
    assert_eq!(one.fcm, two.fcm);
    let more = "<svg viewBox=\"0 0 210 297\"/>";
    let longer = convert(&format!("<svg viewBox=\"0 0 11 8.5\">{}</svg>{}", layer, more)).unwrap();
    assert_eq!(longer.fcm, one.fcm);
    assert_eq!(longer.print_svg, format!("{}{}", one.print_svg, more));
}

#[test]
fn page_changes_only_what_is_said_of_it() {
    let layer = "<g id=\"Cut-Layer\"><path d=\"1 2\"/></g>";
    let job = |view_box: &str| {
        let done = convert(&format!("<svg viewBox=\"{}\">{}</svg>", view_box, layer)).unwrap();
        FcmFile::from_bytes(&done.fcm).unwrap()
    };
    let (one, two) = (job("0 0 11 8.5"), job("0 0 210 297"));
    assert_eq!(format!("{:?}", one.file_header), format!("{:?}", two.file_header));
    assert_eq!(format!("{:?}", one.piece_table), format!("{:?}", two.piece_table));
    assert_ne!(one.cut_data.cut_width, two.cut_data.cut_width);
}
