use printandcut::cut_layer::{extract_cut_layer, find_cut_layer_bounds, print_svg};

const NOT_FOUND: &str = "Cut-Layer group not found (expected id=\"Cut-Layer\" on a <g> element)";
const NO_OPENING: &str = "Malformed SVG: could not find opening < for Cut-Layer group";
const NOT_CLOSED: &str = "Malformed SVG: Cut-Layer <g> tag is not closed";
const UNMATCHED: &str = "Malformed SVG: unmatched <g> tag inside Cut-Layer";
const NO_DATA: &str = "No path data found in Cut-Layer group";

fn layer(svg: &str) -> &str {
    let (start, end) = find_cut_layer_bounds(svg).unwrap();
    &svg[start..end]
}

fn message(svg: &str) -> String {
    find_cut_layer_bounds(svg).unwrap_err().to_string()
}

#[test]
fn bounds_of_a_plain_layer() {
    let svg = "<svg><g id=\"Cut-Layer\"><path d=\"M0 0\"/></g></svg>";
    assert_eq!(find_cut_layer_bounds(svg).unwrap(), (5, 43));
    assert_eq!(layer(svg), "<g id=\"Cut-Layer\"><path d=\"M0 0\"/></g>");
}

#[test]
fn bounds_skip_nested_groups() {
    let svg = "<svg><g></g><g x=\"1\" id=\"Cut-Layer\"><g><g>a</g></g><g\n/></g></g><g></g></svg>";
    assert_eq!(layer(svg), "<g x=\"1\" id=\"Cut-Layer\"><g><g>a</g></g><g\n/></g>");
}

#[test]
fn bounds_pass_over_groups_without_content() {
    let svg = "<g id=\"Cut-Layer\"><g/><path d=\"M0 0\"/></g>";
    assert_eq!(find_cut_layer_bounds(svg).unwrap(), (0, 42));
    let svg = "<g id=\"Cut-Layer\"><g a=\"x>y\" /><g b='/>'></g></g></g>";
    assert_eq!(layer(svg), "<g id=\"Cut-Layer\"><g a=\"x>y\" /><g b='/>'></g></g>");
}

#[test]
fn bounds_count_no_tag_that_only_begins_like_a_group() {
    let svg = "<g id=\"Cut-Layer\"><glyph></g></g>tail";
    assert_eq!(find_cut_layer_bounds(svg).unwrap(), (0, 29));
    assert_eq!(layer("<g id=\"Cut-Layer\"><glyph></g>"), "<g id=\"Cut-Layer\"><glyph></g>");
}

#[test]
fn bounds_of_a_layer_without_content_are_those_of_its_tag() {
    assert_eq!(layer("<svg><g id=\"Cut-Layer\"/><g></g></svg>"), "<g id=\"Cut-Layer\"/>");
    assert_eq!(layer("<g id=\"Cut-Layer\" a=\">\" />"), "<g id=\"Cut-Layer\" a=\">\" />");
    assert_eq!(layer("<g id=\"Cut-Layer\" a=\"/>\"></g>"), "<g id=\"Cut-Layer\" a=\"/>\"></g>");
}

#[test]
fn layer_is_marked_on_a_group() {
    assert_eq!(message("<g><rect id=\"Cut-Layer\"/></g>"), NOT_FOUND);
    assert_eq!(message("<g data-id=\"Cut-Layer\"></g>"), NOT_FOUND);
    assert_eq!(message("<glyph id=\"Cut-Layer\"></g>"), NOT_FOUND);
    assert_eq!(message("<g> id=\"Cut-Layer\"</g>"), NOT_FOUND);
    assert_eq!(message("<svg><!-- < --> id=\"Cut-Layer\"> </g>"), NOT_FOUND);
    assert_eq!(message("<g a=' id=\"Cut-Layer\"'></g>"), NOT_FOUND);
    let svg = "<rect id=\"Cut-Layer\"/><g data-id=\"Cut-Layer\"></g><g\n\tid=\"Cut-Layer\">x</g>";
    assert_eq!(layer(svg), "<g\n\tid=\"Cut-Layer\">x</g>");
    let svg = "<g a=\"1>0\" id=\"Cut-Layer\">x</g>";
    assert_eq!(layer(svg), svg);
}

#[test]
fn layer_mark_needs_no_white_space() {
    assert_eq!(find_cut_layer_bounds("<g a=\"b\"id=\"Cut-Layer\"></g>").unwrap(), (0, 27));
    for svg in ["<g a='b'id=\"Cut-Layer\"></g>", "<g/id=\"Cut-Layer\">x</g>"] {
        assert_eq!(layer(svg), svg);
    }
    for svg in ["<g xml:id=\"Cut-Layer\"></g>", "<g _id=\"Cut-Layer\"></g>", "<g \u{e9}id=\"Cut-Layer\"></g>"] {
        assert_eq!(message(svg), NOT_FOUND);
    }
}

#[test]
fn bounds_with_quotes_in_disorder() {
    for svg in [
        "<g id=\"Cut-Layer\" a=\"></g>",
        "<g id=\"Cut-Layer\" a=\"<\">x</g>",
        "<g a=\"<\" id=\"Cut-Layer\">x</g>",
        "<g a='x id=\"Cut-Layer\"><path d='M'/></g>",
        "<g a=\"x id=\"Cut-Layer\"></g>",
        "<g id=\"Cut-Layer\"<path d=\"M\"/></g>",
        "<g id=\"Cut-Layer\"><g a=\"/><path/></g></g>",
        "<g id=\"Cut-Layer\"><g a=\"<\"/></g></g>",
    ] {
        assert_eq!(find_cut_layer_bounds(svg).unwrap(), (0, svg.len()), "{}", svg);
    }
    assert_eq!(message("<g a='x id=\"Cut-Layer\">"), UNMATCHED);
}

#[test]
fn bounds_are_byte_positions() {
    let svg = "\u{e9}\u{1f600}<g id=\"Cut-Layer\">\u{e9}</g>\u{e9}";
    assert_eq!(find_cut_layer_bounds(svg).unwrap(), (6, 30));
}

#[test]
fn bounds_take_the_first_layer() {
    let svg = "<g id=\"Cut-Layer\">1</g><g id=\"Cut-Layer\">2</g>";
    assert_eq!(layer(svg), "<g id=\"Cut-Layer\">1</g>");
}

#[test]
fn bounds_say_what_is_missing() {
    assert_eq!(message(""), NOT_FOUND);
    assert_eq!(message("<svg><g id=\"cut-layer\"></g></svg>"), NOT_FOUND);
    assert_eq!(message("id=\"Cut-Layer\"></g>"), NO_OPENING);
    assert_eq!(message("id=\"Cut-Layer\"<g id=\"Cut-Layer\"></g>"), NO_OPENING);
    assert_eq!(message("<g id=\"Cut-Layer\""), NOT_CLOSED);
    assert_eq!(message("<rect id=\"Cut-Layer\""), NOT_CLOSED);
    assert_eq!(message("<g id=\"Cut-Layer\" a=\"<\"/>"), UNMATCHED);
    assert_eq!(message("<rect id=\"Cut-Layer\"/><g id=\"Cut-Layer\""), NOT_CLOSED);
    assert_eq!(message("<g id=\"Cut-Layer\">"), UNMATCHED);
    assert_eq!(message("<g id=\"Cut-Layer\"><g></g>"), UNMATCHED);
    assert_eq!(message("</g><g id=\"Cut-Layer\"></G>"), UNMATCHED);
}

#[test]
fn layer_ends_with_a_closing_tag_and_is_balanced() {
    let svg = "a<g id=\"Cut-Layer\"><g>x</g><g>y</g></g></g>";
    let part = layer(svg);
    assert!(part.starts_with('<'));
    assert!(part.ends_with("</g>"));
    assert_eq!(part.matches("<g").count(), part.matches("</g>").count());
}

#[test]
fn extracts_every_value_in_order() {
    let svg = "<g><path d=\"M0 0\" id=\"x\"/><path class=\"c\" d=\"\"/><path a=\">\" d=\"Z\u{e9}\"/></g>";
    let paths = extract_cut_layer(svg, 0, svg.len()).unwrap();
    assert_eq!(paths, vec!["M0 0", "", "Z\u{e9}"]);
}

#[test]
fn extracts_after_any_white_space() {
    let svg = "<path\nd=\"M0 0\"/>";
    assert_eq!(extract_cut_layer(svg, 0, 16).unwrap(), vec!["M0 0"]);
    let svg = "<path\td=\"A\"/><path\r\n  d=\"B\"></path>";
    assert_eq!(extract_cut_layer(svg, 0, svg.len()).unwrap(), vec!["A", "B"]);
}

#[test]
fn extracts_from_paths_only() {
    let svg = "<rect d=\"M1 1\"/><path d=\"M0 0\"/>";
    assert_eq!(extract_cut_layer(svg, 0, 32).unwrap(), vec!["M0 0"]);
    let svg = "<paths d=\"A\"/><path a='x d=\"B\"'> d=\"C\"</path><path d=\"D\"/>";
    assert_eq!(extract_cut_layer(svg, 0, svg.len()).unwrap(), vec!["D"]);
}

#[test]
fn extracts_with_quotes_in_disorder() {
    let values = |svg: &str| extract_cut_layer(svg, 0, svg.len()).unwrap();
    assert_eq!(values("<path a=\"<\" d=\"M0 0\"/>"), vec!["M0 0"]);
    assert_eq!(values("<path a=\"<b>\" d=\"M0 0\"/>"), vec!["M0 0"]);
    assert_eq!(values("<path a='x d=\"M0 0\"/><path d='y'/>"), vec!["M0 0"]);
    assert_eq!(values("<path a=\"x d=\"M0 0\"/>"), vec!["M0 0"]);
    assert_eq!(values("<path a=\"/><path d=\"M0 0\"/>"), vec!["M0 0"]);
    assert_eq!(values("<path a=\"b\"d=\"M0 0\"/>"), vec!["M0 0"]);
    assert_eq!(values("<path d=\"M0 0\""), vec!["M0 0"]);
}

#[test]
fn joined_texts_join_their_values() {
    let values = |svg: &str| extract_cut_layer(svg, 0, svg.len()).unwrap();
    let texts = ["<path d=\"A\"/>", "x<path a=\">\" d=\"B\"></path>\n", "<rect d=\"C\"/> d=\"D\"<path d=\"E\"/>"];
    for one in texts {
        for other in texts {
            let mut both = values(one);
            both.append(&mut values(other));
            assert_eq!(values(&format!("{}{}", one, other)), both);
        }
    }
}

#[test]
fn extracts_only_inside_the_layer() {
    let svg = "<path d=\"A\"/><g id=\"Cut-Layer\"><path d=\"B\"/></g><path d=\"C\"/>";
    let (start, end) = find_cut_layer_bounds(svg).unwrap();
    assert_eq!(extract_cut_layer(svg, start, end).unwrap(), vec!["B"]);
}

#[test]
fn extracts_nothing_but_closed_values_of_the_attribute() {
    let svg = "<path id=\"B\"/><path xd=\"E\"/><path d='F'/><path d=\"C";
    assert_eq!(extract_cut_layer(svg, 0, svg.len()).unwrap_err().to_string(), NO_DATA);
    assert_eq!(extract_cut_layer("", 0, 0).unwrap_err().to_string(), NO_DATA);
}

#[test]
fn value_that_looks_like_the_attribute_is_a_value() {
    let svg = "<path d=\" d=\" e=\"A\"/>";
    assert_eq!(extract_cut_layer(svg, 0, svg.len()).unwrap(), vec![" d="]);
}

#[test]
fn extracted_values_hold_no_quote() {
    let svg = "<g><path d=\"M1\"/><path d=\"M2\" e=\"f\"/></g>";
    for value in extract_cut_layer(svg, 0, svg.len()).unwrap() {
        assert!(!value.contains('"'));
        assert!(svg.contains(&format!(" d=\"{}\"", value)));
    }
}

#[test]
fn print_svg_replaces_the_layer() {
    let svg = "<svg>\u{e9}<g id=\"Cut-Layer\"><path d=\"B\"/></g>\u{e9}</svg>";
    let (start, end) = find_cut_layer_bounds(svg).unwrap();
    assert_eq!(print_svg(svg, start, end, "<m/>"), "<svg>\u{e9}<m/>\u{e9}</svg>");
    assert_eq!(print_svg(svg, start, end, ""), "<svg>\u{e9}\u{e9}</svg>");
}

#[test]
fn print_svg_can_be_undone() {
    let svg = "<svg><g id=\"Cut-Layer\"><path d=\"B\"/></g></svg>";
    let (start, end) = find_cut_layer_bounds(svg).unwrap();
    let printed = print_svg(svg, start, end, "<marks/>");
    assert_eq!(printed.len(), svg.len() - (end - start) + "<marks/>".len());
    assert_eq!(print_svg(&printed, start, start + "<marks/>".len(), &svg[start..end]), svg);
    assert_eq!(print_svg(svg, start, end, &svg[start..end]), svg);
}

#[test]
fn appended_text_does_not_move_the_layer() {
    for svg in [
        "<g id=\"Cut-Layer\"><g><g/></g></g>",
        "<svg><g id=\"Cut-Layer\"><g a=\"</g></g>",
        "<rect/><g id=\"Cut-Layer\"/>",
    ] {
        let bounds = find_cut_layer_bounds(svg).unwrap();
        assert_eq!(bounds.1, svg.len());
        for more in ["", "\"/>", "<g>", "</g>", "<g id=\"Cut-Layer\"></g>", " id=\"Cut-Layer\""] {
            assert_eq!(find_cut_layer_bounds(&format!("{}{}", svg, more)).unwrap(), bounds);
        }
    }
}

#[test]
fn text_before_shifts_the_layer() {
    let svg = "<svg><rect id=\"Cut-Layer\"/><g id=\"Cut-Layer\"><g/></g></svg>";
    let (start, end) = find_cut_layer_bounds(svg).unwrap();
    for before in ["", "\u{feff}", "<?xml version=\"1.0\"?>\n", "<!-- > -->", "<g a=\">\"><g></g>", "</g>"] {
        let n = before.len();
        let longer = format!("{}{}", before, svg);
        assert_eq!(find_cut_layer_bounds(&longer).unwrap(), (n + start, n + end));
    }
}

#[test]
fn drawing_can_end_with_its_layer() {
    for svg in ["<svg><g id=\"Cut-Layer\"><g a=\"</g></g></svg>", "<svg><g id=\"Cut-Layer\"/></g></svg>"] {
        let (start, end) = find_cut_layer_bounds(svg).unwrap();
        assert!(end < svg.len());
        assert_eq!(find_cut_layer_bounds(&svg[..end]).unwrap(), (start, end));
    }
}
