use printandcut::page::{
    get_page_dimensions, page_of, parse_svg_dimension, parse_viewbox, svg_tag, viewbox_extent, viewbox_words,
    PageSize,
};
use printandcut::ratio::{close_to, A4_LANDSCAPE_RATIO, A4_RATIO, LETTER_LANDSCAPE_RATIO, LETTER_RATIO};
use printandcut::words::{is_white_space, split_words};

fn page(ratio: f64) -> PageSize {
    get_page_dimensions(Some(ratio.to_bits()))
}

fn page_by_doubles(ratio: f64) -> PageSize {
    if (ratio - 1.294).abs() <= 0.05 {
        PageSize::LetterLandscape
    } else if (ratio - 0.773).abs() <= 0.05 {
        PageSize::Letter
    } else if (ratio - 1.414).abs() <= 0.05 {
        PageSize::A4Landscape
    } else if (ratio - 0.707).abs() <= 0.05 {
        PageSize::A4
    } else {
        PageSize::Letter
    }
}

#[test]
fn tag_runs_to_its_end() {
    assert_eq!(svg_tag("<?xml?><svg a=\"b\"><g>"), Some("<svg a=\"b\">"));
    assert_eq!(svg_tag("\u{e9}<svg \u{e9}>"), Some("<svg \u{e9}>"));
}

#[test]
fn tag_without_a_start_is_read_from_the_beginning() {
    assert_eq!(svg_tag("<svg>x<g>"), Some("<svg>"));
    assert_eq!(svg_tag("abc"), Some("a"));
}

#[test]
fn tag_without_an_end_is_one_byte() {
    assert_eq!(svg_tag(">x<svg a"), Some("<"));
}

#[test]
fn tag_can_be_missing() {
    assert_eq!(svg_tag(""), None);
    assert_eq!(svg_tag("\u{e9}a"), None);
    assert_eq!(svg_tag("\u{e9}>"), Some("\u{e9}>"));
}

#[test]
fn viewbox_is_split_into_words() {
    assert_eq!(
        parse_viewbox("<svg viewBox=\" 0\t0 11.0\n8.5 \" x=\"1\">").unwrap(),
        vec!["0", "0", "11.0", "8.5"]
    );
    assert_eq!(parse_viewbox("<svg viewBox=\"\">").unwrap(), Vec::<String>::new());
    assert_eq!(parse_viewbox("<svg viewBox=\"0,0,1,2\">").unwrap(), vec!["0,0,1,2"]);
}

#[test]
fn viewbox_can_be_missing() {
    assert_eq!(parse_viewbox("<svg viewbox=\"0 0 1 2\">"), None);
    assert_eq!(parse_viewbox("<svg viewBox=\"0 0 1 2>"), None);
    assert_eq!(parse_viewbox(""), None);
}

#[test]
fn viewbox_is_that_of_the_drawing() {
    let svg = "<?xml viewBox=\"9 9 9 9\"?><svg viewBox=\"0 0 1 2\"><svg viewBox=\"8\">";
    assert_eq!(viewbox_words(svg).unwrap(), vec!["0", "0", "1", "2"]);
    assert_eq!(viewbox_words("<svg x=\"1\"><g viewBox=\"0 0 1 2\">"), None);
    assert_eq!(viewbox_words(""), None);
}

#[test]
fn extent_takes_four_numbers() {
    let read = vec![Some(0.0), Some(1.0), Some(8.5), Some(11.0)];
    assert_eq!(viewbox_extent(&read), Some((8.5, 11.0)));
    assert_eq!(viewbox_extent(&vec![Some(1), Some(2), Some(3)]), None);
    assert_eq!(viewbox_extent(&vec![Some(1), Some(2), Some(3), Some(4), Some(5)]), None);
    assert_eq!(viewbox_extent(&Vec::<Option<u8>>::new()), None);
}

#[test]
fn extent_passes_over_what_is_no_number() {
    let read = vec![Some(1), None, Some(2), Some(3), None, Some(4)];
    assert_eq!(viewbox_extent(&read), Some((3, 4)));
    assert_eq!(viewbox_extent(&vec![Some(1), Some(2), Some(3), None]), None);
}

#[test]
fn dimension_is_the_leading_numeral() {
    let tag = "<svg width=\"11.5in\" height=\"in\" d\u{e9}=\"7\u{e9}\" open=\"8.5>";
    assert_eq!(parse_svg_dimension(tag, "width").unwrap(), "11.5");
    assert_eq!(parse_svg_dimension(tag, "height").unwrap(), "");
    assert_eq!(parse_svg_dimension(tag, "d\u{e9}").unwrap(), "7");
    assert_eq!(parse_svg_dimension(tag, "open"), None);
    assert_eq!(parse_svg_dimension(tag, "depth"), None);
    assert_eq!(parse_svg_dimension(tag, "").unwrap(), "11.5");
    assert_eq!(parse_svg_dimension("a", "abc"), None);
    assert_eq!(parse_svg_dimension("a=\"1.2.3-4\"", "a").unwrap(), "1.2.3");
}

#[test]
fn pages_by_their_proportions() {
    assert_eq!(page(11.0 / 8.5), PageSize::LetterLandscape);
    assert_eq!(page(8.5 / 11.0), PageSize::Letter);
    assert_eq!(page(297.0 / 210.0), PageSize::A4Landscape);
    assert_eq!(page(210.0 / 297.0), PageSize::A4);
    assert_eq!(page(0.74), PageSize::Letter);
    assert_eq!(page(1.35), PageSize::Letter);
    assert_eq!(page(1.0), PageSize::Letter);
    assert_eq!(get_page_dimensions(None), PageSize::Letter);
}

#[test]
fn pages_for_unusual_ratios() {
    for ratio in [0.0, -0.0, -1.294, f64::NAN, f64::INFINITY, -f64::INFINITY, 5e-324, 1e308, 2.588] {
        assert_eq!(page(ratio), PageSize::Letter);
    }
}

#[test]
fn pages_agree_with_double_arithmetic() {
    for centre in [1.294f64, 0.773, 1.414, 0.707] {
        for edge in [centre - 0.05, centre, centre + 0.05] {
            let bits = edge.to_bits();
            for offset in 0..2000u64 {
                for near in [bits - offset, bits + offset] {
                    let ratio = f64::from_bits(near);
                    assert_eq!(page(ratio), page_by_doubles(ratio));
                }
            }
        }
    }
    let mut bits: u64 = 1;
    for step in 0..200_000u64 {
        bits = bits.wrapping_mul(6364136223846793005).wrapping_add(1442695040888963407);
        let any = f64::from_bits(bits);
        assert_eq!(page(any), page_by_doubles(any));
        let near = 0.4 + step as f64 * 0.00001;
        assert_eq!(page(near), page_by_doubles(near));
    }
}

#[test]
fn ratios_are_the_doubles_they_stand_for() {
    let unit = (1u64 << 57) as f64;
    assert_eq!(LETTER_LANDSCAPE_RATIO as f64 / unit, 1.294);
    assert_eq!(LETTER_RATIO as f64 / unit, 0.773);
    assert_eq!(A4_LANDSCAPE_RATIO as f64 / unit, 1.414);
    assert_eq!(A4_RATIO as f64 / unit, 0.707);
    assert!(close_to(0.7f64.to_bits(), A4_RATIO));
    assert!(!close_to(0.6f64.to_bits(), A4_RATIO));
}

#[test]
fn landscape_pages_are_for_wide_drawings() {
    for step in 1..3000 {
        let ratio = step as f64 * 0.001;
        match page(ratio) {
            PageSize::LetterLandscape | PageSize::A4Landscape => assert!(ratio > 1.0),
            PageSize::A4 => assert!(ratio < 1.0),
            PageSize::Letter => {}
        }
    }
}

#[test]
fn white_space_is_what_char_says() {
    for code in 0..=0x10ffffu32 {
        if let Some(c) = char::from_u32(code) {
            assert_eq!(is_white_space(c), c.is_whitespace());
        }
    }
}

#[test]
fn words_are_what_str_says() {
    for text in ["", " ", "a", " a", "a ", "ab  cd\u{3000}e\u{e9}\n", "\u{a0}x\u{85}\u{2028}y", "a b"] {
        let expected: Vec<&str> = text.split_whitespace().collect();
        assert_eq!(split_words(text), expected);
    }
}

#[test]
fn words_joined_are_the_text_without_space() {
    let text = " ab c\t\u{e9} ";
    assert_eq!(split_words(text).concat(), "abc\u{e9}");
    assert!(split_words(text).iter().all(|word| !word.is_empty()));
}

fn page_of_drawing(svg: &str) -> PageSize {
    page_of(svg, |word: &str| word.parse::<f64>().ok(), |width, height| (width / height).to_bits())
}

#[test]
fn page_is_that_of_the_view_box() {
    assert_eq!(page_of_drawing("<svg viewBox=\"0 0 11 8.5\">"), PageSize::LetterLandscape);
    assert_eq!(page_of_drawing("<svg viewBox=\"0 0 210 297\">"), PageSize::A4);
    assert_eq!(page_of_drawing("<svg viewBox=\"0 0 x 297 210\"></svg>"), PageSize::A4Landscape);
    assert_eq!(page_of_drawing("<svg viewBox=\"0 0 8.5 11\">"), PageSize::Letter);
    assert_eq!(page_of_drawing("<svg viewBox=\"0 0 1 0\">"), PageSize::Letter);
}

#[test]
fn page_without_a_usable_view_box_is_letter() {
    assert_eq!(page_of_drawing(""), PageSize::Letter);
    assert_eq!(page_of_drawing("<svg ><g viewBox=\"0 0 11 8.5\">"), PageSize::Letter);
    assert_eq!(page_of_drawing("<svg viewBox=\"0 11 8.5\">"), PageSize::Letter);
    assert_eq!(page_of_drawing("<svg viewBox=\"0 0 0 11 8.5\">"), PageSize::Letter);
}

#[test]
fn page_does_not_depend_on_what_follows() {
    let svg = "<svg viewBox=\"0 0 11 8.5\"></svg>";
    let longer = format!("{}<svg viewBox=\"0 0 210 297\">", svg);
    assert_eq!(page_of_drawing(&longer), page_of_drawing(svg));
}

#[test]
fn page_does_not_depend_on_what_precedes() {
    let svg = "<svg viewBox=\"0 0 11 8.5\"></svg>";
    for before in ["\u{feff}", "<?xml viewBox=\"0 0 210 297\"?>", "<svg>"] {
        assert_eq!(page_of_drawing(&format!("{}{}", before, svg)), page_of_drawing(svg));
    }
}

#[test]
fn unit_of_a_dimension_is_passed_over() {
    for unit in ["", "mm", " in", "\u{e9}1"] {
        let tag = format!("<svg width=\"8.5{}\">", unit);
        assert_eq!(parse_svg_dimension(&tag, "width").unwrap(), "8.5");
    }
}
