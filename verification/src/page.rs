//! The page that a drawing is printed on, by the proportions of its view box.

use vstd::arithmetic::power2::{lemma2_to64_rest, lemma_pow2_adds, lemma_pow2_pos, pow2};
use vstd::prelude::*;
use vstd::string::*;
use vstd::utf8::*;

use crate::ratio::{
    close_to, double_units, is_close, lemma_is_close, A4_LANDSCAPE_RATIO, A4_RATIO,
    LETTER_LANDSCAPE_RATIO, LETTER_RATIO, TOLERANCE,
};
use crate::text::{
    find, first_at, law_first_is_the_first, law_occurrence_is_the_pattern,
    lemma_ascii_boundaries, lemma_first_at, lemma_first_of_prefix, lemma_first_shifted,
    lemma_occurs_shifted, lemma_quote, occurs_at, quote, reads_at, slice,
};
use crate::words::{chars_of, split_words, words};

verus! {

/// The pages that can be told apart.
#[derive(Clone, Copy, PartialEq, Eq, Structural, Debug)]
pub enum PageSize {
    Letter,
    LetterLandscape,
    A4,
    A4Landscape,
}

/// Where the drawing's first tag stands: from `<svg ` to the next `>`. Without an `<svg ` it
/// begins at the start of the text, and without a `>` it is one byte long.
pub open spec fn svg_tag_bounds(svg: Seq<u8>) -> (int, int) {
    let start = match first_at(svg, encode_utf8("<svg "@), 0) {
        Some(at) => at,
        None => 0,
    };
    let end = match first_at(svg, encode_utf8(">"@), start) {
        Some(at) => at + 1,
        None => start + 1,
    };
    (start, end)
}

/// There is such a tag. There is none if the text holds neither `<svg ` nor `>`, and is empty
/// or begins with a character of more than one byte.
pub open spec fn has_svg_tag(svg: Seq<u8>) -> bool {
    ||| svg.len() > 0 && svg[0] < 0x80
    ||| first_at(svg, encode_utf8("<svg "@), 0) is Some
    ||| first_at(svg, encode_utf8(">"@), 0) is Some
}

/// The opening tag of the drawing.
pub fn svg_tag<'a>(svg: &'a str) -> (r: Option<&'a str>)
    ensures
        ({
            let bytes = encode_utf8(svg@);
            let (start, end) = svg_tag_bounds(bytes);
            &&& r is Some <==> has_svg_tag(bytes)
            &&& r matches Some(tag) ==> {
                &&& 0 <= start < end <= bytes.len()
                &&& encode_utf8(tag@) == bytes.subrange(start, end)
            }
        }),
{
    let bytes = svg.as_bytes();
    proof {
        encode_utf8_valid_utf8(svg@);
        is_char_boundary_start_end_of_seq(bytes@);
        reveal_strlit("<svg ");
        reveal_strlit(">");
        is_ascii_chars_encode_utf8("<svg "@);
        is_ascii_chars_encode_utf8(">"@);
        lemma_first_at(bytes@, encode_utf8("<svg "@), 0);
    }
    let start: usize = match find(bytes, "<svg ".as_bytes(), 0) {
        Some(at) => {
            proof {
                let pattern = encode_utf8("<svg "@);
                assert("<svg "@[0] as u8 == pattern[0]);
                assert(bytes@[at + 0] == pattern[0]);
                lemma_ascii_boundaries(bytes@, at as int);
            }
            at
        },
        None => 0,
    };
    proof {
        lemma_first_at(bytes@, encode_utf8(">"@), start as int);
    }
    match find(bytes, ">".as_bytes(), start) {
        Some(at) => {
            proof {
                let pattern = encode_utf8(">"@);
                assert(">"@[0] as u8 == pattern[0]);
                assert(bytes@[at + 0] == pattern[0]);
                lemma_ascii_boundaries(bytes@, at as int);
            }
            assert(at < bytes.len());
            Some(slice(svg, start, at + 1))
        },
        None => {
            if start < bytes.len() && bytes[start] < 0x80 {
                proof {
                    lemma_ascii_boundaries(bytes@, start as int);
                }
                Some(slice(svg, start, start + 1))
            } else {
                None
            }
        },
    }
}

/// The value of an attribute in a tag: what stands between the first `key` and the next quote.
pub open spec fn attribute_value(tag: Seq<u8>, key: Seq<u8>) -> Option<Seq<u8>> {
    match first_at(tag, key, 0) {
        None => None,
        Some(at) => match first_at(tag, quote(), at + key.len()) {
            None => None,
            Some(end) => Some(tag.subrange(at + key.len(), end)),
        },
    }
}

/// Reads an attribute; `key` ends with the quote that opens its value.
fn read_attribute<'a>(tag: &'a str, key: &[u8]) -> (r: Option<&'a str>)
    requires
        key@.len() > 0,
        key@.last() == 0x22,
    ensures
        match r {
            Some(value) => attribute_value(encode_utf8(tag@), key@) == Some(encode_utf8(value@)),
            None => attribute_value(encode_utf8(tag@), key@) is None,
        },
{
    let bytes = tag.as_bytes();
    proof {
        encode_utf8_valid_utf8(tag@);
        lemma_quote();
        lemma_first_at(bytes@, key@, 0);
    }
    let at: usize = match find(bytes, key, 0) {
        Some(at) => at,
        None => {
            return None;
        },
    };
    assert(at + key.len() <= bytes.len());
    let start: usize = at + key.len();
    proof {
        assert(bytes@[at + (key@.len() - 1)] == key@[key@.len() - 1]);
        lemma_ascii_boundaries(bytes@, start - 1);
        lemma_first_at(bytes@, quote(), start as int);
    }
    match find(bytes, "\"".as_bytes(), start) {
        Some(end) => {
            proof {
                assert(quote()[0] == 0x22);
                assert(bytes@[end + 0] == quote()[0]);
                lemma_ascii_boundaries(bytes@, end as int);
            }
            Some(slice(tag, start, end))
        },
        None => None,
    }
}

/// The words of the `viewBox` attribute of a tag; none if the attribute is missing or its value
/// does not end.
pub fn parse_viewbox(svg_tag: &str) -> (r: Option<Vec<String>>)
    ensures
        match (r, attribute_value(encode_utf8(svg_tag@), encode_utf8("viewBox=\""@))) {
            (Some(parts), Some(value)) => chars_of(parts@) == words(decode_utf8(value)),
            (None, None) => true,
            _ => false,
        },
{
    let key = "viewBox=\"".as_bytes();
    proof {
        reveal_strlit("viewBox=\"");
        is_ascii_chars_encode_utf8("viewBox=\""@);
        assert("viewBox=\""@[8] as u8 == key@[8]);
    }
    match read_attribute(svg_tag, key) {
        Some(value) => {
            proof {
                encode_utf8_decode_utf8(value@);
            }
            Some(split_words(value))
        },
        None => None,
    }
}

/// The view box of a drawing: the value of the attribute in its tag, if there are both.
pub open spec fn viewbox_value(svg: Seq<u8>) -> Option<Seq<u8>> {
    let (start, end) = svg_tag_bounds(svg);
    if has_svg_tag(svg) {
        attribute_value(svg.subrange(start, end), encode_utf8("viewBox=\""@))
    } else {
        None
    }
}

/// The words of the view box of a drawing; none if its tag or the attribute is missing.
pub fn viewbox_words(svg: &str) -> (r: Option<Vec<String>>)
    ensures
        match (r, viewbox_value(encode_utf8(svg@))) {
            (Some(parts), Some(value)) => chars_of(parts@) == words(decode_utf8(value)),
            (None, None) => true,
            _ => false,
        },
{
    match svg_tag(svg) {
        Some(tag) => parse_viewbox(tag),
        None => None,
    }
}

/// The numbers among what was read word by word, in order.
pub open spec fn numbers<T>(read: Seq<Option<T>>) -> Seq<T>
    decreases read.len(),
{
    if read.len() == 0 {
        seq![]
    } else {
        match read.last() {
            Some(number) => numbers(read.drop_last()).push(number),
            None => numbers(read.drop_last()),
        }
    }
}

/// The extent of a view box, from what was read of its words: the last two of four numbers. A
/// word that is no number is passed over.
pub fn viewbox_extent<T: Copy>(read: &Vec<Option<T>>) -> (r: Option<(T, T)>)
    ensures
        r == if numbers(read@).len() == 4 {
            Some((numbers(read@)[2], numbers(read@)[3]))
        } else {
            None
        },
{
    let mut parts: Vec<T> = Vec::new();
    let mut i: usize = 0;
    while i < read.len()
        invariant
            i <= read@.len(),
            parts@ == numbers(read@.take(i as int)),
        decreases read@.len() - i,
    {
        assert(read@.take(i + 1).drop_last() =~= read@.take(i as int));
        if let Some(number) = read[i] {
            parts.push(number);
        }
        i += 1;
    }
    assert(read@.take(i as int) =~= read@);
    if parts.len() == 4 {
        Some((parts[2], parts[3]))
    } else {
        None
    }
}

/// The byte is a digit or a decimal point.
pub open spec fn is_numeral(byte: u8) -> bool {
    0x30 <= byte <= 0x39 || byte == 0x2e
}

/// Where the digits and decimal points from `from` on end.
pub open spec fn numeral_end(text: Seq<u8>, from: int) -> int
    decreases text.len() - from,
{
    if from < text.len() && is_numeral(text[from]) {
        numeral_end(text, from + 1)
    } else {
        from
    }
}

/// The digits and decimal points that the value of the attribute `attr` begins with; none if
/// the attribute is missing or its value does not end.
pub fn parse_svg_dimension(svg_tag: &str, attr: &str) -> (r: Option<String>)
    ensures
        match (
            r,
            attribute_value(encode_utf8(svg_tag@), encode_utf8(attr@) + seq![0x3du8, 0x22]),
        ) {
            (Some(numeral), Some(value)) => encode_utf8(numeral@) == value.subrange(
                0,
                numeral_end(value, 0),
            ),
            (None, None) => true,
            _ => false,
        },
{
    if attr.as_bytes().len() >= svg_tag.as_bytes().len() {
        proof {
            lemma_first_at(
                encode_utf8(svg_tag@),
                encode_utf8(attr@) + seq![0x3du8, 0x22],
                0,
            );
        }
        return None;
    }
    let mut key: Vec<u8> = Vec::new();
    key.extend_from_slice(attr.as_bytes());
    key.push(0x3d);
    key.push(0x22);
    assert(key@ =~= encode_utf8(attr@) + seq![0x3du8, 0x22]);
    match read_attribute(svg_tag, key.as_slice()) {
        Some(value) => {
            let bytes = value.as_bytes();
            let mut end: usize = 0;
            proof {
                encode_utf8_valid_utf8(value@);
                is_char_boundary_start_end_of_seq(bytes@);
            }
            while end < bytes.len() && ((0x30 <= bytes[end] && bytes[end] <= 0x39) || bytes[end]
                == 0x2e)
                invariant
                    end <= bytes@.len(),
                    valid_utf8(bytes@),
                    is_char_boundary(bytes@, end as int),
                    numeral_end(bytes@, 0) == numeral_end(bytes@, end as int),
                decreases bytes@.len() - end,
            {
                proof {
                    lemma_ascii_boundaries(bytes@, end as int);
                }
                end += 1;
            }
            Some(slice(value, 0, end).to_owned())
        },
        None => None,
    }
}

/// The page for a drawing whose width and height have the given ratio.
pub open spec fn page_for(ratio: Option<u64>) -> PageSize {
    match ratio {
        None => PageSize::Letter,
        Some(bits) => if is_close(bits, LETTER_LANDSCAPE_RATIO) {
            PageSize::LetterLandscape
        } else if is_close(bits, LETTER_RATIO) {
            PageSize::Letter
        } else if is_close(bits, A4_LANDSCAPE_RATIO) {
            PageSize::A4Landscape
        } else if is_close(bits, A4_RATIO) {
            PageSize::A4
        } else {
            PageSize::Letter
        },
    }
}

/// Chooses the page by the ratio of width to height, given by the bits of the double; upright
/// letter paper for a ratio that is unknown or fits no page.
pub fn get_page_dimensions(ratio: Option<u64>) -> (r: PageSize)
    ensures
        r == page_for(ratio),
{
    match ratio {
        None => PageSize::Letter,
        Some(bits) => if close_to(bits, LETTER_LANDSCAPE_RATIO) {
            PageSize::LetterLandscape
        } else if close_to(bits, LETTER_RATIO) {
            PageSize::Letter
        } else if close_to(bits, A4_LANDSCAPE_RATIO) {
            PageSize::A4Landscape
        } else if close_to(bits, A4_RATIO) {
            PageSize::A4
        } else {
            PageSize::Letter
        },
    }
}

/// `number` is what `read` may make of the text.
pub open spec fn is_reading<T, R: Fn(&str) -> Option<T>>(
    number: Option<T>,
    text: Seq<char>,
    read: R,
) -> bool {
    exists|word: &str| word@ == text && #[trigger] call_ensures(read, (word,), number)
}

/// `found` is what `read` may make of the words, one by one.
pub open spec fn is_read_by<T, R: Fn(&str) -> Option<T>>(
    found: Seq<Option<T>>,
    words: Seq<Seq<char>>,
    read: R,
) -> bool {
    &&& found.len() == words.len()
    &&& forall|i: int| 0 <= i < found.len() ==> is_reading(#[trigger] found[i], words[i], read)
}

/// `page` is the page for a view box of which `found` was read: the one that fits the last two
/// of four numbers, divided by `divide`, or upright letter paper.
pub open spec fn is_page_for<T, D: Fn(T, T) -> u64>(
    page: PageSize,
    found: Seq<Option<T>>,
    divide: D,
) -> bool {
    let n = numbers(found);
    if n.len() == 4 {
        exists|ratio: u64| #[trigger]
            call_ensures(divide, (n[2], n[3]), ratio) && page == page_for(Some(ratio))
    } else {
        page is Letter
    }
}

/// `page` is the page for a drawing whose numbers `read` reads and `divide` divides: upright
/// letter paper for one without a view box, otherwise the page for what was read of it.
pub open spec fn is_page_of<T, R: Fn(&str) -> Option<T>, D: Fn(T, T) -> u64>(
    page: PageSize,
    svg: Seq<u8>,
    read: R,
    divide: D,
) -> bool {
    match viewbox_value(svg) {
        None => page is Letter,
        Some(value) => exists|found: Seq<Option<T>>| #[trigger]
            is_read_by(found, words(decode_utf8(value)), read) && is_page_for(page, found, divide),
    }
}

/// Chooses the page for a drawing by its view box. `read` reads a number, if the word is one,
/// and `divide` gives the bits of the double that one number divided by another is.
pub fn page_of<T: Copy, R: Fn(&str) -> Option<T>, D: Fn(T, T) -> u64>(
    svg: &str,
    read: R,
    divide: D,
) -> (r: PageSize)
    requires
        forall|word: &str| call_requires(read, (word,)),
        forall|width: T, height: T| call_requires(divide, (width, height)),
    ensures
        is_page_of(r, encode_utf8(svg@), read, divide),
{
    let parts = match viewbox_words(svg) {
        Some(parts) => parts,
        None => {
            return get_page_dimensions(None);
        },
    };
    let mut found: Vec<Option<T>> = Vec::new();
    let mut i: usize = 0;
    while i < parts.len()
        invariant
            i == found@.len() <= parts@.len(),
            forall|word: &str| call_requires(read, (word,)),
            forall|j: int| 0 <= j < i ==> is_reading(#[trigger] found@[j], parts@[j]@, read),
        decreases parts@.len() - i,
    {
        let word = parts[i].as_str();
        let number = read(word);
        assert(is_reading(number, parts@[i as int]@, read));
        found.push(number);
        i += 1;
    }
    proof {
        let read_words = chars_of(parts@);
        assert(read_words.len() == parts@.len());
        assert(is_read_by(found@, read_words, read));
    }
    match viewbox_extent(&found) {
        Some((width, height)) => {
            let ratio: u64 = divide(width, height);
            get_page_dimensions(Some(ratio))
        },
        None => get_page_dimensions(None),
    }
}

/// Text that is appended to a drawing whose tag ends changes neither its view box nor the pages
/// that may be chosen for it.
pub proof fn law_appended_text_keeps_page<T, R: Fn(&str) -> Option<T>, D: Fn(T, T) -> u64>(
    svg: Seq<u8>,
    more: Seq<u8>,
    page: PageSize,
    read: R,
    divide: D,
)
    requires
        first_at(svg, encode_utf8("<svg "@), 0) is Some,
        first_at(
            svg,
            encode_utf8(">"@),
            first_at(svg, encode_utf8("<svg "@), 0)->0,
        ) is Some,
    ensures
        viewbox_value(svg + more) == viewbox_value(svg),
        is_page_of(page, svg + more, read, divide) == is_page_of(page, svg, read, divide),
{
    let start = first_at(svg, encode_utf8("<svg "@), 0)->0;
    reveal_strlit(">");
    is_ascii_chars_encode_utf8(">"@);
    lemma_first_at(svg, encode_utf8("<svg "@), 0);
    lemma_first_of_prefix(svg, more, encode_utf8("<svg "@), 0);
    lemma_first_at(svg, encode_utf8(">"@), start);
    lemma_first_of_prefix(svg, more, encode_utf8(">"@), start);
    let end = svg_tag_bounds(svg).1;
    assert((svg + more).subrange(start, end) =~= svg.subrange(start, end));
}

/// Text before the first `<svg ` of a drawing changes neither its view box nor the pages that may
/// be chosen for it.
pub proof fn law_text_before_keeps_page<T, R: Fn(&str) -> Option<T>, D: Fn(T, T) -> u64>(
    before: Seq<u8>,
    svg: Seq<u8>,
    page: PageSize,
    read: R,
    divide: D,
)
    requires
        first_at(svg, encode_utf8("<svg "@), 0) is Some,
        forall|j: int|
            0 <= j < before.len() ==> !occurs_at(before + svg, encode_utf8("<svg "@), j),
    ensures
        viewbox_value(before + svg) == viewbox_value(svg),
        is_page_of(page, before + svg, read, divide) == is_page_of(page, svg, read, divide),
{
    let (all, n) = (before + svg, before.len() as int);
    let mark = encode_utf8("<svg "@);
    let start = first_at(svg, mark, 0)->0;
    reveal_strlit("<svg ");
    reveal_strlit(">");
    is_ascii_chars_encode_utf8("<svg "@);
    is_ascii_chars_encode_utf8(">"@);
    lemma_first_at(svg, mark, 0);
    lemma_first_at(all, mark, 0);
    lemma_occurs_shifted(before, svg, mark, start);
    let found = first_at(all, mark, 0)->0;
    lemma_occurs_shifted(before, svg, mark, found - n);
    assert(found == n + start);
    lemma_first_at(svg, encode_utf8(">"@), start);
    lemma_first_shifted(before, svg, encode_utf8(">"@), start);
    let end = svg_tag_bounds(svg).1;
    assert(svg_tag_bounds(all) == (n + start, n + end));
    assert(all.subrange(n + start, n + end) =~= svg.subrange(start, end));
}

/// The value of an attribute is what stands between its opening quote and the next one, behind
/// the first place where the attribute stands.
pub proof fn law_value_of_attribute(tag: Seq<u8>, key: Seq<u8>, at: int, end: int)
    requires
        reads_at(tag, key, at),
        forall|j: int| 0 <= j < at ==> !#[trigger] reads_at(tag, key, j),
        at + key.len() <= end < tag.len(),
        tag[end] == 0x22,
        forall|i: int| at + key.len() <= i < end ==> (#[trigger] tag[i]) != 0x22,
    ensures
        attribute_value(tag, key) == Some(tag.subrange(at + key.len(), end)),
{
    let from = at + key.len();
    law_first_is_the_first(tag, key, 0, at);
    assert(first_at(tag, key, 0) == Some(at));
    lemma_quote();
    assert(quote()[0] == 0x22);
    assert(occurs_at(tag, quote(), end));
    lemma_first_at(tag, quote(), from);
    let found = first_at(tag, quote(), from)->0;
    if found < end {
        assert(tag[found + 0] == quote()[0]);
    }
}

/// An attribute whose key stands nowhere in the tag, or first where no quote follows, has no
/// value.
pub proof fn law_missing_attribute(tag: Seq<u8>, key: Seq<u8>)
    requires
        forall|j: int|
            0 <= j && #[trigger] reads_at(tag, key, j) && (forall|i: int|
                0 <= i < j ==> !#[trigger] reads_at(tag, key, i)) ==> !tag.subrange(
                j + key.len(),
                tag.len() as int,
            ).contains(0x22),
    ensures
        attribute_value(tag, key) is None,
{
    lemma_first_at(tag, key, 0);
    if first_at(tag, key, 0) is Some {
        let at = first_at(tag, key, 0)->0;
        law_occurrence_is_the_pattern(tag, key, at);
        law_first_is_the_first(tag, key, 0, at);
        assert(reads_at(tag, key, at));
        lemma_quote();
        lemma_first_at(tag, quote(), at + key.len());
        if first_at(tag, quote(), at + key.len()) is Some {
            let end = first_at(tag, quote(), at + key.len())->0;
            assert(quote()[0] == 0x22);
            assert(tag[end + 0] == quote()[0]);
            let rest = tag.subrange(at + key.len(), tag.len() as int);
            assert(rest[end - (at + key.len())] == 0x22);
        }
    }
}

/// The drawing's tag begins at `start`: at the first `<svg `, or at the start of a text without
/// one.
pub open spec fn begins_tag(svg: Seq<u8>, start: int) -> bool {
    let mark = encode_utf8("<svg "@);
    ||| reads_at(svg, mark, start) && forall|j: int|
        0 <= j < start ==> !#[trigger] reads_at(svg, mark, j)
    ||| start == 0 && forall|j: int| 0 <= j ==> !#[trigger] reads_at(svg, mark, j)
}

proof fn lemma_begins_tag(svg: Seq<u8>, start: int)
    requires
        begins_tag(svg, start),
    ensures
        0 <= start,
        start == match first_at(svg, encode_utf8("<svg "@), 0) {
            Some(at) => at,
            None => 0,
        },
        first_at(svg, encode_utf8("<svg "@), 0) is Some <==> reads_at(
            svg,
            encode_utf8("<svg "@),
            start,
        ),
        reads_at(svg, encode_utf8("<svg "@), start) ==> start + 5 <= svg.len() && svg[start]
            == 0x3c,
{
    let mark = encode_utf8("<svg "@);
    reveal_strlit("<svg ");
    is_ascii_chars_encode_utf8("<svg "@);
    assert("<svg "@[0] as u8 == mark[0]);
    if reads_at(svg, mark, start) {
        law_first_is_the_first(svg, mark, 0, start);
        assert(svg.subrange(start, start + 5)[0] == svg[start]);
    } else {
        lemma_first_at(svg, mark, 0);
        if first_at(svg, mark, 0) is Some {
            law_occurrence_is_the_pattern(svg, mark, first_at(svg, mark, 0)->0);
        }
    }
}

proof fn lemma_next_bracket(svg: Seq<u8>, start: int, gt: int)
    requires
        0 <= start <= gt < svg.len(),
        svg[gt] == 0x3e,
        forall|i: int| start <= i < gt ==> (#[trigger] svg[i]) != 0x3e,
    ensures
        first_at(svg, encode_utf8(">"@), start) == Some(gt),
{
    let bracket = encode_utf8(">"@);
    reveal_strlit(">");
    is_ascii_chars_encode_utf8(">"@);
    assert(bracket =~= seq![0x3eu8]);
    assert(bracket[0] == 0x3e);
    assert(occurs_at(svg, bracket, gt));
    lemma_first_at(svg, bracket, start);
    let found = first_at(svg, bracket, start)->0;
    if found < gt {
        assert(svg[found + 0] == bracket[0]);
    }
}

/// The drawing's tag runs from where it begins to the next `>`.
pub proof fn law_tag_of_drawing(svg: Seq<u8>, start: int, gt: int)
    requires
        begins_tag(svg, start),
        start <= gt < svg.len(),
        svg[gt] == 0x3e,
        forall|i: int| start <= i < gt ==> (#[trigger] svg[i]) != 0x3e,
    ensures
        has_svg_tag(svg),
        svg_tag_bounds(svg) == (start, gt + 1),
{
    lemma_begins_tag(svg, start);
    lemma_next_bracket(svg, start, gt);
}

/// A tag that no `>` follows is its first byte, unless that is a part of a character.
pub proof fn law_tag_that_does_not_end(svg: Seq<u8>, start: int)
    requires
        begins_tag(svg, start),
        forall|i: int| start <= i < svg.len() ==> (#[trigger] svg[i]) != 0x3e,
    ensures
        has_svg_tag(svg) <==> start < svg.len() && (svg[start] < 0x80 || svg[0] < 0x80),
        svg_tag_bounds(svg) == (start, start + 1),
{
    let bracket = encode_utf8(">"@);
    lemma_begins_tag(svg, start);
    reveal_strlit(">");
    is_ascii_chars_encode_utf8(">"@);
    assert(bracket =~= seq![0x3eu8]);
    assert(bracket[0] == 0x3e);
    lemma_first_at(svg, bracket, start);
    if first_at(svg, bracket, start) is Some {
        assert(svg[first_at(svg, bracket, start)->0 + 0] == bracket[0]);
    }
    lemma_first_at(svg, bracket, 0);
    if start == 0 && first_at(svg, bracket, 0) is Some {
        assert(svg[first_at(svg, bracket, 0)->0 + 0] == bracket[0]);
    }
}

/// A drawing whose tag does not hold `viewBox="`, or does not hold the quote that ends the value,
/// has no view box, whatever other tags hold.
pub proof fn law_tag_without_view_box(svg: Seq<u8>, start: int, gt: int)
    requires
        begins_tag(svg, start),
        start <= gt < svg.len(),
        svg[gt] == 0x3e,
        forall|i: int| start <= i < gt ==> (#[trigger] svg[i]) != 0x3e,
        forall|j: int|
            start <= j && j + 9 <= gt && #[trigger] reads_at(svg, encode_utf8("viewBox=\""@), j)
                ==> !svg.subrange(j + 9, gt).contains(0x22),
    ensures
        viewbox_value(svg) is None,
{
    let key = encode_utf8("viewBox=\""@);
    let tag = svg.subrange(start, gt + 1);
    reveal_strlit("viewBox=\"");
    is_ascii_chars_encode_utf8("viewBox=\""@);
    assert("viewBox=\""@[8] as u8 == key[8]);
    law_tag_of_drawing(svg, start, gt);
    lemma_first_at(tag, key, 0);
    if first_at(tag, key, 0) is Some {
        let at = first_at(tag, key, 0)->0;
        law_occurrence_is_the_pattern(tag, key, at);
        assert(tag[at + 8] == key[8]);
        assert(start + at + 9 <= gt);
        assert(svg.subrange(start + at, start + at + 9) =~= tag.subrange(at, at + 9));
        assert(reads_at(svg, key, start + at));
        lemma_quote();
        lemma_first_at(tag, quote(), at + 9);
        if first_at(tag, quote(), at + 9) is Some {
            let end = first_at(tag, quote(), at + 9)->0;
            assert(quote()[0] == 0x22);
            assert(tag[end + 0] == quote()[0]);
            let rest = svg.subrange(start + at + 9, gt);
            assert(rest[end - (at + 9)] == 0x22);
        }
    }
}

/// The view box of a drawing is the value of the attribute `viewBox` in its tag, wherever in the
/// tag it stands: from behind the quote that opens it to the next quote.
pub proof fn law_view_box_of_drawing(svg: Seq<u8>, start: int, at: int, end: int, gt: int)
    requires
        begins_tag(svg, start),
        start <= at,
        reads_at(svg, encode_utf8("viewBox=\""@), at),
        forall|j: int|
            start <= j < at ==> !#[trigger] reads_at(svg, encode_utf8("viewBox=\""@), j),
        at + 9 <= end < gt < svg.len(),
        svg[end] == 0x22,
        forall|i: int| at + 9 <= i < end ==> (#[trigger] svg[i]) != 0x22,
        svg[gt] == 0x3e,
        forall|i: int| start <= i < gt ==> (#[trigger] svg[i]) != 0x3e,
    ensures
        viewbox_value(svg) == Some(svg.subrange(at + 9, end)),
{
    let key = encode_utf8("viewBox=\""@);
    let tag = svg.subrange(start, gt + 1);
    reveal_strlit("viewBox=\"");
    is_ascii_chars_encode_utf8("viewBox=\""@);
    assert(key.len() == 9);
    law_tag_of_drawing(svg, start, gt);
    assert(tag.subrange(at - start, at - start + 9) =~= svg.subrange(at, at + 9));
    assert forall|j: int| 0 <= j < at - start implies !#[trigger] reads_at(tag, key, j) by {
        if reads_at(tag, key, j) {
            assert(svg.subrange(start + j, start + j + 9) =~= tag.subrange(j, j + 9));
            assert(reads_at(svg, key, start + j));
        }
    }
    assert forall|i: int| at - start + 9 <= i < end - start implies (#[trigger] tag[i]) != 0x22 by {
        assert(tag[i] == svg[start + i]);
    }
    law_value_of_attribute(tag, key, at - start, end - start);
    assert(tag.subrange(at - start + 9, end - start) =~= svg.subrange(at + 9, end));
}

/// A drawing that does not hold `viewBox="` has no view box.
pub proof fn law_no_view_box(svg: Seq<u8>)
    requires
        forall|j: int| 0 <= j ==> !#[trigger] reads_at(svg, encode_utf8("viewBox=\""@), j),
    ensures
        viewbox_value(svg) is None,
{
    let key = encode_utf8("viewBox=\""@);
    let (start, end) = svg_tag_bounds(svg);
    let tag = svg.subrange(start, end);
    reveal_strlit("viewBox=\"");
    is_ascii_chars_encode_utf8("viewBox=\""@);
    reveal_strlit("<svg ");
    is_ascii_chars_encode_utf8("<svg "@);
    reveal_strlit(">");
    is_ascii_chars_encode_utf8(">"@);
    lemma_first_at(svg, encode_utf8("<svg "@), 0);
    lemma_first_at(svg, encode_utf8(">"@), start);
    if has_svg_tag(svg) && 0 <= start <= end <= svg.len() {
        lemma_first_at(tag, key, 0);
        if first_at(tag, key, 0) is Some {
            let at = first_at(tag, key, 0)->0;
            law_occurrence_is_the_pattern(tag, key, at);
            assert(svg.subrange(start + at, start + at + 9) =~= tag.subrange(at, at + 9));
            assert(reads_at(svg, key, start + at));
        }
    }
}

/// What was read, as it is.
pub open spec fn as_read<T>() -> spec_fn(Option<T>) -> Option<T> {
    |number: Option<T>| number
}

/// The numbers of a view box are what was read, without the words that are no numbers.
pub proof fn law_numbers_are_what_was_read<T>(read: Seq<Option<T>>)
    ensures
        numbers(read) == read.filter_map(as_read::<T>()),
    decreases read.len(),
{
    reveal(Seq::filter_map);
    if read.len() > 0 {
        law_numbers_are_what_was_read(read.drop_last());
        assert(numbers(read) =~= read.filter_map(as_read::<T>()));
    } else {
        assert(numbers(read) =~= read.filter_map(as_read::<T>()));
    }
}

/// The page by the bits of the double that width divided by height is: between the doubles next
/// to 1.294, 0.773, 1.414 and 0.707, each with 0.05 to either side, in that order.
pub proof fn law_page_by_ratio(bits: u64)
    ensures
        page_for(None) is Letter,
        page_for(Some(bits)) == if 0x3ff3_e76c_8b43_9582 <= bits <= 0x3ff5_8106_24dd_2f1a {
            PageSize::LetterLandscape
        } else if 0x3fe7_22d0_e560_418a <= bits <= 0x3fea_5604_1893_74bc {
            PageSize::Letter
        } else if 0x3ff5_d2f1_a9fb_e76d <= bits <= 0x3ff7_6c8b_4395_8105 {
            PageSize::A4Landscape
        } else if 0x3fe5_0624_dd2f_1aa0 <= bits <= 0x3fe8_3958_1062_4dd2 {
            PageSize::A4
        } else {
            PageSize::Letter
        },
{
    lemma_is_close(bits, LETTER_LANDSCAPE_RATIO);
    lemma_is_close(bits, LETTER_RATIO);
    lemma_is_close(bits, A4_LANDSCAPE_RATIO);
    lemma_is_close(bits, A4_RATIO);
}

/// `read`, called with the word, may return the number.
pub open spec fn may_read<T, R: Fn(&str) -> Option<T>>(
    read: R,
    word: Seq<char>,
    number: Option<T>,
) -> bool {
    exists|text: &str| text@ == word && #[trigger] call_ensures(read, (text,), number)
}

/// `divide`, called with the last two of four numbers, may return a ratio that fits the page; for
/// any other count of numbers the page is upright letter paper.
pub open spec fn fits<T, D: Fn(T, T) -> u64>(
    page: PageSize,
    n: Seq<T>,
    divide: D,
) -> bool {
    if n.len() == 4 {
        exists|ratio: u64| #[trigger]
            call_ensures(divide, (n[2], n[3]), ratio) && page == page_for(Some(ratio))
    } else {
        page is Letter
    }
}

/// The page is chosen by what the view box says: every word of it is handed to `read`, the last
/// two of exactly four numbers are handed to `divide`, and what comes back decides.
pub proof fn law_page_in_steps<T, R: Fn(&str) -> Option<T>, D: Fn(T, T) -> u64>(
    page: PageSize,
    svg: Seq<u8>,
    read: R,
    divide: D,
) -> (found: Seq<Option<T>>)
    requires
        is_page_of(page, svg, read, divide),
    ensures
        match viewbox_value(svg) {
            None => page is Letter,
            Some(value) => {
                let parts = words(decode_utf8(value));
                &&& found.len() == parts.len()
                &&& forall|i: int|
                    0 <= i < found.len() ==> may_read(read, parts[i], #[trigger] found[i])
                &&& fits(page, found.filter_map(as_read::<T>()), divide)
            },
        },
{
    if viewbox_value(svg) is Some {
        let parts = words(decode_utf8(viewbox_value(svg)->0));
        let found = choose|found: Seq<Option<T>>| #[trigger]
            is_read_by(found, parts, read) && is_page_for(page, found, divide);
        law_numbers_are_what_was_read(found);
        assert forall|i: int| 0 <= i < found.len() implies may_read(
            read,
            parts[i],
            #[trigger] found[i],
        ) by {
            assert(is_reading(found[i], parts[i], read));
        }
        found
    } else {
        seq![]
    }
}

/// The number of a dimension is the digits and decimal points that the attribute's value begins
/// with, whatever unit follows them up to the closing quote.
pub proof fn law_dimension_of_tag(tag: Seq<u8>, key: Seq<u8>, at: int, unit: int, end: int)
    requires
        reads_at(tag, key, at),
        forall|j: int| 0 <= j < at ==> !#[trigger] reads_at(tag, key, j),
        at + key.len() <= unit <= end < tag.len(),
        tag[end] == 0x22,
        forall|i: int| at + key.len() <= i < end ==> (#[trigger] tag[i]) != 0x22,
        forall|i: int|
            at + key.len() <= i < unit ==> 0x30 <= (#[trigger] tag[i]) <= 0x39 || tag[i] == 0x2e,
        unit < end ==> !(0x30 <= tag[unit] <= 0x39) && tag[unit] != 0x2e,
    ensures
        attribute_value(tag, key) matches Some(value) && value.subrange(0, numeral_end(value, 0))
            == tag.subrange(at + key.len(), unit),
{
    let from = at + key.len();
    law_value_of_attribute(tag, key, at, end);
    let numeral = tag.subrange(from, unit);
    let rest = tag.subrange(unit, end);
    assert(tag.subrange(from, end) =~= numeral + rest);
    assert forall|i: int| 0 <= i < numeral.len() implies is_numeral(#[trigger] numeral[i]) by {
        assert(numeral[i] == tag[from + i]);
    }
    if rest.len() > 0 {
        assert(rest[0] == tag[unit]);
    }
    law_unit_is_passed_over(numeral, rest);
}

/// `read` makes the same of the same text every time.
pub open spec fn reads_alike<T, R: Fn(&str) -> Option<T>>(read: R) -> bool {
    forall|text: Seq<char>, a: Option<T>, b: Option<T>|
        #[trigger] is_reading(a, text, read) && #[trigger] is_reading(b, text, read) ==> a == b
}

/// `divide` makes the same of the same two numbers every time.
pub open spec fn divides_alike<T, D: Fn(T, T) -> u64>(divide: D) -> bool {
    forall|x: T, y: T, a: u64, b: u64|
        #[trigger] call_ensures(divide, (x, y), a) && #[trigger] call_ensures(divide, (x, y), b)
            ==> a == b
}

/// Drawings with the same view box get the same page.
pub proof fn law_same_view_box_same_page<T, R: Fn(&str) -> Option<T>, D: Fn(T, T) -> u64>(
    page1: PageSize,
    page2: PageSize,
    svg1: Seq<u8>,
    svg2: Seq<u8>,
    read: R,
    divide: D,
)
    requires
        reads_alike(read),
        divides_alike(divide),
        viewbox_value(svg1) == viewbox_value(svg2),
        is_page_of(page1, svg1, read, divide),
        is_page_of(page2, svg2, read, divide),
    ensures
        page1 == page2,
{
    if viewbox_value(svg1) is Some {
        let parts = words(decode_utf8(viewbox_value(svg1)->0));
        let found1 = choose|found: Seq<Option<T>>| #[trigger]
            is_read_by(found, parts, read) && is_page_for(page1, found, divide);
        let found2 = choose|found: Seq<Option<T>>| #[trigger]
            is_read_by(found, parts, read) && is_page_for(page2, found, divide);
        assert forall|i: int| 0 <= i < parts.len() implies found1[i] == found2[i] by {
            assert(is_reading(found1[i], parts[i], read));
            assert(is_reading(found2[i], parts[i], read));
        }
        assert(found1 =~= found2);
    }
}

/// What follows the numeral of a dimension, such as its unit, does not matter.
pub proof fn law_unit_is_passed_over(numeral: Seq<u8>, unit: Seq<u8>)
    requires
        forall|i: int| 0 <= i < numeral.len() ==> is_numeral(#[trigger] numeral[i]),
        unit.len() > 0 ==> !is_numeral(unit[0]),
    ensures
        (numeral + unit).subrange(0, numeral_end(numeral + unit, 0)) == numeral,
{
    lemma_numeral_end(numeral, unit, 0);
    assert((numeral + unit).subrange(0, numeral.len() as int) =~= numeral);
}

proof fn lemma_numeral_end(numeral: Seq<u8>, unit: Seq<u8>, from: int)
    requires
        forall|i: int| 0 <= i < numeral.len() ==> is_numeral(#[trigger] numeral[i]),
        unit.len() > 0 ==> !is_numeral(unit[0]),
        0 <= from <= numeral.len(),
    ensures
        numeral_end(numeral + unit, from) == numeral.len(),
    decreases numeral.len() - from,
{
    if from < numeral.len() {
        assert((numeral + unit)[from] == numeral[from]);
        lemma_numeral_end(numeral, unit, from + 1);
    } else if unit.len() > 0 {
        assert((numeral + unit)[from] == unit[0]);
    }
}

/// A page in landscape is chosen only for a drawing that is wider than high, and A4 upright
/// only for one that is higher than wide.
pub proof fn law_page_fits_orientation(bits: u64)
    ensures
        page_for(Some(bits)) is LetterLandscape || page_for(Some(bits)) is A4Landscape ==> {
            &&& double_units(bits) is Some
            &&& double_units(bits)->0 > pow2(1074)
        },
        page_for(Some(bits)) is A4 ==> {
            &&& double_units(bits) is Some
            &&& 0 < double_units(bits)->0 < pow2(1074)
        },
{
    lemma2_to64_rest();
    lemma_pow2_pos(1017);
    lemma_pow2_adds(57, 1017);
    let unit = pow2(1017) as int;
    let page = page_for(Some(bits));
    let value = double_units(bits)->0;
    let one: int = 0x200_0000_0000_0000;
    let slack = TOLERANCE as int;
    if page is LetterLandscape || page is A4Landscape {
        let ratio = if page is LetterLandscape {
            LETTER_LANDSCAPE_RATIO as int
        } else {
            A4_LANDSCAPE_RATIO as int
        };
        assert(value > one * unit) by (nonlinear_arith)
            requires
                -(slack * unit) <= value - ratio * unit,
                ratio - slack > one,
                unit >= 1,
        ;
    } else if page is A4 {
        let ratio = A4_RATIO as int;
        assert(0 < value < one * unit) by (nonlinear_arith)
            requires
                -(slack * unit) <= value - ratio * unit <= slack * unit,
                ratio - slack > 0,
                ratio + slack < one,
                unit >= 1,
        ;
    }
}

} // verus!
