//! The cut layer of a drawing: the group whose `id` is `Cut-Layer`.

use vstd::prelude::*;
use vstd::string::*;
use vstd::utf8::*;

use crate::error::ConvertError;
use crate::tags::{
    find_tag_around, find_tag_end, is_name_byte, is_quote, is_self_closing, is_space, is_tag,
    is_tag_name, lemma_owned_before_end, lemma_tag_around, lemma_tag_end, lies_inside, name_byte,
    self_closing, space, tag_around, tag_end, tag_stands_at, tag_state,
};
use crate::text::{
    find, first_at, last_before, lemma_ascii_boundaries, lemma_encode_concat, lemma_first_at,
    lemma_quote, occurs_at, quote, rfind, slice, stands_at,
};

verus! {

/// The attribute that marks the cut layer.
pub open spec fn layer_id() -> Seq<u8> {
    encode_utf8("id=\"Cut-Layer\""@)
}

/// What a group's opening tag begins with.
pub open spec fn group_name() -> Seq<u8> {
    encode_utf8("<g"@)
}

/// A group's closing tag.
pub open spec fn group_close() -> Seq<u8> {
    encode_utf8("</g>"@)
}

/// What every tag ends with.
pub open spec fn bracket() -> Seq<u8> {
    encode_utf8(">"@)
}

/// A tag at `at` opens a group that another tag closes: it is a `<g>` tag, not one of another
/// name and not a `<g/>`.
pub open spec fn opens_group(text: Seq<u8>, at: int) -> bool {
    is_tag(text, group_name(), at) && !is_self_closing(text, at)
}

/// How many groups are opened at a position from `a` on and before `b`.
pub open spec fn opened_in(text: Seq<u8>, a: int, b: int) -> nat
    decreases b - a,
{
    if a >= b {
        0
    } else {
        opened_in(text, a, b - 1) + if opens_group(text, b - 1) {
            1nat
        } else {
            0nat
        }
    }
}

/// How many groups are closed at a position from `a` on and before `b`.
pub open spec fn closed_in(text: Seq<u8>, a: int, b: int) -> nat
    decreases b - a,
{
    if a >= b {
        0
    } else {
        closed_in(text, a, b - 1) + if occurs_at(text, group_close(), b - 1) {
            1nat
        } else {
            0nat
        }
    }
}

/// A group whose content begins at `from` is closed by the closing tag at `at`: counted from
/// `from` on, that tag closes one group more than are opened.
pub open spec fn closes_at(text: Seq<u8>, from: int, at: int) -> bool {
    &&& occurs_at(text, group_close(), at)
    &&& closed_in(text, from, at + 1) == opened_in(text, from, at) + 1
}

/// The first position, not before `at`, of a tag that closes the group whose content begins
/// at `from`.
pub open spec fn closing_tag(text: Seq<u8>, from: int, at: int) -> Option<int>
    decreases text.len() - at,
{
    if at < 0 || at >= text.len() {
        None
    } else if closes_at(text, from, at) {
        Some(at)
    } else {
        closing_tag(text, from, at + 1)
    }
}

/// At `at` the tag of a group says that the group is the cut layer: the attribute belongs to such
/// a tag, and no longer name ends there.
pub open spec fn marks_layer(svg: Seq<u8>, at: int) -> bool {
    &&& occurs_at(svg, layer_id(), at)
    &&& tag_around(svg, group_name(), at, at) is Some
    &&& !is_name_byte(svg[at - 1])
}

/// The first position, not before `at`, at which the tag of a group says so.
pub open spec fn layer_mark(svg: Seq<u8>, at: int) -> Option<int>
    decreases svg.len() - at,
{
    if at < 0 || at >= svg.len() {
        None
    } else if marks_layer(svg, at) {
        Some(at)
    } else {
        layer_mark(svg, at + 1)
    }
}

/// Where the opening tag of the layer ends that begins at `start` and is marked at `id`: at its
/// own end, or at the next `>` if it has none.
pub open spec fn opening_end(svg: Seq<u8>, start: int, id: int) -> Option<int> {
    match tag_end(svg, start, start + 1) {
        Some(gt) => Some(gt),
        None => first_at(svg, bracket(), id),
    }
}

/// Where the group element stands whose tag begins at `start` and is marked at `id`: to the end
/// of its closing tag, or to the end of the tag itself where that closes the element. Without a
/// complete one, the message that says what is missing.
pub open spec fn group_bounds(svg: Seq<u8>, start: int, id: int) -> Result<(int, int), Seq<char>> {
    match opening_end(svg, start, id) {
        None => Err("Malformed SVG: Cut-Layer <g> tag is not closed"@),
        Some(gt) => if is_self_closing(svg, start) {
            Ok((start, gt + 1))
        } else {
            match closing_tag(svg, gt + 1, gt + 1) {
                None => Err("Malformed SVG: unmatched <g> tag inside Cut-Layer"@),
                Some(close) => Ok((start, close + 4)),
            }
        },
    }
}

/// Where the cut layer stands in a drawing: the first group whose tag marks it as the layer.
/// Without a complete one, the message that says what is missing; a text with the mark before
/// any `<`, or with no `>` after the mark, is malformed wherever the mark stands.
pub open spec fn layer_bounds(svg: Seq<u8>) -> Result<(int, int), Seq<char>> {
    match first_at(svg, layer_id(), 0) {
        None => Err("Cut-Layer group not found (expected id=\"Cut-Layer\" on a <g> element)"@),
        Some(first) => if last_before(svg, 0x3c, first) is None {
            Err("Malformed SVG: could not find opening < for Cut-Layer group"@)
        } else if first_at(svg, bracket(), first) is None {
            Err("Malformed SVG: Cut-Layer <g> tag is not closed"@)
        } else {
            match layer_mark(svg, first) {
                None => Err(
                    "Cut-Layer group not found (expected id=\"Cut-Layer\" on a <g> element)"@,
                ),
                Some(id) => group_bounds(svg, tag_around(svg, group_name(), id, id)->0, id),
            }
        },
    }
}

/// `start` and `end` mark out a part of the text that can be cut out of it.
pub open spec fn is_part(text: Seq<u8>, start: int, end: int) -> bool {
    &&& 0 <= start <= end <= text.len()
    &&& is_char_boundary(text, start)
    &&& is_char_boundary(text, end)
}

/// The marks, byte by byte.
pub proof fn lemma_marks()
    ensures
        group_name() == seq![0x3cu8, 0x67],
        group_close() == seq![0x3cu8, 0x2f, 0x67, 0x3e],
        bracket() == seq![0x3eu8],
        layer_id().len() == 14,
        forall|k: int| 0 <= k < 14 ==> layer_id()[k] != 0x3e,
        is_tag_name(group_name()),
{
    reveal_strlit("<g");
    reveal_strlit("</g>");
    reveal_strlit(">");
    reveal_strlit("id=\"Cut-Layer\"");
    is_ascii_chars_encode_utf8("<g"@);
    is_ascii_chars_encode_utf8("</g>"@);
    is_ascii_chars_encode_utf8(">"@);
    is_ascii_chars_encode_utf8("id=\"Cut-Layer\""@);
    assert(group_name() =~= seq![0x3cu8, 0x67]);
    assert(group_close() =~= seq![0x3cu8, 0x2f, 0x67, 0x3e]);
    assert(bracket() =~= seq![0x3eu8]);
    assert(layer_id() =~= seq![
        0x69u8, 0x64, 0x3d, 0x22, 0x43, 0x75, 0x74, 0x2d, 0x4c, 0x61, 0x79, 0x65, 0x72, 0x22,
    ]);
}

/// No more groups can be opened than there are positions.
proof fn lemma_opened_bound(text: Seq<u8>, a: int, b: int)
    requires
        a <= b,
    ensures
        opened_in(text, a, b) <= b - a,
    decreases b - a,
{
    if a < b {
        lemma_opened_bound(text, a, b - 1);
    }
}

/// `closing_tag` is the least position of a tag that closes the group.
pub proof fn lemma_closing_tag(text: Seq<u8>, from: int, at: int)
    requires
        0 <= at,
    ensures
        match closing_tag(text, from, at) {
            Some(c) => {
                &&& at <= c
                &&& closes_at(text, from, c)
                &&& forall|j: int| at <= j < c ==> !closes_at(text, from, j)
            },
            None => forall|j: int| at <= j ==> !closes_at(text, from, j),
        },
    decreases text.len() - at,
{
    if at < text.len() {
        if !closes_at(text, from, at) {
            lemma_closing_tag(text, from, at + 1);
        }
    } else {
        lemma_marks();
    }
}

/// `layer_mark` is the least position at which the layer is marked.
pub proof fn lemma_layer_mark(svg: Seq<u8>, at: int)
    requires
        0 <= at,
    ensures
        match layer_mark(svg, at) {
            Some(id) => {
                &&& at <= id
                &&& marks_layer(svg, id)
                &&& forall|j: int| at <= j < id ==> !marks_layer(svg, j)
            },
            None => forall|j: int| at <= j ==> !marks_layer(svg, j),
        },
    decreases svg.len() - at,
{
    if at < svg.len() {
        if !marks_layer(svg, at) {
            lemma_layer_mark(svg, at + 1);
        }
    } else {
        lemma_marks();
    }
}

/// Finds the end of the group whose content begins at `from`: the position after its closing
/// tag.
fn find_group_end(svg: &[u8], from: usize) -> (r: Option<usize>)
    requires
        1 <= from <= svg@.len(),
    ensures
        match r {
            Some(end) => closing_tag(svg@, from as int, from as int) == Some(end - 4),
            None => closing_tag(svg@, from as int, from as int) is None,
        },
        r matches Some(end) ==> from <= end - 4 && occurs_at(svg@, group_close(), end - 4),
{
    let mut depth: usize = 1;
    let mut pos: usize = from;
    proof {
        lemma_marks();
    }
    while pos < svg.len()
        invariant
            1 <= from <= pos <= svg@.len() == svg.len(),
            depth >= 1,
            depth == 1 + opened_in(svg@, from as int, pos as int) - closed_in(
                svg@,
                from as int,
                pos as int,
            ),
            closing_tag(svg@, from as int, from as int) == closing_tag(
                svg@,
                from as int,
                pos as int,
            ),
            group_name() == seq![0x3cu8, 0x67],
            group_close() == seq![0x3cu8, 0x2f, 0x67, 0x3e],
        decreases svg@.len() - pos,
    {
        assert(group_close()[0] == 0x3c && group_close()[1] == 0x2f);
        assert(group_name()[0] == 0x3c && group_name()[1] == 0x67);
        proof {
            lemma_opened_bound(svg@, from as int, pos as int);
        }
        if svg[pos] == 0x3c {
            if stands_at(svg, "</g>".as_bytes(), pos) {
                assert(svg@[pos + 1] == 0x2f);
                assert(!occurs_at(svg@, group_name(), pos as int));
                depth -= 1;
                if depth == 0 {
                    assert(closes_at(svg@, from as int, pos as int));
                    return Some(pos + 4);
                }
            } else if tag_stands_at(svg, "<g".as_bytes(), pos) && !self_closing(svg, pos) {
                depth += 1;
            }
        } else {
            assert(!occurs_at(svg@, group_name(), pos as int)) by {
                assert(svg@[pos + 0] != group_name()[0]);
            }
            assert(!occurs_at(svg@, group_close(), pos as int)) by {
                assert(svg@[pos + 0] != group_close()[0]);
            }
        }
        pos += 1;
    }
    None
}

/// Finds the first position, not before `from`, at which the tag of a group marks the layer.
fn find_layer_mark(svg: &[u8], from: usize) -> (r: Option<usize>)
    requires
        from <= svg@.len(),
    ensures
        match r {
            Some(id) => layer_mark(svg@, from as int) == Some(id as int),
            None => layer_mark(svg@, from as int) is None,
        },
{
    let mut at: usize = from;
    while at < svg.len()
        invariant
            at <= svg@.len() == svg.len(),
            layer_mark(svg@, from as int) == layer_mark(svg@, at as int),
        decreases svg@.len() - at,
    {
        if stands_at(svg, "id=\"Cut-Layer\"".as_bytes(), at) {
            proof {
                lemma_tag_around(svg@, group_name(), at as int, at as int);
            }
            if find_tag_around(svg, "<g".as_bytes(), at).is_some() && !name_byte(svg[at - 1]) {
                return Some(at);
            }
        }
        at += 1;
    }
    None
}

/// Finds the byte range of the `<g id="Cut-Layer" ...>...</g>` element: the start of its
/// opening tag and the end of its closing tag. An element that is closed by its own tag,
/// `<g id="Cut-Layer" .../>`, ends with that tag.
pub fn find_cut_layer_bounds(svg: &str) -> (r: Result<(usize, usize), ConvertError>)
    ensures
        match r {
            Ok((start, end)) => layer_bounds(encode_utf8(svg@)) == Ok::<(int, int), Seq<char>>(
                (start as int, end as int),
            ),
            Err(e) => layer_bounds(encode_utf8(svg@)) == Err::<(int, int), Seq<char>>(e.0@),
        },
        r matches Ok((start, end)) ==> is_part(encode_utf8(svg@), start as int, end as int),
{
    let bytes = svg.as_bytes();
    proof {
        lemma_marks();
        encode_utf8_valid_utf8(svg@);
        lemma_first_at(bytes@, layer_id(), 0);
    }
    let first: usize = match find(bytes, "id=\"Cut-Layer\"".as_bytes(), 0) {
        Some(first) => first,
        None => {
            return Err(
                ConvertError::from(
                    "Cut-Layer group not found (expected id=\"Cut-Layer\" on a <g> element)",
                ),
            );
        },
    };
    if rfind(bytes, 0x3c, first).is_none() {
        return Err(
            ConvertError::from("Malformed SVG: could not find opening < for Cut-Layer group"),
        );
    }
    if find(bytes, ">".as_bytes(), first).is_none() {
        return Err(ConvertError::from("Malformed SVG: Cut-Layer <g> tag is not closed"));
    }
    let id: usize = match find_layer_mark(bytes, first) {
        Some(id) => id,
        None => {
            return Err(
                ConvertError::from(
                    "Cut-Layer group not found (expected id=\"Cut-Layer\" on a <g> element)",
                ),
            );
        },
    };
    proof {
        lemma_layer_mark(bytes@, first as int);
        lemma_tag_around(bytes@, group_name(), id as int, id as int);
        lemma_first_at(bytes@, bracket(), id as int);
    }
    let start: usize = find_tag_around(bytes, "<g".as_bytes(), id).unwrap();
    let own_end: Option<usize> = find_tag_end(bytes, start);
    let gt: usize = match own_end {
        Some(gt) => gt,
        None => match find(bytes, ">".as_bytes(), id) {
            Some(gt) => {
                proof {
                    assert(bracket()[0] == 0x3e);
                    assert(bytes@[gt + 0] == bracket()[0]);
                }
                gt
            },
            None => {
                return Err(ConvertError::from("Malformed SVG: Cut-Layer <g> tag is not closed"));
            },
        },
    };
    assert(gt < bytes.len());
    proof {
        assert(group_name()[0] == 0x3c);
        assert(bytes@[start + 0] == group_name()[0]);
        lemma_ascii_boundaries(bytes@, start as int);
        lemma_ascii_boundaries(bytes@, gt as int);
    }
    if self_closing(bytes, start) {
        return Ok((start, gt + 1));
    }
    let end: usize = match find_group_end(bytes, gt + 1) {
        Some(end) => end,
        None => {
            return Err(ConvertError::from("Malformed SVG: unmatched <g> tag inside Cut-Layer"));
        },
    };
    proof {
        assert(group_close()[3] == 0x3e);
        assert(bytes@[end - 4 + 3] == group_close()[3]);
        lemma_ascii_boundaries(bytes@, end - 1);
    }
    Ok((start, end))
}

/// What a path's tag begins with.
pub open spec fn path_name() -> Seq<u8> {
    encode_utf8("<path"@)
}

/// What the value of a `d` attribute follows.
pub open spec fn data_mark() -> Seq<u8> {
    encode_utf8("d=\""@)
}

/// At `at` the tag of a path has its `d` attribute, after white space or right after a value.
pub open spec fn marks_data(layer: Seq<u8>, at: int) -> bool {
    &&& occurs_at(layer, data_mark(), at)
    &&& tag_around(layer, path_name(), at, at) matches Some(start) && {
        ||| is_space(layer[at - 1])
        ||| is_quote(layer[at - 1]) && tag_state(layer, start, at) is Inside
    }
}

/// The value of the path's `d` attribute at `at`, up to the next quote; none without such an
/// attribute or such a quote.
pub open spec fn value_at(layer: Seq<u8>, at: int) -> Seq<Seq<u8>> {
    if marks_data(layer, at) {
        match first_at(layer, quote(), at + 3) {
            Some(end) => seq![layer.subrange(at + 3, end)],
            None => seq![],
        }
    } else {
        seq![]
    }
}

/// The values of the paths' `d` attributes in a layer from position `from` on, in order.
pub open spec fn path_data(layer: Seq<u8>, from: int) -> Seq<Seq<u8>>
    decreases layer.len() - from,
{
    if from >= layer.len() {
        seq![]
    } else {
        value_at(layer, from) + path_data(layer, from + 1)
    }
}

/// The bytes of each text in a list.
pub open spec fn bytes_of(texts: Seq<String>) -> Seq<Seq<u8>> {
    texts.map_values(|t: String| encode_utf8(t@))
}

/// What path data is found by, byte by byte.
pub proof fn lemma_data_mark()
    ensures
        data_mark() == seq![0x64u8, 0x3d, 0x22],
        is_tag_name(path_name()),
{
    reveal_strlit("<path");
    is_ascii_chars_encode_utf8("<path"@);
    assert(path_name() =~= seq![0x3cu8, 0x70, 0x61, 0x74, 0x68]);
    reveal_strlit("d=\"");
    is_ascii_chars_encode_utf8("d=\""@);
    assert(data_mark() =~= seq![0x64u8, 0x3d, 0x22]);
}

/// Whether the tag of a path has its `d` attribute at `at`.
fn data_stands_at(layer: &[u8], at: usize) -> (r: bool)
    requires
        at <= layer@.len(),
    ensures
        r == marks_data(layer@, at as int),
{
    proof {
        lemma_tag_around(layer@, path_name(), at as int, at as int);
    }
    if at == 0 || !stands_at(layer, "d=\"".as_bytes(), at) {
        return false;
    }
    let byte: u8 = layer[at - 1];
    let after_space: bool = space(byte);
    if !after_space && byte != 0x22 && byte != 0x27 {
        return false;
    }
    match find_tag_around(layer, "<path".as_bytes(), at) {
        Some(start) => after_space || lies_inside(layer, start, at),
        None => false,
    }
}

/// Extracts the values of the `d="..."` attributes of every `<path>` inside the cut layer.
pub fn extract_cut_layer(svg: &str, group_start: usize, group_end: usize) -> (r: Result<
    Vec<String>,
    ConvertError,
>)
    requires
        is_part(encode_utf8(svg@), group_start as int, group_end as int),
    ensures
        ({
            let data = path_data(
                encode_utf8(svg@).subrange(group_start as int, group_end as int),
                0,
            );
            match r {
                Ok(paths) => data.len() > 0 && bytes_of(paths@) == data,
                Err(e) => data.len() == 0 && e.0@ == "No path data found in Cut-Layer group"@,
            }
        }),
        r matches Ok(paths) ==> {
            let data = path_data(
                encode_utf8(svg@).subrange(group_start as int, group_end as int),
                0,
            );
            &&& paths@.len() == data.len()
            &&& forall|i: int|
                0 <= i < data.len() ==> encode_utf8((#[trigger] paths@[i])@) == data[i]
        },
{
    let content = slice(svg, group_start, group_end);
    let bytes = content.as_bytes();
    let mut paths: Vec<String> = Vec::new();
    let mut at: usize = 0;
    proof {
        lemma_data_mark();
        lemma_quote();
        encode_utf8_valid_utf8(content@);
        assert(bytes_of(paths@) + path_data(bytes@, 0) =~= path_data(bytes@, 0));
    }
    while at < bytes.len()
        invariant
            at <= bytes@.len() == bytes.len(),
            bytes@ == encode_utf8(content@),
            valid_utf8(bytes@),
            bytes_of(paths@) + path_data(bytes@, at as int) == path_data(bytes@, 0),
            data_mark() == seq![0x64u8, 0x3d, 0x22],
            quote() == seq![0x22u8],
        decreases bytes@.len() - at,
    {
        let ghost before = paths@;
        if data_stands_at(bytes, at) {
            assert(at + 3 <= bytes.len());
            let value: usize = at + 3;
            proof {
                assert(data_mark()[2] == 0x22);
                assert(bytes@[at + 2] == data_mark()[2]);
                lemma_ascii_boundaries(bytes@, at + 2);
                lemma_first_at(bytes@, quote(), at + 3);
            }
            if let Some(end) = find(bytes, "\"".as_bytes(), value) {
                proof {
                    assert(quote()[0] == 0x22);
                    assert(bytes@[end + 0] == quote()[0]);
                    lemma_ascii_boundaries(bytes@, end as int);
                }
                paths.push(slice(content, value, end).to_owned());
            }
        }
        assert(bytes_of(paths@) =~= bytes_of(before) + value_at(bytes@, at as int));
        assert(bytes_of(before) + path_data(bytes@, at as int) =~= bytes_of(paths@) + path_data(
            bytes@,
            at + 1,
        ));
        at += 1;
    }
    assert(bytes_of(paths@) + path_data(bytes@, at as int) =~= bytes_of(paths@));
    if paths.len() == 0 {
        assert(bytes_of(paths@).len() == 0);
        return Err(ConvertError::from("No path data found in Cut-Layer group"));
    }
    assert(bytes_of(paths@).len() == paths@.len());
    assert forall|i: int| 0 <= i < paths@.len() implies encode_utf8((#[trigger] paths@[i])@)
        == path_data(bytes@, 0)[i] by {
        assert(bytes_of(paths@)[i] == encode_utf8(paths@[i]@));
    }
    Ok(paths)
}

/// The drawing with the part from `start` to `end` replaced.
pub open spec fn replaced(svg: Seq<u8>, start: int, end: int, by: Seq<u8>) -> Seq<u8> {
    svg.subrange(0, start) + by + svg.subrange(end, svg.len() as int)
}

/// The drawing to print: the same drawing, with registration marks in the place of the cut layer.
pub fn print_svg(svg: &str, group_start: usize, group_end: usize, marks: &str) -> (r: String)
    requires
        is_part(encode_utf8(svg@), group_start as int, group_end as int),
    ensures
        encode_utf8(r@) == replaced(
            encode_utf8(svg@),
            group_start as int,
            group_end as int,
            encode_utf8(marks@),
        ),
        encode_utf8(r@) == encode_utf8(svg@).subrange(0, group_start as int) + encode_utf8(marks@)
            + encode_utf8(svg@).subrange(group_end as int, encode_utf8(svg@).len() as int),
{
    proof {
        encode_utf8_valid_utf8(svg@);
        is_char_boundary_start_end_of_seq(encode_utf8(svg@));
    }
    let before = slice(svg, 0, group_start);
    let after = slice(svg, group_end, svg.as_bytes().len());
    let mut r: String = before.to_owned();
    r.append(marks);
    r.append(after);
    proof {
        lemma_encode_concat(before@, marks@);
        lemma_encode_concat(before@ + marks@, after@);
    }
    r
}

/// The cut layer that is found is a group: it begins with the tag of a group that is marked as
/// the layer, the first such one. It ends with that tag where the tag closes the element;
/// otherwise it ends with a closing tag, and between the two tags every group that is opened is
/// closed.
pub proof fn law_layer_is_a_group(svg: Seq<u8>)
    requires
        layer_bounds(svg) is Ok,
    ensures
        ({
            let (start, end) = layer_bounds(svg)->Ok_0;
            let id = layer_mark(svg, 0)->0;
            let gt = opening_end(svg, start, id)->0;
            &&& 0 <= start < id < id + 14 <= gt < end <= svg.len()
            &&& is_tag(svg, group_name(), start)
            &&& tag_around(svg, group_name(), id, id) == Some(start)
            &&& occurs_at(svg, layer_id(), id)
            &&& !is_name_byte(svg[id - 1])
            &&& forall|j: int| 0 <= j < id ==> !marks_layer(svg, j)
            &&& svg[gt] == 0x3e
            &&& if is_self_closing(svg, start) {
                end == gt + 1
            } else {
                &&& gt + 1 <= end - 4
                &&& occurs_at(svg, group_close(), end - 4)
                &&& opened_in(svg, gt + 1, end - 4) == closed_in(svg, gt + 1, end - 4)
            }
        }),
{
    let (start, end) = layer_bounds(svg)->Ok_0;
    let first = first_at(svg, layer_id(), 0)->0;
    let id = layer_mark(svg, first)->0;
    let gt = opening_end(svg, start, id)->0;
    lemma_marks();
    lemma_first_at(svg, layer_id(), 0);
    lemma_layer_mark(svg, first);
    lemma_layer_mark(svg, 0);
    lemma_tag_around(svg, group_name(), id, id);
    lemma_tag_end(svg, start, start + 1);
    lemma_owned_before_end(svg, group_name(), start, id);
    lemma_first_at(svg, bracket(), id);
    if tag_end(svg, start, start + 1) is None {
        assert(bracket()[0] == 0x3e);
        assert(svg[gt + 0] == bracket()[0]);
    }
    if gt < id + 14 {
        assert(svg[id + (gt - id)] == layer_id()[gt - id]);
    }
    lemma_closing_tag(svg, gt + 1, gt + 1);
}

/// Every value that is extracted stands in the layer right after the `d="` of a path's tag,
/// holds no quote, and is followed by one.
pub proof fn law_values_stand_between_quotes(layer: Seq<u8>, from: int, i: int)
    requires
        0 <= from,
        0 <= i < path_data(layer, from).len(),
    ensures
        exists|at: int|
            from <= at && #[trigger] marks_data(layer, at) && {
                let value = path_data(layer, from)[i];
                let end = at + 3 + value.len();
                &&& end < layer.len()
                &&& value == layer.subrange(at + 3, end)
                &&& layer[end] == 0x22
                &&& forall|k: int| 0 <= k < value.len() ==> value[k] != 0x22
            },
    decreases layer.len() - from,
{
    lemma_data_mark();
    lemma_quote();
    let here = value_at(layer, from);
    if i < here.len() {
        lemma_first_at(layer, quote(), from + 3);
        let end = first_at(layer, quote(), from + 3)->0;
        assert(layer[end + 0] == quote()[0]);
        let value = layer.subrange(from + 3, end);
        assert(path_data(layer, from)[i] == value);
        assert forall|k: int| 0 <= k < value.len() implies value[k] != 0x22 by {
            assert(!occurs_at(layer, quote(), from + 3 + k));
        }
        assert(marks_data(layer, from));
    } else {
        law_values_stand_between_quotes(layer, from + 1, i - here.len());
        assert(path_data(layer, from)[i] == path_data(layer, from + 1)[i - here.len()]);
    }
}

/// Every `d` attribute of a path in the layer that has a closing quote is extracted.
pub proof fn law_every_value_is_extracted(layer: Seq<u8>, from: int, at: int)
    requires
        0 <= from <= at,
        marks_data(layer, at),
        first_at(layer, quote(), at + 3) is Some,
    ensures
        path_data(layer, from).contains(
            layer.subrange(at + 3, first_at(layer, quote(), at + 3)->0),
        ),
    decreases at - from,
{
    lemma_data_mark();
    let value = layer.subrange(at + 3, first_at(layer, quote(), at + 3)->0);
    if from == at {
        assert(value_at(layer, at) == seq![value]);
        assert(path_data(layer, from)[0] == value);
    } else {
        law_every_value_is_extracted(layer, from + 1, at);
        let rest = path_data(layer, from + 1);
        let i = choose|i: int| 0 <= i < rest.len() && rest[i] == value;
        assert(path_data(layer, from)[value_at(layer, from).len() + i] == value);
    }
}

/// Replacing keeps what stands before and after; replacing a part by itself changes nothing,
/// and putting the part back restores the drawing.
pub proof fn law_rest_of_drawing_is_kept(svg: Seq<u8>, start: int, end: int, marks: Seq<u8>)
    requires
        0 <= start <= end <= svg.len(),
    ensures
        ({
            let printed = replaced(svg, start, end, marks);
            &&& printed.len() == svg.len() - (end - start) + marks.len()
            &&& printed.subrange(0, start) == svg.subrange(0, start)
            &&& printed.subrange(start, start + marks.len()) == marks
            &&& printed.subrange(start + marks.len(), printed.len() as int) == svg.subrange(
                end,
                svg.len() as int,
            )
        }),
        replaced(svg, start, end, svg.subrange(start, end)) == svg,
        replaced(
            replaced(svg, start, end, marks),
            start,
            start + marks.len(),
            svg.subrange(start, end),
        ) == svg,
{
    let printed = replaced(svg, start, end, marks);
    assert(printed.subrange(0, start) =~= svg.subrange(0, start));
    assert(printed.subrange(start, start + marks.len()) =~= marks);
    assert(printed.subrange(start + marks.len(), printed.len() as int) =~= svg.subrange(
        end,
        svg.len() as int,
    ));
    assert(replaced(svg, start, end, svg.subrange(start, end)) =~= svg);
    assert(replaced(printed, start, start + marks.len(), svg.subrange(start, end)) =~= svg);
}

} // verus!
