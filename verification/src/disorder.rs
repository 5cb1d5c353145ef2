//! Text that is not well-formed markup, and what is found in it all the same: tags that never
//! end, values that hold a `<`, and marks of the cut layer that belong to no complete tag.

use vstd::prelude::*;
use vstd::string::*;
use vstd::utf8::*;

use crate::cut_layer::{
    bracket, closed_in, closes_at, closing_tag, data_mark, group_close, group_name, layer_bounds,
    layer_id, layer_mark, lemma_closing_tag, lemma_data_mark, lemma_layer_mark, lemma_marks,
    marks_data, marks_layer, opened_in, opening_end, opens_group, path_data, path_name, value_at,
};
use crate::found::{lemma_data_at_end, lemma_letters, lemma_value_between, lemma_values_none};
use crate::markup::{is_blank, is_letter, lemma_end_found, lemma_plain_run, lemma_quoted_run};
use crate::tags::{
    is_self_closing, is_tag, lemma_tag_around, owns, tag_around, tag_end, tag_state, TagState,
};
use crate::text::{
    first_at, last_before, law_first_is_the_first, law_occurrence_is_the_pattern, lemma_first_at,
    lemma_last_before, lemma_quote, occurs_at, quote, reads_at,
};

verus! {

/// A byte that neither opens nor closes a tag or a value.
pub open spec fn is_plain(byte: u8) -> bool {
    byte != 0x3c && byte != 0x3e && byte != 0x22 && byte != 0x27
}

/// A tag that begins with `<g` opens a group if whatever follows is no part of a name and the
/// tag does not end with `/>`.
pub proof fn law_group_is_opened(text: Seq<u8>, at: int, end: int)
    requires
        0 <= at,
        at + 2 <= end < text.len(),
        text[at] == 0x3c,
        text[at + 1] == 0x67,
        text[end] == 0x3e,
        forall|i: int| at + 2 <= i < end ==> is_plain(#[trigger] text[i]),
    ensures
        opens_group(text, at) <==> !is_letter(text[at + 2]) && text[end - 1] != 0x2f,
{
    lemma_marks();
    lemma_letters(text[at + 2]);
    assert(group_name()[0] == 0x3c && group_name()[1] == 0x67);
    assert forall|k: int| 0 <= k < 2 implies text[at + k] == #[trigger] group_name()[k] by {}
    assert(occurs_at(text, group_name(), at));
    lemma_plain_run(text, at, at + 1, end);
    assert(tag_state(text, at, end) is Inside);
    lemma_end_found(text, at, at + 1, end);
}

/// The positions from `a` on and before `b`.
pub open spec fn positions(a: int, b: int) -> Seq<int> {
    Seq::new(
        if a < b {
            (b - a) as nat
        } else {
            0
        },
        |i: int| a + i,
    )
}

/// Whether `</g>` stands at a position.
pub open spec fn closes(text: Seq<u8>) -> spec_fn(int) -> bool {
    |i: int| reads_at(text, encode_utf8("</g>"@), i)
}

/// Whether a group's tag stands at a position.
pub open spec fn opens_at(text: Seq<u8>) -> spec_fn(int) -> bool {
    |i: int| opens_group(text, i)
}

/// Groups are closed by `</g>` and by nothing else, and each counts once.
pub proof fn law_groups_are_counted(text: Seq<u8>, a: int, b: int)
    ensures
        closed_in(text, a, b) == positions(a, b).filter(closes(text)).len(),
        opened_in(text, a, b) == positions(a, b).filter(opens_at(text)).len(),
    decreases b - a,
{
    reveal(Seq::filter);
    if a < b {
        law_groups_are_counted(text, a, b - 1);
        law_occurrence_is_the_pattern(text, group_close(), b - 1);
        assert(positions(a, b).drop_last() =~= positions(a, b - 1));
        assert(positions(a, b).last() == b - 1);
    }
}

/// The layer ends with the first `</g>` by which, behind the layer's own tag, one group more has
/// been closed than was opened.
pub proof fn law_layer_ends_when_its_group_is_closed(text: Seq<u8>, from: int, close: int)
    requires
        0 <= from <= close,
    ensures
        closing_tag(text, from, from) == Some(close) <==> {
            &&& reads_at(text, encode_utf8("</g>"@), close)
            &&& positions(from, close + 1).filter(closes(text)).len() == positions(
                from,
                close,
            ).filter(opens_at(text)).len() + 1
            &&& forall|j: int|
                from <= j < close && #[trigger] reads_at(text, encode_utf8("</g>"@), j)
                    ==> positions(from, j + 1).filter(closes(text)).len() != positions(
                    from,
                    j,
                ).filter(opens_at(text)).len() + 1
        },
{
    lemma_closing_tag(text, from, from);
    law_groups_are_counted(text, from, close);
    law_groups_are_counted(text, from, close + 1);
    law_occurrence_is_the_pattern(text, group_close(), close);
    assert forall|j: int| from <= j < close implies closes_at(text, from, j) == (#[trigger] reads_at(
        text,
        encode_utf8("</g>"@),
        j,
    ) && positions(from, j + 1).filter(closes(text)).len() == positions(from, j).filter(
        opens_at(text),
    ).len() + 1) by {
        law_groups_are_counted(text, from, j);
        law_groups_are_counted(text, from, j + 1);
        law_occurrence_is_the_pattern(text, group_close(), j);
    }
    if closing_tag(text, from, from) is Some {
        let found = closing_tag(text, from, from)->0;
        if found < close {
            assert(closes_at(text, from, found));
            assert(reads_at(text, encode_utf8("</g>"@), found));
        }
        if found == close {
            assert forall|j: int|
                from <= j < close && #[trigger] reads_at(text, encode_utf8("</g>"@), j)
                implies positions(from, j + 1).filter(closes(text)).len() != positions(
                from,
                j,
            ).filter(opens_at(text)).len() + 1 by {
                assert(!closes_at(text, from, j));
            }
        }
    }
    if closes_at(text, from, close) {
        assert(closing_tag(text, from, from) is Some);
    }
}

/// A text with the mark of the layer is malformed if no `<` stands before the first mark, or no
/// `>` behind it; a text without the mark has no layer.
pub proof fn law_mark_outside_any_tag(svg: Seq<u8>, first: int)
    requires
        ({
            let mark = encode_utf8("id=\"Cut-Layer\""@);
            ||| reads_at(svg, mark, first) && forall|j: int|
                0 <= j < first ==> !#[trigger] reads_at(svg, mark, j)
            ||| first == svg.len() && forall|j: int| 0 <= j ==> !#[trigger] reads_at(svg, mark, j)
        }),
    ensures
        first == svg.len() ==> layer_bounds(svg) == Err::<(int, int), Seq<char>>(
            "Cut-Layer group not found (expected id=\"Cut-Layer\" on a <g> element)"@,
        ),
        first < svg.len() && !svg.subrange(0, first).contains(0x3c) ==> layer_bounds(svg) == Err::<
            (int, int),
            Seq<char>,
        >("Malformed SVG: could not find opening < for Cut-Layer group"@),
        first < svg.len() && svg.subrange(0, first).contains(0x3c) && !svg.subrange(
            first,
            svg.len() as int,
        ).contains(0x3e) ==> layer_bounds(svg) == Err::<(int, int), Seq<char>>(
            "Malformed SVG: Cut-Layer <g> tag is not closed"@,
        ),
{
    let mark = layer_id();
    lemma_marks();
    lemma_first_at(svg, mark, 0);
    if first_at(svg, mark, 0) is Some {
        law_occurrence_is_the_pattern(svg, mark, first_at(svg, mark, 0)->0);
    }
    if reads_at(svg, mark, first) {
        law_first_is_the_first(svg, mark, 0, first);
        assert(first_at(svg, mark, 0) == Some(first));
        lemma_last_before(svg, 0x3c, first);
        if last_before(svg, 0x3c, first) is Some {
            assert(svg.subrange(0, first)[last_before(svg, 0x3c, first)->0] == 0x3c);
        } else if svg.subrange(0, first).contains(0x3c) {
            let i = choose|i: int|
                0 <= i < svg.subrange(0, first).len() && svg.subrange(0, first)[i] == 0x3c;
            assert(svg[i] == 0x3c);
        }
        lemma_first_at(svg, bracket(), first);
        if first_at(svg, bracket(), first) is Some {
            let gt = first_at(svg, bracket(), first)->0;
            assert(bracket()[0] == 0x3e);
            assert(svg[gt + 0] == bracket()[0]);
            assert(svg.subrange(first, svg.len() as int)[gt - first] == 0x3e);
        }
    }
}

/// A tag has no end if a `<` comes before any `>` outside a value, or the text ends.
proof fn lemma_no_end(text: Seq<u8>, start: int, at: int, to: int)
    requires
        0 <= start < at <= to <= text.len(),
        to < text.len() ==> text[to] == 0x3c,
        forall|i: int|
            at <= i < to && (#[trigger] text[i]) == 0x3e ==> !(tag_state(text, start, i) is Inside),
    ensures
        tag_end(text, start, at) is None,
    decreases to - at,
{
    if at < to && text[at] != 0x3c {
        lemma_no_end(text, start, at + 1, to);
    }
}

/// Without a `<` no group is opened or closed.
proof fn lemma_no_groups(text: Seq<u8>, a: int, b: int)
    requires
        0 <= a <= b <= text.len(),
        forall|i: int| a <= i < b ==> (#[trigger] text[i]) != 0x3c,
    ensures
        opened_in(text, a, b) == 0,
        closed_in(text, a, b) == 0,
    decreases b - a,
{
    if a < b {
        lemma_no_groups(text, a, b - 1);
        lemma_marks();
        assert(text[b - 1] != 0x3c);
        assert(group_name()[0] == 0x3c && group_close()[0] == 0x3c);
        if occurs_at(text, group_name(), b - 1) {
            assert(text[b - 1 + 0] == group_name()[0]);
        }
        if occurs_at(text, group_close(), b - 1) {
            assert(text[b - 1 + 0] == group_close()[0]);
        }
    }
}

/// The mark, byte by byte.
proof fn lemma_mark_bytes(text: Seq<u8>, id: int)
    requires
        reads_at(text, encode_utf8("id=\"Cut-Layer\""@), id),
    ensures
        id + 14 <= text.len(),
        text[id] == 0x69,
        text[id + 1] == 0x64,
        text[id + 2] == 0x3d,
        text[id + 3] == 0x22,
        forall|i: int| id + 4 <= i < id + 13 ==> is_plain(#[trigger] text[i]),
        text[id + 13] == 0x22,
{
    let mark = encode_utf8("id=\"Cut-Layer\""@);
    reveal_strlit("id=\"Cut-Layer\"");
    is_ascii_chars_encode_utf8("id=\"Cut-Layer\""@);
    assert(mark =~= seq![
        0x69u8, 0x64, 0x3d, 0x22, 0x43, 0x75, 0x74, 0x2d, 0x4c, 0x61, 0x79, 0x65, 0x72, 0x22,
    ]);
    let part = text.subrange(id, id + 14);
    assert forall|i: int| 0 <= i < 14 implies text[id + i] == #[trigger] mark[i] by {
        assert(part[i] == text[id + i]);
    }
    assert(text[id + 0] == mark[0] && text[id + 1] == mark[1] && text[id + 2] == mark[2]
        && text[id + 3] == mark[3] && text[id + 13] == mark[13]);
    assert forall|i: int| id + 4 <= i < id + 13 implies is_plain(#[trigger] text[i]) by {
        assert(text[id + (i - id)] == mark[i - id]);
    }
}

/// A group's tag in which a quote is missing, so that it never ends, is still the layer's: with
/// one quote before the mark, everything up to the next `<` belongs to the tag, which then ends
/// at the `>` behind the mark.
pub proof fn law_layer_in_a_tag_without_end(text: Seq<u8>, q: int, id: int, gt: int, close: int)
    requires
        2 <= q < id,
        id + 14 <= gt < close,
        reads_at(text, encode_utf8("<g"@), 0),
        !is_letter(text[2]),
        text[q] == 0x22,
        forall|i: int| 2 <= i < id && i != q ==> is_plain(#[trigger] text[i]),
        reads_at(text, encode_utf8("id=\"Cut-Layer\""@), id),
        !is_letter(text[id - 1]),
        text[gt] == 0x3e,
        forall|i: int| id + 14 <= i < gt ==> (#[trigger] text[i]) != 0x3e,
        forall|i: int| id + 14 <= i < close ==> (#[trigger] text[i]) != 0x22 && text[i] != 0x3c,
        reads_at(text, encode_utf8("</g>"@), close),
    ensures
        layer_bounds(text) == Ok::<(int, int), Seq<char>>((0, close + 4)),
{
    lemma_marks();
    lemma_mark_bytes(text, id);
    law_occurrence_is_the_pattern(text, group_name(), 0);
    law_occurrence_is_the_pattern(text, group_close(), close);
    law_occurrence_is_the_pattern(text, layer_id(), id);
    lemma_broken_states(text, q, id, close);
    lemma_first_of_broken(text, q, id);
    lemma_letters(text[2]);
    lemma_letters(text[id - 1]);
    assert(is_tag(text, group_name(), 0));
    lemma_last_before(text, 0x3c, id);
    assert(group_name()[0] == 0x3c);
    assert(text[0int + 0] == group_name()[0]);
    assert(group_name()[1] == 0x67);
    assert(text[0int + 1] == group_name()[1]);
    assert(last_before(text, 0x3c, id) == Some(0int)) by {
        let last = last_before(text, 0x3c, id)->0;
        if last > 1 && last != q {
            assert(is_plain(text[last]));
        }
    }
    assert(owns(text, group_name(), 0, id));
    lemma_tag_around(text, group_name(), id, id);
    let start = tag_around(text, group_name(), id, id)->0;
    if start > 0 {
        assert(owns(text, group_name(), start, id));
        assert(text[start + 0] == group_name()[0]);
        if start > 1 && start != q {
            assert(is_plain(text[start]));
        }
    }
    assert(marks_layer(text, id));
    lemma_layer_mark(text, id);
    assert(layer_mark(text, id) == Some(id));
    lemma_bracket_behind(text, id, gt);
    assert(opening_end(text, 0, id) == Some(gt));
    assert(!is_self_closing(text, 0));
    lemma_group_closed(text, gt + 1, close);
}

/// How the positions of such a tag lie to it.
proof fn lemma_broken_states(text: Seq<u8>, q: int, id: int, close: int)
    requires
        2 <= q < id,
        id + 14 <= close < text.len(),
        reads_at(text, encode_utf8("<g"@), 0),
        text[q] == 0x22,
        forall|i: int| 2 <= i < id && i != q ==> is_plain(#[trigger] text[i]),
        reads_at(text, encode_utf8("id=\"Cut-Layer\""@), id),
        forall|i: int| id + 14 <= i < close ==> (#[trigger] text[i]) != 0x22 && text[i] != 0x3c,
        text[close] == 0x3c,
    ensures
        tag_end(text, 0, 1) is None,
{
    lemma_marks();
    lemma_mark_bytes(text, id);
    let part = text.subrange(0, 2);
    assert(part[1] == text[1]);
    assert(group_name()[1] == 0x67);
    assert(text[1] == 0x67);
    lemma_plain_run(text, 0, 1, q);
    assert(tag_state(text, 0, q) is Inside);
    assert(tag_state(text, 0, q + 1) == TagState::Quoted(0x22));
    lemma_quoted_run(text, 0, q + 1, id + 3, 0x22);
    assert(tag_state(text, 0, id + 3) == TagState::Quoted(0x22));
    assert(tag_state(text, 0, id + 4) is Inside);
    lemma_plain_run(text, 0, id + 4, id + 13);
    assert(tag_state(text, 0, id + 13) is Inside);
    assert(tag_state(text, 0, id + 14) == TagState::Quoted(0x22));
    lemma_quoted_run(text, 0, id + 14, close, 0x22);
    assert forall|i: int| 1 <= i < close && (#[trigger] text[i]) == 0x3e implies !(tag_state(
        text,
        0,
        i,
    ) is Inside) by {
        if i < id + 14 {
            assert(i >= 2 && i < id && i != q ==> is_plain(text[i]));
            assert(id + 4 <= i < id + 13 ==> is_plain(text[i]));
        } else {
            assert(tag_state(text, 0, i) == TagState::Quoted(0x22));
        }
    }
    lemma_no_end(text, 0, 1, close);
}

/// The mark is the first in such a text.
proof fn lemma_first_of_broken(text: Seq<u8>, q: int, id: int)
    requires
        2 <= q < id,
        text[q] == 0x22,
        forall|i: int| 2 <= i < id && i != q ==> is_plain(#[trigger] text[i]),
        reads_at(text, encode_utf8("<g"@), 0),
        reads_at(text, encode_utf8("id=\"Cut-Layer\""@), id),
    ensures
        first_at(text, layer_id(), 0) == Some(id),
{
    let mark = layer_id();
    lemma_marks();
    lemma_mark_bytes(text, id);
    let part = text.subrange(0, 2);
    assert(part[0] == text[0] && part[1] == text[1]);
    assert(group_name()[0] == 0x3c && group_name()[1] == 0x67);
    law_first_is_the_first(text, mark, 0, id);
    let j = first_at(text, mark, 0)->0;
    if j < id {
        lemma_mark_bytes(text, j);
        assert(text[j + 3] == 0x22 && text[j + 13] == 0x22);
        if j + 13 >= id {
            assert(id + 4 <= j + 13 < id + 13 ==> is_plain(text[j + 13]));
            assert(j == id - 10);
            lemma_tenth_byte(text, j);
        } else {
            assert(j + 13 >= 2 && j + 13 != q ==> is_plain(text[j + 13]));
            assert(j + 3 >= 2 && j + 3 != q ==> is_plain(text[j + 3]));
        }
    }
}

proof fn lemma_tenth_byte(text: Seq<u8>, id: int)
    requires
        reads_at(text, encode_utf8("id=\"Cut-Layer\""@), id),
    ensures
        text[id + 10] == 0x79,
{
    let mark = encode_utf8("id=\"Cut-Layer\""@);
    reveal_strlit("id=\"Cut-Layer\"");
    is_ascii_chars_encode_utf8("id=\"Cut-Layer\""@);
    assert("id=\"Cut-Layer\""@[10] as u8 == mark[10]);
    assert(text.subrange(id, id + 14)[10] == text[id + 10]);
}

proof fn lemma_bracket_behind(text: Seq<u8>, id: int, gt: int)
    requires
        reads_at(text, encode_utf8("id=\"Cut-Layer\""@), id),
        id + 14 <= gt < text.len(),
        text[gt] == 0x3e,
        forall|i: int| id + 14 <= i < gt ==> (#[trigger] text[i]) != 0x3e,
    ensures
        first_at(text, bracket(), id) == Some(gt),
{
    lemma_marks();
    lemma_mark_bytes(text, id);
    assert(bracket()[0] == 0x3e);
    assert(occurs_at(text, bracket(), gt));
    lemma_first_at(text, bracket(), id);
    let found = first_at(text, bracket(), id)->0;
    assert(text[found + 0] == bracket()[0]);
    if found < id + 14 {
        assert(id + 4 <= found < id + 13 ==> is_plain(text[found]));
    }
}

/// The first `</g>` behind text without a `<` closes the group.
proof fn lemma_group_closed(text: Seq<u8>, from: int, close: int)
    requires
        0 <= from <= close,
        occurs_at(text, group_close(), close),
        forall|i: int| from <= i < close ==> (#[trigger] text[i]) != 0x3c,
    ensures
        closing_tag(text, from, from) == Some(close),
{
    lemma_marks();
    lemma_no_groups(text, from, close);
    assert(group_close()[1] == 0x2f);
    assert(text[close + 1] == group_close()[1]);
    assert(closes_at(text, from, close));
    lemma_closing_tag(text, from, from);
    let found = closing_tag(text, from, from)->0;
    if found < close {
        assert(closes_at(text, from, found));
        assert(group_close()[0] == 0x3c);
        assert(text[found + 0] == group_close()[0]);
    }
}

/// The first bytes of a path's tag.
proof fn lemma_path_begins(text: Seq<u8>)
    requires
        reads_at(text, encode_utf8("<path"@), 0),
        text.len() > 5,
        !is_letter(text[5]),
    ensures
        is_tag(text, path_name(), 0),
        path_name().len() == 5,
        path_name()[0] == 0x3c,
        text[0] == 0x3c,
        forall|i: int| 1 <= i < 5 ==> is_plain(#[trigger] text[i]),
{
    reveal_strlit("<path");
    is_ascii_chars_encode_utf8("<path"@);
    assert(path_name() =~= seq![0x3cu8, 0x70, 0x61, 0x74, 0x68]);
    let part = text.subrange(0, 5);
    assert forall|i: int| 0 <= i < 5 implies text[i] == #[trigger] path_name()[i] by {
        assert(part[i] == text[i]);
    }
    assert(text[0] == path_name()[0]);
    assert forall|i: int| 1 <= i < 5 implies is_plain(#[trigger] text[i]) by {
        assert(text[i] == path_name()[i]);
    }
    law_occurrence_is_the_pattern(text, path_name(), 0);
    lemma_letters(text[5]);
}

/// A text has the one value that is marked, if what else looks like a mark has no value.
proof fn lemma_one_value(text: Seq<u8>, at: int, end: int)
    requires
        0 <= at,
        at + 3 <= end < text.len(),
        marks_data(text, at),
        text[end] == 0x22,
        forall|i: int| at + 3 <= i < text.len() && i != end ==> (#[trigger] text[i]) != 0x22,
        forall|i: int| 0 <= i < at ==> !occurs_at(text, data_mark(), i),
    ensures
        path_data(text, 0) == seq![text.subrange(at + 3, end)],
{
    let value = text.subrange(at + 3, end);
    lemma_data_mark();
    lemma_quote();
    assert(data_mark()[2] == 0x22 && data_mark()[1] == 0x3d && quote()[0] == 0x22);
    assert forall|i: int| 0 <= i < value.len() implies (#[trigger] value[i]) != 0x22 by {
        assert(value[i] == text[at + 3 + i]);
    }
    lemma_value_between(text, at, value);
    assert forall|i: int| 0 <= i < text.len() && i != at implies value_at(text, i) == Seq::<
        Seq<u8>,
    >::empty() by {
        if marks_data(text, i) {
            assert(text[i + 2] == data_mark()[2]);
            assert(i > at);
            assert(text[at + 1] == data_mark()[1]);
            assert(text[at + 2] == data_mark()[2]);
            assert(data_mark()[0] == 0x64);
            assert(text[i + 0] == data_mark()[0]);
            assert(i + 2 == end);
            lemma_first_at(text, quote(), i + 3);
            if first_at(text, quote(), i + 3) is Some {
                let found = first_at(text, quote(), i + 3)->0;
                assert(text[found + 0] == quote()[0]);
            }
        }
    }
    lemma_values_none(text, 0, at);
    lemma_values_none(text, at + 1, text.len() as int);
    lemma_data_at_end(text);
    assert(path_data(text, at) =~= seq![value]);
}

/// Path data behind a value is found whatever the value holds, a `<` and a `>` included, and even
/// right behind it if the value holds no `<`.
pub proof fn law_value_behind_a_value(text: Seq<u8>, q1: int, q2: int, at: int, end: int)
    requires
        reads_at(text, encode_utf8("<path"@), 0),
        6 < q1 < q2 < at,
        at + 3 <= end < text.len(),
        !is_letter(text[5]),
        text[q1] == 0x22,
        text[q2] == 0x22,
        reads_at(text, encode_utf8("d=\""@), at),
        text[end] == 0x22,
        forall|i: int|
            0 <= i < text.len() && i != q1 && i != q2 && i != at + 2 && i != end ==> (
            #[trigger] text[i]) != 0x22,
        forall|i: int| 5 <= i < q1 ==> is_plain(#[trigger] text[i]),
        forall|i: int| q2 < i < at ==> is_plain(#[trigger] text[i]),
        is_blank(text[at - 1]) || (q2 == at - 1 && !text.subrange(q1, q2).contains(0x3c)),
        text[q1 - 2] != 0x64,
        text[q2 - 1] != 0x3d,
    ensures
        path_data(text, 0) == seq![text.subrange(at + 3, end)],
{
    lemma_path_begins(text);
    lemma_data_mark();
    law_occurrence_is_the_pattern(text, data_mark(), at);
    lemma_plain_run(text, 0, 1, q1);
    assert(tag_state(text, 0, q1) is Inside);
    assert(tag_state(text, 0, q1 + 1) == TagState::Quoted(0x22));
    lemma_quoted_run(text, 0, q1 + 1, q2, 0x22);
    assert(tag_state(text, 0, q2) == TagState::Quoted(0x22));
    assert(tag_state(text, 0, q2 + 1) is Inside);
    lemma_plain_run(text, 0, q2 + 1, at);
    assert(tag_state(text, 0, at) is Inside);
    assert(owns(text, path_name(), 0, at));
    lemma_tag_around(text, path_name(), at, at);
    lemma_letters(text[at - 1]);
    let start = tag_around(text, path_name(), at, at)->0;
    if !is_blank(text[at - 1]) && start > 0 {
        assert(owns(text, path_name(), start, at));
        assert(text[start + 0] == path_name()[0]);
        assert(1 <= start < 5 ==> is_plain(text[start]));
        assert(5 <= start < q1 ==> is_plain(text[start]));
        assert(q1 <= start < q2 ==> text.subrange(q1, q2)[start - q1] == text[start]);
    }
    assert(marks_data(text, at));
    assert(data_mark()[0] == 0x64 && data_mark()[1] == 0x3d && data_mark()[2] == 0x22);
    assert forall|i: int| 0 <= i < at implies !occurs_at(text, data_mark(), i) by {
        if occurs_at(text, data_mark(), i) {
            assert(text[i + 0] == data_mark()[0]);
            assert(text[i + 1] == data_mark()[1]);
            assert(text[i + 2] == data_mark()[2]);
            assert(text[at + 0] == data_mark()[0]);
            assert(text[at + 1] == data_mark()[1]);
            assert(i + 2 == q1 || i + 2 == q2);
        }
    }
    lemma_one_value(text, at, end);
}

/// Path data in a tag in which a quote is missing, so that it never ends, is found where white
/// space stands before it.
pub proof fn law_value_in_a_tag_without_end(text: Seq<u8>, q: int, at: int, end: int)
    requires
        reads_at(text, encode_utf8("<path"@), 0),
        6 < q < at - 1,
        at + 3 <= end < text.len(),
        !is_letter(text[5]),
        text[q] == 0x22,
        reads_at(text, encode_utf8("d=\""@), at),
        text[end] == 0x22,
        forall|i: int|
            0 <= i < text.len() && i != q && i != at + 2 && i != end ==> (#[trigger] text[i])
                != 0x22,
        forall|i: int| 5 <= i < end && i != q && i != at + 2 ==> is_plain(#[trigger] text[i]),
        is_blank(text[at - 1]),
        text[q - 2] != 0x64,
    ensures
        path_data(text, 0) == seq![text.subrange(at + 3, end)],
{
    let n = text.len() as int;
    lemma_path_begins(text);
    lemma_data_mark();
    law_occurrence_is_the_pattern(text, data_mark(), at);
    assert(data_mark()[0] == 0x64 && data_mark()[1] == 0x3d && data_mark()[2] == 0x22);
    assert(text[at + 0] == data_mark()[0]);
    assert(text[at + 1] == data_mark()[1]);
    assert(text[at + 2] == data_mark()[2]);
    lemma_plain_run(text, 0, 1, q);
    assert(tag_state(text, 0, q) is Inside);
    assert(tag_state(text, 0, q + 1) == TagState::Quoted(0x22));
    lemma_quoted_run(text, 0, q + 1, at + 2, 0x22);
    assert(tag_state(text, 0, at + 2) == TagState::Quoted(0x22));
    assert(tag_state(text, 0, at + 3) is Inside);
    lemma_plain_run(text, 0, at + 3, end);
    assert(tag_state(text, 0, end) is Inside);
    assert(tag_state(text, 0, end + 1) == TagState::Quoted(0x22));
    lemma_quoted_run(text, 0, end + 1, n, 0x22);
    assert forall|i: int| 1 <= i < n && (#[trigger] text[i]) == 0x3e implies !(tag_state(
        text,
        0,
        i,
    ) is Inside) by {
        if i <= end {
            assert(5 <= i < end && i != q && i != at + 2 ==> is_plain(text[i]));
        } else {
            assert(tag_state(text, 0, i) == TagState::Quoted(0x22));
        }
    }
    lemma_no_end(text, 0, 1, n);
    lemma_last_before(text, 0x3c, at);
    assert(last_before(text, 0x3c, at) == Some(0int)) by {
        let last = last_before(text, 0x3c, at)->0;
        if last > 0 {
            assert(5 <= last < end && last != q ==> is_plain(text[last]));
            assert(1 <= last < 5 ==> is_plain(text[last]));
        }
    }
    assert(owns(text, path_name(), 0, at));
    lemma_tag_around(text, path_name(), at, at);
    lemma_letters(text[at - 1]);
    assert(marks_data(text, at));
    assert forall|i: int| 0 <= i < at implies !occurs_at(text, data_mark(), i) by {
        if occurs_at(text, data_mark(), i) {
            assert(text[i + 0] == data_mark()[0]);
            assert(text[i + 2] == data_mark()[2]);
            assert(i + 2 == q || i + 2 == at + 2);
        }
    }
    lemma_one_value(text, at, end);
}

} // verus!
