//! Drawings that are joined to other text: what stands before or behind does not change what is
//! found in them.

use vstd::prelude::*;

use crate::cut_layer::{
    bracket, closed_in, closes_at, closing_tag, data_mark, group_close, group_name,
    law_layer_is_a_group, layer_bounds, layer_id, layer_mark, lemma_closing_tag, lemma_data_mark,
    lemma_layer_mark, lemma_marks, marks_data, marks_layer, opened_in, opening_end, opens_group,
    path_data, path_name, value_at,
};
use crate::tags::{
    goes_on, is_finished, is_self_closing, is_tag, lemma_around_of_finished, lemma_around_of_prefix,
    lemma_around_shifted, lemma_end_of_prefix, lemma_end_shifted, lemma_ended,
    lemma_owned_before_end, lemma_state_of_prefix, lemma_state_shifted, lemma_tag_around,
    lemma_tag_end, lemma_tag_is_complete, tag_around, tag_end, tag_state,
};
use crate::text::{
    first_at, last_before, lemma_first_at, lemma_first_of_prefix, lemma_first_shifted,
    lemma_last_before, lemma_last_of_prefix, lemma_last_shifted, lemma_occurs_of_prefix,
    lemma_occurs_shifted, lemma_quote, occurs_at, quote,
};

verus! {

/// Text after a mark does not change which mark of the layer is the first, if a `<` follows or
/// the marked tag ends.
proof fn lemma_mark_of_prefix(svg: Seq<u8>, more: Seq<u8>, at: int, id: int)
    requires
        0 <= at <= id,
        id + 14 <= svg.len(),
        layer_mark(svg, at) == Some(id) || layer_mark(svg + more, at) == Some(id),
        ({
            ||| goes_on(svg, id)
            ||| last_before(svg, 0x3c, id) matches Some(start) && {
                ||| tag_end(svg, start, start + 1) is Some
                ||| tag_end(svg + more, start, start + 1) matches Some(end) && end < svg.len()
            }
        }),
    ensures
        layer_mark(svg + more, at) == layer_mark(svg, at),
        marks_layer(svg + more, at) == marks_layer(svg, at),
    decreases svg.len() - at,
{
    lemma_marks();
    lemma_occurs_of_prefix(svg, more, layer_id(), at);
    lemma_last_before(svg, 0x3c, at);
    lemma_last_before(svg, 0x3c, id);
    if goes_on(svg, id) {
        let k = choose|k: int| id <= k < svg.len() && svg[k] == 0x3c;
        assert(at <= k);
        assert(goes_on(svg, at));
    } else {
        let start = last_before(svg, 0x3c, id)->0;
        if at <= start {
            assert(goes_on(svg, at));
        } else {
            assert(last_before(svg, 0x3c, at) == Some(start));
        }
    }
    lemma_around_of_prefix(svg, more, group_name(), at, at);
    lemma_tag_around(svg, group_name(), at, at);
    if at > 0 {
        assert((svg + more)[at - 1] == svg[at - 1]);
    }
    lemma_layer_mark(svg, at);
    lemma_layer_mark(svg + more, at);
    if !marks_layer(svg, at) {
        lemma_mark_of_prefix(svg, more, at + 1, id);
    }
}

/// Text after a closing tag does not change how many groups are opened and closed before it.
proof fn lemma_counts_of_prefix(text: Seq<u8>, more: Seq<u8>, from: int, at: int, close: int)
    requires
        0 <= from,
        at <= close,
        occurs_at(text, group_close(), close),
    ensures
        opened_in(text + more, from, at) == opened_in(text, from, at),
        closed_in(text + more, from, at) == closed_in(text, from, at),
        at >= 0 ==> occurs_at(text + more, group_close(), at) == occurs_at(text, group_close(), at),
    decreases at - from,
{
    lemma_marks();
    lemma_occurs_of_prefix(text, more, group_close(), at);
    if from < at {
        let here = at - 1;
        lemma_counts_of_prefix(text, more, from, here, close);
        lemma_occurs_of_prefix(text, more, group_name(), here);
        assert(group_close()[0] == 0x3c);
        assert(text[close + 0] == group_close()[0]);
        assert(goes_on(text, at));
        lemma_end_of_prefix(text, more, here, at);
        lemma_tag_end(text, here, at);
        assert(opens_group(text + more, here) == opens_group(text, here));
    }
}

/// Text after a closing tag does not change which one closes the group.
proof fn lemma_closing_of_prefix(text: Seq<u8>, more: Seq<u8>, from: int, at: int)
    requires
        0 <= from <= at,
        ({
            ||| closing_tag(text, from, at) is Some
            ||| closing_tag(text + more, from, at) matches Some(close) && close + 4 <= text.len()
        }),
    ensures
        closing_tag(text + more, from, at) == closing_tag(text, from, at),
    decreases text.len() - at,
{
    lemma_marks();
    lemma_closing_tag(text, from, at);
    lemma_closing_tag(text + more, from, at);
    let close = if closing_tag(text, from, at) is Some {
        closing_tag(text, from, at)->0
    } else {
        closing_tag(text + more, from, at)->0
    };
    lemma_occurs_of_prefix(text, more, group_close(), close);
    lemma_counts_of_prefix(text, more, from, at, close);
    assert(closes_at(text + more, from, at) == closes_at(text, from, at));
    if !closes_at(text, from, at) {
        lemma_closing_of_prefix(text, more, from, at + 1);
    }
}

/// What follows the layer does not matter for where it stands.
proof fn lemma_layer_of_prefix(svg: Seq<u8>, more: Seq<u8>)
    requires
        ({
            ||| layer_bounds(svg) is Ok
            ||| layer_bounds(svg + more) matches Ok((start, end)) && end <= svg.len()
        }),
    ensures
        layer_bounds(svg + more) == layer_bounds(svg),
{
    let all = svg + more;
    let whole = if layer_bounds(svg) is Ok {
        svg
    } else {
        all
    };
    let (start, end) = layer_bounds(whole)->Ok_0;
    let first = first_at(whole, layer_id(), 0)->0;
    let id = layer_mark(whole, first)->0;
    let gt = opening_end(whole, start, id)->0;
    law_layer_is_a_group(whole);
    lemma_marks();
    lemma_first_at(whole, layer_id(), 0);
    lemma_layer_mark(whole, first);
    lemma_layer_mark(whole, 0);
    assert(id == layer_mark(whole, 0)->0);
    lemma_first_of_prefix(svg, more, layer_id(), 0);
    lemma_last_of_prefix(svg, more, 0x3c, first);
    assert(bracket()[0] == 0x3e);
    assert(occurs_at(whole, bracket(), gt));
    lemma_first_at(whole, bracket(), first);
    lemma_first_of_prefix(svg, more, bracket(), first);
    lemma_first_at(whole, bracket(), id);
    lemma_first_of_prefix(svg, more, bracket(), id);
    lemma_last_before(svg, 0x3c, id);
    lemma_tag_end(whole, start, start + 1);
    if is_self_closing(whole, start) {
        assert(group_name()[0] == 0x3c);
        assert(whole[start + 0] == group_name()[0]);
        assert(svg[start] == 0x3c);
        assert forall|j: int| start < j < id implies svg[j] != 0x3c by {
            assert(whole[j] == svg[j]);
        }
        assert(last_before(svg, 0x3c, id) == Some(start));
    } else {
        assert(group_close()[0] == 0x3c);
        assert(whole[end - 4 + 0] == group_close()[0]);
        assert(svg[end - 4] == 0x3c);
        assert(goes_on(svg, id));
        assert(goes_on(svg, start + 1));
    }
    lemma_mark_of_prefix(svg, more, first, id);
    lemma_around_of_prefix(svg, more, group_name(), id, id);
    lemma_end_of_prefix(svg, more, start, start + 1);
    assert(is_self_closing(all, start) == is_self_closing(svg, start));
    if !is_self_closing(svg, start) {
        lemma_closing_of_prefix(svg, more, gt + 1, gt + 1);
    }
}

/// Text that is appended to a drawing does not move its cut layer.
pub proof fn law_appended_text_keeps_layer(svg: Seq<u8>, more: Seq<u8>)
    requires
        layer_bounds(svg) is Ok,
    ensures
        layer_bounds(svg + more) == layer_bounds(svg),
{
    lemma_layer_of_prefix(svg, more);
}

/// A drawing that is cut off behind its layer still has it.
pub proof fn law_drawing_can_end_with_its_layer(svg: Seq<u8>)
    requires
        layer_bounds(svg) is Ok,
    ensures
        layer_bounds(svg.take(layer_bounds(svg)->Ok_0.1)) == layer_bounds(svg),
{
    let end = layer_bounds(svg)->Ok_0.1;
    law_layer_is_a_group(svg);
    assert(svg.take(end) + svg.skip(end) =~= svg);
    lemma_layer_of_prefix(svg.take(end), svg.skip(end));
}

/// Text before shifts what marks the layer.
pub proof fn lemma_marks_layer_shifted(before: Seq<u8>, svg: Seq<u8>, at: int)
    requires
        is_finished(before, group_name()),
        0 <= at <= svg.len(),
    ensures
        marks_layer(before + svg, before.len() + at) == marks_layer(svg, at),
        tag_around(svg, group_name(), at, at) matches Some(start) ==> tag_around(
            before + svg,
            group_name(),
            before.len() + at,
            before.len() + at,
        ) == Some(before.len() + start),
{
    let n = before.len() as int;
    lemma_marks();
    lemma_occurs_shifted(before, svg, layer_id(), at);
    lemma_around_shifted(before, svg, group_name(), at);
    lemma_tag_around(svg, group_name(), at, at);
    if at > 0 {
        assert((before + svg)[n + at - 1] == svg[at - 1]);
    }
}

/// Text before shifts the first mark of the layer.
proof fn lemma_mark_shifted(before: Seq<u8>, svg: Seq<u8>, at: int)
    requires
        is_finished(before, group_name()),
        0 <= at,
    ensures
        match layer_mark(svg, at) {
            Some(id) => {
                &&& layer_mark(before + svg, before.len() + at) == Some(before.len() + id)
                &&& tag_around(before + svg, group_name(), before.len() + id, before.len() + id)
                    == Some(before.len() + tag_around(svg, group_name(), id, id)->0)
            },
            None => layer_mark(before + svg, before.len() + at) is None,
        },
    decreases svg.len() - at,
{
    if at < svg.len() {
        lemma_marks_layer_shifted(before, svg, at);
        lemma_mark_shifted(before, svg, at + 1);
    }
}

/// Text before shifts what opens and closes groups.
pub proof fn lemma_counts_shifted(before: Seq<u8>, text: Seq<u8>, from: int, at: int)
    requires
        0 <= from,
        at <= text.len(),
    ensures
        opened_in(before + text, before.len() + from, before.len() + at) == opened_in(
            text,
            from,
            at,
        ),
        closed_in(before + text, before.len() + from, before.len() + at) == closed_in(
            text,
            from,
            at,
        ),
    decreases at - from,
{
    if from < at {
        let (all, n, here) = (before + text, before.len() as int, at - 1);
        lemma_counts_shifted(before, text, from, here);
        lemma_occurs_shifted(before, text, group_close(), here);
        lemma_occurs_shifted(before, text, group_name(), here);
        lemma_marks();
        if here + 2 < text.len() {
            assert(all[n + here + 2] == text[here + 2]);
        }
        lemma_self_closing_shifted(before, text, here);
        assert(opens_group(all, n + here) == opens_group(text, here));
    }
}

/// Text before a tag does not change whether the tag closes its element.
pub proof fn lemma_self_closing_shifted(before: Seq<u8>, text: Seq<u8>, start: int)
    requires
        0 <= start < text.len(),
    ensures
        is_self_closing(before + text, before.len() + start) == is_self_closing(text, start),
{
    let (all, n) = (before + text, before.len() as int);
    lemma_end_shifted(before, text, start, start + 1);
    lemma_tag_end(text, start, start + 1);
    assert(n + (start + 1) == (n + start) + 1);
    if tag_end(text, start, start + 1) is Some {
        let end = tag_end(text, start, start + 1)->0;
        assert(all[n + end - 1] == text[end - 1]);
    }
}

/// Text before shifts the tag that closes a group.
pub proof fn lemma_closing_shifted(before: Seq<u8>, text: Seq<u8>, from: int, at: int)
    requires
        0 <= from <= at,
    ensures
        match closing_tag(text, from, at) {
            Some(close) => closing_tag(before + text, before.len() + from, before.len() + at)
                == Some(before.len() + close),
            None => closing_tag(before + text, before.len() + from, before.len() + at) is None,
        },
    decreases text.len() - at,
{
    if at < text.len() {
        let (all, n) = (before + text, before.len() as int);
        lemma_counts_shifted(before, text, from, at);
        lemma_counts_shifted(before, text, from, at + 1);
        lemma_occurs_shifted(before, text, group_close(), at);
        assert(n + (at + 1) == (n + at) + 1);
        assert(closes_at(all, n + from, n + at) == closes_at(text, from, at));
        lemma_closing_shifted(before, text, from, at + 1);
    }
}

/// Text before a drawing shifts its cut layer, if it marks no layer, leaves no tag of a group
/// unfinished, and does not hold the mark before any `<`.
pub proof fn lemma_layer_shifted(before: Seq<u8>, svg: Seq<u8>)
    requires
        layer_bounds(svg) is Ok,
        is_finished(before, group_name()),
        forall|j: int| 0 <= j < before.len() ==> !#[trigger] marks_layer(before + svg, j),
        first_at(before + svg, layer_id(), 0) matches Some(first) ==> last_before(
            before + svg,
            0x3c,
            first,
        ) is Some,
    ensures
        layer_bounds(before + svg) == Ok::<(int, int), Seq<char>>(
            (
                before.len() + layer_bounds(svg)->Ok_0.0,
                before.len() + layer_bounds(svg)->Ok_0.1,
            ),
        ),
{
    let (all, n) = (before + svg, before.len() as int);
    let (start, end) = layer_bounds(svg)->Ok_0;
    let id = layer_mark(svg, 0)->0;
    let gt = opening_end(svg, start, id)->0;
    law_layer_is_a_group(svg);
    lemma_marks();
    lemma_layer_mark(svg, 0);
    assert(marks_layer(svg, id));
    assert(layer_mark(svg, 0) == Some(id));
    lemma_first_at(svg, layer_id(), 0);
    lemma_layer_mark(svg, first_at(svg, layer_id(), 0)->0);
    assert(layer_mark(svg, first_at(svg, layer_id(), 0)->0) == Some(id));
    assert(opening_end(svg, start, id) == Some(gt));
    lemma_mark_shifted(before, svg, 0);
    assert(layer_mark(all, n) == Some(n + id));
    lemma_layer_mark(all, n);
    assert(marks_layer(all, n + id));
    lemma_layer_mark(all, 0);
    assert(layer_mark(all, 0) == Some(n + id));
    lemma_first_at(all, layer_id(), 0);
    let first = first_at(all, layer_id(), 0)->0;
    lemma_layer_mark(all, first);
    assert(layer_mark(all, first) == Some(n + id));
    assert(bracket()[0] == 0x3e);
    assert(all[n + gt] == 0x3e);
    assert(occurs_at(all, bracket(), n + gt));
    lemma_first_at(all, bracket(), first);
    lemma_end_shifted(before, svg, start, start + 1);
    assert(n + (start + 1) == (n + start) + 1);
    lemma_first_shifted(before, svg, bracket(), id);
    lemma_self_closing_shifted(before, svg, start);
    assert(opening_end(all, n + start, n + id) == Some(n + gt));
    lemma_closing_shifted(before, svg, gt + 1, gt + 1);
    assert(n + (gt + 1) == (n + gt) + 1);
}

/// Text before a layer at the front that is not closed leaves it so, on the same conditions.
pub proof fn lemma_unclosed_shifted(before: Seq<u8>, svg: Seq<u8>, id: int, gt: int)
    requires
        first_at(svg, layer_id(), 0) is Some,
        layer_mark(svg, first_at(svg, layer_id(), 0)->0) == Some(id),
        tag_around(svg, group_name(), id, id) == Some(0int),
        tag_end(svg, 0, 1) == Some(gt),
        !is_self_closing(svg, 0),
        closing_tag(svg, gt + 1, gt + 1) is None,
        is_finished(before, group_name()),
        forall|j: int| 0 <= j < before.len() ==> !#[trigger] marks_layer(before + svg, j),
        first_at(before + svg, layer_id(), 0) matches Some(first) ==> last_before(
            before + svg,
            0x3c,
            first,
        ) is Some,
    ensures
        layer_bounds(before + svg) == Err::<(int, int), Seq<char>>(
            "Malformed SVG: unmatched <g> tag inside Cut-Layer"@,
        ),
{
    let (all, n) = (before + svg, before.len() as int);
    lemma_marks();
    lemma_first_at(svg, layer_id(), 0);
    let first = first_at(svg, layer_id(), 0)->0;
    lemma_layer_mark(svg, first);
    lemma_layer_mark(svg, 0);
    assert(marks_layer(svg, id));
    assert(layer_mark(svg, 0) == Some(id));
    lemma_mark_shifted(before, svg, 0);
    lemma_layer_mark(all, n);
    assert(marks_layer(all, n + id));
    lemma_layer_mark(all, 0);
    assert(layer_mark(all, 0) == Some(n + id));
    lemma_first_at(all, layer_id(), 0);
    let found = first_at(all, layer_id(), 0)->0;
    assert(found <= n + id);
    lemma_layer_mark(all, found);
    assert(layer_mark(all, found) == Some(n + id));
    lemma_tag_end(svg, 0, 1);
    lemma_tag_around(svg, group_name(), id, id);
    lemma_owned_before_end(svg, group_name(), 0, id);
    assert(bracket()[0] == 0x3e);
    assert(all[n + gt] == svg[gt]);
    assert(occurs_at(all, bracket(), n + gt));
    lemma_first_at(all, bracket(), found);
    lemma_end_shifted(before, svg, 0, 1);
    assert(tag_end(all, n, n + 1) == Some(n + gt));
    lemma_self_closing_shifted(before, svg, 0);
    lemma_closing_shifted(before, svg, gt + 1, gt + 1);
    assert(n + (gt + 1) == (n + gt) + 1);
    assert(opening_end(all, n, n + id) == Some(n + gt));
}

/// Text before a drawing shifts its cut layer by the text's length, unless the text holds the
/// beginning of a mark of its own or leaves the tag of a group unfinished.
pub proof fn law_text_before_shifts_layer(before: Seq<u8>, svg: Seq<u8>)
    requires
        layer_bounds(svg) is Ok,
        is_finished(before, group_name()),
        forall|j: int| 0 <= j < before.len() ==> !occurs_at(before + svg, layer_id(), j),
    ensures
        layer_bounds(before + svg) == Ok::<(int, int), Seq<char>>(
            (
                before.len() + layer_bounds(svg)->Ok_0.0,
                before.len() + layer_bounds(svg)->Ok_0.1,
            ),
        ),
{
    let (all, n) = (before + svg, before.len() as int);
    let first = first_at(svg, layer_id(), 0)->0;
    lemma_first_at(svg, layer_id(), 0);
    lemma_first_at(all, layer_id(), 0);
    lemma_occurs_shifted(before, svg, layer_id(), first);
    let found = first_at(all, layer_id(), 0)->0;
    lemma_occurs_shifted(before, svg, layer_id(), found - n);
    assert(found == n + first);
    lemma_last_shifted(before, svg, 0x3c, first);
    lemma_layer_shifted(before, svg);
}

/// Text before, in which no tag is unfinished, shifts what marks path data.
pub proof fn lemma_data_shifted(before: Seq<u8>, text: Seq<u8>, at: int)
    requires
        is_finished(before, path_name()),
        0 <= at <= text.len(),
    ensures
        marks_data(before + text, before.len() + at) == marks_data(text, at),
{
    let (all, n) = (before + text, before.len() as int);
    lemma_data_mark();
    lemma_occurs_shifted(before, text, data_mark(), at);
    lemma_around_shifted(before, text, path_name(), at);
    lemma_tag_around(text, path_name(), at, at);
    if tag_around(text, path_name(), at, at) is Some {
        let start = tag_around(text, path_name(), at, at)->0;
        lemma_state_shifted(before, text, start, at);
        assert(all[n + at - 1] == text[at - 1]);
    }
}

/// Text behind one in which no tag is unfinished does not change what marks path data in it.
pub proof fn lemma_data_of_finished(text: Seq<u8>, more: Seq<u8>, at: int)
    requires
        is_finished(text, path_name()),
        0 <= at < text.len(),
    ensures
        marks_data(text + more, at) == marks_data(text, at),
{
    let (all, n) = (text + more, text.len() as int);
    lemma_data_mark();
    lemma_occurs_of_prefix(text, more, data_mark(), at);
    lemma_around_of_finished(text, more, path_name(), at, at);
    lemma_tag_around(text, path_name(), at, at);
    if tag_around(text, path_name(), at, at) is Some {
        let start = tag_around(text, path_name(), at, at)->0;
        lemma_state_of_prefix(text, more, start, at);
        assert(all[at - 1] == text[at - 1]);
    }
    if at + 3 > n {
        lemma_no_mark_runs_on(text, more, at);
    }
}

/// What stands behind a finished text is extracted as if it stood alone.
proof fn lemma_values_shifted(before: Seq<u8>, text: Seq<u8>, at: int)
    requires
        is_finished(before, path_name()),
        0 <= at,
    ensures
        path_data(before + text, before.len() + at) == path_data(text, at),
    decreases text.len() - at,
{
    if at < text.len() {
        let (all, n) = (before + text, before.len() as int);
        lemma_data_mark();
        lemma_data_shifted(before, text, at);
        lemma_first_shifted(before, text, quote(), at + 3);
        lemma_first_at(text, quote(), at + 3);
        lemma_quote();
        assert(n + (at + 3) == (n + at) + 3);
        if marks_data(text, at) && first_at(text, quote(), at + 3) is Some {
            let end = first_at(text, quote(), at + 3)->0;
            assert(all.subrange(n + at + 3, n + end) =~= text.subrange(at + 3, end));
        }
        assert(value_at(all, n + at) =~= value_at(text, at));
        lemma_values_shifted(before, text, at + 1);
        assert(n + (at + 1) == (n + at) + 1);
    }
}

/// A mark that begins in a finished text does not run on into what follows.
proof fn lemma_no_mark_runs_on(text: Seq<u8>, more: Seq<u8>, at: int)
    requires
        is_finished(text, path_name()),
        0 <= at < text.len() < at + 3,
    ensures
        !marks_data(text + more, at),
{
    let (all, n) = (text + more, text.len() as int);
    lemma_data_mark();
    if marks_data(all, at) {
        lemma_tag_around(all, path_name(), at, at);
        let start = tag_around(all, path_name(), at, at)->0;
        lemma_tag_is_complete(text, more, path_name(), start);
        assert(is_tag(text, path_name(), start));
        lemma_state_of_prefix(text, more, start, n);
        assert(data_mark()[0] == 0x64 && data_mark()[1] == 0x3d);
        assert(all[at + 0] == data_mark()[0]);
        assert(all[at + 1] == data_mark()[1]);
        if tag_state(all, start, at) is Inside {
            assert(tag_state(all, start, at + 1) is Inside);
            assert(tag_state(all, start, at + 2) is Inside);
        } else {
            lemma_last_before(all, 0x3c, at);
            lemma_ended(all, start, start + 1, n);
        }
    }
}

/// What stands in a finished text is extracted as if nothing followed.
proof fn lemma_values_of_finished(text: Seq<u8>, more: Seq<u8>, at: int)
    requires
        is_finished(text, path_name()),
        forall|i: int|
            0 <= i && #[trigger] marks_data(text, i) ==> first_at(text, quote(), i + 3) is Some,
        0 <= at <= text.len(),
    ensures
        path_data(text + more, at) == path_data(text, at) + path_data(more, 0),
    decreases text.len() - at,
{
    let (all, n) = (text + more, text.len() as int);
    if at < n {
        lemma_data_mark();
        lemma_data_of_finished(text, more, at);
        if marks_data(text, at) {
            let end = first_at(text, quote(), at + 3)->0;
            lemma_quote();
            lemma_first_at(text, quote(), at + 3);
            lemma_first_of_prefix(text, more, quote(), at + 3);
            assert(all.subrange(at + 3, end) =~= text.subrange(at + 3, end));
        }
        assert(value_at(all, at) =~= value_at(text, at));
        lemma_values_of_finished(text, more, at + 1);
        assert(path_data(all, at) =~= path_data(text, at) + path_data(more, 0));
    } else {
        lemma_values_shifted(text, more, 0);
        assert(path_data(text, at) + path_data(more, 0) =~= path_data(more, 0));
    }
}

/// The values that are extracted from two joined texts are those of the one, then those of the
/// other, where the first leaves no tag of a path unfinished and closes every value that it
/// begins.
pub proof fn law_joined_texts_join_their_values(text: Seq<u8>, more: Seq<u8>)
    requires
        is_finished(text, path_name()),
        forall|i: int|
            0 <= i && #[trigger] marks_data(text, i) ==> first_at(text, quote(), i + 3) is Some,
    ensures
        path_data(text + more, 0) == path_data(text, 0) + path_data(more, 0),
{
    lemma_values_of_finished(text, more, 0);
}

} // verus!
