//! What is found in well-formed markup, whatever the names, values, line breaks and texts in it:
//! the cut layer is the group that says so, and the path data is what the paths say.

use vstd::prelude::*;
use vstd::string::*;
use vstd::utf8::*;

use crate::cut_layer::{
    bracket, closed_in, closes_at, closing_tag, data_mark, group_close, group_name, layer_bounds,
    layer_id, layer_mark, lemma_closing_tag, lemma_data_mark, lemma_layer_mark, lemma_marks,
    marks_data, marks_layer, opened_in, opening_end, opens_group, path_data, path_name, value_at,
};
use crate::joined::{
    law_joined_texts_join_their_values, lemma_closing_shifted, lemma_counts_shifted,
    lemma_data_of_finished, lemma_data_shifted, lemma_layer_shifted, lemma_marks_layer_shifted,
    lemma_unclosed_shifted,
};
use crate::markup::{
    are_attributes, are_tokens, attribute_bytes, attribute_start, attributes_bytes, is_attribute,
    is_blank, is_letter, is_name, is_tail, is_token, lemma_attribute_place, lemma_attribute_states,
    lemma_attributes_split, lemma_plain_run, lemma_tag_up_to, lemma_whole_tag, markup_bytes,
    tag_bytes, token_bytes, Attribute, Token,
};
use crate::tags::{
    is_finished, is_followed, is_name_byte, is_quote, is_self_closing, is_space, is_tag,
    is_tag_name, lemma_outside_stays, lemma_state_of_prefix, lemma_state_shifted,
    lemma_tag_around, lemma_tag_is_complete, tag_around, tag_end, tag_state,
};
use crate::text::{
    first_at, last_before, lemma_first_at, lemma_first_of_prefix, lemma_last_before,
    lemma_occurs_shifted, lemma_quote, occurs_at, quote, reads_at,
};

verus! {

/// The attribute `id="Cut-Layer"`.
pub open spec fn names_layer(a: Attribute) -> bool {
    a.name == seq![0x69u8, 0x64] && a.quote == 0x22 && a.value == encode_utf8("Cut-Layer"@)
}

/// The tag of a group, `<g>`, that has the attribute.
pub open spec fn is_layer(token: Token) -> bool {
    match token {
        Token::Open(name, attributes, _) => name == seq![0x67u8] && exists|k: int|
            0 <= k < attributes.len() && names_layer(#[trigger] attributes[k]),
        Token::Empty(name, attributes, _) => name == seq![0x67u8] && exists|k: int|
            0 <= k < attributes.len() && names_layer(#[trigger] attributes[k]),
        _ => false,
    }
}

/// How many groups more are open behind a token than before it.
pub open spec fn opens(token: Token) -> int {
    match token {
        Token::Open(name, _, _) => if name == seq![0x67u8] {
            1
        } else {
            0
        },
        Token::Close(name) => if name == seq![0x67u8] {
            -1
        } else {
            0
        },
        _ => 0,
    }
}

/// How many groups more are open behind a run of tokens than before it.
pub open spec fn depth(tokens: Seq<Token>) -> int
    decreases tokens.len(),
{
    if tokens.len() == 0 {
        0
    } else {
        depth(tokens.drop_last()) + opens(tokens.last())
    }
}

/// A run of tokens never closes a group that was opened before it.
pub open spec fn stays_open(tokens: Seq<Token>) -> bool {
    forall|k: int| 0 <= k <= tokens.len() ==> depth(#[trigger] tokens.take(k)) >= 0
}

pub proof fn lemma_letters(byte: u8)
    ensures
        is_letter(byte) == is_name_byte(byte),
        is_blank(byte) ==> is_space(byte) && !is_letter(byte),
        is_letter(byte) ==> !is_space(byte) && !is_quote(byte),
{
}

/// The tokens that open an element, as a tag with its end.
proof fn lemma_token_is_tag(token: Token) -> (tail: Seq<u8>)
    requires
        is_token(token),
        token is Open || token is Empty,
    ensures
        is_tail(tail),
        match token {
            Token::Open(name, attributes, gap) => {
                &&& token_bytes(token) == tag_bytes(name, attributes, tail)
                &&& tail == gap + seq![0x3eu8]
            },
            Token::Empty(name, attributes, gap) => {
                &&& token_bytes(token) == tag_bytes(name, attributes, tail)
                &&& tail == gap + seq![0x2fu8, 0x3e]
            },
            _ => false,
        },
{
    match token {
        Token::Open(name, attributes, gap) => {
            let tail = gap + seq![0x3eu8];
            assert forall|i: int| 0 <= i < tail.len() - 1 implies is_blank(#[trigger] tail[i])
                || tail[i] == 0x2f by {
                assert(is_blank(gap[i]));
            }
            tail
        },
        Token::Empty(name, attributes, gap) => {
            let tail = gap + seq![0x2fu8, 0x3e];
            assert forall|i: int| 0 <= i < tail.len() - 1 implies is_blank(#[trigger] tail[i])
                || tail[i] == 0x2f by {
                if i < gap.len() {
                    assert(is_blank(gap[i]));
                }
            }
            tail
        },
        _ => seq![],
    }
}

/// A token holds no `<` but at its beginning, ends with `>` unless it is text, and lies behind
/// any tag that it begins.
proof fn lemma_token_shape(token: Token, rest: Seq<u8>)
    requires
        is_token(token),
    ensures
        ({
            let text = token_bytes(token) + rest;
            let n = token_bytes(token).len() as int;
            &&& forall|i: int| 0 < i < n ==> (#[trigger] text[i]) != 0x3c
            &&& token is Text ==> forall|i: int| 0 <= i < n ==> (#[trigger] text[i]) != 0x3c
            &&& !(token is Text) ==> {
                &&& n >= 3
                &&& text[0] == 0x3c
                &&& text[n - 1] == 0x3e
                &&& tag_state(text, 0, n) is Outside
            }
            &&& token matches Token::Close(name) ==> {
                &&& n == name.len() + 3
                &&& text[1] == 0x2f
                &&& forall|i: int| 0 <= i < name.len() ==> text[2 + i] == #[trigger] name[i]
            }
        }),
{
    let text = token_bytes(token) + rest;
    let n = token_bytes(token).len() as int;
    match token {
        Token::Text(bytes) => {
            assert forall|i: int| 0 <= i < n implies (#[trigger] text[i]) != 0x3c by {
                assert(bytes[i] != 0x3c);
            }
        },
        Token::Close(name) => {
            let bytes = token_bytes(token);
            assert(bytes[0] == 0x3c && bytes[1] == 0x2f);
            assert(bytes[n - 1] == 0x3e);
            assert forall|i: int| 0 <= i < name.len() implies text[2 + i] == #[trigger] name[i] by {
                assert(bytes[2 + i] == name[i]);
            }
            assert forall|i: int| 1 <= i < n - 1 implies (#[trigger] text[i]) != 0x3c && text[i]
                != 0x3e && text[i] != 0x22 && text[i] != 0x27 by {
                if i > 1 {
                    assert(is_letter(name[i - 2]));
                }
            }
            lemma_plain_run(text, 0, 1, n - 1);
            assert(tag_state(text, 0, n - 1) is Inside);
        },
        Token::Open(name, attributes, _) => {
            let tail = lemma_token_is_tag(token);
            lemma_whole_tag(text, name, attributes, tail, rest);
            assert(text[n - 1] == tail[tail.len() - 1]);
        },
        Token::Empty(name, attributes, _) => {
            let tail = lemma_token_is_tag(token);
            lemma_whole_tag(text, name, attributes, tail, rest);
            assert(text[n - 1] == tail[tail.len() - 1]);
        },
    }
}

/// A token leaves no tag unfinished.
proof fn lemma_token_finished(token: Token, name: Seq<u8>)
    requires
        is_token(token),
        is_tag_name(name),
    ensures
        is_finished(token_bytes(token), name),
{
    let text = token_bytes(token);
    let n = text.len() as int;
    let none: Seq<u8> = seq![];
    lemma_token_shape(token, none);
    assert(text + none =~= text);
    assert forall|i: int| 0 <= i < n && text[i] == 0x3c implies #[trigger] is_followed(text, i) by {
        assert(i == 0);
        assert(text[n - 1] == 0x3e);
    }
    assert forall|i: int| 0 <= i && #[trigger] is_tag(text, name, i) implies tag_state(
        text,
        i,
        n,
    ) is Outside by {
        assert(text[i + 0] == name[0]);
        assert(i == 0);
    }
}

/// Two texts that leave no tag unfinished leave none unfinished when they are joined.
proof fn lemma_finished_joined(a: Seq<u8>, b: Seq<u8>, name: Seq<u8>)
    requires
        is_tag_name(name),
        is_finished(a, name),
        is_finished(b, name),
    ensures
        is_finished(a + b, name),
{
    let all = a + b;
    let n = a.len() as int;
    assert forall|i: int| 0 <= i < all.len() && all[i] == 0x3c implies #[trigger] is_followed(
        all,
        i,
    ) by {
        if i < n {
            assert(is_followed(a, i));
            let k = choose|k: int| i < k < a.len() && a[k] == 0x3e;
            assert(all[k] == 0x3e);
        } else {
            assert(is_followed(b, i - n));
            let k = choose|k: int| i - n < k < b.len() && b[k] == 0x3e;
            assert(all[n + k] == 0x3e);
        }
    }
    assert forall|i: int| 0 <= i && #[trigger] is_tag(all, name, i) implies tag_state(
        all,
        i,
        all.len() as int,
    ) is Outside by {
        if i < n {
            lemma_tag_is_complete(a, b, name, i);
            assert(is_tag(a, name, i));
            lemma_state_of_prefix(a, b, i, n);
            lemma_outside_stays(all, i, n, all.len() as int);
        } else {
            lemma_occurs_shifted(a, b, name, i - n);
            assert(all[i + name.len()] == b[i - n + name.len()]);
            assert(is_tag(b, name, i - n));
            lemma_state_shifted(a, b, i - n, b.len() as int);
        }
    }
}

/// Markup leaves no tag unfinished.
proof fn lemma_markup_finished(tokens: Seq<Token>, name: Seq<u8>)
    requires
        are_tokens(tokens),
        is_tag_name(name),
    ensures
        is_finished(markup_bytes(tokens), name),
    decreases tokens.len(),
{
    if tokens.len() > 0 {
        assert(are_tokens(tokens.drop_last())) by {
            assert forall|i: int| 0 <= i < tokens.drop_last().len() implies is_token(
                #[trigger] tokens.drop_last()[i],
            ) by {
                assert(is_token(tokens[i]));
            }
        }
        lemma_markup_finished(tokens.drop_last(), name);
        assert(is_token(tokens[tokens.len() - 1]));
        lemma_token_finished(tokens.last(), name);
        lemma_finished_joined(markup_bytes(tokens.drop_last()), token_bytes(tokens.last()), name);
    }
}

/// Where a token opens or closes a group.
proof fn lemma_token_groups(token: Token, rest: Seq<u8>)
    requires
        is_token(token),
    ensures
        ({
            let text = token_bytes(token) + rest;
            let n = token_bytes(token).len() as int;
            &&& forall|i: int|
                0 <= i < n ==> #[trigger] opens_group(text, i) == (i == 0 && opens(token) == 1)
            &&& forall|i: int|
                0 <= i < n ==> #[trigger] occurs_at(text, group_close(), i) == (i == 0 && opens(
                    token,
                ) == -1)
        }),
{
    let text = token_bytes(token) + rest;
    let n = token_bytes(token).len() as int;
    lemma_marks();
    lemma_token_shape(token, rest);
    assert(group_name()[0] == 0x3c && group_name()[1] == 0x67);
    assert(group_close()[0] == 0x3c && group_close()[1] == 0x2f && group_close()[2] == 0x67
        && group_close()[3] == 0x3e);
    assert forall|i: int| 0 <= i < n implies #[trigger] opens_group(text, i) == (i == 0 && opens(
        token,
    ) == 1) by {
        if opens_group(text, i) {
            assert(text[i + 0] == group_name()[0]);
            assert(text[i + 1] == group_name()[1]);
            assert(i == 0 && !(token is Text));
        }
        if i == 0 {
            lemma_token_opens(token, rest);
        }
    }
    assert forall|i: int| 0 <= i < n implies #[trigger] occurs_at(text, group_close(), i) == (i == 0
        && opens(token) == -1) by {
        if occurs_at(text, group_close(), i) {
            assert(text[i + 0] == group_close()[0]);
            assert(i == 0 && !(token is Text));
        }
        if i == 0 {
            lemma_token_closes(token, rest);
        }
    }
}

proof fn lemma_token_opens(token: Token, rest: Seq<u8>)
    requires
        is_token(token),
        token_bytes(token).len() > 0,
    ensures
        opens_group(token_bytes(token) + rest, 0) == (opens(token) == 1),
{
    let text = token_bytes(token) + rest;
    let n = token_bytes(token).len() as int;
    lemma_marks();
    lemma_token_shape(token, rest);
    assert(group_name()[0] == 0x3c && group_name()[1] == 0x67);
    if occurs_at(text, group_name(), 0) {
        assert(text[0int + 0] == group_name()[0]);
        assert(text[0int + 1] == group_name()[1]);
    }
    match token {
        Token::Open(name, attributes, gap) => {
            let tail = lemma_token_is_tag(token);
            lemma_whole_tag(text, name, attributes, tail, rest);
            lemma_group_tag(text, name, attributes, tail, rest);
            assert(text[n - 2] != 0x2f) by {
                let inner = n - tail.len();
                if gap.len() > 0 {
                    assert(text[n - 2] == tail[n - 2 - inner]);
                    assert(is_blank(gap[gap.len() - 1]));
                } else if attributes.len() > 0 {
                    let k = attributes.len() - 1;
                    let a = attributes[k];
                    assert(is_attribute(a));
                    lemma_attribute_place(text, name, attributes, tail, rest, k);
                    lemma_tag_up_to(text, name, attributes, tail, rest, k);
                    lemma_attribute_states(text, 0, attribute_start(name, attributes, k), a);
                    assert(attributes.take(k + 1) =~= attributes);
                } else {
                    assert(attributes_bytes(attributes) =~= seq![]);
                    assert(text[name.len() as int] == name[name.len() - 1]);
                    assert(is_letter(name[name.len() - 1]));
                }
            }
        },
        Token::Empty(name, attributes, gap) => {
            let tail = lemma_token_is_tag(token);
            lemma_whole_tag(text, name, attributes, tail, rest);
            lemma_group_tag(text, name, attributes, tail, rest);
            let inner = n - tail.len();
            assert(text[n - 2] == tail[n - 2 - inner]);
        },
        Token::Close(name) => {},
        Token::Text(_) => {},
    }
}

/// A tag is that of a group if its name is `g`.
proof fn lemma_group_tag(
    text: Seq<u8>,
    name: Seq<u8>,
    attributes: Seq<Attribute>,
    tail: Seq<u8>,
    rest: Seq<u8>,
)
    requires
        text == tag_bytes(name, attributes, tail) + rest,
        is_name(name),
        are_attributes(attributes),
        is_tail(tail),
    ensures
        is_tag(text, group_name(), 0) == (name == seq![0x67u8]),
{
    lemma_marks();
    lemma_whole_tag(text, name, attributes, tail, rest);
    assert(group_name()[0] == 0x3c && group_name()[1] == 0x67);
    assert(text[1] == name[0]);
    lemma_letters(text[name.len() as int + 1]);
    if is_tag(text, group_name(), 0) {
        assert(text[0int + 1] == group_name()[1]);
        if name.len() > 1 {
            assert(text[2] == name[1]);
            assert(is_letter(name[1]));
            lemma_letters(text[2]);
        }
        assert(name =~= seq![0x67u8]);
    }
}

proof fn lemma_token_closes(token: Token, rest: Seq<u8>)
    requires
        is_token(token),
        token_bytes(token).len() > 0,
    ensures
        occurs_at(token_bytes(token) + rest, group_close(), 0) == (opens(token) == -1),
{
    let text = token_bytes(token) + rest;
    lemma_marks();
    lemma_token_shape(token, rest);
    assert(group_close()[0] == 0x3c && group_close()[1] == 0x2f && group_close()[2] == 0x67
        && group_close()[3] == 0x3e);
    if occurs_at(text, group_close(), 0) {
        assert(text[0int + 0] == group_close()[0]);
        assert(text[0int + 1] == group_close()[1]);
        assert(text[0int + 2] == group_close()[2]);
        assert(text[0int + 3] == group_close()[3]);
    }
    match token {
        Token::Open(name, attributes, gap) => {
            let tail = lemma_token_is_tag(token);
            lemma_whole_tag(text, name, attributes, tail, rest);
            assert(text[1] == name[0]);
            assert(is_letter(name[0]));
        },
        Token::Empty(name, attributes, gap) => {
            let tail = lemma_token_is_tag(token);
            lemma_whole_tag(text, name, attributes, tail, rest);
            assert(text[1] == name[0]);
            assert(is_letter(name[0]));
        },
        Token::Close(name) => {
            assert(text[2int + 0] == name[0]);
            if occurs_at(text, group_close(), 0) {
                if name.len() > 1 {
                    assert(text[2int + 1] == name[1]);
                    assert(is_letter(name[1]));
                }
                assert(name =~= seq![0x67u8]);
            }
        },
        Token::Text(_) => {},
    }
}

/// A position among the attributes of a tag lies in one of them.
proof fn lemma_attribute_at(name: Seq<u8>, attributes: Seq<Attribute>, at: int, count: int) -> (k:
    int)
    requires
        0 <= count <= attributes.len(),
        1 + name.len() <= at < attribute_start(name, attributes, count),
    ensures
        0 <= k < count,
        attribute_start(name, attributes, k) <= at < attribute_start(name, attributes, k + 1),
    decreases count,
{
    if count == 0 {
        assert(attributes.take(0) =~= seq![]);
        0
    } else if at >= attribute_start(name, attributes, count - 1) {
        count - 1
    } else {
        lemma_attribute_at(name, attributes, at, count - 1)
    }
}

/// A name begins at every letter inside a tag, outside its own name, that follows no letter.
proof fn lemma_name_begins(
    text: Seq<u8>,
    name: Seq<u8>,
    attributes: Seq<Attribute>,
    tail: Seq<u8>,
    rest: Seq<u8>,
    at: int,
) -> (k: int)
    requires
        text == tag_bytes(name, attributes, tail) + rest,
        is_name(name),
        are_attributes(attributes),
        is_tail(tail),
        1 < at < tag_bytes(name, attributes, tail).len(),
        tag_state(text, 0, at) is Inside,
        is_letter(text[at]),
        !is_letter(text[at - 1]),
    ensures
        0 <= k < attributes.len(),
        at == attribute_start(name, attributes, k) + attributes[k].gap.len(),
{
    let n = tag_bytes(name, attributes, tail).len() as int;
    let inner = n - tail.len();
    let count = attributes.len() as int;
    lemma_whole_tag(text, name, attributes, tail, rest);
    assert(attributes.take(count) =~= attributes);
    if at <= name.len() {
        assert(text[at - 1] == name[at - 2]);
        assert(is_letter(name[at - 2]));
    }
    if at >= inner {
        assert(text[at] == tail[at - inner]);
        if at < n - 1 {
            assert(is_blank(tail[at - inner]) || tail[at - inner] == 0x2f);
        }
    }
    let k = lemma_attribute_at(name, attributes, at, count);
    let a = attributes[k];
    let start = attribute_start(name, attributes, k);
    assert(is_attribute(a));
    lemma_attribute_place(text, name, attributes, tail, rest, k);
    lemma_tag_up_to(text, name, attributes, tail, rest, k);
    lemma_attribute_states(text, 0, start, a);
    let begin = start + a.gap.len();
    if at < begin {
        assert(text[at] == a.gap[at - start]);
        assert(is_blank(a.gap[at - start]));
    } else if begin < at < begin + a.name.len() {
        assert(text[at - 1] == a.name[at - 1 - begin]);
        assert(is_letter(a.name[at - 1 - begin]));
    } else if at == begin + a.name.len() {
    } else if at == begin + a.name.len() + 1 {
    } else if at > begin + a.name.len() + 1 {
        assert(tag_state(text, 0, at) == crate::tags::TagState::Quoted(a.quote));
    }
    k
}

/// The mark of the layer, byte by byte.
proof fn lemma_layer_bytes()
    ensures
        layer_id() == seq![0x69u8, 0x64, 0x3d, 0x22] + encode_utf8("Cut-Layer"@) + seq![0x22u8],
        encode_utf8("Cut-Layer"@) == seq![
            0x43u8, 0x75, 0x74, 0x2d, 0x4c, 0x61, 0x79, 0x65, 0x72,
        ],
{
    reveal_strlit("Cut-Layer");
    reveal_strlit("id=\"Cut-Layer\"");
    is_ascii_chars_encode_utf8("Cut-Layer"@);
    is_ascii_chars_encode_utf8("id=\"Cut-Layer\""@);
    assert(encode_utf8("Cut-Layer"@) =~= seq![
        0x43u8, 0x75, 0x74, 0x2d, 0x4c, 0x61, 0x79, 0x65, 0x72,
    ]);
    assert(layer_id() =~= seq![0x69u8, 0x64, 0x3d, 0x22] + encode_utf8("Cut-Layer"@) + seq![
        0x22u8,
    ]);
}

/// A mark that stands at the name of an attribute is that attribute.
proof fn lemma_mark_is_attribute(text: Seq<u8>, at: int, a: Attribute)
    requires
        0 < at,
        is_attribute(a),
        at + attribute_bytes(a).len() <= text.len(),
        text.subrange(at, at + attribute_bytes(a).len()) == attribute_bytes(a),
        tag_state(text, 0, at) is Inside,
    ensures
        occurs_at(text, layer_id(), at + a.gap.len()) == names_layer(a),
        occurs_at(text, data_mark(), at + a.gap.len()) == (a.name == seq![0x64u8] && a.quote
            == 0x22),
{
    lemma_attribute_states(text, 0, at, a);
    lemma_layer_bytes();
    lemma_data_mark();
    let begin = at + a.gap.len();
    let value = begin + a.name.len() + 2;
    let mark = layer_id();
    let word = encode_utf8("Cut-Layer"@);
    assert(text[begin] == a.name[0]);
    assert(is_letter(a.name[0]));
    if a.name.len() > 1 {
        assert(text[begin + 1] == a.name[1]);
        assert(is_letter(a.name[1]));
    }
    if a.name.len() > 2 {
        assert(text[begin + 2] == a.name[2]);
        assert(is_letter(a.name[2]));
    }
    if occurs_at(text, mark, begin) {
        assert(mark[0] == 0x69 && mark[1] == 0x64 && mark[2] == 0x3d && mark[3] == 0x22 && mark[13]
            == 0x22);
        assert(text[begin + 0] == mark[0]);
        assert(text[begin + 1] == mark[1]);
        assert(text[begin + 2] == mark[2]);
        assert(text[begin + 3] == mark[3]);
        assert(text[begin + 13] == mark[13]);
        assert(a.name.len() == 2);
        assert(a.name =~= seq![0x69u8, 0x64]);
        assert(a.quote == 0x22);
        if a.value.len() < 9 {
            let i = 4 + a.value.len();
            assert(text[begin + i] == mark[i as int]);
            assert(mark[i as int] == word[i - 4]);
        }
        if a.value.len() > 9 {
            assert(text[begin + 13] == a.value[9]);
        }
        assert forall|i: int| 0 <= i < 9 implies a.value[i] == word[i] by {
            assert(text[begin + (4 + i)] == mark[4 + i]);
            assert(mark[4 + i] == word[i]);
            assert(text[value + i] == a.value[value + i - value]);
        }
        assert(a.value =~= word);
    }
    if names_layer(a) {
        assert forall|i: int| 0 <= i < mark.len() implies text[begin + i] == #[trigger] mark[i] by {
            if 4 <= i < 13 {
                assert(mark[i] == word[i - 4]);
                assert(text[begin + i] == a.value[begin + i - value]);
            }
        }
    }
    assert(data_mark()[0] == 0x64 && data_mark()[1] == 0x3d && data_mark()[2] == 0x22);
    if occurs_at(text, data_mark(), begin) {
        assert(text[begin + 0] == data_mark()[0]);
        assert(text[begin + 1] == data_mark()[1]);
        assert(text[begin + 2] == data_mark()[2]);
        assert(a.name =~= seq![0x64u8]);
    }
    if a.name == seq![0x64u8] && a.quote == 0x22 {
        assert(occurs_at(text, data_mark(), begin));
    }
}

/// A token that does not name the layer marks none.
proof fn lemma_token_unmarked(token: Token, rest: Seq<u8>)
    requires
        is_token(token),
        !is_layer(token),
    ensures
        forall|i: int|
            0 <= i < token_bytes(token).len() ==> !#[trigger] marks_layer(
                token_bytes(token) + rest,
                i,
            ),
{
    let text = token_bytes(token) + rest;
    let n = token_bytes(token).len() as int;
    assert forall|i: int| 0 <= i < n implies !#[trigger] marks_layer(text, i) by {
        if marks_layer(text, i) {
            lemma_mark_needs_layer(token, rest, i);
        }
    }
}

proof fn lemma_mark_needs_layer(token: Token, rest: Seq<u8>, at: int)
    requires
        is_token(token),
        0 <= at < token_bytes(token).len(),
        marks_layer(token_bytes(token) + rest, at),
    ensures
        is_layer(token),
{
    let text = token_bytes(token) + rest;
    lemma_marks();
    lemma_layer_bytes();
    lemma_token_shape(token, rest);
    lemma_tag_around(text, group_name(), at, at);
    let start = tag_around(text, group_name(), at, at)->0;
    assert(group_name()[0] == 0x3c && group_name()[1] == 0x67);
    assert(text[start + 0] == group_name()[0]);
    assert(start == 0);
    assert(text[0int + 1] == group_name()[1]);
    assert(layer_id()[0] == 0x69);
    assert(text[at + 0] == layer_id()[0]);
    lemma_letters(text[at]);
    lemma_letters(text[at - 1]);
    match token {
        Token::Open(name, attributes, _) => {
            let tail = lemma_token_is_tag(token);
            lemma_whole_tag(text, name, attributes, tail, rest);
            lemma_group_tag(text, name, attributes, tail, rest);
            let k = lemma_name_begins(text, name, attributes, tail, rest, at);
            assert(is_attribute(attributes[k]));
            lemma_attribute_place(text, name, attributes, tail, rest, k);
            lemma_tag_up_to(text, name, attributes, tail, rest, k);
            lemma_mark_is_attribute(text, attribute_start(name, attributes, k), attributes[k]);
        },
        Token::Empty(name, attributes, _) => {
            let tail = lemma_token_is_tag(token);
            lemma_whole_tag(text, name, attributes, tail, rest);
            lemma_group_tag(text, name, attributes, tail, rest);
            let k = lemma_name_begins(text, name, attributes, tail, rest, at);
            assert(is_attribute(attributes[k]));
            lemma_attribute_place(text, name, attributes, tail, rest, k);
            lemma_tag_up_to(text, name, attributes, tail, rest, k);
            lemma_mark_is_attribute(text, attribute_start(name, attributes, k), attributes[k]);
        },
        _ => {},
    }
}

/// The tag that names the layer marks it.
proof fn lemma_layer_marked(token: Token, rest: Seq<u8>) -> (id: int)
    requires
        is_token(token),
        is_layer(token),
    ensures
        ({
            let text = token_bytes(token) + rest;
            &&& 0 < id < token_bytes(token).len()
            &&& marks_layer(text, id)
        }),
{
    let text = token_bytes(token) + rest;
    lemma_marks();
    match token {
        Token::Open(name, attributes, _) => {
            let tail = lemma_token_is_tag(token);
            let k = choose|k: int| 0 <= k < attributes.len() && names_layer(
                #[trigger] attributes[k],
            );
            lemma_attribute_marks(text, name, attributes, tail, rest, k)
        },
        Token::Empty(name, attributes, _) => {
            let tail = lemma_token_is_tag(token);
            let k = choose|k: int| 0 <= k < attributes.len() && names_layer(
                #[trigger] attributes[k],
            );
            lemma_attribute_marks(text, name, attributes, tail, rest, k)
        },
        _ => 0,
    }
}

proof fn lemma_attribute_marks(
    text: Seq<u8>,
    name: Seq<u8>,
    attributes: Seq<Attribute>,
    tail: Seq<u8>,
    rest: Seq<u8>,
    k: int,
) -> (id: int)
    requires
        text == tag_bytes(name, attributes, tail) + rest,
        name == seq![0x67u8],
        are_attributes(attributes),
        is_tail(tail),
        0 <= k < attributes.len(),
        names_layer(attributes[k]),
    ensures
        0 < id < tag_bytes(name, attributes, tail).len(),
        marks_layer(text, id),
{
    let a = attributes[k];
    let at = attribute_start(name, attributes, k);
    let id = at + a.gap.len();
    assert(is_attribute(a));
    assert(is_name(name));
    lemma_whole_tag(text, name, attributes, tail, rest);
    lemma_group_tag(text, name, attributes, tail, rest);
    lemma_attribute_place(text, name, attributes, tail, rest, k);
    lemma_tag_up_to(text, name, attributes, tail, rest, k);
    lemma_mark_is_attribute(text, at, a);
    lemma_attribute_states(text, 0, at, a);
    assert(tag_state(text, 0, id) is Inside);
    lemma_tag_around(text, group_name(), id, id);
    assert(crate::tags::owns(text, group_name(), 0, id));
    assert(text[id - 1] == a.gap[a.gap.len() - 1]);
    assert(is_blank(a.gap[a.gap.len() - 1]));
    lemma_letters(text[id - 1]);
    id
}

/// Markup that does not name the layer marks none.
proof fn lemma_markup_unmarked(tokens: Seq<Token>, rest: Seq<u8>)
    requires
        are_tokens(tokens),
        forall|i: int| 0 <= i < tokens.len() ==> !is_layer(#[trigger] tokens[i]),
    ensures
        forall|i: int|
            0 <= i < markup_bytes(tokens).len() ==> !#[trigger] marks_layer(
                markup_bytes(tokens) + rest,
                i,
            ),
    decreases tokens.len(),
{
    if tokens.len() > 0 {
        let (front, last) = (tokens.drop_last(), tokens.last());
        assert forall|i: int| 0 <= i < front.len() implies is_token(#[trigger] front[i])
            && !is_layer(front[i]) by {
            assert(is_token(tokens[i]) && !is_layer(tokens[i]));
        }
        let (a, b) = (markup_bytes(front), token_bytes(last));
        assert(is_token(tokens[tokens.len() - 1]) && !is_layer(tokens[tokens.len() - 1]));
        lemma_markup_unmarked(front, b + rest);
        lemma_token_unmarked(last, rest);
        lemma_marks();
        lemma_markup_finished(front, group_name());
        assert((a + b) + rest =~= a + (b + rest));
        assert forall|i: int| 0 <= i < (a + b).len() implies !#[trigger] marks_layer(
            (a + b) + rest,
            i,
        ) by {
            if i >= a.len() {
                lemma_marks_layer_shifted(a, b + rest, i - a.len());
                assert(!marks_layer(b + rest, i - a.len()));
            } else {
                assert(!marks_layer(a + (b + rest), i));
            }
        }
    }
}

/// Counting in two goes is counting in one.
proof fn lemma_counts_split(text: Seq<u8>, a: int, b: int, c: int)
    requires
        a <= b <= c,
    ensures
        opened_in(text, a, c) == opened_in(text, a, b) + opened_in(text, b, c),
        closed_in(text, a, c) == closed_in(text, a, b) + closed_in(text, b, c),
    decreases c - b,
{
    if b < c {
        lemma_counts_split(text, a, b, c - 1);
    }
}

/// Where nothing opens or closes a group there is nothing to count.
proof fn lemma_counts_none(text: Seq<u8>, a: int, b: int)
    requires
        forall|i: int| a <= i < b ==> !#[trigger] opens_group(text, i),
        forall|i: int| a <= i < b ==> !#[trigger] occurs_at(text, group_close(), i),
    ensures
        opened_in(text, a, b) == 0,
        closed_in(text, a, b) == 0,
    decreases b - a,
{
    if a < b {
        lemma_counts_none(text, a, b - 1);
    }
}

/// What a token counts for.
proof fn lemma_token_counts(token: Token, rest: Seq<u8>)
    requires
        is_token(token),
    ensures
        ({
            let text = token_bytes(token) + rest;
            let n = token_bytes(token).len() as int;
            &&& opened_in(text, 0, n) == if opens(token) == 1 {
                1nat
            } else {
                0nat
            }
            &&& closed_in(text, 0, n) == if opens(token) == -1 {
                1nat
            } else {
                0nat
            }
        }),
{
    let text = token_bytes(token) + rest;
    let n = token_bytes(token).len() as int;
    lemma_token_groups(token, rest);
    lemma_token_shape(token, rest);
    if n > 0 {
        assert forall|i: int| 1 <= i < n implies !#[trigger] opens_group(text, i) by {}
        assert forall|i: int| 1 <= i < n implies !#[trigger] occurs_at(
            text,
            group_close(),
            i,
        ) by {}
        lemma_counts_none(text, 1, n);
        lemma_counts_split(text, 0, 1, n);
        assert(opens_group(text, 0) == (opens(token) == 1));
        assert(occurs_at(text, group_close(), 0) == (opens(token) == -1));
        assert(opened_in(text, 0, 0) == 0 && closed_in(text, 0, 0) == 0);
        assert(opened_in(text, 0, 1) == if opens_group(text, 0) {
            1nat
        } else {
            0nat
        });
        assert(closed_in(text, 0, 1) == if occurs_at(text, group_close(), 0) {
            1nat
        } else {
            0nat
        });
    }
}

/// Markup that never closes more groups than it opens closes none that was opened before it.
proof fn lemma_content_stays_open(tokens: Seq<Token>, rest: Seq<u8>)
    requires
        are_tokens(tokens),
        stays_open(tokens),
    ensures
        ({
            let text = markup_bytes(tokens) + rest;
            let n = markup_bytes(tokens).len() as int;
            &&& opened_in(text, 0, n) - closed_in(text, 0, n) == depth(tokens)
            &&& forall|i: int| 0 <= i < n ==> !#[trigger] closes_at(text, 0, i)
        }),
    decreases tokens.len(),
{
    if tokens.len() > 0 {
        let (front, last) = (tokens.drop_last(), tokens.last());
        let (a, b) = (markup_bytes(front), token_bytes(last));
        let (m, n) = (a.len() as int, (a + b).len() as int);
        let text = (a + b) + rest;
        assert forall|i: int| 0 <= i < front.len() implies is_token(#[trigger] front[i]) by {
            assert(is_token(tokens[i]));
        }
        assert forall|k: int| 0 <= k <= front.len() implies depth(#[trigger] front.take(k))
            >= 0 by {
            assert(front.take(k) =~= tokens.take(k));
        }
        assert(tokens.take(tokens.len() as int) =~= tokens);
        assert(depth(tokens.take(tokens.len() as int)) >= 0);
        assert(is_token(tokens[tokens.len() - 1]));
        lemma_content_stays_open(front, b + rest);
        assert(text =~= a + (b + rest));
        lemma_token_counts(last, rest);
        lemma_counts_shifted(a, b + rest, 0, b.len() as int);
        lemma_counts_split(text, 0, m, n);
        lemma_token_groups(last, rest);
        assert forall|i: int| 0 <= i < n implies !#[trigger] closes_at(text, 0, i) by {
            if i < m {
                assert(!closes_at(a + (b + rest), 0, i));
            } else {
                lemma_occurs_shifted(a, b + rest, group_close(), i - m);
                assert(occurs_at(b + rest, group_close(), i - m) == (i - m == 0 && opens(last)
                    == -1));
                if closes_at(text, 0, i) {
                    assert(i == m);
                    assert(closed_in(text, 0, m + 1) == closed_in(text, 0, m) + 1);
                }
            }
        }
    } else {
        assert(depth(tokens) == 0);
    }
}

/// A tag that names the layer, at the front of a text, is where the layer begins.
proof fn lemma_layer_begins(layer: Token, rest: Seq<u8>) -> (id: int)
    requires
        is_token(layer),
        is_layer(layer),
    ensures
        ({
            let text = token_bytes(layer) + rest;
            &&& first_at(text, layer_id(), 0) is Some
            &&& last_before(text, 0x3c, first_at(text, layer_id(), 0)->0) is Some
            &&& first_at(text, bracket(), first_at(text, layer_id(), 0)->0) is Some
            &&& layer_mark(text, first_at(text, layer_id(), 0)->0) == Some(id)
            &&& tag_around(text, group_name(), id, id) == Some(0int)
        }),
{
    let known = lemma_layer_marked(layer, rest);
    lemma_token_shape(layer, rest);
    lemma_first_mark(token_bytes(layer) + rest, token_bytes(layer).len() as int, known)
}

/// The first mark in a text that begins with a tag which marks the layer.
proof fn lemma_first_mark(text: Seq<u8>, n: int, known: int) -> (id: int)
    requires
        0 < known < n <= text.len(),
        text[0] == 0x3c,
        forall|i: int| 0 < i < n ==> (#[trigger] text[i]) != 0x3c,
        text[n - 1] == 0x3e,
        marks_layer(text, known),
    ensures
        first_at(text, layer_id(), 0) is Some,
        last_before(text, 0x3c, first_at(text, layer_id(), 0)->0) is Some,
        first_at(text, bracket(), first_at(text, layer_id(), 0)->0) is Some,
        layer_mark(text, first_at(text, layer_id(), 0)->0) == Some(id),
        tag_around(text, group_name(), id, id) == Some(0int),
{
    lemma_layer_mark(text, 0);
    let id = layer_mark(text, 0)->0;
    assert(marks_layer(text, id) && id <= known);
    lemma_owner_in_front(text, n, id);
    lemma_first_at(text, layer_id(), 0);
    let first = first_at(text, layer_id(), 0)->0;
    assert(occurs_at(text, layer_id(), id));
    assert(first <= id);
    assert(first > 0) by {
        lemma_layer_bytes();
        assert(layer_id()[0] == 0x69);
        assert(text[first + 0] == layer_id()[0]);
    }
    lemma_layer_mark(text, first);
    assert(layer_mark(text, first) == Some(id));
    lemma_last_before(text, 0x3c, first);
    lemma_first_at(text, bracket(), first);
    assert(occurs_at(text, bracket(), n - 1)) by {
        lemma_marks();
        assert(bracket()[0] == 0x3e);
    }
    id
}

proof fn lemma_owner_in_front(text: Seq<u8>, n: int, id: int)
    requires
        0 <= id < n <= text.len(),
        forall|i: int| 0 < i < n ==> (#[trigger] text[i]) != 0x3c,
        marks_layer(text, id),
    ensures
        tag_around(text, group_name(), id, id) == Some(0int),
{
    lemma_tag_around(text, group_name(), id, id);
    let start = tag_around(text, group_name(), id, id)->0;
    lemma_marks();
    assert(group_name()[0] == 0x3c);
    assert(text[start + 0] == group_name()[0]);
}

/// The end of a tag of a group, and whether it closes the element.
proof fn lemma_layer_tag(layer: Token, rest: Seq<u8>)
    requires
        is_token(layer),
        is_layer(layer),
    ensures
        ({
            let text = token_bytes(layer) + rest;
            let n = token_bytes(layer).len() as int;
            &&& n >= 3
            &&& tag_end(text, 0, 1) == Some(n - 1)
            &&& is_self_closing(text, 0) == layer is Empty
        }),
{
    let text = token_bytes(layer) + rest;
    lemma_token_opens(layer, rest);
    match layer {
        Token::Open(name, attributes, _) => {
            let tail = lemma_token_is_tag(layer);
            lemma_whole_tag(text, name, attributes, tail, rest);
            lemma_group_tag(text, name, attributes, tail, rest);
        },
        Token::Empty(name, attributes, gap) => {
            let tail = lemma_token_is_tag(layer);
            lemma_whole_tag(text, name, attributes, tail, rest);
            lemma_group_tag(text, name, attributes, tail, rest);
        },
        _ => {},
    }
}

/// The bounds of a layer at the front of a text.
proof fn lemma_layer_in_front(layer: Token, rest: Seq<u8>)
    requires
        is_token(layer),
        is_layer(layer),
    ensures
        ({
            let text = token_bytes(layer) + rest;
            let n = token_bytes(layer).len() as int;
            &&& n >= 3
            &&& text[0] == 0x3c
            &&& layer is Empty ==> layer_bounds(text) == Ok::<(int, int), Seq<char>>((0, n))
            &&& layer is Open ==> layer_bounds(text) == match closing_tag(rest, 0, 0) {
                None => Err::<(int, int), Seq<char>>(
                    "Malformed SVG: unmatched <g> tag inside Cut-Layer"@,
                ),
                Some(close) => Ok::<(int, int), Seq<char>>((0, n + close + 4)),
            }
        }),
{
    let text = token_bytes(layer) + rest;
    let n = token_bytes(layer).len() as int;
    let id = lemma_layer_begins(layer, rest);
    lemma_layer_tag(layer, rest);
    lemma_token_shape(layer, rest);
    assert(opening_end(text, 0, id) == Some(n - 1));
    lemma_closing_shifted(token_bytes(layer), rest, 0, 0);
    assert(layer_bounds(text) == crate::cut_layer::group_bounds(text, 0, id));
}

/// Text before any markup: no `<` and no quote stands in it.
pub open spec fn is_lead(lead: Seq<u8>) -> bool {
    forall|i: int| 0 <= i < lead.len() ==> (#[trigger] lead[i]) != 0x3c && lead[i] != 0x22
}

/// Markup begins with its first byte, if it does not begin with text.
proof fn lemma_markup_begins(tokens: Seq<Token>)
    requires
        are_tokens(tokens),
        tokens.len() > 0,
        !(tokens[0] is Text),
    ensures
        markup_bytes(tokens).len() > 0,
        markup_bytes(tokens)[0] == 0x3c,
    decreases tokens.len(),
{
    assert(is_token(tokens[0]));
    let none: Seq<u8> = seq![];
    if tokens.len() == 1 {
        lemma_token_shape(tokens[0], none);
        assert(token_bytes(tokens[0]) + none =~= token_bytes(tokens[0]));
        assert(tokens.drop_last() =~= seq![]);
        assert(markup_bytes(tokens.drop_last()) =~= seq![]);
        assert(markup_bytes(tokens) =~= token_bytes(tokens[0]));
    } else {
        let front = tokens.drop_last();
        assert forall|i: int| 0 <= i < front.len() implies is_token(#[trigger] front[i]) by {
            assert(is_token(tokens[i]));
        }
        lemma_markup_begins(front);
        assert(markup_bytes(tokens)[0] == markup_bytes(front)[0]);
    }
}

/// What stands before the layer marks none, leaves no tag unfinished, and does not hold a mark
/// before any `<`.
proof fn lemma_before_layer(lead: Seq<u8>, before: Seq<Token>, rest: Seq<u8>)
    requires
        is_lead(lead),
        are_tokens(before),
        forall|i: int| 0 <= i < before.len() ==> !is_layer(#[trigger] before[i]),
        before.len() > 0 ==> !(before[0] is Text),
        before.len() == 0 ==> rest.len() > 0 && rest[0] == 0x3c,
    ensures
        ({
            let text = lead + markup_bytes(before);
            &&& is_finished(text, group_name())
            &&& forall|i: int| 0 <= i < text.len() ==> !#[trigger] marks_layer(text + rest, i)
            &&& first_at(text + rest, layer_id(), 0) matches Some(first) ==> last_before(
                text + rest,
                0x3c,
                first,
            ) is Some
        }),
{
    let middle = markup_bytes(before);
    let text = lead + middle;
    let all = text + rest;
    let n = lead.len() as int;
    lemma_marks();
    lemma_layer_bytes();
    assert(group_name()[0] == 0x3c);
    assert(is_finished(lead, group_name())) by {
        assert forall|i: int| 0 <= i && #[trigger] is_tag(lead, group_name(), i) implies tag_state(
            lead,
            i,
            n,
        ) is Outside by {
            assert(lead[i + 0] == group_name()[0]);
        }
    }
    lemma_markup_finished(before, group_name());
    lemma_finished_joined(lead, middle, group_name());
    lemma_markup_unmarked(before, rest);
    assert(all =~= lead + (middle + rest));
    assert forall|i: int| 0 <= i < text.len() implies !#[trigger] marks_layer(all, i) by {
        if i >= n {
            lemma_marks_layer_shifted(lead, middle + rest, i - n);
            assert(!marks_layer(middle + rest, i - n));
        } else if marks_layer(all, i) {
            lemma_tag_around(all, group_name(), i, i);
            let start = tag_around(all, group_name(), i, i)->0;
            assert(all[start + 0] == group_name()[0]);
            assert(lead[start] != 0x3c);
        }
    }
    if before.len() > 0 {
        lemma_markup_begins(before);
    } else {
        assert(middle =~= seq![]);
    }
    assert(all[n] == 0x3c);
    lemma_first_at(all, layer_id(), 0);
    if first_at(all, layer_id(), 0) is Some {
        let first = first_at(all, layer_id(), 0)->0;
        assert(layer_id()[0] == 0x69 && layer_id()[1] == 0x64 && layer_id()[2] == 0x3d
            && layer_id()[3] == 0x22);
        assert(all[first + 0] == layer_id()[0]);
        assert(all[first + 1] == layer_id()[1]);
        assert(all[first + 2] == layer_id()[2]);
        assert(all[first + 3] == layer_id()[3]);
        if first + 3 < n {
            assert(lead[first + 3] != 0x22);
        }
        assert(first > n);
        lemma_last_before(all, 0x3c, first);
    }
}

/// In every drawing that is written out as markup, the cut layer is the first group whose tag has
/// the attribute `id="Cut-Layer"`, wherever in the tag and after whatever white space. It begins
/// with that tag, and it ends with the closing tag that is left over once every group that was
/// opened in it is closed: `<g>` with any attributes opens one, `</g>` closes one, and neither
/// `<g/>` nor any other name, text or value counts.
pub proof fn law_layer_of_markup(
    lead: Seq<u8>,
    before: Seq<Token>,
    layer: Token,
    content: Seq<Token>,
    after: Seq<u8>,
)
    requires
        is_lead(lead),
        are_tokens(before),
        before.len() > 0 ==> !(before[0] is Text),
        forall|i: int| 0 <= i < before.len() ==> !is_layer(#[trigger] before[i]),
        is_token(layer),
        layer is Open,
        is_layer(layer),
        are_tokens(content),
        stays_open(content),
        depth(content) == 0,
    ensures
        ({
            let start = (lead + markup_bytes(before)).len() as int;
            let inner = markup_bytes(content);
            layer_bounds(
                lead + markup_bytes(before) + token_bytes(layer) + inner + seq![
                    0x3cu8, 0x2f, 0x67, 0x3e,
                ] + after,
            ) == Ok::<(int, int), Seq<char>>(
                (start, start + token_bytes(layer).len() + inner.len() + 4),
            )
        }),
{
    let front = lead + markup_bytes(before);
    let inner = markup_bytes(content);
    let close = seq![0x3cu8, 0x2f, 0x67, 0x3e];
    let rest = inner + (close + after);
    let text = token_bytes(layer) + rest;
    lemma_content_closed(content, after);
    lemma_layer_in_front(layer, rest);
    lemma_before_layer(lead, before, text);
    lemma_layer_shifted(front, text);
    assert(front + text =~= lead + markup_bytes(before) + token_bytes(layer) + inner + close
        + after);
}

/// Behind balanced content the next closing tag closes the layer.
proof fn lemma_content_closed(content: Seq<Token>, after: Seq<u8>)
    requires
        are_tokens(content),
        stays_open(content),
        depth(content) == 0,
    ensures
        closing_tag(markup_bytes(content) + (seq![0x3cu8, 0x2f, 0x67, 0x3e] + after), 0, 0) == Some(
            markup_bytes(content).len() as int,
        ),
{
    let inner = markup_bytes(content);
    let close = seq![0x3cu8, 0x2f, 0x67, 0x3e];
    let rest = inner + (close + after);
    let n = inner.len() as int;
    lemma_content_stays_open(content, close + after);
    lemma_close_stands(inner, after);
    lemma_next_close(rest, n);
}

/// The first closing tag behind a stretch that closes no group and leaves none open.
proof fn lemma_next_close(text: Seq<u8>, n: int)
    requires
        0 <= n < text.len(),
        opened_in(text, 0, n) == closed_in(text, 0, n),
        occurs_at(text, group_close(), n),
        forall|i: int| 0 <= i < n ==> !#[trigger] closes_at(text, 0, i),
    ensures
        closing_tag(text, 0, 0) == Some(n),
{
    assert(closes_at(text, 0, n));
    lemma_closing_tag(text, 0, 0);
}

proof fn lemma_close_stands(inner: Seq<u8>, after: Seq<u8>)
    ensures
        occurs_at(
            inner + (seq![0x3cu8, 0x2f, 0x67, 0x3e] + after),
            group_close(),
            inner.len() as int,
        ),
{
    let close = seq![0x3cu8, 0x2f, 0x67, 0x3e];
    lemma_marks();
    assert(occurs_at(close + after, group_close(), 0));
    lemma_occurs_shifted(inner, close + after, group_close(), 0);
}

/// A cut layer without content, `<g id="Cut-Layer"/>`, is its tag.
pub proof fn law_empty_layer_of_markup(
    lead: Seq<u8>,
    before: Seq<Token>,
    layer: Token,
    after: Seq<u8>,
)
    requires
        is_lead(lead),
        are_tokens(before),
        before.len() > 0 ==> !(before[0] is Text),
        forall|i: int| 0 <= i < before.len() ==> !is_layer(#[trigger] before[i]),
        is_token(layer),
        layer is Empty,
        is_layer(layer),
    ensures
        ({
            let start = (lead + markup_bytes(before)).len() as int;
            layer_bounds(lead + markup_bytes(before) + token_bytes(layer) + after) == Ok::<
                (int, int),
                Seq<char>,
            >((start, start + token_bytes(layer).len()))
        }),
{
    let front = lead + markup_bytes(before);
    let text = token_bytes(layer) + after;
    lemma_layer_in_front(layer, after);
    lemma_token_shape(layer, after);
    lemma_before_layer(lead, before, text);
    lemma_layer_shifted(front, text);
    assert(front + text =~= lead + markup_bytes(before) + token_bytes(layer) + after);
}

/// Markup in which no group has the attribute has no cut layer, whatever else has it.
pub proof fn law_markup_without_layer(lead: Seq<u8>, tokens: Seq<Token>)
    requires
        is_lead(lead),
        are_tokens(tokens),
        tokens.len() > 0,
        !(tokens[0] is Text),
        !(tokens.last() is Text),
        forall|i: int| 0 <= i < tokens.len() ==> !is_layer(#[trigger] tokens[i]),
    ensures
        layer_bounds(lead + markup_bytes(tokens)) == Err::<(int, int), Seq<char>>(
            "Cut-Layer group not found (expected id=\"Cut-Layer\" on a <g> element)"@,
        ),
{
    let none: Seq<u8> = seq![];
    let text = lead + markup_bytes(tokens);
    let n = text.len() as int;
    lemma_marks();
    lemma_before_layer(lead, tokens, none);
    assert(text + none =~= text);
    lemma_first_at(text, layer_id(), 0);
    if first_at(text, layer_id(), 0) is Some {
        let first = first_at(text, layer_id(), 0)->0;
        let last = tokens.last();
        assert(is_token(tokens[tokens.len() - 1]));
        lemma_token_shape(last, none);
        assert(token_bytes(last) + none =~= token_bytes(last));
        assert(text[n - 1] == token_bytes(last)[token_bytes(last).len() - 1]);
        assert(bracket()[0] == 0x3e);
        assert(occurs_at(text, bracket(), n - 1));
        lemma_first_at(text, bracket(), first);
        lemma_layer_mark(text, first);
    }
}

/// A cut layer that is not closed is said to be unmatched.
pub proof fn law_layer_left_open(layer: Token, content: Seq<Token>)
    requires
        is_token(layer),
        layer is Open,
        is_layer(layer),
        are_tokens(content),
        stays_open(content),
    ensures
        layer_bounds(token_bytes(layer) + markup_bytes(content)) == Err::<(int, int), Seq<char>>(
            "Malformed SVG: unmatched <g> tag inside Cut-Layer"@,
        ),
{
    let none: Seq<u8> = seq![];
    let rest = markup_bytes(content);
    lemma_marks();
    lemma_content_stays_open(content, none);
    assert(rest + none =~= rest);
    lemma_closing_tag(rest, 0, 0);
    lemma_layer_in_front(layer, rest);
    assert(closing_tag(rest, 0, 0) is None) by {
        if closing_tag(rest, 0, 0) is Some {
            let c = closing_tag(rest, 0, 0)->0;
            assert(!closes_at(rest, 0, c));
        }
    }
}

/// Such a layer is said to be unmatched wherever in the markup it stands.
pub proof fn law_unclosed_layer_of_markup(
    lead: Seq<u8>,
    before: Seq<Token>,
    layer: Token,
    content: Seq<Token>,
)
    requires
        is_lead(lead),
        are_tokens(before),
        before.len() > 0 ==> !(before[0] is Text),
        forall|i: int| 0 <= i < before.len() ==> !is_layer(#[trigger] before[i]),
        is_token(layer),
        layer is Open,
        is_layer(layer),
        are_tokens(content),
        stays_open(content),
    ensures
        layer_bounds(
            lead + markup_bytes(before) + token_bytes(layer) + markup_bytes(content),
        ) == Err::<(int, int), Seq<char>>("Malformed SVG: unmatched <g> tag inside Cut-Layer"@),
{
    let none: Seq<u8> = seq![];
    let front = lead + markup_bytes(before);
    let rest = markup_bytes(content);
    let text = token_bytes(layer) + rest;
    let m = token_bytes(layer).len() as int;
    lemma_marks();
    lemma_content_stays_open(content, none);
    assert(rest + none =~= rest);
    lemma_closing_tag(rest, 0, 0);
    assert(closing_tag(rest, 0, 0) is None) by {
        if closing_tag(rest, 0, 0) is Some {
            let c = closing_tag(rest, 0, 0)->0;
            assert(!closes_at(rest, 0, c));
        }
    }
    let id = lemma_layer_begins(layer, rest);
    lemma_layer_tag(layer, rest);
    lemma_token_shape(layer, rest);
    lemma_closing_shifted(token_bytes(layer), rest, 0, 0);
    lemma_before_layer(lead, before, text);
    assert(front + text =~= lead + markup_bytes(before) + token_bytes(layer) + rest);
    lemma_unclosed_shifted(front, text, id, m - 1);
}

/// The value of an attribute `d="..."`.
pub open spec fn data_of(a: Attribute) -> Seq<Seq<u8>> {
    if a.name == seq![0x64u8] && a.quote == 0x22 {
        seq![a.value]
    } else {
        seq![]
    }
}

/// The values of such attributes, in order.
pub open spec fn attributes_data(attributes: Seq<Attribute>) -> Seq<Seq<u8>>
    decreases attributes.len(),
{
    if attributes.len() == 0 {
        seq![]
    } else {
        attributes_data(attributes.drop_last()) + data_of(attributes.last())
    }
}

/// The path data of a token: that of a tag with the name `path`.
pub open spec fn token_data(token: Token) -> Seq<Seq<u8>> {
    match token {
        Token::Open(name, attributes, _) => if name == seq![0x70u8, 0x61, 0x74, 0x68] {
            attributes_data(attributes)
        } else {
            seq![]
        },
        Token::Empty(name, attributes, _) => if name == seq![0x70u8, 0x61, 0x74, 0x68] {
            attributes_data(attributes)
        } else {
            seq![]
        },
        _ => seq![],
    }
}

/// The path data of a run of tokens, in order.
pub open spec fn markup_data(tokens: Seq<Token>) -> Seq<Seq<u8>>
    decreases tokens.len(),
{
    if tokens.len() == 0 {
        seq![]
    } else {
        markup_data(tokens.drop_last()) + token_data(tokens.last())
    }
}

/// A stretch without a mark holds no values.
proof fn lemma_data_none(layer: Seq<u8>, from: int, to: int)
    requires
        from <= to <= layer.len(),
        forall|i: int| from <= i < to ==> !#[trigger] marks_data(layer, i),
    ensures
        path_data(layer, from) == path_data(layer, to),
    decreases to - from,
{
    if from < to {
        lemma_data_none(layer, from + 1, to);
        assert(!marks_data(layer, from));
        assert(value_at(layer, from) + path_data(layer, from + 1) =~= path_data(layer, from + 1));
    }
}

/// Behind the end there is no path data.
pub proof fn lemma_data_at_end(layer: Seq<u8>)
    ensures
        path_data(layer, layer.len() as int) == Seq::<Seq<u8>>::empty(),
{
}

/// A tag is that of a path if its name is `path`.
proof fn lemma_path_tag(
    text: Seq<u8>,
    name: Seq<u8>,
    attributes: Seq<Attribute>,
    tail: Seq<u8>,
    rest: Seq<u8>,
)
    requires
        text == tag_bytes(name, attributes, tail) + rest,
        is_name(name),
        are_attributes(attributes),
        is_tail(tail),
    ensures
        is_tag(text, path_name(), 0) == (name == seq![0x70u8, 0x61, 0x74, 0x68]),
{
    let path = seq![0x70u8, 0x61, 0x74, 0x68];
    lemma_path_bytes();
    lemma_whole_tag(text, name, attributes, tail, rest);
    lemma_letters(text[name.len() as int + 1]);
    if is_tag(text, path_name(), 0) {
        assert forall|i: int| 0 <= i < 4 && i < name.len() implies name[i] == path[i] by {
            assert(text[0int + (i + 1)] == path_name()[i + 1]);
            assert(text[i + 1] == name[i + 1 - 1]);
        }
        if name.len() < 4 {
            let k = name.len() as int + 1;
            assert(text[0int + k] == path_name()[k]);
            assert(path_name()[k] == path[k - 1]);
            assert(is_letter(path[k - 1]));
        }
        if name.len() > 4 {
            assert(text[5] == name[5 - 1]);
            assert(is_letter(name[4]));
            lemma_letters(text[5]);
        }
        assert(name =~= path);
    }
    if name == path {
        assert forall|k: int| 0 <= k < path_name().len() implies text[0 + k]
            == #[trigger] path_name()[k] by {
            if k > 0 {
                assert(text[k] == name[k - 1]);
            }
        }
    }
}

proof fn lemma_path_bytes()
    ensures
        path_name() == seq![0x3cu8, 0x70, 0x61, 0x74, 0x68],
        is_tag_name(path_name()),
{
    reveal_strlit("<path");
    is_ascii_chars_encode_utf8("<path"@);
    assert(path_name() =~= seq![0x3cu8, 0x70, 0x61, 0x74, 0x68]);
}

/// Where path data is marked at the front of a text, a path's tag stands there.
proof fn lemma_data_owner(
    text: Seq<u8>,
    name: Seq<u8>,
    attributes: Seq<Attribute>,
    tail: Seq<u8>,
    rest: Seq<u8>,
    at: int,
)
    requires
        text == tag_bytes(name, attributes, tail) + rest,
        is_name(name),
        are_attributes(attributes),
        is_tail(tail),
        0 <= at < tag_bytes(name, attributes, tail).len(),
        marks_data(text, at),
    ensures
        name == seq![0x70u8, 0x61, 0x74, 0x68],
        1 < at,
        tag_around(text, path_name(), at, at) == Some(0int),
        tag_state(text, 0, at) is Inside,
        is_letter(text[at]),
        !is_letter(text[at - 1]),
{
    lemma_whole_tag(text, name, attributes, tail, rest);
    lemma_path_bytes();
    lemma_data_mark();
    lemma_path_tag(text, name, attributes, tail, rest);
    lemma_tag_around(text, path_name(), at, at);
    let start = tag_around(text, path_name(), at, at)->0;
    assert(path_name()[0] == 0x3c);
    assert(text[start + 0] == path_name()[0]);
    assert(start == 0);
    assert(data_mark()[0] == 0x64);
    assert(text[at + 0] == data_mark()[0]);
    lemma_letters(text[at]);
    lemma_letters(text[at - 1]);
    assert(text[1] == name[1 - 1]);
    assert(name[0] == 0x70);
}

/// Where path data is marked at the front of a text, one of the tag's attributes is the one that
/// is marked.
proof fn lemma_data_in_tag(
    text: Seq<u8>,
    name: Seq<u8>,
    attributes: Seq<Attribute>,
    tail: Seq<u8>,
    rest: Seq<u8>,
    at: int,
) -> (k: int)
    requires
        text == tag_bytes(name, attributes, tail) + rest,
        is_name(name),
        are_attributes(attributes),
        is_tail(tail),
        0 <= at < tag_bytes(name, attributes, tail).len(),
        marks_data(text, at),
    ensures
        name == seq![0x70u8, 0x61, 0x74, 0x68],
        0 <= k < attributes.len(),
        at == attribute_start(name, attributes, k) + attributes[k].gap.len(),
        attributes[k].name == seq![0x64u8],
        attributes[k].quote == 0x22,
{
    lemma_data_owner(text, name, attributes, tail, rest, at);
    lemma_data_mark();
    let k = lemma_name_begins(text, name, attributes, tail, rest, at);
    assert(is_attribute(attributes[k]));
    lemma_attribute_place(text, name, attributes, tail, rest, k);
    lemma_tag_up_to(text, name, attributes, tail, rest, k);
    lemma_mark_is_attribute(text, attribute_start(name, attributes, k), attributes[k]);
    k
}

/// An attribute `d="..."` of a path's tag is marked, and its value is what is extracted.
proof fn lemma_attribute_is_data(
    text: Seq<u8>,
    attributes: Seq<Attribute>,
    tail: Seq<u8>,
    rest: Seq<u8>,
    k: int,
)
    requires
        text == tag_bytes(seq![0x70u8, 0x61, 0x74, 0x68], attributes, tail) + rest,
        are_attributes(attributes),
        is_tail(tail),
        0 <= k < attributes.len(),
        attributes[k].name == seq![0x64u8],
        attributes[k].quote == 0x22,
    ensures
        value_at(
            text,
            attribute_start(seq![0x70u8, 0x61, 0x74, 0x68], attributes, k)
                + attributes[k].gap.len(),
        ) == seq![attributes[k].value],
{
    let name = seq![0x70u8, 0x61, 0x74, 0x68];
    let a = attributes[k];
    let at = attribute_start(name, attributes, k);
    let begin = at + a.gap.len();
    assert(is_attribute(a));
    lemma_attribute_marks_data(text, name, attributes, tail, rest, k);
    lemma_attribute_place(text, name, attributes, tail, rest, k);
    let bytes = attribute_bytes(a);
    let part = text.subrange(at, at + bytes.len());
    let end = begin + 3 + a.value.len();
    assert(bytes.len() == a.gap.len() + 4 + a.value.len());
    assert(text[end] == 0x22) by {
        assert(part[end - at] == bytes[end - at]);
    }
    assert(text.subrange(begin + 3, end) =~= a.value) by {
        assert forall|i: int| 0 <= i < a.value.len() implies text[begin + 3 + i] == a.value[i] by {
            assert(part[begin + 3 - at + i] == bytes[begin + 3 - at + i]);
        }
    }
    lemma_value_between(text, begin, a.value);
}

/// A marked value runs to the next quote.
pub proof fn lemma_value_between(text: Seq<u8>, at: int, value: Seq<u8>)
    requires
        0 <= at,
        marks_data(text, at),
        at + 3 + value.len() < text.len(),
        text.subrange(at + 3, at + 3 + value.len()) == value,
        text[at + 3 + value.len()] == 0x22,
        forall|i: int| 0 <= i < value.len() ==> (#[trigger] value[i]) != 0x22,
    ensures
        value_at(text, at) == seq![value],
{
    let end = at + 3 + value.len();
    let part = text.subrange(at + 3, end);
    lemma_quote();
    assert(quote()[0] == 0x22);
    assert(occurs_at(text, quote(), end));
    assert forall|i: int| at + 3 <= i < end implies !occurs_at(text, quote(), i) by {
        assert(part[i - (at + 3)] == value[i - (at + 3)]);
        if occurs_at(text, quote(), i) {
            assert(text[i + 0] == quote()[0]);
        }
    }
    lemma_first_at(text, quote(), at + 3);
    assert(first_at(text, quote(), at + 3) == Some(end));
}

/// An attribute `d="..."` of a path's tag is marked.
proof fn lemma_attribute_marks_data(
    text: Seq<u8>,
    name: Seq<u8>,
    attributes: Seq<Attribute>,
    tail: Seq<u8>,
    rest: Seq<u8>,
    k: int,
)
    requires
        text == tag_bytes(name, attributes, tail) + rest,
        name == seq![0x70u8, 0x61, 0x74, 0x68],
        are_attributes(attributes),
        is_tail(tail),
        0 <= k < attributes.len(),
        attributes[k].name == seq![0x64u8],
        attributes[k].quote == 0x22,
    ensures
        marks_data(text, attribute_start(name, attributes, k) + attributes[k].gap.len()),
{
    let a = attributes[k];
    let at = attribute_start(name, attributes, k);
    let begin = at + a.gap.len();
    assert(is_name(name));
    assert(is_attribute(a));
    lemma_whole_tag(text, name, attributes, tail, rest);
    lemma_path_tag(text, name, attributes, tail, rest);
    lemma_attribute_place(text, name, attributes, tail, rest, k);
    lemma_tag_up_to(text, name, attributes, tail, rest, k);
    lemma_mark_is_attribute(text, at, a);
    lemma_attribute_states(text, 0, at, a);
    assert(tag_state(text, 0, begin) is Inside);
    assert(text[at + (a.gap.len() - 1)] == a.gap[a.gap.len() - 1]);
    assert(is_blank(a.gap[a.gap.len() - 1]));
    lemma_letters(text[begin - 1]);
    lemma_tag_around(text, path_name(), begin, begin);
    assert(crate::tags::owns(text, path_name(), 0, begin));
}

/// Attributes stand one behind the other.
proof fn lemma_starts_grow(name: Seq<u8>, attributes: Seq<Attribute>, j: int, k: int)
    requires
        0 <= j <= k <= attributes.len(),
    ensures
        attribute_start(name, attributes, j) <= attribute_start(name, attributes, k),
    decreases k - j,
{
    if j < k {
        lemma_starts_grow(name, attributes, j, k - 1);
        lemma_attributes_split(attributes, k - 1);
    }
}

/// In one attribute of a tag nothing is marked but the attribute.
proof fn lemma_only_mark(
    text: Seq<u8>,
    name: Seq<u8>,
    attributes: Seq<Attribute>,
    tail: Seq<u8>,
    rest: Seq<u8>,
    k: int,
    at: int,
)
    requires
        text == tag_bytes(name, attributes, tail) + rest,
        is_name(name),
        are_attributes(attributes),
        is_tail(tail),
        0 <= k < attributes.len(),
        attribute_start(name, attributes, k) <= at < attribute_start(name, attributes, k + 1),
        marks_data(text, at),
    ensures
        at == attribute_start(name, attributes, k) + attributes[k].gap.len(),
        attributes[k].name == seq![0x64u8],
        attributes[k].quote == 0x22,
{
    lemma_attribute_place(text, name, attributes, tail, rest, k);
    lemma_starts_grow(name, attributes, 0, k);
    assert(attributes.take(0) =~= seq![]);
    let j = lemma_data_in_tag(text, name, attributes, tail, rest, at);
    lemma_attribute_place(text, name, attributes, tail, rest, j);
    assert(attribute_bytes(attributes[j]).len() > attributes[j].gap.len());
    if j < k {
        lemma_starts_grow(name, attributes, j + 1, k);
    } else if j > k {
        lemma_starts_grow(name, attributes, k + 1, j);
    }
}

/// What is extracted of one attribute of a path's tag.
proof fn lemma_data_of_attribute(
    text: Seq<u8>,
    name: Seq<u8>,
    attributes: Seq<Attribute>,
    tail: Seq<u8>,
    rest: Seq<u8>,
    k: int,
)
    requires
        text == tag_bytes(name, attributes, tail) + rest,
        name == seq![0x70u8, 0x61, 0x74, 0x68],
        are_attributes(attributes),
        is_tail(tail),
        0 <= k < attributes.len(),
    ensures
        path_data(text, attribute_start(name, attributes, k)) == data_of(attributes[k]) + path_data(
            text,
            attribute_start(name, attributes, k + 1),
        ),
{
    let a = attributes[k];
    let at = attribute_start(name, attributes, k);
    let end = attribute_start(name, attributes, k + 1);
    let begin = at + a.gap.len();
    assert(is_name(name));
    lemma_attribute_place(text, name, attributes, tail, rest, k);
    assert(attribute_bytes(a).len() > a.gap.len());
    assert forall|i: int| at <= i < end && i != begin implies !#[trigger] marks_data(text, i) by {
        if marks_data(text, i) {
            lemma_only_mark(text, name, attributes, tail, rest, k, i);
        }
    }
    lemma_data_none(text, at, begin);
    lemma_data_none(text, begin + 1, end);
    if a.name == seq![0x64u8] && a.quote == 0x22 {
        lemma_attribute_is_data(text, attributes, tail, rest, k);
    } else if marks_data(text, begin) {
        lemma_only_mark(text, name, attributes, tail, rest, k, begin);
    }
    assert(value_at(text, begin) =~= data_of(a));
}

/// What is extracted of a path's tag up to one of its attributes.
proof fn lemma_data_up_to(
    text: Seq<u8>,
    attributes: Seq<Attribute>,
    tail: Seq<u8>,
    rest: Seq<u8>,
    k: int,
)
    requires
        text == tag_bytes(seq![0x70u8, 0x61, 0x74, 0x68], attributes, tail) + rest,
        are_attributes(attributes),
        is_tail(tail),
        0 <= k <= attributes.len(),
    ensures
        path_data(text, 0) == attributes_data(attributes.take(k)) + path_data(
            text,
            attribute_start(seq![0x70u8, 0x61, 0x74, 0x68], attributes, k),
        ),
    decreases k,
{
    let name = seq![0x70u8, 0x61, 0x74, 0x68];
    assert(is_name(name));
    let here = attribute_start(name, attributes, k);
    if k == 0 {
        lemma_tag_up_to(text, name, attributes, tail, rest, 0);
        assert(attributes.take(0) =~= seq![]);
        assert forall|i: int| 0 <= i < here implies !#[trigger] marks_data(text, i) by {
            if marks_data(text, i) {
                let j = lemma_data_in_tag(text, name, attributes, tail, rest, i);
                lemma_starts_grow(name, attributes, 0, j);
            }
        }
        lemma_data_none(text, 0, here);
        assert(attributes_data(attributes.take(0)) + path_data(text, here) =~= path_data(
            text,
            here,
        ));
    } else {
        lemma_data_up_to(text, attributes, tail, rest, k - 1);
        lemma_data_of_attribute(text, name, attributes, tail, rest, k - 1);
        assert(attributes.take(k).drop_last() =~= attributes.take(k - 1));
        assert(attributes_data(attributes.take(k - 1)) + (data_of(attributes[k - 1]) + path_data(
            text,
            here,
        )) =~= attributes_data(attributes.take(k)) + path_data(text, here));
    }
}

/// What is extracted of a token is its path data, and every value that it begins is closed in it.
proof fn lemma_token_data(token: Token)
    requires
        is_token(token),
    ensures
        path_data(token_bytes(token), 0) == token_data(token),
        forall|i: int|
            0 <= i && #[trigger] marks_data(token_bytes(token), i) ==> first_at(
                token_bytes(token),
                quote(),
                i + 3,
            ) is Some,
{
    match token {
        Token::Open(name, attributes, _) => {
            let tail = lemma_token_is_tag(token);
            lemma_tag_data(name, attributes, tail);
        },
        Token::Empty(name, attributes, _) => {
            let tail = lemma_token_is_tag(token);
            lemma_tag_data(name, attributes, tail);
        },
        _ => {
            let none: Seq<u8> = seq![];
            let text = token_bytes(token);
            lemma_token_shape(token, none);
            assert(text + none =~= text);
            lemma_path_bytes();
            lemma_data_mark();
            assert forall|i: int| 0 <= i implies !#[trigger] marks_data(text, i) by {
                if marks_data(text, i) {
                    lemma_tag_around(text, path_name(), i, i);
                    let start = tag_around(text, path_name(), i, i)->0;
                    assert(path_name()[0] == 0x3c && path_name()[1] == 0x70);
                    assert(text[start + 0] == path_name()[0]);
                    assert(text[start + 1] == path_name()[1]);
                }
            }
            lemma_data_none(text, 0, text.len() as int);
            lemma_data_at_end(text);
        },
    }
}

proof fn lemma_tag_data(name: Seq<u8>, attributes: Seq<Attribute>, tail: Seq<u8>)
    requires
        is_name(name),
        are_attributes(attributes),
        is_tail(tail),
    ensures
        path_data(tag_bytes(name, attributes, tail), 0) == if name == seq![
            0x70u8, 0x61, 0x74, 0x68,
        ] {
            attributes_data(attributes)
        } else {
            Seq::<Seq<u8>>::empty()
        },
        forall|i: int|
            0 <= i && #[trigger] marks_data(tag_bytes(name, attributes, tail), i) ==> first_at(
                tag_bytes(name, attributes, tail),
                quote(),
                i + 3,
            ) is Some,
{
    let none: Seq<u8> = seq![];
    let text = tag_bytes(name, attributes, tail);
    let n = text.len() as int;
    let count = attributes.len() as int;
    let path = seq![0x70u8, 0x61, 0x74, 0x68];
    assert(text =~= text + none);
    lemma_data_mark();
    assert forall|i: int| 0 <= i && #[trigger] marks_data(text, i) implies first_at(
        text,
        quote(),
        i + 3,
    ) is Some by {
        let k = lemma_data_in_tag(text, name, attributes, tail, none, i);
        lemma_attribute_is_data(text, attributes, tail, none, k);
        assert(value_at(text, i).len() == 1);
    }
    if name == path {
        lemma_data_up_to(text, attributes, tail, none, count);
        assert(attributes.take(count) =~= attributes);
        let end = attribute_start(name, attributes, count);
        assert forall|i: int| end <= i < n implies !#[trigger] marks_data(text, i) by {
            if marks_data(text, i) {
                let k = lemma_data_in_tag(text, name, attributes, tail, none, i);
                lemma_attribute_place(text, name, attributes, tail, none, k);
                lemma_starts_grow(name, attributes, k + 1, count);
            }
        }
        lemma_data_none(text, end, n);
        lemma_data_at_end(text);
        assert(attributes_data(attributes) + Seq::<Seq<u8>>::empty() =~= attributes_data(
            attributes,
        ));
    } else {
        assert forall|i: int| 0 <= i < n implies !#[trigger] marks_data(text, i) by {
            if marks_data(text, i) {
                let k = lemma_data_in_tag(text, name, attributes, tail, none, i);
            }
        }
        lemma_data_none(text, 0, n);
        lemma_data_at_end(text);
    }
}

/// From every text that is written out as markup, exactly the values of the `d="..."` attributes
/// of its `<path>` tags are extracted, in order: whatever the values, the other attributes, the
/// white space and the line breaks, and nothing of other tags, of texts, or of other values.
pub proof fn law_values_of_markup(tokens: Seq<Token>)
    requires
        are_tokens(tokens),
    ensures
        path_data(markup_bytes(tokens), 0) == markup_data(tokens),
{
    lemma_markup_values(tokens);
}

proof fn lemma_markup_values(tokens: Seq<Token>)
    requires
        are_tokens(tokens),
    ensures
        path_data(markup_bytes(tokens), 0) == markup_data(tokens),
        forall|i: int|
            0 <= i && #[trigger] marks_data(markup_bytes(tokens), i) ==> first_at(
                markup_bytes(tokens),
                quote(),
                i + 3,
            ) is Some,
    decreases tokens.len(),
{
    if tokens.len() > 0 {
        let (front, last) = (tokens.drop_last(), tokens.last());
        assert forall|i: int| 0 <= i < front.len() implies is_token(#[trigger] front[i]) by {
            assert(is_token(tokens[i]));
        }
        assert(is_token(tokens[tokens.len() - 1]));
        let (a, b) = (markup_bytes(front), token_bytes(last));
        lemma_markup_values(front);
        lemma_token_data(last);
        lemma_path_bytes();
        lemma_markup_finished(front, path_name());
        law_joined_texts_join_their_values(a, b);
        assert forall|i: int| 0 <= i && #[trigger] marks_data(a + b, i) implies first_at(
            a + b,
            quote(),
            i + 3,
        ) is Some by {
            lemma_data_mark();
            let n = a.len() as int;
            if i < n {
                lemma_data_of_finished(a, b, i);
                assert(marks_data(a, i));
                lemma_first_of_prefix(a, b, quote(), i + 3);
            } else {
                lemma_data_shifted(a, b, i - n);
                assert(marks_data(b, i - n));
                crate::text::lemma_first_shifted(a, b, quote(), i - n + 3);
                assert(n + (i - n + 3) == i + 3);
            }
        }
    } else {
        let text = markup_bytes(tokens);
        lemma_data_mark();
        lemma_data_at_end(text);
        assert forall|i: int| 0 <= i implies !#[trigger] marks_data(text, i) by {}
    }
}

/// Whether a value is extracted does not depend on what it is: of a text that begins with
/// `<path d="` and holds one more quote, what stands between the two is extracted, and nothing
/// else.
pub proof fn law_any_value_is_extracted(text: Seq<u8>, end: int)
    requires
        reads_at(text, encode_utf8("<path d=\""@), 0),
        9 <= end < text.len(),
        text[end] == 0x22,
        forall|i: int| 9 <= i < text.len() && i != end ==> (#[trigger] text[i]) != 0x22,
    ensures
        path_data(text, 0) == seq![text.subrange(9, end)],
{
    lemma_path_opening(text);
    lemma_path_bytes();
    lemma_data_mark();
    lemma_plain_run(text, 0, 1, 6);
    assert(tag_state(text, 0, 6) is Inside);
    assert(is_tag(text, path_name(), 0)) by {
        assert forall|k: int| 0 <= k < 5 implies text[0 + k] == #[trigger] path_name()[k] by {}
        lemma_letters(text[5]);
    }
    lemma_tag_around(text, path_name(), 6, 6);
    assert(crate::tags::owns(text, path_name(), 0, 6));
    assert(occurs_at(text, data_mark(), 6)) by {
        assert forall|k: int| 0 <= k < 3 implies text[6 + k] == #[trigger] data_mark()[k] by {}
    }
    assert(marks_data(text, 6));
    let value = text.subrange(9, end);
    assert forall|i: int| 0 <= i < value.len() implies (#[trigger] value[i]) != 0x22 by {
        assert(value[i] == text[9 + i]);
    }
    lemma_value_between(text, 6, value);
    lemma_quote();
    assert forall|i: int| 0 <= i < text.len() && i != 6 implies value_at(text, i) == Seq::<
        Seq<u8>,
    >::empty() by {
        lemma_other_values(text, end, i);
    }
    lemma_values_none(text, 0, 6);
    lemma_values_none(text, 7, text.len() as int);
    lemma_data_at_end(text);
    assert(path_data(text, 6) =~= seq![value]);
}

proof fn lemma_path_opening(text: Seq<u8>)
    requires
        reads_at(text, encode_utf8("<path d=\""@), 0),
    ensures
        text.len() >= 9,
        text[0] == 0x3c,
        text[1] == 0x70,
        text[2] == 0x61,
        text[3] == 0x74,
        text[4] == 0x68,
        text[5] == 0x20,
        text[6] == 0x64,
        text[7] == 0x3d,
        text[8] == 0x22,
{
    let mark = encode_utf8("<path d=\""@);
    reveal_strlit("<path d=\"");
    is_ascii_chars_encode_utf8("<path d=\""@);
    assert(mark =~= seq![0x3cu8, 0x70, 0x61, 0x74, 0x68, 0x20, 0x64, 0x3d, 0x22]);
    let part = text.subrange(0, 9);
    assert(part[0] == text[0] && part[1] == text[1] && part[2] == text[2] && part[3] == text[3]
        && part[4] == text[4] && part[5] == text[5] && part[6] == text[6] && part[7] == text[7]
        && part[8] == text[8]);
}

/// Nothing else in such a text has a value.
proof fn lemma_other_values(text: Seq<u8>, end: int, at: int)
    requires
        reads_at(text, encode_utf8("<path d=\""@), 0),
        9 <= end < text.len(),
        forall|i: int| 9 <= i < text.len() && i != end ==> (#[trigger] text[i]) != 0x22,
        0 <= at < text.len(),
        at != 6,
    ensures
        value_at(text, at) == Seq::<Seq<u8>>::empty(),
{
    lemma_path_opening(text);
    if marks_data(text, at) {
        lemma_data_mark();
        assert(data_mark()[2] == 0x22);
        assert(text[at + 2] == data_mark()[2]);
        assert(at + 2 == end);
        lemma_quote();
        lemma_first_at(text, quote(), at + 3);
        if first_at(text, quote(), at + 3) is Some {
            let found = first_at(text, quote(), at + 3)->0;
            assert(quote()[0] == 0x22);
            assert(text[found + 0] == quote()[0]);
        }
    }
}

/// A stretch without values adds none.
pub proof fn lemma_values_none(layer: Seq<u8>, from: int, to: int)
    requires
        0 <= from <= to <= layer.len(),
        forall|i: int|
            from <= i < to ==> (#[trigger] value_at(layer, i)) == Seq::<Seq<u8>>::empty(),
    ensures
        path_data(layer, from) == path_data(layer, to),
    decreases to - from,
{
    if from < to {
        lemma_values_none(layer, from + 1, to);
        assert(value_at(layer, from) == Seq::<Seq<u8>>::empty());
        assert(value_at(layer, from) + path_data(layer, from + 1) =~= path_data(layer, from + 1));
    }
}

} // verus!
