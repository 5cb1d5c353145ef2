//! Well-formed markup, written out from its parts, and what is found in it. A drawing is here a
//! run of texts and tags; the laws say what the library makes of the bytes of every such run.

use vstd::prelude::*;

use crate::tags::{tag_end, tag_state, TagState};

verus! {

/// A space, a tab, a form feed or the end of a line.
pub open spec fn is_blank(byte: u8) -> bool {
    byte == 0x20 || byte == 0x09 || byte == 0x0a || byte == 0x0c || byte == 0x0d
}

/// A byte of a name.
pub open spec fn is_letter(byte: u8) -> bool {
    ||| 0x61 <= byte <= 0x7a
    ||| 0x41 <= byte <= 0x5a
    ||| 0x30 <= byte <= 0x39
    ||| byte == 0x2d
    ||| byte == 0x2e
    ||| byte == 0x3a
    ||| byte == 0x5f
    ||| byte >= 0x80
}

/// An attribute: white space, a name, `=`, and a value between two quotes of one kind.
pub struct Attribute {
    pub gap: Seq<u8>,
    pub name: Seq<u8>,
    pub quote: u8,
    pub value: Seq<u8>,
}

/// A piece of markup.
pub enum Token {
    /// Text between tags.
    Text(Seq<u8>),
    /// `<name ...>`
    Open(Seq<u8>, Seq<Attribute>, Seq<u8>),
    /// `<name .../>`
    Empty(Seq<u8>, Seq<Attribute>, Seq<u8>),
    /// `</name>`
    Close(Seq<u8>),
}

pub open spec fn all_blank(bytes: Seq<u8>) -> bool {
    forall|i: int| 0 <= i < bytes.len() ==> is_blank(#[trigger] bytes[i])
}

pub open spec fn is_name(bytes: Seq<u8>) -> bool {
    bytes.len() > 0 && forall|i: int| 0 <= i < bytes.len() ==> is_letter(#[trigger] bytes[i])
}

pub open spec fn is_attribute(a: Attribute) -> bool {
    &&& a.gap.len() > 0
    &&& all_blank(a.gap)
    &&& is_name(a.name)
    &&& a.quote == 0x22 || a.quote == 0x27
    &&& forall|i: int|
        0 <= i < a.value.len() ==> (#[trigger] a.value[i]) != 0x3c && a.value[i] != a.quote
}

pub open spec fn are_attributes(attributes: Seq<Attribute>) -> bool {
    forall|i: int| 0 <= i < attributes.len() ==> is_attribute(#[trigger] attributes[i])
}

pub open spec fn is_token(token: Token) -> bool {
    match token {
        Token::Text(text) => forall|i: int|
            0 <= i < text.len() ==> (#[trigger] text[i]) != 0x3c,
        Token::Open(name, attributes, gap) => {
            is_name(name) && are_attributes(attributes) && all_blank(gap)
        },
        Token::Empty(name, attributes, gap) => {
            is_name(name) && are_attributes(attributes) && all_blank(gap)
        },
        Token::Close(name) => is_name(name),
    }
}

pub open spec fn are_tokens(tokens: Seq<Token>) -> bool {
    forall|i: int| 0 <= i < tokens.len() ==> is_token(#[trigger] tokens[i])
}

/// The bytes of an attribute.
pub open spec fn attribute_bytes(a: Attribute) -> Seq<u8> {
    a.gap + a.name + seq![0x3du8, a.quote] + a.value + seq![a.quote]
}

/// The bytes of attributes, one after the other.
pub open spec fn attributes_bytes(attributes: Seq<Attribute>) -> Seq<u8>
    decreases attributes.len(),
{
    if attributes.len() == 0 {
        seq![]
    } else {
        attributes_bytes(attributes.drop_last()) + attribute_bytes(attributes.last())
    }
}

/// The bytes of a tag that opens an element, with `tail` at its end.
pub open spec fn tag_bytes(name: Seq<u8>, attributes: Seq<Attribute>, tail: Seq<u8>) -> Seq<u8> {
    seq![0x3cu8] + name + attributes_bytes(attributes) + tail
}

/// The bytes of a token.
pub open spec fn token_bytes(token: Token) -> Seq<u8> {
    match token {
        Token::Text(text) => text,
        Token::Open(name, attributes, gap) => tag_bytes(name, attributes, gap + seq![0x3eu8]),
        Token::Empty(name, attributes, gap) => tag_bytes(
            name,
            attributes,
            gap + seq![0x2fu8, 0x3e],
        ),
        Token::Close(name) => seq![0x3cu8, 0x2f] + name + seq![0x3eu8],
    }
}

/// The bytes of a run of tokens.
pub open spec fn markup_bytes(tokens: Seq<Token>) -> Seq<u8>
    decreases tokens.len(),
{
    if tokens.len() == 0 {
        seq![]
    } else {
        markup_bytes(tokens.drop_last()) + token_bytes(tokens.last())
    }
}

/// Where attribute `k` of a tag begins, counted from the tag's `<`.
pub open spec fn attribute_start(name: Seq<u8>, attributes: Seq<Attribute>, k: int) -> int {
    1int + name.len() + attributes_bytes(attributes.take(k)).len()
}

/// The end of a tag: white space and perhaps a `/`, and `>`.
pub open spec fn is_tail(tail: Seq<u8>) -> bool {
    &&& tail.len() > 0
    &&& tail.last() == 0x3e
    &&& forall|i: int|
        0 <= i < tail.len() - 1 ==> is_blank(#[trigger] tail[i]) || tail[i] == 0x2f
}

/// Bytes that are neither brackets nor quotes leave a position inside the tag.
pub proof fn lemma_plain_run(text: Seq<u8>, start: int, from: int, to: int)
    requires
        start < from <= to,
        tag_state(text, start, from) is Inside,
        forall|i: int|
            from <= i < to ==> (#[trigger] text[i]) != 0x3c && text[i] != 0x3e && text[i] != 0x22
                && text[i] != 0x27,
    ensures
        forall|i: int| from <= i <= to ==> (#[trigger] tag_state(text, start, i)) is Inside,
    decreases to - from,
{
    if from < to {
        lemma_plain_run(text, start, from, to - 1);
        assert(tag_state(text, start, to - 1) is Inside);
        assert(text[to - 1] != 0x3c);
    }
}

/// Bytes that are not the closing quote leave a position in the value.
pub proof fn lemma_quoted_run(text: Seq<u8>, start: int, from: int, to: int, quote: u8)
    requires
        start < from <= to,
        tag_state(text, start, from) == TagState::Quoted(quote),
        forall|i: int| from <= i < to ==> (#[trigger] text[i]) != quote,
    ensures
        forall|i: int|
            from <= i <= to ==> (#[trigger] tag_state(text, start, i)) == TagState::Quoted(quote),
    decreases to - from,
{
    if from < to {
        lemma_quoted_run(text, start, from, to - 1, quote);
        assert(tag_state(text, start, to - 1) == TagState::Quoted(quote));
        assert(text[to - 1] != quote);
    }
}

/// How the positions of an attribute that begins at `at` lie to its tag.
pub proof fn lemma_attribute_states(text: Seq<u8>, start: int, at: int, a: Attribute)
    requires
        0 <= start < at,
        at + attribute_bytes(a).len() <= text.len(),
        text.subrange(at, at + attribute_bytes(a).len()) == attribute_bytes(a),
        is_attribute(a),
        tag_state(text, start, at) is Inside,
    ensures
        ({
            let name = at + a.gap.len();
            let quote = name + a.name.len() + 1;
            let end = quote + 1 + a.value.len();
            &&& end + 1 == at + attribute_bytes(a).len()
            &&& forall|i: int| 0 <= i < a.gap.len() ==> text[at + i] == #[trigger] a.gap[i]
            &&& forall|i: int| 0 <= i < a.name.len() ==> text[name + i] == #[trigger] a.name[i]
            &&& text[quote - 1] == 0x3d
            &&& text[quote] == a.quote
            &&& forall|i: int|
                0 <= i < a.value.len() ==> text[quote + 1 + i] == #[trigger] a.value[i]
            &&& text[end] == a.quote
            &&& forall|i: int| at <= i <= quote ==> (#[trigger] tag_state(text, start, i)) is Inside
            &&& forall|i: int|
                quote < i <= end ==> (#[trigger] tag_state(text, start, i)) == TagState::Quoted(
                    a.quote,
                )
            &&& tag_state(text, start, end + 1) is Inside
        }),
{
    let bytes = attribute_bytes(a);
    let part = text.subrange(at, at + bytes.len());
    let name = at + a.gap.len();
    let quote = name + a.name.len() + 1;
    let end = quote + 1 + a.value.len();
    assert forall|i: int| 0 <= i < a.gap.len() implies text[at + i] == #[trigger] a.gap[i] by {
        assert(part[i] == bytes[i]);
    }
    assert forall|i: int| 0 <= i < a.name.len() implies text[name + i] == #[trigger] a.name[i] by {
        assert(part[name - at + i] == bytes[name - at + i]);
    }
    assert(part[quote - 1 - at] == bytes[quote - 1 - at]);
    assert(part[quote - at] == bytes[quote - at]);
    assert forall|i: int| 0 <= i < a.value.len() implies text[quote + 1 + i]
        == #[trigger] a.value[i] by {
        assert(part[quote + 1 - at + i] == bytes[quote + 1 - at + i]);
    }
    assert(part[end - at] == bytes[end - at]);
    assert forall|i: int| at <= i < quote implies (#[trigger] text[i]) != 0x3c && text[i] != 0x3e
        && text[i] != 0x22 && text[i] != 0x27 by {
        if i < name {
            assert(is_blank(a.gap[i - at]));
        } else if i < quote - 1 {
            assert(is_letter(a.name[i - name]));
        }
    }
    lemma_plain_run(text, start, at, quote);
    assert(tag_state(text, start, quote) is Inside);
    assert(tag_state(text, start, quote + 1) == TagState::Quoted(a.quote));
    assert forall|i: int| quote + 1 <= i < end implies (#[trigger] text[i]) != a.quote by {
        assert(a.value[i - (quote + 1)] != a.quote);
    }
    lemma_quoted_run(text, start, quote + 1, end, a.quote);
    assert(tag_state(text, start, end) == TagState::Quoted(a.quote));
}

/// The bytes of the first attributes of a tag are followed by those of the next.
pub proof fn lemma_attributes_split(attributes: Seq<Attribute>, k: int)
    requires
        0 <= k < attributes.len(),
    ensures
        attributes_bytes(attributes.take(k + 1)) == attributes_bytes(attributes.take(k))
            + attribute_bytes(attributes[k]),
        attributes_bytes(attributes.take(k + 1)).len() <= attributes_bytes(attributes).len(),
        attributes_bytes(attributes).subrange(
            attributes_bytes(attributes.take(k)).len() as int,
            attributes_bytes(attributes.take(k + 1)).len() as int,
        ) == attribute_bytes(attributes[k]),
    decreases attributes.len(),
{
    assert(attributes.take(k + 1).drop_last() =~= attributes.take(k));
    let (before, here) = (attributes_bytes(attributes.take(k)), attribute_bytes(attributes[k]));
    if k + 1 == attributes.len() {
        assert(attributes.take(k + 1) =~= attributes);
        assert((before + here).subrange(before.len() as int, (before + here).len() as int)
            =~= here);
    } else {
        let rest = attributes.drop_last();
        lemma_attributes_split(rest, k);
        assert(rest.take(k) =~= attributes.take(k));
        assert(rest.take(k + 1) =~= attributes.take(k + 1));
        let (all, most) = (attributes_bytes(attributes), attributes_bytes(rest));
        assert(all.subrange(before.len() as int, (before + here).len() as int) =~= most.subrange(
            before.len() as int,
            (before + here).len() as int,
        ));
    }
}

/// What stands before attribute `k` of a tag: nothing ends or breaks off the tag, and every
/// position either is inside it or in a value.
pub proof fn lemma_tag_up_to(
    text: Seq<u8>,
    name: Seq<u8>,
    attributes: Seq<Attribute>,
    tail: Seq<u8>,
    rest: Seq<u8>,
    k: int,
)
    requires
        text == tag_bytes(name, attributes, tail) + rest,
        is_name(name),
        are_attributes(attributes),
        0 <= k <= attributes.len(),
    ensures
        ({
            let end = attribute_start(name, attributes, k);
            &&& end <= tag_bytes(name, attributes, tail).len() - tail.len()
            &&& tag_state(text, 0, end) is Inside
            &&& text[0] == 0x3c
            &&& forall|i: int| 0 < i <= name.len() ==> text[i] == #[trigger] name[i - 1]
            &&& forall|i: int| 0 < i < end ==> (#[trigger] text[i]) != 0x3c
            &&& forall|i: int|
                0 < i < end && (#[trigger] text[i]) == 0x3e ==> !(tag_state(text, 0, i) is Inside)
        }),
    decreases k,
{
    let bytes = tag_bytes(name, attributes, tail);
    let n = name.len() as int;
    assert forall|i: int| 0 < i <= n implies text[i] == #[trigger] name[i - 1] by {
        assert(bytes[i] == name[i - 1]);
    }
    assert(bytes[0] == 0x3c);
    if k == 0 {
        assert(attributes.take(0) =~= seq![]);
        assert forall|i: int| 1 <= i < n + 1 implies (#[trigger] text[i]) != 0x3c && text[i] != 0x3e
            && text[i] != 0x22 && text[i] != 0x27 by {
            assert(is_letter(name[i - 1]));
        }
        lemma_plain_run(text, 0, 1, n + 1);
        assert(tag_state(text, 0, n + 1) is Inside);
    } else {
        let a = attributes[k - 1];
        lemma_tag_up_to(text, name, attributes, tail, rest, k - 1);
        lemma_attributes_split(attributes, k - 1);
        let at = attribute_start(name, attributes, k - 1);
        let end = attribute_start(name, attributes, k);
        assert(is_attribute(a));
        lemma_attribute_place(text, name, attributes, tail, rest, k - 1);
        lemma_attribute_states(text, 0, at, a);
        let quote = at + a.gap.len() + a.name.len() + 1;
        assert forall|i: int| 0 < i < end implies (#[trigger] text[i]) != 0x3c by {
            if i >= at {
                if i < at + a.gap.len() {
                    assert(is_blank(a.gap[i - at]));
                } else if i < quote - 1 {
                    assert(is_letter(a.name[i - (at + a.gap.len())]));
                } else if quote < i < end - 1 {
                    assert(a.value[i - (quote + 1)] != 0x3c);
                }
            }
        }
        assert forall|i: int| 0 < i < end && (#[trigger] text[i]) == 0x3e implies !(tag_state(
            text,
            0,
            i,
        ) is Inside) by {
            if i >= at {
                if i < at + a.gap.len() {
                    assert(is_blank(a.gap[i - at]));
                } else if i < quote - 1 {
                    assert(is_letter(a.name[i - (at + a.gap.len())]));
                } else if quote < i < end - 1 {
                    assert(tag_state(text, 0, i) == TagState::Quoted(a.quote));
                }
            }
        }
    }
}

/// Where an attribute of a tag stands.
pub proof fn lemma_attribute_place(
    text: Seq<u8>,
    name: Seq<u8>,
    attributes: Seq<Attribute>,
    tail: Seq<u8>,
    rest: Seq<u8>,
    k: int,
)
    requires
        text == tag_bytes(name, attributes, tail) + rest,
        0 <= k < attributes.len(),
    ensures
        ({
            let at = attribute_start(name, attributes, k);
            let end = attribute_start(name, attributes, k + 1);
            &&& end == at + attribute_bytes(attributes[k]).len()
            &&& end <= tag_bytes(name, attributes, tail).len() - tail.len()
            &&& text.subrange(at, end) == attribute_bytes(attributes[k])
        }),
{
    lemma_attributes_split(attributes, k);
    let at = attribute_start(name, attributes, k);
    let end = attribute_start(name, attributes, k + 1);
    let all = attributes_bytes(attributes);
    let n = name.len() + 1;
    assert(text.subrange(at, end) =~= all.subrange(at - n, end - n)) by {
        assert forall|i: int| at <= i < end implies text[i] == all[i - n] by {
            assert(tag_bytes(name, attributes, tail)[i] == all[i - n]);
        }
    }
}

/// The whole of a tag: it ends with its last byte, and holds no other `<`.
pub proof fn lemma_whole_tag(
    text: Seq<u8>,
    name: Seq<u8>,
    attributes: Seq<Attribute>,
    tail: Seq<u8>,
    rest: Seq<u8>,
)
    requires
        text == tag_bytes(name, attributes, tail) + rest,
        is_name(name),
        are_attributes(attributes),
        is_tail(tail),
    ensures
        ({
            let n = tag_bytes(name, attributes, tail).len() as int;
            let inner = n - tail.len();
            &&& n >= 3
            &&& text[0] == 0x3c
            &&& forall|i: int| 0 < i <= name.len() ==> text[i] == #[trigger] name[i - 1]
            &&& !is_letter(text[name.len() as int + 1])
            &&& forall|i: int| inner <= i < n ==> text[i] == #[trigger] tail[i - inner]
            &&& forall|i: int| 0 < i < n ==> (#[trigger] text[i]) != 0x3c
            &&& forall|i: int|
                inner <= i < n ==> (#[trigger] tag_state(text, 0, i)) is Inside
            &&& tag_end(text, 0, 1) == Some(n - 1)
            &&& tag_state(text, 0, n) is Outside
        }),
{
    let bytes = tag_bytes(name, attributes, tail);
    let n = bytes.len() as int;
    let inner = n - tail.len();
    let count = attributes.len() as int;
    lemma_tag_up_to(text, name, attributes, tail, rest, count);
    assert(attributes.take(count) =~= attributes);
    assert(attribute_start(name, attributes, count) == inner);
    assert forall|i: int| inner <= i < n implies text[i] == #[trigger] tail[i - inner] by {
        assert(bytes[i] == tail[i - inner]);
    }
    assert forall|i: int| inner <= i < n - 1 implies (#[trigger] text[i]) != 0x3c && text[i] != 0x3e
        && text[i] != 0x22 && text[i] != 0x27 by {
        assert(is_blank(tail[i - inner]) || tail[i - inner] == 0x2f);
    }
    lemma_plain_run(text, 0, inner, n - 1);
    assert(tag_state(text, 0, n - 1) is Inside);
    assert(text[n - 1] == tail[tail.len() - 1]);
    lemma_end_found(text, 0, 1, n - 1);
    assert(tag_state(text, 0, n) is Outside);
    if count == 0 {
        assert(attributes_bytes(attributes) =~= seq![]);
        assert(text[name.len() as int + 1] == tail[0]);
        if tail.len() > 1 {
            assert(is_blank(tail[0]) || tail[0] == 0x2f);
        }
    } else {
        let a = attributes[0];
        assert(is_attribute(a));
        assert(attributes.take(0) =~= seq![]);
        lemma_attribute_place(text, name, attributes, tail, rest, 0);
        let at = attribute_start(name, attributes, 0);
        assert(text.subrange(at, attribute_start(name, attributes, 1))[0] == attribute_bytes(
            a,
        )[0]);
        assert(is_blank(a.gap[0]));
    }
}

/// The first `>` inside a tag, with no `<` before it, is its end.
pub proof fn lemma_end_found(text: Seq<u8>, start: int, from: int, end: int)
    requires
        0 <= start < from <= end < text.len(),
        forall|i: int| from <= i < end ==> (#[trigger] text[i]) != 0x3c,
        forall|i: int|
            from <= i < end && (#[trigger] text[i]) == 0x3e ==> !(tag_state(
                text,
                start,
                i,
            ) is Inside),
        text[end] == 0x3e,
        tag_state(text, start, end) is Inside,
    ensures
        tag_end(text, start, from) == Some(end),
    decreases end - from,
{
    if from < end {
        assert(text[from] != 0x3c);
        lemma_end_found(text, start, from + 1, end);
    }
}

} // verus!
