//! Tags in the text of a drawing: where one begins, where it ends, and what belongs to it. A tag
//! inside a comment is a tag like any other.
//!
//! The text need not be well-formed. In a tag that is, a quoted value hides what stands in it. A
//! tag that does not end before the next `<` has its quotes in disorder: everything up to that
//! `<` belongs to it, and so does what follows a quoted value that holds a `<`.

use vstd::prelude::*;

use crate::text::{
    last_before, lemma_last_before, lemma_last_of_prefix, lemma_last_shifted,
    lemma_occurs_of_prefix, lemma_occurs_shifted, occurs_at, rfind, stands_at,
};

verus! {

/// White space between the parts of a tag.
pub open spec fn is_space(byte: u8) -> bool {
    byte == 0x20 || byte == 0x09 || byte == 0x0a || byte == 0x0c || byte == 0x0d
}

/// What a value stands between.
pub open spec fn is_quote(byte: u8) -> bool {
    byte == 0x22 || byte == 0x27
}

/// What a name is made of: letters, digits, `-`, `.`, `:`, `_`, and whatever is not ASCII.
pub open spec fn is_name_byte(byte: u8) -> bool {
    ||| 0x61 <= byte <= 0x7a
    ||| 0x41 <= byte <= 0x5a
    ||| 0x30 <= byte <= 0x3a
    ||| byte == 0x2d
    ||| byte == 0x2e
    ||| byte == 0x5f
    ||| byte >= 0x80
}

/// How a position lies to a tag that began before it.
#[derive(Clone, Copy)]
pub enum TagState {
    /// In the tag, outside any attribute's value.
    Inside,
    /// In a value that the given quote opened.
    Quoted(u8),
    /// Behind the tag.
    Outside,
}

/// How the position after `byte` lies to a tag, given how the one before it lies: outside a
/// value, `>` ends the tag and `<` breaks it off.
pub open spec fn state_after(state: TagState, byte: u8) -> TagState {
    match state {
        TagState::Inside => if byte == 0x3e || byte == 0x3c {
            TagState::Outside
        } else if is_quote(byte) {
            TagState::Quoted(byte)
        } else {
            TagState::Inside
        },
        TagState::Quoted(quote) => if byte == quote {
            TagState::Inside
        } else {
            TagState::Quoted(quote)
        },
        TagState::Outside => TagState::Outside,
    }
}

/// How position `at` lies to the tag whose `<` stands at `start`.
pub open spec fn tag_state(text: Seq<u8>, start: int, at: int) -> TagState
    decreases at - start,
{
    if at <= start + 1 {
        TagState::Inside
    } else {
        state_after(tag_state(text, start, at - 1), text[at - 1])
    }
}

/// The position, not before `at`, of the `>` that ends the tag at `start`. A `>` inside a
/// quoted value ends nothing, and a tag that reaches the next `<` has no end.
pub open spec fn tag_end(text: Seq<u8>, start: int, at: int) -> Option<int>
    decreases text.len() - at,
{
    if at < 0 || at >= text.len() || text[at] == 0x3c {
        None
    } else if tag_state(text, start, at) is Inside && text[at] == 0x3e {
        Some(at)
    } else {
        tag_end(text, start, at + 1)
    }
}

/// A tag that begins with `name` (its `<` included) stands at `start`.
pub open spec fn is_tag(text: Seq<u8>, name: Seq<u8>, start: int) -> bool {
    &&& occurs_at(text, name, start)
    &&& start + name.len() < text.len()
    &&& !is_name_byte(text[start + name.len()])
}

/// The tag at `start` is closed by its own end, `/>`.
pub open spec fn is_self_closing(text: Seq<u8>, start: int) -> bool {
    tag_end(text, start, start + 1) matches Some(end) && text[end - 1] == 0x2f
}

/// What stands at `at` belongs to the tag at `start`, which begins with `name`: it stands in the
/// tag outside any value, or the tag has no end and no other `<` comes between.
pub open spec fn owns(text: Seq<u8>, name: Seq<u8>, start: int, at: int) -> bool {
    &&& start < at
    &&& is_tag(text, name, start)
    &&& tag_state(text, start, at) is Inside || (last_before(text, 0x3c, at) == Some(start)
        && tag_end(text, start, start + 1) is None)
}

/// The nearest tag before `end` that begins with `name` and that what stands at `at` belongs to.
pub open spec fn tag_around(text: Seq<u8>, name: Seq<u8>, at: int, end: int) -> Option<int>
    decreases end,
{
    if end <= 0 {
        None
    } else if owns(text, name, end - 1, at) {
        Some(end - 1)
    } else {
        tag_around(text, name, at, end - 1)
    }
}

fn next_state(state: TagState, byte: u8) -> (r: TagState)
    ensures
        r == state_after(state, byte),
{
    match state {
        TagState::Inside => if byte == 0x3e || byte == 0x3c {
            TagState::Outside
        } else if byte == 0x22 || byte == 0x27 {
            TagState::Quoted(byte)
        } else {
            TagState::Inside
        },
        TagState::Quoted(quote) => if byte == quote {
            TagState::Inside
        } else {
            TagState::Quoted(quote)
        },
        TagState::Outside => TagState::Outside,
    }
}

/// Whether `byte` is white space.
pub fn space(byte: u8) -> (r: bool)
    ensures
        r == is_space(byte),
{
    byte == 0x20 || byte == 0x09 || byte == 0x0a || byte == 0x0c || byte == 0x0d
}

/// Whether `byte` can be part of a name.
pub fn name_byte(byte: u8) -> (r: bool)
    ensures
        r == is_name_byte(byte),
{
    (0x61 <= byte && byte <= 0x7a) || (0x41 <= byte && byte <= 0x5a) || (0x30 <= byte && byte
        <= 0x3a) || byte == 0x2d || byte == 0x2e || byte == 0x5f || byte >= 0x80
}

/// Finds the `>` that ends the tag at `start`.
pub fn find_tag_end(text: &[u8], start: usize) -> (r: Option<usize>)
    requires
        start < text@.len(),
    ensures
        match r {
            Some(end) => tag_end(text@, start as int, start + 1) == Some(end as int),
            None => tag_end(text@, start as int, start + 1) is None,
        },
        r matches Some(end) ==> start < end < text@.len() && text@[end as int] == 0x3e,
{
    assert(start < text.len());
    let mut at: usize = start + 1;
    let mut state = TagState::Inside;
    while at < text.len()
        invariant
            start < at <= text@.len() == text.len(),
            state == tag_state(text@, start as int, at as int),
            tag_end(text@, start as int, start + 1) == tag_end(text@, start as int, at as int),
        decreases text@.len() - at,
    {
        let byte: u8 = text[at];
        if byte == 0x3c {
            return None;
        }
        match state {
            TagState::Inside => {
                if byte == 0x3e {
                    return Some(at);
                }
            },
            _ => {},
        }
        state = next_state(state, byte);
        at += 1;
    }
    None
}

/// Whether a tag that begins with `name` stands at `start`.
pub fn tag_stands_at(text: &[u8], name: &[u8], start: usize) -> (r: bool)
    requires
        start <= text@.len(),
    ensures
        r == is_tag(text@, name@, start as int),
{
    if !stands_at(text, name, start) {
        return false;
    }
    assert(start + name@.len() <= text.len());
    let end: usize = start + name.len();
    end < text.len() && !name_byte(text[end])
}

/// Whether the tag at `start` is closed by its own end.
pub fn self_closing(text: &[u8], start: usize) -> (r: bool)
    requires
        start < text@.len(),
    ensures
        r == is_self_closing(text@, start as int),
{
    match find_tag_end(text, start) {
        Some(end) => text[end - 1] == 0x2f,
        None => false,
    }
}

/// Whether `at` lies in the tag at `start`, outside any value.
pub fn lies_inside(text: &[u8], start: usize, at: usize) -> (r: bool)
    requires
        start < at <= text@.len(),
    ensures
        r == tag_state(text@, start as int, at as int) is Inside,
{
    assert(at <= text.len());
    let mut i: usize = start + 1;
    let mut state = TagState::Inside;
    while i < at
        invariant
            start < i <= at <= text@.len() == text.len(),
            state == tag_state(text@, start as int, i as int),
        decreases at - i,
    {
        state = next_state(state, text[i]);
        i += 1;
        match state {
            TagState::Outside => {
                proof {
                    lemma_outside_stays(text@, start as int, i as int, at as int);
                }
                return false;
            },
            _ => {},
        }
    }
    match state {
        TagState::Inside => true,
        _ => false,
    }
}

/// Finds the nearest tag that begins with `name` and that what stands at `at` belongs to.
pub fn find_tag_around(text: &[u8], name: &[u8], at: usize) -> (r: Option<usize>)
    requires
        at <= text@.len(),
    ensures
        match r {
            Some(start) => tag_around(text@, name@, at as int, at as int) == Some(start as int),
            None => tag_around(text@, name@, at as int, at as int) is None,
        },
        r matches Some(start) ==> start < at,
{
    let nearest: Option<usize> = rfind(text, 0x3c, at);
    let mut end: usize = at;
    while end > 0
        invariant
            end <= at <= text@.len() == text.len(),
            match nearest {
                Some(i) => last_before(text@, 0x3c, at as int) == Some(i as int),
                None => last_before(text@, 0x3c, at as int) is None,
            },
            tag_around(text@, name@, at as int, at as int) == tag_around(
                text@,
                name@,
                at as int,
                end as int,
            ),
        decreases end,
    {
        let start: usize = end - 1;
        if tag_stands_at(text, name, start) {
            let open: bool = match nearest {
                Some(i) => i == start && find_tag_end(text, start).is_none(),
                None => false,
            };
            if open || lies_inside(text, start, at) {
                return Some(start);
            }
        }
        end = start;
    }
    None
}

/// Where a tag ends, if it ends.
pub proof fn lemma_tag_end(text: Seq<u8>, start: int, at: int)
    requires
        0 <= at,
    ensures
        tag_end(text, start, at) matches Some(end) ==> {
            &&& at <= end < text.len()
            &&& text[end] == 0x3e
            &&& tag_state(text, start, end) is Inside
            &&& forall|j: int| at <= j < end ==> text[j] != 0x3c
        },
    decreases text.len() - at,
{
    if at < text.len() {
        lemma_tag_end(text, start, at + 1);
    }
}

/// Behind a tag every position lies outside it.
pub proof fn lemma_outside_stays(text: Seq<u8>, start: int, from: int, to: int)
    requires
        start < from <= to,
        tag_state(text, start, from) is Outside,
    ensures
        tag_state(text, start, to) is Outside,
    decreases to - from,
{
    if from < to {
        lemma_outside_stays(text, start, from, to - 1);
    }
}

/// A tag that lies behind, with no `<` between, has ended.
pub proof fn lemma_ended(text: Seq<u8>, start: int, at: int, to: int)
    requires
        0 <= start < at <= to <= text.len(),
        !(tag_state(text, start, at) is Outside),
        tag_state(text, start, to) is Outside,
        forall|j: int| at <= j < to ==> text[j] != 0x3c,
    ensures
        tag_end(text, start, at) matches Some(end) && end < to,
    decreases to - at,
{
    if !(tag_state(text, start, at) is Inside && text[at] == 0x3e) {
        lemma_ended(text, start, at + 1, to);
    }
}

/// What belongs to a tag that ends stands before its end.
pub proof fn lemma_owned_before_end(text: Seq<u8>, name: Seq<u8>, start: int, at: int)
    requires
        0 <= start,
        owns(text, name, start, at),
    ensures
        tag_end(text, start, start + 1) matches Some(end) ==> at <= end,
{
    lemma_tag_end(text, start, start + 1);
    if tag_end(text, start, start + 1) is Some {
        let end = tag_end(text, start, start + 1)->0;
        if end < at {
            lemma_outside_stays(text, start, end + 1, at);
        }
    }
}

/// `tag_around` is the nearest tag of those that own what stands at `at`.
pub proof fn lemma_tag_around(text: Seq<u8>, name: Seq<u8>, at: int, end: int)
    ensures
        match tag_around(text, name, at, end) {
            Some(start) => {
                &&& 0 <= start < end
                &&& owns(text, name, start, at)
                &&& forall|j: int| start < j < end ==> !owns(text, name, j, at)
            },
            None => forall|j: int| 0 <= j < end ==> !owns(text, name, j, at),
        },
    decreases end,
{
    if end > 0 && !owns(text, name, end - 1, at) {
        lemma_tag_around(text, name, at, end - 1);
    }
}

/// What follows a position does not change how it lies to a tag.
pub proof fn lemma_state_of_prefix(text: Seq<u8>, more: Seq<u8>, start: int, at: int)
    requires
        0 <= start,
        at <= text.len(),
    ensures
        tag_state(text + more, start, at) == tag_state(text, start, at),
    decreases at - start,
{
    if at > start + 1 {
        lemma_state_of_prefix(text, more, start, at - 1);
    }
}

/// A `<` stands in `text` at `at` or behind.
pub open spec fn goes_on(text: Seq<u8>, at: int) -> bool {
    exists|k: int| at <= k < text.len() && text[k] == 0x3c
}

/// Text after the end of a tag does not move the end, and neither does text after a `<` that
/// follows the tag's own.
pub proof fn lemma_end_of_prefix(text: Seq<u8>, more: Seq<u8>, start: int, at: int)
    requires
        0 <= start < at <= text.len(),
        ({
            ||| tag_end(text, start, at) is Some
            ||| tag_end(text + more, start, at) matches Some(end) && end < text.len()
            ||| goes_on(text, at)
        }),
    ensures
        tag_end(text + more, start, at) == tag_end(text, start, at),
    decreases text.len() - at,
{
    if at < text.len() {
        lemma_state_of_prefix(text, more, start, at);
        let done = text[at] == 0x3c || (tag_state(text, start, at) is Inside && text[at] == 0x3e);
        if !done {
            assert((text + more)[at] == text[at]);
            if goes_on(text, at) {
                let k = choose|k: int| at <= k < text.len() && text[k] == 0x3c;
                assert(at + 1 <= k);
                assert(goes_on(text, at + 1));
            }
            lemma_end_of_prefix(text, more, start, at + 1);
        }
    } else {
        lemma_tag_end(text + more, start, at);
    }
}

/// Text behind does not change what belongs to a tag that ends or that a `<` follows.
pub proof fn lemma_owns_of_prefix(
    text: Seq<u8>,
    more: Seq<u8>,
    name: Seq<u8>,
    start: int,
    at: int,
)
    requires
        0 <= start < at,
        at + name.len() <= text.len(),
        ({
            ||| tag_end(text, start, start + 1) is Some
            ||| tag_end(text + more, start, start + 1) matches Some(end) && end < text.len()
            ||| goes_on(text, start + 1)
        }),
    ensures
        owns(text + more, name, start, at) == owns(text, name, start, at),
{
    lemma_occurs_of_prefix(text, more, name, start);
    lemma_state_of_prefix(text, more, start, at);
    lemma_last_of_prefix(text, more, 0x3c, at);
    lemma_end_of_prefix(text, more, start, start + 1);
    assert((text + more)[start + name.len()] == text[start + name.len()]);
}

/// Text behind does not change which tag is the nearest, if a `<` follows or the last tag before
/// ends.
pub proof fn lemma_around_of_prefix(
    text: Seq<u8>,
    more: Seq<u8>,
    name: Seq<u8>,
    at: int,
    end: int,
)
    requires
        end <= at,
        at + name.len() <= text.len(),
        name.len() > 0,
        name[0] == 0x3c,
        ({
            ||| goes_on(text, at)
            ||| last_before(text, 0x3c, at) matches Some(start) && {
                ||| tag_end(text, start, start + 1) is Some
                ||| tag_end(text + more, start, start + 1) matches Some(end) && end < text.len()
            }
        }),
    ensures
        tag_around(text + more, name, at, end) == tag_around(text, name, at, end),
    decreases end,
{
    if end > 0 {
        let start = end - 1;
        lemma_last_before(text, 0x3c, at);
        if text[start] == 0x3c {
            if goes_on(text, at) {
                let k = choose|k: int| at <= k < text.len() && text[k] == 0x3c;
                assert(start + 1 <= k);
                assert(goes_on(text, start + 1));
            } else if last_before(text, 0x3c, at) != Some(start) {
                let k = last_before(text, 0x3c, at)->0;
                assert(start + 1 <= k);
                assert(goes_on(text, start + 1));
            }
            lemma_owns_of_prefix(text, more, name, start, at);
        } else {
            assert(text[start + 0] != name[0]);
            assert((text + more)[start + 0] != name[0]);
            assert(!occurs_at(text, name, start));
            assert(!occurs_at(text + more, name, start));
        }
        lemma_around_of_prefix(text, more, name, at, end - 1);
    }
}

/// A `>` follows in `text` behind `at`.
pub open spec fn is_followed(text: Seq<u8>, at: int) -> bool {
    exists|k: int| at < k < text.len() && text[k] == 0x3e
}

/// No tag that begins with `name` is unfinished at the end of the text: every one of them lies
/// behind, and after every `<` there is a `>`.
pub open spec fn is_finished(text: Seq<u8>, name: Seq<u8>) -> bool {
    &&& forall|i: int| 0 <= i < text.len() && text[i] == 0x3c ==> #[trigger] is_followed(text, i)
    &&& forall|i: int|
        0 <= i && #[trigger] is_tag(text, name, i) ==> tag_state(
            text,
            i,
            text.len() as int,
        ) is Outside
}

/// `name` begins with its `<` and holds no other bracket.
pub open spec fn is_tag_name(name: Seq<u8>) -> bool {
    &&& name.len() > 0
    &&& name[0] == 0x3c
    &&& forall|k: int| 0 <= k < name.len() ==> name[k] != 0x3e
}

/// Text before a tag shifts it.
pub proof fn lemma_state_shifted(before: Seq<u8>, text: Seq<u8>, start: int, at: int)
    requires
        0 <= start,
        at <= text.len(),
    ensures
        tag_state(before + text, before.len() + start, before.len() + at) == tag_state(
            text,
            start,
            at,
        ),
    decreases at - start,
{
    if at > start + 1 {
        lemma_state_shifted(before, text, start, at - 1);
    }
}

/// Text before a tag shifts its end.
pub proof fn lemma_end_shifted(before: Seq<u8>, text: Seq<u8>, start: int, at: int)
    requires
        0 <= start < at <= text.len(),
    ensures
        match tag_end(text, start, at) {
            Some(end) => tag_end(before + text, before.len() + start, before.len() + at) == Some(
                before.len() + end,
            ),
            None => tag_end(before + text, before.len() + start, before.len() + at) is None,
        },
    decreases text.len() - at,
{
    if at < text.len() {
        lemma_state_shifted(before, text, start, at);
        assert((before + text)[before.len() + at] == text[at]);
        lemma_end_shifted(before, text, start, at + 1);
    }
}

/// Text before a tag shifts what belongs to it.
proof fn lemma_owns_shifted(before: Seq<u8>, text: Seq<u8>, name: Seq<u8>, start: int, at: int)
    requires
        0 <= start < at <= text.len(),
        is_tag_name(name),
    ensures
        owns(before + text, name, before.len() + start, before.len() + at) == owns(
            text,
            name,
            start,
            at,
        ),
{
    let n = before.len() as int;
    lemma_occurs_shifted(before, text, name, start);
    lemma_state_shifted(before, text, start, at);
    lemma_end_shifted(before, text, start, start + 1);
    if occurs_at(text, name, start) {
        assert(text[start + 0] == name[0]);
        lemma_last_before(text, 0x3c, at);
        lemma_last_shifted(before, text, 0x3c, at);
        if start + name.len() < text.len() {
            assert((before + text)[n + start + name.len()] == text[start + name.len()]);
        }
    }
}

/// What stands behind a text in which no tag is unfinished belongs to none of its tags.
proof fn lemma_not_owned_by_finished(
    before: Seq<u8>,
    text: Seq<u8>,
    name: Seq<u8>,
    start: int,
    at: int,
)
    requires
        is_tag_name(name),
        is_finished(before, name),
        0 <= start < before.len() <= at <= (before + text).len(),
    ensures
        !owns(before + text, name, start, at),
{
    let all = before + text;
    let n = before.len() as int;
    lemma_tag_is_complete(before, text, name, start);
    if is_tag(all, name, start) {
        lemma_state_of_prefix(before, text, start, n);
        lemma_outside_stays(all, start, n, at);
        if last_before(all, 0x3c, at) == Some(start) {
            lemma_last_before(all, 0x3c, at);
            lemma_ended(all, start, start + 1, n);
        }
    }
}

/// Text before, in which no tag is unfinished, shifts the tag that something belongs to.
pub proof fn lemma_around_shifted(before: Seq<u8>, text: Seq<u8>, name: Seq<u8>, at: int)
    requires
        is_tag_name(name),
        is_finished(before, name),
        0 <= at <= text.len(),
    ensures
        match tag_around(text, name, at, at) {
            Some(start) => tag_around(before + text, name, before.len() + at, before.len() + at)
                == Some(before.len() + start),
            None => tag_around(before + text, name, before.len() + at, before.len() + at) is None,
        },
{
    let all = before + text;
    let n = before.len() as int;
    lemma_tag_around(text, name, at, at);
    lemma_tag_around(all, name, n + at, n + at);
    match tag_around(all, name, n + at, n + at) {
        Some(found) => {
            if found < n {
                lemma_not_owned_by_finished(before, text, name, found, n + at);
            } else {
                lemma_owns_shifted(before, text, name, found - n, at);
            }
        },
        None => {},
    }
    match tag_around(text, name, at, at) {
        Some(start) => {
            lemma_owns_shifted(before, text, name, start, at);
        },
        None => {},
    }
}

/// A tag that begins in a text in which none is unfinished is one of that text's own.
pub proof fn lemma_tag_is_complete(text: Seq<u8>, more: Seq<u8>, name: Seq<u8>, start: int)
    requires
        is_tag_name(name),
        is_finished(text, name),
        0 <= start < text.len(),
    ensures
        is_tag(text + more, name, start) == is_tag(text, name, start),
{
    let all = text + more;
    lemma_occurs_of_prefix(text, more, name, start);
    if start + name.len() < text.len() {
        assert(all[start + name.len()] == text[start + name.len()]);
    } else if is_tag(all, name, start) {
        assert(all[start + 0] == name[0]);
        assert(is_followed(text, start));
        let k = choose|k: int| start < k < text.len() && text[k] == 0x3e;
        assert(all[start + (k - start)] == name[k - start]);
    }
}

/// Text behind one in which no tag is unfinished does not change what belongs to its tags.
pub proof fn lemma_around_of_finished(
    text: Seq<u8>,
    more: Seq<u8>,
    name: Seq<u8>,
    at: int,
    end: int,
)
    requires
        is_tag_name(name),
        is_finished(text, name),
        end <= at <= text.len(),
    ensures
        tag_around(text + more, name, at, end) == tag_around(text, name, at, end),
    decreases end,
{
    if end > 0 {
        let start = end - 1;
        let n = text.len() as int;
        lemma_tag_is_complete(text, more, name, start);
        if is_tag(text, name, start) {
            lemma_state_of_prefix(text, more, start, at);
            lemma_last_of_prefix(text, more, 0x3c, at);
            if !goes_on(text, start + 1) {
                lemma_ended(text, start, start + 1, n);
            }
            lemma_end_of_prefix(text, more, start, start + 1);
        }
        lemma_around_of_finished(text, more, name, at, end - 1);
    }
}

} // verus!
