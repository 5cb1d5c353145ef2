//! Searching and slicing text by the positions of its bytes.

use vstd::prelude::*;
use vstd::string::*;
use vstd::utf8::*;

verus! {

/// `pattern` stands in `text` at position `at`.
pub open spec fn occurs_at(text: Seq<u8>, pattern: Seq<u8>, at: int) -> bool {
    &&& 0 <= at
    &&& at + pattern.len() <= text.len()
    &&& forall|k: int| 0 <= k < pattern.len() ==> text[at + k] == #[trigger] pattern[k]
}

/// The first position, not before `from`, at which `pattern` stands in `text`.
pub open spec fn first_at(text: Seq<u8>, pattern: Seq<u8>, from: int) -> Option<int>
    decreases text.len() + 1 - from,
{
    if from < 0 || from > text.len() {
        None
    } else if occurs_at(text, pattern, from) {
        Some(from)
    } else {
        first_at(text, pattern, from + 1)
    }
}

/// The last position before `end` at which the byte `byte` stands in `text`.
pub open spec fn last_before(text: Seq<u8>, byte: u8, end: int) -> Option<int>
    decreases end,
{
    if end <= 0 {
        None
    } else if text[end - 1] == byte {
        Some(end - 1)
    } else {
        last_before(text, byte, end - 1)
    }
}

/// What ends an attribute's value.
pub open spec fn quote() -> Seq<u8> {
    encode_utf8("\""@)
}

pub proof fn lemma_quote()
    ensures
        quote() == seq![0x22u8],
{
    reveal_strlit("\"");
    is_ascii_chars_encode_utf8("\""@);
    assert(quote() =~= seq![0x22u8]);
}

/// `first_at` is the least position that the pattern stands at, if there is one.
pub proof fn lemma_first_at(text: Seq<u8>, pattern: Seq<u8>, from: int)
    requires
        0 <= from,
    ensures
        match first_at(text, pattern, from) {
            Some(i) => {
                &&& from <= i
                &&& occurs_at(text, pattern, i)
                &&& forall|j: int| from <= j < i ==> !occurs_at(text, pattern, j)
            },
            None => forall|j: int| from <= j ==> !occurs_at(text, pattern, j),
        },
    decreases text.len() + 1 - from,
{
    if from <= text.len() && !occurs_at(text, pattern, from) {
        lemma_first_at(text, pattern, from + 1);
    }
}

/// The bytes of `text` from `at` on are those of `pattern`.
pub open spec fn reads_at(text: Seq<u8>, pattern: Seq<u8>, at: int) -> bool {
    0 <= at && at + pattern.len() <= text.len() && text.subrange(at, at + pattern.len()) == pattern
}

/// A pattern stands where the bytes of the text are those of the pattern.
pub proof fn law_occurrence_is_the_pattern(text: Seq<u8>, pattern: Seq<u8>, at: int)
    ensures
        occurs_at(text, pattern, at) <==> reads_at(text, pattern, at),
{
    if occurs_at(text, pattern, at) {
        assert(text.subrange(at, at + pattern.len()) =~= pattern);
    }
    if 0 <= at && at + pattern.len() <= text.len() && text.subrange(at, at + pattern.len())
        == pattern {
        let part = text.subrange(at, at + pattern.len());
        assert forall|k: int| 0 <= k < pattern.len() implies text[at + k]
            == #[trigger] pattern[k] by {
            assert(part[k] == text[at + k]);
        }
    }
}

/// What is found first is the pattern, and nowhere before it does the pattern stand; and what is
/// not found stands nowhere.
pub proof fn law_first_is_the_first(text: Seq<u8>, pattern: Seq<u8>, from: int, j: int)
    requires
        0 <= from <= j,
        reads_at(text, pattern, j),
    ensures
        first_at(text, pattern, from) matches Some(at) && from <= at <= j && reads_at(
            text,
            pattern,
            at,
        ) && forall|i: int| from <= i < at ==> !#[trigger] reads_at(text, pattern, i),
{
    law_occurrence_is_the_pattern(text, pattern, j);
    lemma_first_at(text, pattern, from);
    let at = first_at(text, pattern, from)->0;
    law_occurrence_is_the_pattern(text, pattern, at);
    assert forall|i: int| from <= i < at implies !#[trigger] reads_at(text, pattern, i) by {
        law_occurrence_is_the_pattern(text, pattern, i);
    }
}

/// `last_before` is the greatest such position, if there is one.
pub proof fn lemma_last_before(text: Seq<u8>, byte: u8, end: int)
    requires
        end <= text.len(),
    ensures
        match last_before(text, byte, end) {
            Some(i) => {
                &&& 0 <= i < end
                &&& text[i] == byte
                &&& forall|j: int| i < j < end ==> text[j] != byte
            },
            None => forall|j: int| 0 <= j < end ==> text[j] != byte,
        },
    decreases end,
{
    if end > 0 && text[end - 1] != byte {
        lemma_last_before(text, byte, end - 1);
    }
}

/// The last place of a byte before a position is the one behind which it does not stand again,
/// and a byte that stands nowhere before it has none.
pub proof fn law_last_is_the_last(text: Seq<u8>, byte: u8, end: int)
    requires
        0 <= end <= text.len(),
    ensures
        forall|i: int|
            0 <= i < end && (#[trigger] text[i]) == byte && !text.subrange(i + 1, end).contains(
                byte,
            ) ==> last_before(text, byte, end) == Some(i),
        !text.subrange(0, end).contains(byte) ==> last_before(text, byte, end) is None,
{
    lemma_last_before(text, byte, end);
    assert forall|i: int|
        0 <= i < end && (#[trigger] text[i]) == byte && !text.subrange(i + 1, end).contains(
            byte,
        ) implies last_before(text, byte, end) == Some(i) by {
        let found = last_before(text, byte, end)->0;
        if i < found {
            assert(text.subrange(i + 1, end)[found - (i + 1)] == byte);
        }
    }
    if last_before(text, byte, end) is Some {
        let found = last_before(text, byte, end)->0;
        assert(text.subrange(0, end)[found] == byte);
    }
}

/// Text after an occurrence does not change which one is the first.
pub proof fn lemma_first_of_prefix(text: Seq<u8>, more: Seq<u8>, pattern: Seq<u8>, from: int)
    requires
        0 <= from,
        ({
            ||| first_at(text, pattern, from) is Some
            ||| first_at(text + more, pattern, from) matches Some(at) && at + pattern.len()
                <= text.len()
        }),
    ensures
        first_at(text + more, pattern, from) == first_at(text, pattern, from),
    decreases text.len() + 1 - from,
{
    lemma_first_at(text, pattern, from);
    lemma_first_at(text + more, pattern, from);
    lemma_occurs_of_prefix(text, more, pattern, from);
    if !occurs_at(text, pattern, from) {
        lemma_first_of_prefix(text, more, pattern, from + 1);
    }
}

/// Text after an occurrence does not change it.
pub proof fn lemma_occurs_of_prefix(text: Seq<u8>, more: Seq<u8>, pattern: Seq<u8>, at: int)
    ensures
        at + pattern.len() <= text.len() ==> occurs_at(text + more, pattern, at) == occurs_at(
            text,
            pattern,
            at,
        ),
{
    if 0 <= at && at + pattern.len() <= text.len() {
        if occurs_at(text + more, pattern, at) {
            assert forall|k: int| 0 <= k < pattern.len() implies text[at + k]
                == #[trigger] pattern[k] by {
                assert((text + more)[at + k] == pattern[k]);
            }
        }
    }
}

/// Text behind a position does not change what stands before it.
pub proof fn lemma_last_of_prefix(text: Seq<u8>, more: Seq<u8>, byte: u8, end: int)
    requires
        end <= text.len(),
    ensures
        last_before(text + more, byte, end) == last_before(text, byte, end),
    decreases end,
{
    if end > 0 {
        lemma_last_of_prefix(text, more, byte, end - 1);
    }
}

/// Text before an occurrence shifts it.
pub proof fn lemma_occurs_shifted(before: Seq<u8>, text: Seq<u8>, pattern: Seq<u8>, at: int)
    requires
        0 <= at,
    ensures
        occurs_at(before + text, pattern, before.len() + at) == occurs_at(text, pattern, at),
{
    let all = before + text;
    let n = before.len() as int;
    if occurs_at(all, pattern, n + at) {
        assert forall|k: int| 0 <= k < pattern.len() implies text[at + k]
            == #[trigger] pattern[k] by {
            assert(all[n + at + k] == pattern[k]);
        }
    }
    if occurs_at(text, pattern, at) {
        assert forall|k: int| 0 <= k < pattern.len() implies all[n + at + k]
            == #[trigger] pattern[k] by {
            assert(text[at + k] == pattern[k]);
        }
    }
}

/// Text before shifts the first occurrence from a position on.
pub proof fn lemma_first_shifted(before: Seq<u8>, text: Seq<u8>, pattern: Seq<u8>, from: int)
    requires
        0 <= from,
    ensures
        match first_at(text, pattern, from) {
            Some(at) => first_at(before + text, pattern, before.len() + from) == Some(
                before.len() + at,
            ),
            None => first_at(before + text, pattern, before.len() + from) is None,
        },
    decreases text.len() + 1 - from,
{
    if from <= text.len() {
        lemma_occurs_shifted(before, text, pattern, from);
        lemma_first_shifted(before, text, pattern, from + 1);
    }
}

/// Text before shifts the last place of a byte, if there is one.
pub proof fn lemma_last_shifted(before: Seq<u8>, text: Seq<u8>, byte: u8, end: int)
    requires
        end <= text.len(),
        last_before(text, byte, end) is Some,
    ensures
        last_before(before + text, byte, before.len() + end) == Some(
            before.len() + last_before(text, byte, end)->0,
        ),
    decreases end,
{
    if text[end - 1] != byte {
        lemma_last_shifted(before, text, byte, end - 1);
    }
}

/// Whether `pattern` stands in `text` at `at`.
pub fn stands_at(text: &[u8], pattern: &[u8], at: usize) -> (r: bool)
    requires
        at <= text@.len(),
    ensures
        r == occurs_at(text@, pattern@, at as int),
{
    if pattern.len() > text.len() - at {
        return false;
    }
    let mut k: usize = 0;
    while k < pattern.len()
        invariant
            k <= pattern@.len(),
            at + pattern@.len() <= text@.len() == text.len(),
            forall|j: int| 0 <= j < k ==> text@[at + j] == #[trigger] pattern@[j],
        decreases pattern@.len() - k,
    {
        if text[at + k] != pattern[k] {
            return false;
        }
        k += 1;
    }
    true
}

/// Looks for `pattern` in `text` from position `from` on.
pub fn find(text: &[u8], pattern: &[u8], from: usize) -> (r: Option<usize>)
    requires
        from <= text@.len(),
    ensures
        match r {
            Some(i) => first_at(text@, pattern@, from as int) == Some(i as int),
            None => first_at(text@, pattern@, from as int) is None,
        },
{
    let mut i: usize = from;
    while i < text.len()
        invariant
            i <= text@.len(),
            first_at(text@, pattern@, from as int) == first_at(text@, pattern@, i as int),
        decreases text@.len() - i,
    {
        if stands_at(text, pattern, i) {
            return Some(i);
        }
        i += 1;
    }
    reveal_with_fuel(first_at, 2);
    if pattern.len() == 0 {
        Some(i)
    } else {
        None
    }
}

/// Looks backwards from `end` for the byte `byte`.
pub fn rfind(text: &[u8], byte: u8, end: usize) -> (r: Option<usize>)
    requires
        end <= text@.len(),
    ensures
        match r {
            Some(i) => last_before(text@, byte, end as int) == Some(i as int),
            None => last_before(text@, byte, end as int) is None,
        },
{
    let mut i: usize = end;
    while i > 0
        invariant
            i <= text@.len(),
            last_before(text@, byte, end as int) == last_before(text@, byte, i as int),
        decreases i,
    {
        i -= 1;
        if text[i] == byte {
            return Some(i);
        }
    }
    None
}

/// In well-formed UTF-8 a character begins at every ASCII byte and right after it.
pub proof fn lemma_ascii_boundaries(bytes: Seq<u8>, at: int)
    requires
        valid_utf8(bytes),
        0 <= at < bytes.len(),
        bytes[at] < 0x80,
    ensures
        is_char_boundary(bytes, at),
        is_char_boundary(bytes, at + 1),
{
    is_char_boundary_iff_not_is_continuation_byte(bytes, at);
    if at + 1 == bytes.len() {
        is_char_boundary_start_end_of_seq(bytes);
    } else {
        valid_utf8_split(bytes, at);
        let tail = bytes.subrange(at, bytes.len() as int);
        let next = pop_first_scalar(tail);
        assert(tail[0] == bytes[at]);
        assert(next[0] == bytes[at + 1]);
        assert(valid_utf8(next));
        is_char_boundary_iff_not_is_continuation_byte(bytes, at + 1);
    }
}

/// A character boundary of a text is one of every prefix that reaches as far.
pub proof fn lemma_boundary_of_prefix(bytes: Seq<u8>, at: int, end: int)
    requires
        valid_utf8(bytes),
        0 <= at <= end <= bytes.len(),
        is_char_boundary(bytes, at),
        is_char_boundary(bytes, end),
    ensures
        valid_utf8(bytes.subrange(0, end)),
        is_char_boundary(bytes.subrange(0, end), at),
{
    valid_utf8_split(bytes, end);
    let prefix = bytes.subrange(0, end);
    if at == end {
        is_char_boundary_start_end_of_seq(prefix);
    } else {
        is_char_boundary_iff_not_is_continuation_byte(bytes, at);
        is_char_boundary_iff_not_is_continuation_byte(prefix, at);
    }
}

/// The bytes of two texts one after the other are the bytes of the joined text.
pub proof fn lemma_encode_concat(a: Seq<char>, b: Seq<char>)
    ensures
        encode_utf8(a + b) == encode_utf8(a) + encode_utf8(b),
    decreases a.len(),
{
    if a.len() == 0 {
        assert(a + b =~= b);
        assert(encode_utf8(a) + encode_utf8(b) =~= encode_utf8(b));
    } else {
        lemma_encode_concat(a.drop_first(), b);
        assert((a + b).drop_first() =~= a.drop_first() + b);
        assert(encode_utf8(a + b) =~= encode_utf8(a) + encode_utf8(b));
    }
}

/// The part of `text` between two character boundaries.
pub fn slice<'a>(text: &'a str, start: usize, end: usize) -> (part: &'a str)
    requires
        start <= end <= encode_utf8(text@).len(),
        is_char_boundary(encode_utf8(text@), start as int),
        is_char_boundary(encode_utf8(text@), end as int),
    ensures
        encode_utf8(part@) == encode_utf8(text@).subrange(start as int, end as int),
{
    proof {
        encode_utf8_valid_utf8(text@);
        lemma_boundary_of_prefix(encode_utf8(text@), start as int, end as int);
    }
    let (head, _) = text.split_at(end);
    let (_, part) = head.split_at(start);
    assert(encode_utf8(text@).subrange(0, end as int).subrange(start as int, end as int)
        =~= encode_utf8(text@).subrange(start as int, end as int));
    part
}

} // verus!
