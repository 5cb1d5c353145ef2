//! Splitting text into words.

use vstd::prelude::*;
use vstd::string::*;

verus! {

/// `c` is white space.
pub open spec fn white_space(c: char) -> bool {
    ||| '\u{9}' <= c <= '\u{d}'
    ||| c == ' '
    ||| c == '\u{85}'
    ||| c == '\u{a0}'
    ||| c == '\u{1680}'
    ||| '\u{2000}' <= c <= '\u{200a}'
    ||| c == '\u{2028}'
    ||| c == '\u{2029}'
    ||| c == '\u{202f}'
    ||| c == '\u{205f}'
    ||| c == '\u{3000}'
}

/// The words of a text. A character that is not white space continues the word before it; it
/// begins a new one at the start and after white space.
pub open spec fn words(text: Seq<char>) -> Seq<Seq<char>>
    decreases text.len(),
{
    if text.len() == 0 {
        seq![]
    } else {
        let before = words(text.drop_last());
        if white_space(text.last()) {
            before
        } else if text.len() == 1 || white_space(text[text.len() - 2]) {
            before.push(seq![text.last()])
        } else {
            before.drop_last().push(before.last().push(text.last()))
        }
    }
}

/// The characters of each text in a list.
pub open spec fn chars_of(texts: Seq<String>) -> Seq<Seq<char>> {
    texts.map_values(|t: String| t@)
}

/// Whether `c` is white space.
pub fn is_white_space(c: char) -> (r: bool)
    ensures
        r == white_space(c),
{
    ('\u{9}' <= c && c <= '\u{d}') || c == ' ' || c == '\u{85}' || c == '\u{a0}' || c == '\u{1680}'
        || ('\u{2000}' <= c && c <= '\u{200a}') || c == '\u{2028}' || c == '\u{2029}' || c
        == '\u{202f}' || c == '\u{205f}' || c == '\u{3000}'
}

/// The words before a word that runs from `start` to the end, and that word.
proof fn lemma_word_at_end(text: Seq<char>, start: int)
    requires
        0 <= start < text.len(),
        start == 0 || white_space(text[start - 1]),
        forall|i: int| start <= i < text.len() ==> !white_space(#[trigger] text[i]),
    ensures
        words(text) == words(text.take(start)).push(text.subrange(start, text.len() as int)),
    decreases text.len(),
{
    let n = text.len() as int;
    assert(!white_space(text[n - 1]));
    if start == n - 1 {
        assert(text.drop_last() =~= text.take(start));
        assert(text.subrange(start, n) =~= seq![text.last()]);
    } else {
        let rest = text.drop_last();
        assert forall|i: int| start <= i < rest.len() implies !white_space(#[trigger] rest[i]) by {
            assert(rest[i] == text[i]);
        }
        assert(start == 0 || rest[start - 1] == text[start - 1]);
        lemma_word_at_end(rest, start);
        assert(!white_space(text[n - 2]));
        assert(rest.take(start) =~= text.take(start));
        let before = words(rest);
        assert(before.drop_last() =~= words(text.take(start)));
        assert(before.last().push(text.last()) =~= text.subrange(start, n));
    }
}

/// Splits a text into its words.
pub fn split_words(text: &str) -> (r: Vec<String>)
    ensures
        chars_of(r@) == words(text@),
{
    let n: usize = text.unicode_len();
    let mut r: Vec<String> = Vec::new();
    let mut start: usize = 0;
    let mut i: usize = 0;
    let mut chars: Vec<char> = Vec::new();
    for c in it: text.chars()
        invariant
            chars@ == it.seq().take(it.index() as int),
            it.seq() == text@,
    {
        chars.push(c);
        assert(chars@ =~= it.seq().take(it.index() + 1));
    }
    assert(chars@ =~= text@);
    assert(chars_of(r@) =~= words(text@.take(0)));
    while i < n
        invariant
            start <= i <= n == text@.len(),
            chars@ == text@,
            start == 0 || white_space(text@[start - 1]),
            forall|j: int| start <= j < i ==> !white_space(#[trigger] text@[j]),
            chars_of(r@) == words(text@.take(start as int)),
        decreases n - i,
    {
        if is_white_space(chars[i]) {
            let ghost done = text@.take(i as int);
            let ghost next = text@.take(i + 1);
            assert(next.drop_last() =~= done);
            if start < i {
                let ghost before = r@;
                r.push(text.substring_char(start, i).to_owned());
                proof {
                    assert forall|j: int| start <= j < done.len() implies !white_space(
                        #[trigger] done[j],
                    ) by {
                        assert(done[j] == text@[j]);
                    }
                    lemma_word_at_end(done, start as int);
                    assert(done.take(start as int) =~= text@.take(start as int));
                    assert(done.subrange(start as int, i as int) =~= text@.subrange(
                        start as int,
                        i as int,
                    ));
                    assert(chars_of(r@) =~= chars_of(before).push(
                        text@.subrange(start as int, i as int),
                    ));
                }
            }
            start = i + 1;
        }
        i += 1;
    }
    if start < n {
        let ghost before = r@;
        r.push(text.substring_char(start, n).to_owned());
        proof {
            lemma_word_at_end(text@, start as int);
            assert(chars_of(r@) =~= chars_of(before).push(text@.subrange(start as int, n as int)));
        }
    } else {
        assert(text@.take(start as int) =~= text@);
    }
    r
}

/// A word is never empty and holds no white space.
pub proof fn law_words_hold_no_space(text: Seq<char>)
    ensures
        forall|i: int| 0 <= i < words(text).len() ==> (#[trigger] words(text)[i]).len() > 0,
        forall|i: int, j: int|
            0 <= i < words(text).len() && 0 <= j < words(text)[i].len() ==> !white_space(
                #[trigger] words(text)[i][j],
            ),
        text.len() > 0 && !white_space(text.last()) ==> words(text).len() > 0,
    decreases text.len(),
{
    if text.len() > 0 {
        let before = words(text.drop_last());
        law_words_hold_no_space(text.drop_last());
        if text.len() > 1 {
            assert(text.drop_last().last() == text[text.len() - 2]);
        }
        assert forall|i: int| 0 <= i < words(text).len() implies (#[trigger] words(text)[i]).len()
            > 0 by {
            if i < before.len() {
                assert(before[i].len() > 0);
            }
        }
        assert forall|i: int, j: int|
            0 <= i < words(text).len() && 0 <= j < words(text)[i].len() implies !white_space(
            #[trigger] words(text)[i][j],
        ) by {
            if i < before.len() && j < before[i].len() {
                assert(!white_space(before[i][j]));
            }
        }
    }
}

/// Joined, the words are the text without its white space.
pub proof fn law_words_joined(text: Seq<char>)
    ensures
        words(text).flatten() == text.filter(|c: char| !white_space(c)),
    decreases text.len(),
{
    let kept = |c: char| !white_space(c);
    reveal(Seq::filter);
    if text.len() > 0 {
        law_words_joined(text.drop_last());
        law_words_hold_no_space(text.drop_last());
        let before = words(text.drop_last());
        before.lemma_flatten_and_flatten_alt_are_equivalent();
        words(text).lemma_flatten_and_flatten_alt_are_equivalent();
        if !white_space(text.last()) {
            if text.len() == 1 || white_space(text[text.len() - 2]) {
                assert(words(text).drop_last() =~= before);
                assert(before.flatten_alt() + seq![text.last()] =~= before.flatten_alt().push(
                    text.last(),
                ));
            } else {
                assert(text.drop_last().last() == text[text.len() - 2]);
                assert(words(text).drop_last() =~= before.drop_last());
                let front = before.drop_last().flatten_alt();
                assert(before.flatten_alt() == front + before.last());
                assert(front + before.last().push(text.last()) =~= (front + before.last()).push(
                    text.last(),
                ));
            }
        }
    } else {
        assert(words(text).flatten() =~= Seq::<char>::empty());
        assert(text.filter(kept) =~= Seq::<char>::empty());
    }
}

/// Words, each behind its gap.
pub open spec fn spaced(gaps: Seq<Seq<char>>, list: Seq<Seq<char>>) -> Seq<char>
    decreases list.len(),
{
    if list.len() == 0 {
        seq![]
    } else {
        spaced(gaps, list.drop_last()) + gaps[list.len() - 1] + list.last()
    }
}

/// The numbers of the characters that are white space: the ASCII controls from the tab to the
/// carriage return, the space, and the other spaces and ends of lines of Unicode.
pub open spec fn is_blank_number(n: int) -> bool {
    ||| 9 <= n <= 13
    ||| n == 32
    ||| n == 133
    ||| n == 160
    ||| n == 5760
    ||| 8192 <= n <= 8202
    ||| n == 8232
    ||| n == 8233
    ||| n == 8239
    ||| n == 8287
    ||| n == 12288
}

/// White space.
pub open spec fn is_gap(gap: Seq<char>) -> bool {
    forall|i: int| 0 <= i < gap.len() ==> is_blank_number(#[trigger] gap[i] as int)
}

/// Characters that are not white space, and at least one.
pub open spec fn is_visible(word: Seq<char>) -> bool {
    word.len() > 0 && forall|i: int|
        0 <= i < word.len() ==> !is_blank_number(#[trigger] word[i] as int)
}

/// White space at the end adds no word.
proof fn lemma_words_before_gap(text: Seq<char>, gap: Seq<char>)
    requires
        is_gap(gap),
    ensures
        words(text + gap) == words(text),
    decreases gap.len(),
{
    if gap.len() == 0 {
        assert(text + gap =~= text);
    } else {
        assert forall|i: int| 0 <= i < gap.drop_last().len() implies is_blank_number(
            #[trigger] gap.drop_last()[i] as int,
        ) by {
            assert(is_blank_number(gap[i] as int));
        }
        assert(is_blank_number(gap[gap.len() - 1] as int));
        lemma_words_before_gap(text, gap.drop_last());
        assert((text + gap).drop_last() =~= text + gap.drop_last());
        assert((text + gap).last() == gap[gap.len() - 1]);
    }
}

/// Words that are written with white space between them are read as these words, and no others.
pub proof fn law_words_are_read_back(
    gaps: Seq<Seq<char>>,
    list: Seq<Seq<char>>,
    end: Seq<char>,
)
    requires
        gaps.len() == list.len(),
        forall|i: int| 0 <= i < gaps.len() ==> is_gap(#[trigger] gaps[i]),
        forall|i: int| 0 < i < gaps.len() ==> (#[trigger] gaps[i]).len() > 0,
        forall|i: int| 0 <= i < list.len() ==> is_visible(#[trigger] list[i]),
        is_gap(end),
    ensures
        words(spaced(gaps, list) + end) == list,
{
    lemma_words_before_gap(spaced(gaps, list), end);
    lemma_words_spaced(gaps, list);
}

proof fn lemma_words_spaced(gaps: Seq<Seq<char>>, list: Seq<Seq<char>>)
    requires
        list.len() <= gaps.len(),
        forall|i: int| 0 <= i < gaps.len() ==> is_gap(#[trigger] gaps[i]),
        forall|i: int| 0 < i < gaps.len() ==> (#[trigger] gaps[i]).len() > 0,
        forall|i: int| 0 <= i < list.len() ==> is_visible(#[trigger] list[i]),
    ensures
        words(spaced(gaps, list)) == list,
    decreases list.len(),
{
    if list.len() > 0 {
        let n = list.len() - 1;
        let front = list.drop_last();
        assert forall|i: int| 0 <= i < front.len() implies is_visible(#[trigger] front[i]) by {
            assert(is_visible(list[i]));
        }
        lemma_words_spaced(gaps, front);
        let before = spaced(gaps, front);
        let (gap, word) = (gaps[n], list[n]);
        assert(is_gap(gap) && is_visible(word));
        lemma_words_before_gap(before, gap);
        let text = before + gap + word;
        let start = (before + gap).len() as int;
        assert forall|i: int| start <= i < text.len() implies !white_space(#[trigger] text[i]) by {
            assert(text[i] == word[i - start]);
        }
        if start > 0 {
            if gap.len() > 0 {
                assert(text[start - 1] == gap[gap.len() - 1]);
            } else {
                assert(n == 0);
                assert(before =~= seq![]);
            }
        }
        lemma_word_at_end(text, start);
        assert(text.take(start) =~= before + gap);
        assert(text.subrange(start, text.len() as int) =~= word);
        assert(front.push(word) =~= list);
    } else {
        assert(spaced(gaps, list) =~= seq![]);
        assert(list =~= seq![]);
    }
}

} // verus!
