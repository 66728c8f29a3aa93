//! Lines and their words.
use vstd::prelude::*;

verus! {

/// Whether `c` is white space, as the standard library judges it.
pub uninterp spec fn is_white_space(c: char) -> bool;

/// Calls `char::is_whitespace`, which tells whether Unicode counts a
/// character as white space (`White_Space`). The answer depends on the
/// character alone; the contract gives it the name [`is_white_space`] and
/// claims nothing else of it.
#[verifier::external_body]
fn char_is_whitespace(c: char) -> (b: bool)
    ensures
        b == is_white_space(c),
{
    c.is_whitespace()
}

/// The characters of `s`, one by one.
pub fn to_chars(s: &str) -> (chars: Vec<char>)
    ensures
        chars@ == s@,
{
    let mut chars: Vec<char> = Vec::new();
    for c in it: s.chars()
        invariant
            chars@ == it.seq().take(it.index() as int),
            it.seq() == s@,
    {
        chars.push(c);
    }
    chars
}

/// A line is blank when it holds nothing but white space.
pub open spec fn is_blank(line: Seq<char>) -> bool {
    forall|i: int| 0 <= i < line.len() ==> is_white_space(#[trigger] line[i])
}

/// Where the word that starts at `from` ends: the first position from there
/// on that holds white space, or the end of the line.
pub open spec fn word_end(line: Seq<char>, from: int) -> int
    decreases line.len() - from,
{
    if 0 <= from < line.len() && !is_white_space(line[from]) {
        word_end(line, from + 1)
    } else {
        from
    }
}

/// The words of `line` that start at or after `from`: the maximal runs of
/// characters that are not white space, in the order in which they stand.
pub open spec fn words_from(line: Seq<char>, from: int) -> Seq<Seq<char>>
    decreases line.len() - from,
{
    if from < 0 || from >= line.len() {
        Seq::empty()
    } else if is_white_space(line[from]) {
        words_from(line, from + 1)
    } else {
        proof {
            lemma_word_end(line, from);
        }
        seq![line.subrange(from, word_end(line, from))] + words_from(line, word_end(line, from))
    }
}

/// The words of a line.
pub open spec fn words(line: Seq<char>) -> Seq<Seq<char>> {
    words_from(line, 0)
}

/// The texts of a sequence of strings.
pub open spec fn texts(strings: Seq<String>) -> Seq<Seq<char>> {
    strings.map_values(|s: String| s@)
}

/// A word runs up to the first white space after its start, and no further:
/// every character in it is no white space, and it ends at the end of the
/// line or before a white space.
pub proof fn lemma_word_end(line: Seq<char>, from: int)
    requires
        0 <= from <= line.len(),
    ensures
        from <= word_end(line, from) <= line.len(),
        from < line.len() && !is_white_space(line[from]) ==> from < word_end(line, from),
        forall|k: int| from <= k < word_end(line, from) ==> !is_white_space(#[trigger] line[k]),
        word_end(line, from) < line.len() ==> is_white_space(line[word_end(line, from)]),
    decreases line.len() - from,
{
    if from < line.len() && !is_white_space(line[from]) {
        lemma_word_end(line, from + 1);
    }
}

/// A word is not empty and holds no white space.
pub open spec fn is_word(word: Seq<char>) -> bool {
    &&& word.len() > 0
    &&& forall|j: int| 0 <= j < word.len() ==> !is_white_space(#[trigger] word[j])
}

/// Every word of a line is a word.
pub proof fn lemma_words_are_words(line: Seq<char>, from: int)
    requires
        0 <= from <= line.len(),
    ensures
        forall|i: int|
            0 <= i < words_from(line, from).len() ==> is_word(#[trigger] words_from(line, from)[i]),
    decreases line.len() - from,
{
    if from < line.len() {
        if is_white_space(line[from]) {
            lemma_words_are_words(line, from + 1);
            assert(words_from(line, from) == words_from(line, from + 1));
        } else {
            let end = word_end(line, from);
            lemma_word_end(line, from);
            lemma_words_are_words(line, end);
            let first = line.subrange(from, end);
            assert(words_from(line, from) == seq![first] + words_from(line, end));
            assert(is_word(first)) by {
                assert forall|j: int| 0 <= j < first.len() implies !is_white_space(
                    #[trigger] first[j],
                ) by {
                    assert(first[j] == line[from + j]);
                }
            }
            assert forall|i: int| 0 <= i < words_from(line, from).len() implies is_word(
                #[trigger] words_from(line, from)[i],
            ) by {
                if i > 0 {
                    assert(words_from(line, from)[i] == words_from(line, end)[i - 1]);
                }
            }
        }
    } else {
        assert(words_from(line, from).len() == 0);
    }
}

/// A line is blank exactly when it has no words.
pub proof fn lemma_blank_has_no_words(line: Seq<char>)
    ensures
        is_blank(line) <==> words(line).len() == 0,
{
    lemma_words_from_blank(line, 0);
}

proof fn lemma_words_from_blank(line: Seq<char>, from: int)
    requires
        0 <= from <= line.len(),
    ensures
        (forall|i: int| from <= i < line.len() ==> is_white_space(#[trigger] line[i]))
            <==> words_from(line, from).len() == 0,
    decreases line.len() - from,
{
    if from < line.len() {
        lemma_words_from_blank(line, from + 1);
        if !is_white_space(line[from]) {
            lemma_word_end(line, from);
        }
    }
}

/// Whether `line` holds nothing but white space.
pub fn is_blank_line(line: &str) -> (b: bool)
    ensures
        b == is_blank(line@),
{
    let chars = to_chars(line);
    let mut i: usize = 0;
    while i < chars.len()
        invariant
            i <= chars.len(),
            chars@ == line@,
            forall|k: int| 0 <= k < i ==> is_white_space(#[trigger] line@[k]),
        decreases chars.len() - i,
    {
        if !char_is_whitespace(chars[i]) {
            return false;
        }
        i += 1;
    }
    true
}

/// Splits a line at white space into its words.
pub fn split_words(line: &str) -> (out: Vec<String>)
    ensures
        texts(out@) == words(line@),
{
    let chars = to_chars(line);
    let n: usize = chars.len();
    let mut out: Vec<String> = Vec::new();
    let mut i: usize = 0;
    while i < n
        invariant
            i <= n,
            n == chars.len(),
            chars@ == line@,
            texts(out@) + words_from(line@, i as int) == words(line@),
        decreases n - i,
    {
        if char_is_whitespace(chars[i]) {
            i += 1;
        } else {
            let start: usize = i;
            let mut end: usize = i + 1;
            while end < n && !char_is_whitespace(chars[end])
                invariant
                    start < end <= n,
                    n == chars.len(),
                    chars@ == line@,
                    !is_white_space(line@[start as int]),
                    word_end(line@, start as int) == word_end(line@, end as int),
                decreases n - end,
            {
                end += 1;
            }
            let word = line.substring_char(start, end).to_owned();
            proof {
                assert(texts(out@.push(word)) =~= texts(out@).push(word@));
                assert(texts(out@).push(word@) + words_from(line@, end as int) =~= texts(out@) + (
                seq![word@] + words_from(line@, end as int)));
            }
            out.push(word);
            i = end;
        }
    }
    out
}

} // verus!
