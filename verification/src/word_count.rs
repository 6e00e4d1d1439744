//! Counting words in a text: all of them, or the occurrences of one.

use vstd::prelude::*;
use vstd::std_specs::iter::IteratorSpec;
use vstd::string::*;

verus! {

/// Whether `c` is white space: a character with the Unicode property
/// `White_Space`.
pub open spec fn is_space(c: char) -> bool {
    let n = c as u32;
    (9 <= n <= 13) || n == 32 || n == 0x85 || n == 0xA0 || n == 0x1680 || (0x2000 <= n <= 0x200A)
        || n == 0x2028 || n == 0x2029 || n == 0x202F || n == 0x205F || n == 0x3000
}

/// Whether `b` is ASCII white space: space, tab, line feed, form feed or
/// carriage return.
pub open spec fn is_ascii_space(b: u8) -> bool {
    b == 32 || b == 9 || b == 10 || b == 12 || b == 13
}

/// Whether a word starts at `text[i]`: a character that is no white space,
/// at the start of the text or behind white space.
pub open spec fn starts_word(text: Seq<char>, i: int) -> bool {
    !is_space(text[i]) && (i == 0 || is_space(text[i - 1]))
}

/// The number of words that start in the first `n` characters of `text`.
pub open spec fn word_starts(text: Seq<char>, n: nat) -> nat
    decreases n,
{
    if n == 0 {
        0
    } else {
        word_starts(text, (n - 1) as nat) + if starts_word(text, n - 1) {
            1nat
        } else {
            0nat
        }
    }
}

/// Whether `word` stands in `text` at offset `at`.
pub open spec fn occurs_at(text: Seq<u8>, word: Seq<u8>, at: int) -> bool {
    0 <= at && at + word.len() <= text.len() && text.subrange(at, at + word.len()) == word
}

/// Whether the occurrence of a word of `len` bytes at offset `at` counts:
/// it stands at the start of the text, or it has ASCII white space before
/// it and the end of the text or ASCII white space behind it.
pub open spec fn delimited(text: Seq<u8>, len: nat, at: int) -> bool {
    at == 0 || (is_ascii_space(text[at - 1]) && (at + len == text.len() || is_ascii_space(
        text[at + len],
    )))
}

/// The number of occurrences of `word` that count, among those found from
/// offset `from` on by taking the leftmost occurrence and going on behind
/// it.
pub open spec fn occurrences_from(text: Seq<u8>, word: Seq<u8>, from: int) -> nat
    decreases text.len() - from,
{
    if word.len() == 0 || from < 0 || from + word.len() > text.len() {
        0
    } else if occurs_at(text, word, from) {
        occurrences_from(text, word, from + word.len()) + if delimited(text, word.len(), from) {
            1nat
        } else {
            0nat
        }
    } else {
        occurrences_from(text, word, from + 1)
    }
}

/// The offset of the first space at or behind `from`, or the length of
/// `text` if there is none.
pub open spec fn next_space(text: Seq<u8>, from: int) -> int
    decreases text.len() - from,
{
    if from < 0 || from >= text.len() {
        text.len() as int
    } else if text[from] == 32 {
        from
    } else {
        next_space(text, from + 1)
    }
}

/// Where the chunk that starts at `start` ends, when `text` is cut into
/// `partitions` chunks: at the end of the text for the last chunk and for
/// one that would reach it, else at the first space that is at least the
/// `partitions`-th part of the text away.
#[verifier::opaque]
pub open spec fn end_index(text: Seq<u8>, i: int, start: int, partitions: int) -> int {
    let reach = start + text.len() / (partitions as nat);
    if reach >= text.len() || i == partitions - 1 {
        text.len() as int
    } else {
        next_space(text, reach)
    }
}

/// Whether `c` is white space.
pub fn is_whitespace(c: char) -> (space: bool)
    ensures
        space == is_space(c),
{
    let n: u32 = c as u32;
    (9 <= n && n <= 13) || n == 32 || n == 0x85 || n == 0xA0 || n == 0x1680 || (0x2000 <= n && n
        <= 0x200A) || n == 0x2028 || n == 0x2029 || n == 0x202F || n == 0x205F || n == 0x3000
}

/// Whether `b` is ASCII white space.
pub fn is_ascii_whitespace(b: u8) -> (space: bool)
    ensures
        space == is_ascii_space(b),
{
    b == 32 || b == 9 || b == 10 || b == 12 || b == 13
}

/// The number of words in `chunk`: the maximal runs of characters that are
/// no white space.
pub fn count_words_in_chunk(chunk: &str) -> (count: usize)
    ensures
        count == word_starts(chunk@, chunk@.len()),
{
    let total = chunk.unicode_len();
    let mut count: usize = 0;
    let mut seen: usize = 0;
    let mut in_word = false;
    let mut rest = chunk.chars();
    loop
        invariant
            total == chunk@.len(),
            seen <= total,
            count <= seen,
            rest.remaining() == chunk@.skip(seen as int),
            count == word_starts(chunk@, seen as nat),
            in_word == (seen > 0 && !is_space(chunk@[seen - 1])),
        decreases total - seen,
    {
        match rest.next() {
            None => {
                assert(seen == total);
                return count;
            },
            Some(c) => {
                assert(c == chunk@[seen as int]);
                assert(rest.remaining() =~= chunk@.skip(seen + 1));
                if is_whitespace(c) {
                    in_word = false;
                } else {
                    if !in_word {
                        count += 1;
                        in_word = true;
                    }
                }
                seen += 1;
            },
        }
    }
}

/// Whether `word` stands in `text` at offset `at`.
fn matches_at(text: &[u8], word: &[u8], at: usize) -> (found: bool)
    requires
        at + word@.len() <= text@.len(),
    ensures
        found == occurs_at(text@, word@, at as int),
{
    let total = text.len();
    let mut i: usize = 0;
    while i < word.len()
        invariant
            i <= word@.len(),
            total == text@.len(),
            at + word@.len() <= text@.len(),
            forall|j: int| 0 <= j < i ==> text@[at + j] == word@[j],
        decreases word.len() - i,
    {
        if text[at + i] != word[i] {
            assert(text@.subrange(at as int, at + word@.len())[i as int] != word@[i as int]);
            return false;
        }
        i += 1;
    }
    assert(text@.subrange(at as int, at + word@.len()) =~= word@);
    true
}

/// The number of occurrences of `word` in `chunk` that count as a word of
/// their own. Occurrences are found from left to right, each search going
/// on behind the last occurrence found.
pub fn count_word_occurrences_in_chunk(chunk: &str, word: &str) -> (count: usize)
    requires
        word@.len() > 0,
    ensures
        count == occurrences_from(chunk.spec_bytes(), word.spec_bytes(), 0),
{
    let text = chunk.as_bytes();
    let pattern = word.as_bytes();
    let width = pattern.len();
    if width == 0 || width > text.len() {
        return 0;
    }
    let last = text.len() - width;
    let mut count: usize = 0;
    let mut at: usize = 0;
    while at <= last
        invariant
            width == pattern@.len(),
            width > 0,
            last + width == text@.len(),
            text@.len() <= usize::MAX,
            count <= at,
            at <= text@.len(),
            count + occurrences_from(text@, pattern@, at as int) == occurrences_from(
                text@,
                pattern@,
                0,
            ),
        decreases text@.len() - at,
    {
        if matches_at(text, pattern, at) {
            let end = at + width;
            if at == 0 || (is_ascii_whitespace(text[at - 1]) && (end == text.len()
                || is_ascii_whitespace(text[end]))) {
                count += 1;
            }
            at = end;
        } else {
            at += 1;
        }
    }
    count
}

/// The number of words in `text`.
pub fn count_words(text: &str) -> (count: usize)
    ensures
        count == word_starts(text@, text@.len()),
{
    count_words_in_chunk(text)
}

/// The number of occurrences of `word` in `text` that count as a word of
/// their own.
pub fn count_word_occurrences(text: &str, word: String) -> (count: usize)
    requires
        word@.len() > 0,
    ensures
        count == occurrences_from(text.spec_bytes(), vstd::utf8::encode_utf8(word@), 0),
{
    count_word_occurrences_in_chunk(text, word.as_str())
}

/// Where the chunk number `i` that starts at `start_index` ends, when
/// `text` is cut into `partitions` chunks.
pub fn get_end_index(text: &str, i: usize, start_index: usize, partitions: usize) -> (end: usize)
    requires
        partitions > 0,
        start_index + text.spec_bytes().len() / (partitions as nat) <= usize::MAX,
    ensures
        end == end_index(text.spec_bytes(), i as int, start_index as int, partitions as int),
        end <= text.spec_bytes().len(),
        start_index <= end || end == text.spec_bytes().len(),
{
    reveal(end_index);
    let bytes = text.as_bytes();
    let chunk_size = bytes.len() / partitions;
    let mut end: usize = start_index + chunk_size;
    if end >= bytes.len() || i == partitions - 1 {
        return bytes.len();
    }
    let ghost reach = end as int;
    while end < bytes.len() && bytes[end] != 32
        invariant
            reach <= end <= bytes@.len(),
            next_space(bytes@, end as int) == next_space(bytes@, reach),
        decreases bytes@.len() - end,
    {
        end += 1;
    }
    end
}

/// The chunks that `text` is cut into, each as the offsets of its first
/// byte and of the byte behind its last: chunk number `i` starts at the
/// start of the text, or one byte behind the end of the chunk before it,
/// and is left out if it would start behind the text.
pub fn get_chunks(text: &str, partitions: usize) -> (chunks: Vec<(usize, usize)>)
    requires
        partitions > 0,
        text.spec_bytes().len() < usize::MAX / 2,
    ensures
        chunks@.len() <= partitions,
        forall|k: int|
            0 <= k < chunks@.len() ==> (#[trigger] chunks@[k]).0 < text.spec_bytes().len()
                && chunks@[k].0 <= chunks@[k].1 <= text.spec_bytes().len(),
        forall|k: int|
            0 <= k < chunks@.len() ==> (#[trigger] chunks@[k]).1 == end_index(
                text.spec_bytes(),
                k,
                chunks@[k].0 as int,
                partitions as int,
            ),
        chunks@.len() > 0 ==> chunks@[0].0 == 0,
        forall|k: int| 0 < k < chunks@.len() ==> (#[trigger] chunks@[k]).0 == chunks@[k - 1].1 + 1,
        chunks@.len() == 0 ==> text.spec_bytes().len() == 0,
        0 < chunks@.len() < partitions ==> chunks@[chunks@.len() - 1].1 + 1
            >= text.spec_bytes().len(),
{
    let len = text.as_bytes().len();
    let mut end: usize = 0;
    let mut chunks: Vec<(usize, usize)> = Vec::new();
    let mut i: usize = 0;
    while i < partitions
        invariant
            partitions > 0,
            len == text.spec_bytes().len(),
            len < usize::MAX / 2,
            i <= partitions,
            end <= len,
            chunks@.len() <= i,
            chunks@.len() < i ==> end == len,
            i > 0 && chunks@.len() == 0 ==> len == 0,
            0 < chunks@.len() < i ==> chunks@[chunks@.len() - 1].1 + 1 >= len,
            chunks@.len() == i && i > 0 ==> chunks@[i - 1].1 == end,
            forall|k: int|
                0 <= k < chunks@.len() ==> (#[trigger] chunks@[k]).0 < len && chunks@[k].0
                    <= chunks@[k].1 <= len,
            forall|k: int|
                0 <= k < chunks@.len() ==> (#[trigger] chunks@[k]).1 == end_index(
                    text.spec_bytes(),
                    k,
                    chunks@[k].0 as int,
                    partitions as int,
                ),
            chunks@.len() > 0 ==> chunks@[0].0 == 0,
            forall|k: int|
                0 < k < chunks@.len() ==> (#[trigger] chunks@[k]).0 == chunks@[k - 1].1 + 1,
        decreases partitions - i,
    {
        let start: usize = if i == 0 {
            0
        } else {
            end + 1
        };
        assert((len as nat) / (partitions as nat) <= len) by (nonlinear_arith)
            requires
                partitions > 0,
        ;
        end = get_end_index(text, i, start, partitions);
        if start < len {
            let ghost before = chunks@;
            chunks.push((start, end));
            assert(forall|k: int| 0 <= k < before.len() ==> chunks@[k] == before[k]);
            assert(before.len() == i);
            assert(chunks@[i as int] == (start, end));
        }
        i += 1;
    }
    chunks
}

} // verus!
