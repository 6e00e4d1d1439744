//! An index of the words of a text: for each word, in lower case, the lines
//! that hold it.

use crate::layout::texts;
use crate::word_count::{is_space, is_whitespace};
use vstd::prelude::*;
use vstd::std_specs::iter::IteratorSpec;
use vstd::string::*;

verus! {

/// The lower-case form of `text`, as `str::to_lowercase` gives it.
pub uninterp spec fn lowercase(text: Seq<char>) -> Seq<char>;

/// Calls `str::to_lowercase`. The contract names the result, which depends
/// on the text alone.
#[verifier::external_body]
fn to_lowercase(text: &str) -> (lower: String)
    ensures
        lower@ == lowercase(text@),
{
    text.to_lowercase()
}

/// `line` without the carriage return at its end, if it has one.
pub open spec fn strip_cr(line: Seq<char>) -> Seq<char> {
    if line.len() > 0 && line.last() == '\r' {
        line.drop_last()
    } else {
        line
    }
}

/// The lines of `text` from offset `at` on, where a line began at offset
/// `from` and holds no line feed up to `at`.
pub open spec fn lines_from(text: Seq<char>, at: int, from: int) -> Seq<Seq<char>>
    decreases text.len() - at,
{
    if at < 0 || at >= text.len() {
        if from < text.len() {
            seq![text.subrange(from, text.len() as int)]
        } else {
            Seq::empty()
        }
    } else if text[at] == '\n' {
        seq![strip_cr(text.subrange(from, at))] + lines_from(text, at + 1, at + 1)
    } else {
        lines_from(text, at + 1, from)
    }
}

/// The lines of `text`: what stands between line feeds, without the line
/// feed and without a carriage return before it. A line feed at the end of
/// the text begins no further line.
pub open spec fn lines_of(text: Seq<char>) -> Seq<Seq<char>> {
    lines_from(text, 0, 0)
}

/// The words of `line` from offset `at` on, where the word that holds
/// `line[at - 1]` began at offset `began`, or `began` is -1 if there is none.
pub open spec fn words_from(line: Seq<char>, at: int, began: int) -> Seq<Seq<char>>
    decreases line.len() - at,
{
    if at < 0 || at >= line.len() {
        if began >= 0 {
            seq![line.subrange(began, line.len() as int)]
        } else {
            Seq::empty()
        }
    } else if is_space(line[at]) {
        if began >= 0 {
            seq![line.subrange(began, at)] + words_from(line, at + 1, -1)
        } else {
            words_from(line, at + 1, -1)
        }
    } else {
        words_from(
            line,
            at + 1,
            if began >= 0 {
                began
            } else {
                at
            },
        )
    }
}

/// The words of `line`: its maximal runs of characters that are no white
/// space, in order.
pub open spec fn words_of(line: Seq<char>) -> Seq<Seq<char>> {
    words_from(line, 0, -1)
}

/// The first `n` of `words` without repetitions, each at its first place.
pub open spec fn distinct(words: Seq<Seq<char>>, n: nat) -> Seq<Seq<char>>
    decreases n,
{
    if n == 0 {
        Seq::empty()
    } else {
        let before = distinct(words, (n - 1) as nat);
        if before.contains(words[n - 1]) {
            before
        } else {
            before.push(words[n - 1])
        }
    }
}

/// The entries of one line: each of its distinct words with the line's
/// number.
pub open spec fn line_entries(line: Seq<char>, number: usize) -> Seq<(Seq<char>, usize)> {
    let words = distinct(words_of(line), words_of(line).len());
    Seq::new(words.len(), |k: int| (words[k], number))
}

/// The entries of the first `n` of `lines`, line by line; lines are
/// numbered from 1.
pub open spec fn entries_of(lines: Seq<Seq<char>>, n: nat) -> Seq<(Seq<char>, usize)>
    decreases n,
{
    if n == 0 {
        Seq::empty()
    } else {
        entries_of(lines, (n - 1) as nat) + line_entries(lines[n - 1], n as usize)
    }
}

/// The line numbers that the first `n` of `entries` give for `word`, in
/// order.
pub open spec fn lines_with(entries: Seq<(Seq<char>, usize)>, word: Seq<char>, n: nat) -> Seq<
    usize,
>
    decreases n,
{
    if n == 0 {
        Seq::empty()
    } else if entries[n - 1].0 == word {
        lines_with(entries, word, (n - 1) as nat).push(entries[n - 1].1)
    } else {
        lines_with(entries, word, (n - 1) as nat)
    }
}

/// The line numbers that the entries of the first `n` of `lines` give for
/// `word`.
pub open spec fn lines_holding(lines: Seq<Seq<char>>, word: Seq<char>, n: nat) -> Seq<usize> {
    lines_with(entries_of(lines, n), word, entries_of(lines, n).len())
}

proof fn lemma_distinct(words: Seq<Seq<char>>, n: nat)
    requires
        n <= words.len(),
    ensures
        forall|w: Seq<char>|
            #[trigger] distinct(words, n).contains(w) <==> words.take(n as int).contains(w),
        distinct(words, n).no_duplicates(),
    decreases n,
{
    if n > 0 {
        lemma_distinct(words, (n - 1) as nat);
        let before = distinct(words, (n - 1) as nat);
        let last = words[n - 1];
        let shorter = words.take(n - 1);
        let whole = words.take(n as int);
        let after = distinct(words, n);
        assert(whole =~= shorter.push(last));
        assert(shorter.contains(last) ==> before.contains(last));
        assert forall|w: Seq<char>| #[trigger] after.contains(w) <==> whole.contains(w) by {
            if after.contains(w) {
                let j = choose|j: int| 0 <= j < after.len() && after[j] == w;
                if j < before.len() {
                    assert(before[j] == w);
                    assert(before.contains(w));
                    assert(shorter.contains(w));
                    let k = choose|k: int| 0 <= k < shorter.len() && shorter[k] == w;
                    assert(whole[k] == w);
                } else {
                    assert(w == last);
                    assert(whole[n - 1] == w);
                }
            }
            if whole.contains(w) {
                let j = choose|j: int| 0 <= j < whole.len() && whole[j] == w;
                if j < n - 1 {
                    assert(shorter[j] == w);
                    assert(shorter.contains(w));
                    assert(before.contains(w));
                    let k = choose|k: int| 0 <= k < before.len() && before[k] == w;
                    assert(after[k] == w);
                } else {
                    assert(w == last);
                    if before.contains(last) {
                    } else {
                        assert(after[before.len() as int] == w);
                    }
                }
            }
        }
    }
}

proof fn lemma_lines_with_joined(
    first: Seq<(Seq<char>, usize)>,
    second: Seq<(Seq<char>, usize)>,
    word: Seq<char>,
    m: nat,
)
    requires
        m <= second.len(),
    ensures
        lines_with(first + second, word, first.len() + m) == lines_with(
            first,
            word,
            first.len(),
        ) + lines_with(second, word, m),
    decreases m,
{
    if m == 0 {
        lemma_lines_with_prefix(first, second, word, first.len());
        assert(lines_with(first, word, first.len()) + Seq::<usize>::empty() =~= lines_with(
            first,
            word,
            first.len(),
        ));
    } else {
        lemma_lines_with_joined(first, second, word, (m - 1) as nat);
        assert((first + second)[first.len() + m - 1] == second[m - 1]);
        assert(lines_with(first, word, first.len()) + lines_with(second, word, m) =~= lines_with(
            first + second,
            word,
            first.len() + m,
        ));
    }
}

proof fn lemma_lines_with_prefix(
    first: Seq<(Seq<char>, usize)>,
    second: Seq<(Seq<char>, usize)>,
    word: Seq<char>,
    k: nat,
)
    requires
        k <= first.len(),
    ensures
        lines_with(first + second, word, k) == lines_with(first, word, k),
    decreases k,
{
    if k > 0 {
        lemma_lines_with_prefix(first, second, word, (k - 1) as nat);
        assert((first + second)[k - 1] == first[k - 1]);
    }
}

proof fn lemma_line_entries(line: Seq<char>, number: usize, word: Seq<char>, k: nat)
    requires
        k <= line_entries(line, number).len(),
    ensures
        lines_with(line_entries(line, number), word, k) == if distinct(
            words_of(line),
            words_of(line).len(),
        ).take(k as int).contains(word) {
            seq![number]
        } else {
            Seq::<usize>::empty()
        },
    decreases k,
{
    let kept = distinct(words_of(line), words_of(line).len());
    lemma_distinct(words_of(line), words_of(line).len());
    if k > 0 {
        lemma_line_entries(line, number, word, (k - 1) as nat);
        let shorter = kept.take(k - 1);
        let longer = kept.take(k as int);
        assert(longer =~= shorter.push(kept[k - 1]));
        if kept[k - 1] == word {
            assert(longer[k - 1] == word);
            if shorter.contains(word) {
                let j = choose|j: int| 0 <= j < shorter.len() && shorter[j] == word;
                assert(kept[j] == kept[k - 1]);
            }
            assert(Seq::<usize>::empty().push(number) =~= seq![number]);
        } else {
            if longer.contains(word) {
                let j = choose|j: int| 0 <= j < longer.len() && longer[j] == word;
                assert(shorter[j] == word);
            }
            if shorter.contains(word) {
                let j = choose|j: int| 0 <= j < shorter.len() && shorter[j] == word;
                assert(longer[j] == word);
            }
        }
    }
}

/// The line numbers that an index gives for a word are exactly the numbers
/// of the lines that hold the word, each once and in rising order.
pub proof fn lemma_index_lists_each_line_once(lines: Seq<Seq<char>>, word: Seq<char>, n: nat)
    requires
        n <= lines.len(),
        n <= usize::MAX,
    ensures
        forall|number: usize|
            #[trigger] lines_holding(lines, word, n).contains(number) <==> 1 <= number <= n
                && words_of(lines[number - 1]).contains(word),
        forall|i: int, j: int|
            0 <= i < j < lines_holding(lines, word, n).len() ==> lines_holding(lines, word, n)[i]
                < lines_holding(lines, word, n)[j],
    decreases n,
{
    if n > 0 {
        lemma_index_lists_each_line_once(lines, word, (n - 1) as nat);
        let before = entries_of(lines, (n - 1) as nat);
        let line = lines[n - 1];
        let added = line_entries(line, n as usize);
        let kept = distinct(words_of(line), words_of(line).len());
        lemma_lines_with_joined(before, added, word, added.len());
        lemma_line_entries(line, n as usize, word, added.len());
        lemma_distinct(words_of(line), words_of(line).len());
        assert(kept.take(kept.len() as int) =~= kept);
        assert(words_of(line).take(words_of(line).len() as int) =~= words_of(line));
        let earlier = lines_holding(lines, word, (n - 1) as nat);
        let found = lines_holding(lines, word, n);
        if words_of(line).contains(word) {
            assert(found =~= earlier + seq![n as usize]);
            assert(found[earlier.len() as int] == n);
            assert forall|number: usize| #[trigger]
                found.contains(number) <==> 1 <= number <= n && words_of(
                    lines[number - 1],
                ).contains(word) by {
                if found.contains(number) {
                    let j = choose|j: int| 0 <= j < found.len() && found[j] == number;
                    if j < earlier.len() {
                        assert(earlier[j] == number);
                        assert(earlier.contains(number));
                    }
                }
                if 1 <= number <= n && words_of(lines[number - 1]).contains(word) {
                    if number < n {
                        assert(earlier.contains(number));
                        let j = choose|j: int| 0 <= j < earlier.len() && earlier[j] == number;
                        assert(found[j] == number);
                    }
                }
            }
            assert forall|i: int, j: int| 0 <= i < j < found.len() implies found[i]
                < found[j] by {
                assert(earlier.contains(found[i]));
            }
        } else {
            assert(found =~= earlier);
            assert forall|number: usize| #[trigger]
                found.contains(number) <==> 1 <= number <= n && words_of(
                    lines[number - 1],
                ).contains(word) by {
                if found.contains(number) {
                    assert(earlier.contains(number));
                }
            }
        }
    } else {
        assert(lines_holding(lines, word, 0) =~= Seq::<usize>::empty());
    }
}

/// The index of a text: an entry for each line and each word in it.
#[derive(Debug, Clone, PartialEq, Eq)]
pub struct WordIndex {
    entries: Vec<(String, usize)>,
}

/// The mathematical value of a sequence of entries.
pub open spec fn entry_texts(entries: Seq<(String, usize)>) -> Seq<(Seq<char>, usize)> {
    Seq::new(entries.len(), |i: int| (entries[i].0@, entries[i].1))
}

impl View for WordIndex {
    type V = Seq<(Seq<char>, usize)>;

    closed spec fn view(&self) -> Seq<(Seq<char>, usize)> {
        entry_texts(self.entries@)
    }
}

impl WordIndex {
    /// All entries, line by line, the words of a line in the order in which
    /// they first stand in it.
    pub fn entries(&self) -> (list: &Vec<(String, usize)>)
        ensures
            entry_texts(list@) == self@,
    {
        &self.entries
    }

    /// The numbers of the lines that hold `word`, in rising order; none if
    /// no line holds it.
    pub fn get(&self, word: &str) -> (lines: Option<Vec<usize>>)
        ensures
            match lines {
                Some(numbers) => numbers@.len() > 0 && numbers@ == lines_with(
                    self@,
                    word@,
                    self@.len(),
                ),
                None => lines_with(self@, word@, self@.len()).len() == 0,
            },
    {
        let wanted = word.to_owned();
        let mut numbers: Vec<usize> = Vec::new();
        let mut i: usize = 0;
        while i < self.entries.len()
            invariant
                i <= self.entries.len(),
                wanted@ == word@,
                numbers@ == lines_with(self@, word@, i as nat),
            decreases self.entries.len() - i,
        {
            if self.entries[i].0 == wanted {
                numbers.push(self.entries[i].1);
            }
            i += 1;
        }
        if numbers.len() == 0 {
            None
        } else {
            Some(numbers)
        }
    }
}

/// The text between two offsets of `text`, counted in characters.
fn piece(text: &str, from: usize, to: usize) -> (part: String)
    requires
        from <= to <= text@.len(),
    ensures
        part@ == text@.subrange(from as int, to as int),
{
    text.substring_char(from, to).to_owned()
}

/// The lines of `text`, in lower case.
pub fn get_lines_lower_case(text: &str) -> (lines: Vec<String>)
    ensures
        texts(lines@) == lines_of(lowercase(text@)),
{
    let lowered = to_lowercase(text);
    let lower = lowered.as_str();
    let total = lower.unicode_len();
    let mut lines: Vec<String> = Vec::new();
    let mut at: usize = 0;
    let mut from: usize = 0;
    let mut after_cr = false;
    let mut rest = lower.chars();
    loop
        invariant
            total == lower@.len(),
            lower@ == lowercase(text@),
            from <= at <= total,
            rest.remaining() == lower@.skip(at as int),
            after_cr == (at > from && lower@[at - 1] == '\r'),
            texts(lines@) + lines_from(lower@, at as int, from as int) == lines_of(lower@),
        decreases total - at,
    {
        match rest.next() {
            None => {
                if from < total {
                    lines.push(piece(lower, from, total));
                }
                assert(texts(lines@) =~= lines_of(lower@));
                return lines;
            },
            Some(c) => {
                assert(c == lower@[at as int]);
                assert(rest.remaining() =~= lower@.skip(at + 1));
                if c == '\n' {
                    let ghost before = texts(lines@);
                    let end: usize = if after_cr {
                        (at - 1) as usize
                    } else {
                        at
                    };
                    lines.push(piece(lower, from, end));
                    assert(lower@.subrange(from as int, end as int) =~= strip_cr(
                        lower@.subrange(from as int, at as int),
                    ));
                    assert(texts(lines@) =~= before + seq![
                        strip_cr(lower@.subrange(from as int, at as int)),
                    ]);
                    assert(texts(lines@) + lines_from(lower@, at + 1, at + 1) =~= before
                        + lines_from(lower@, at as int, from as int));
                    from = at + 1;
                    after_cr = false;
                } else {
                    after_cr = c == '\r';
                }
                at += 1;
            },
        }
    }
}

/// The words of `line`.
pub fn split_words(line: &str) -> (words: Vec<String>)
    ensures
        texts(words@) == words_of(line@),
{
    let total = line.unicode_len();
    let mut words: Vec<String> = Vec::new();
    let mut at: usize = 0;
    let mut began: usize = 0;
    let mut in_word = false;
    let mut rest = line.chars();
    loop
        invariant
            total == line@.len(),
            at <= total,
            in_word ==> began < at,
            rest.remaining() == line@.skip(at as int),
            texts(words@) + words_from(
                line@,
                at as int,
                if in_word {
                    began as int
                } else {
                    -1
                },
            ) == words_of(line@),
        decreases total - at,
    {
        match rest.next() {
            None => {
                if in_word {
                    words.push(piece(line, began, total));
                }
                assert(texts(words@) =~= words_of(line@));
                return words;
            },
            Some(c) => {
                assert(c == line@[at as int]);
                assert(rest.remaining() =~= line@.skip(at + 1));
                if is_whitespace(c) {
                    if in_word {
                        let ghost before = texts(words@);
                        words.push(piece(line, began, at));
                        assert(texts(words@) =~= before + seq![
                            line@.subrange(began as int, at as int),
                        ]);
                        assert(texts(words@) + words_from(line@, at + 1, -1) =~= before
                            + words_from(line@, at as int, began as int));
                    }
                    in_word = false;
                } else {
                    if !in_word {
                        began = at;
                        in_word = true;
                    }
                }
                at += 1;
            },
        }
    }
}

/// Whether one of `words` is `word`.
fn holds(words: &Vec<String>, word: &String) -> (found: bool)
    ensures
        found == texts(words@).contains(word@),
{
    let mut i: usize = 0;
    while i < words.len()
        invariant
            i <= words.len(),
            forall|j: int| 0 <= j < i ==> texts(words@)[j] != word@,
        decreases words.len() - i,
    {
        if words[i] == *word {
            assert(texts(words@)[i as int] == word@);
            return true;
        }
        i += 1;
    }
    false
}

/// `words` without repetitions, each at its first place.
pub fn distinct_words(words: &Vec<String>) -> (kept: Vec<String>)
    ensures
        texts(kept@) == distinct(texts(words@), words@.len()),
{
    let mut kept: Vec<String> = Vec::new();
    let mut i: usize = 0;
    while i < words.len()
        invariant
            i <= words.len(),
            texts(kept@) == distinct(texts(words@), i as nat),
        decreases words.len() - i,
    {
        if !holds(&kept, &words[i]) {
            let ghost before = texts(kept@);
            kept.push(words[i].clone());
            assert(texts(kept@) =~= before.push(texts(words@)[i as int]));
        }
        i += 1;
    }
    kept
}

/// The index of `content`: for each line, numbered from 1, and each word in
/// it, in lower case, one entry.
pub fn solve(content: &str) -> (index: WordIndex)
    ensures
        index@ == entries_of(
            lines_of(lowercase(content@)),
            lines_of(lowercase(content@)).len(),
        ),
{
    let lines = get_lines_lower_case(content);
    let mut index = WordIndex { entries: Vec::new() };
    let mut i: usize = 0;
    assert(index@ =~= entries_of(texts(lines@), 0));
    while i < lines.len()
        invariant
            i <= lines.len(),
            index@ == entries_of(texts(lines@), i as nat),
        decreases lines.len() - i,
    {
        let words = split_words(lines[i].as_str());
        let kept = distinct_words(&words);
        let ghost before = index@;
        let number: usize = i + 1;
        let mut k: usize = 0;
        while k < kept.len()
            invariant
                k <= kept.len(),
                index@.len() == before.len() + k,
                forall|j: int| 0 <= j < before.len() ==> index@[j] == before[j],
                forall|j: int| 0 <= j < k ==> index@[before.len() + j] == (kept@[j]@, number),
            decreases kept.len() - k,
        {
            let ghost so_far = index@;
            index.entries.push((kept[k].clone(), number));
            assert(forall|j: int| 0 <= j < so_far.len() ==> index@[j] == so_far[j]);
            k += 1;
        }
        assert(texts(lines@)[i as int] == lines@[i as int]@);
        assert(index@ =~= before + line_entries(lines@[i as int]@, number));
        i += 1;
    }
    index
}

} // verus!
