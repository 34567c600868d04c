//! Counting how often each word stands in a text.
//!
//! A word is what is left of a run of characters between whitespace once
//! everything but letters is taken out of it; runs without letters count
//! for nothing. Words are counted in lower case.

use vstd::prelude::*;
use crate::text::{
    alphabetic, char_is_alphabetic, char_is_whitespace, chars_of, lemma_word_bounds,
    lemma_word_forward, lowercase, str_equals, text_of, to_lowercase, word_end, word_start,
};

verus! {

/// The words that were seen, each with the number of times it was seen, in
/// the order in which they were first seen.
pub struct WordFrequencyAnalyzer {
    word_counts: Vec<(String, usize)>,
    total_words: usize,
}

/// The letters among the characters of `s` from `from` up to `to`.
pub open spec fn letters(s: Seq<char>, from: int, to: int) -> Seq<char>
    decreases to - from,
{
    if to <= from || from < 0 || to > s.len() {
        Seq::empty()
    } else if alphabetic(s[to - 1]) {
        letters(s, from, to - 1).push(s[to - 1])
    } else {
        letters(s, from, to - 1)
    }
}

/// The words of `s` from `p` on.
pub open spec fn words_from(s: Seq<char>, p: int) -> Seq<Seq<char>>
    decreases s.len() - p,
{
    let start = word_start(s, p);
    let end = word_end(s, start);
    if start < 0 || start >= s.len() || end <= start {
        Seq::empty()
    } else {
        proof {
            lemma_word_forward(s, p);
            lemma_word_forward(s, start);
        }
        let word = letters(s, start, end);
        if word.len() > 0 {
            seq![word] + words_from(s, end)
        } else {
            words_from(s, end)
        }
    }
}

/// The counts as characters and numbers.
pub open spec fn counts_view(counts: Seq<(String, usize)>) -> Seq<(Seq<char>, nat)> {
    Seq::new(counts.len(), |i: int| (counts[i].0@, counts[i].1 as nat))
}

/// The index of the first count at or after `from` for `word` (the length
/// where there is none).
pub open spec fn count_position(counts: Seq<(Seq<char>, nat)>, word: Seq<char>, from: int) -> int
    decreases counts.len() - from,
{
    if from < 0 || from >= counts.len() {
        counts.len() as int
    } else if counts[from].0 == word {
        from
    } else {
        count_position(counts, word, from + 1)
    }
}

/// How often `word` was seen.
pub open spec fn count_of(counts: Seq<(Seq<char>, nat)>, word: Seq<char>) -> nat {
    let at = count_position(counts, word, 0);
    if at < counts.len() {
        counts[at].1
    } else {
        0
    }
}

/// The counts after `word` is seen once more.
pub open spec fn counted(counts: Seq<(Seq<char>, nat)>, word: Seq<char>) -> Seq<(Seq<char>, nat)> {
    let at = count_position(counts, word, 0);
    if at < counts.len() {
        counts.update(at, (word, counts[at].1 + 1))
    } else {
        counts.push((word, 1))
    }
}

/// The counts after the first `upto` of `words` are seen.
pub open spec fn tallied(counts: Seq<(Seq<char>, nat)>, words: Seq<Seq<char>>, upto: int) -> Seq<
    (Seq<char>, nat),
>
    decreases upto,
{
    if upto <= 0 || upto > words.len() {
        counts
    } else {
        counted(tallied(counts, words, upto - 1), words[upto - 1])
    }
}

/// The sum of the counts.
pub open spec fn total_of(counts: Seq<(Seq<char>, nat)>, upto: int) -> nat
    decreases upto,
{
    if upto <= 0 || upto > counts.len() {
        0
    } else {
        total_of(counts, upto - 1) + counts[upto - 1].1
    }
}

/// `count_position` stays within the list and finds the word.
pub proof fn lemma_count_position(counts: Seq<(Seq<char>, nat)>, word: Seq<char>, from: int)
    requires
        0 <= from <= counts.len(),
    ensures
        from <= count_position(counts, word, from) <= counts.len(),
        count_position(counts, word, from) < counts.len() ==> counts[count_position(
            counts,
            word,
            from,
        )].0 == word,
        forall|i: int| from <= i < count_position(counts, word, from) ==> counts[i].0 != word,
    decreases counts.len() - from,
{
    if from < counts.len() {
        lemma_count_position(counts, word, from + 1);
    }
}

/// A count is part of the sum of the counts.
pub proof fn lemma_count_in_total(counts: Seq<(Seq<char>, nat)>, at: int, upto: int)
    requires
        0 <= at < upto <= counts.len(),
    ensures
        counts[at].1 <= total_of(counts, upto),
    decreases upto,
{
    if at < upto - 1 {
        lemma_count_in_total(counts, at, upto - 1);
    }
}

/// Seeing a word once more adds one to the sum of the counts.
pub proof fn lemma_counted_total(counts: Seq<(Seq<char>, nat)>, word: Seq<char>)
    ensures
        total_of(counted(counts, word), counted(counts, word).len() as int) == total_of(
            counts,
            counts.len() as int,
        ) + 1,
{
    lemma_count_position(counts, word, 0);
    let at = count_position(counts, word, 0);
    let after = counted(counts, word);
    if at < counts.len() {
        lemma_total_update(counts, at, (word, counts[at].1 + 1), counts.len() as int);
    } else {
        lemma_total_same(counts, after, counts.len() as int);
    }
}

proof fn lemma_total_same(a: Seq<(Seq<char>, nat)>, b: Seq<(Seq<char>, nat)>, upto: int)
    requires
        0 <= upto <= a.len(),
        upto <= b.len(),
        forall|i: int| 0 <= i < upto ==> a[i].1 == b[i].1,
    ensures
        total_of(a, upto) == total_of(b, upto),
    decreases upto,
{
    if upto > 0 {
        lemma_total_same(a, b, upto - 1);
    }
}

proof fn lemma_total_update(counts: Seq<(Seq<char>, nat)>, at: int, entry: (Seq<char>, nat), upto: int)
    requires
        0 <= at < counts.len(),
        0 <= upto <= counts.len(),
    ensures
        total_of(counts.update(at, entry), upto) + (if at < upto {
            counts[at].1
        } else {
            0
        }) == total_of(counts, upto) + (if at < upto {
            entry.1
        } else {
            0
        }),
    decreases upto,
{
    if upto > 0 {
        lemma_total_update(counts, at, entry, upto - 1);
    }
}

/// The place of an entry among entries that are ranked by count, the
/// greater first: after every entry whose count is not below its own.
pub open spec fn rank_of(ranked: Seq<(Seq<char>, nat)>, count: nat, from: int) -> int
    decreases ranked.len() - from,
{
    if 0 <= from < ranked.len() && ranked[from].1 >= count {
        rank_of(ranked, count, from + 1)
    } else {
        from
    }
}

/// The first `upto` counts ranked, the greater first, and of equal counts
/// the one first that was seen first.
pub open spec fn ranked(counts: Seq<(Seq<char>, nat)>, upto: int) -> Seq<(Seq<char>, nat)>
    decreases upto,
{
    if upto <= 0 || upto > counts.len() {
        Seq::empty()
    } else {
        let before = ranked(counts, upto - 1);
        before.insert(rank_of(before, counts[upto - 1].1, 0), counts[upto - 1])
    }
}

/// `rank_of` stays within the list; what stands before the place is not
/// below the count, and what stands at it is.
pub proof fn lemma_rank_of(ranked: Seq<(Seq<char>, nat)>, count: nat, from: int)
    requires
        0 <= from <= ranked.len(),
    ensures
        from <= rank_of(ranked, count, from) <= ranked.len(),
        forall|i: int| from <= i < rank_of(ranked, count, from) ==> ranked[i].1 >= count,
        rank_of(ranked, count, from) < ranked.len() ==> ranked[rank_of(ranked, count, from)].1
            < count,
    decreases ranked.len() - from,
{
    if from < ranked.len() && ranked[from].1 >= count {
        lemma_rank_of(ranked, count, from + 1);
    }
}

/// Ranked counts fall from the first to the last, and there are as many
/// of them as there were counts.
pub proof fn lemma_ranked_falls(counts: Seq<(Seq<char>, nat)>, upto: int)
    requires
        0 <= upto <= counts.len(),
    ensures
        ranked(counts, upto).len() == upto,
        forall|i: int, j: int|
            0 <= i <= j < upto ==> ranked(counts, upto)[i].1 >= ranked(counts, upto)[j].1,
    decreases upto,
{
    if upto > 0 {
        lemma_ranked_falls(counts, upto - 1);
        let before = ranked(counts, upto - 1);
        let entry = counts[upto - 1];
        lemma_rank_of(before, entry.1, 0);
        let at = rank_of(before, entry.1, 0);
        let after = ranked(counts, upto);
        assert forall|i: int, j: int| 0 <= i <= j < upto implies after[i].1 >= after[j].1 by {
            if j < at {
                assert(after[i] == before[i] && after[j] == before[j]);
            } else if j == at {
                if i < at {
                    assert(after[i] == before[i]);
                }
            } else {
                assert(after[j] == before[j - 1]);
                if i < at {
                    assert(after[i] == before[i]);
                } else if i == at {
                    assert(before[at].1 < entry.1);
                    assert(before[at].1 >= before[j - 1].1);
                } else {
                    assert(after[i] == before[i - 1]);
                }
            }
        }
    }
}

/// The words whose count is `frequency`, among the first `upto`.
pub open spec fn words_with(counts: Seq<(Seq<char>, nat)>, frequency: nat, upto: int) -> Seq<
    Seq<char>,
>
    decreases upto,
{
    if upto <= 0 || upto > counts.len() {
        Seq::empty()
    } else if counts[upto - 1].1 == frequency {
        words_with(counts, frequency, upto - 1).push(counts[upto - 1].0)
    } else {
        words_with(counts, frequency, upto - 1)
    }
}

/// The texts as characters.
pub open spec fn word_views(words: Seq<String>) -> Seq<Seq<char>> {
    Seq::new(words.len(), |i: int| words[i]@)
}

impl WordFrequencyAnalyzer {
    /// The counts, in the order in which the words were first seen.
    pub closed spec fn counts(&self) -> Seq<(Seq<char>, nat)> {
        counts_view(self.word_counts@)
    }

    /// The number of words that were seen, each as often as it was seen.
    pub closed spec fn total(&self) -> nat {
        self.total_words as nat
    }

    /// The total is the sum of the counts.
    pub open spec fn wf(&self) -> bool {
        self.total() == total_of(self.counts(), self.counts().len() as int)
    }

    /// An analyzer that has seen nothing.
    pub fn new() -> (analyzer: WordFrequencyAnalyzer)
        ensures
            analyzer.counts() == Seq::<(Seq<char>, nat)>::empty(),
            analyzer.total() == 0,
            analyzer.wf(),
    {
        let analyzer = WordFrequencyAnalyzer { word_counts: Vec::new(), total_words: 0 };
        proof {
            assert(analyzer.counts() =~= Seq::<(Seq<char>, nat)>::empty());
        }
        analyzer
    }

    /// The index of the first count for `word`.
    fn position(&self, word: &str) -> (at: usize)
        ensures
            at == count_position(self.counts(), word@, 0),
            at <= self.word_counts.len(),
            at < self.word_counts.len() ==> self.word_counts[at as int].0@ == word@,
    {
        let ghost view = self.counts();
        proof {
            lemma_count_position(view, word@, 0);
        }
        let mut i: usize = 0;
        while i < self.word_counts.len()
            invariant
                i <= self.word_counts.len(),
                view == counts_view(self.word_counts@),
                count_position(view, word@, 0) == count_position(view, word@, i as int),
            decreases self.word_counts.len() - i,
        {
            if str_equals(self.word_counts[i].0.as_str(), word) {
                return i;
            }
            i += 1;
        }
        i
    }

    /// Counts `word` once more.
    pub fn count_word(&mut self, word: String)
        requires
            old(self).wf(),
            old(self).total() < usize::MAX,
        ensures
            final(self).wf(),
            final(self).counts() == counted(old(self).counts(), word@),
            final(self).total() == old(self).total() + 1,
    {
        let at = self.position(word.as_str());
        proof {
            lemma_counted_total(self.counts(), word@);
            if at < self.word_counts.len() {
                lemma_count_in_total(self.counts(), at as int, self.counts().len() as int);
            }
        }
        if at < self.word_counts.len() {
            let count = self.word_counts[at].1;
            self.word_counts[at] = (word, count + 1);
        } else {
            self.word_counts.push((word, 1));
        }
        self.total_words += 1;
        proof {
            assert(self.counts() =~= counted(old(self).counts(), word@));
        }
    }

    /// Counts the words of a text that is written in small letters.
    pub fn analyze_lowercase(&mut self, text: &str)
        requires
            old(self).wf(),
            old(self).total() + text@.len() <= usize::MAX,
        ensures
            final(self).wf(),
            final(self).counts() == tallied(
                old(self).counts(),
                words_from(text@, 0),
                words_from(text@, 0).len() as int,
            ),
            final(self).total() == old(self).total() + words_from(text@, 0).len(),
    {
        let s = chars_of(text);
        let len = s.len();
        let mut words: Vec<String> = Vec::new();
        let mut p: usize = 0;
        loop
            invariant
                p <= len,
                len == s.len(),
                s@ == text@,
                words.len() <= p,
                word_views(words@) + words_from(s@, p as int) == words_from(s@, 0),
            ensures
                word_views(words@) == words_from(text@, 0),
                words.len() <= len,
            decreases len - p,
        {
            let mut start: usize = p;
            while start < len && char_is_whitespace(s[start])
                invariant
                    p <= start <= len,
                    len == s.len(),
                    word_start(s@, p as int) == word_start(s@, start as int),
                decreases len - start,
            {
                start += 1;
            }
            if start >= len {
                proof {
                    assert(word_views(words@) + words_from(s@, p as int) =~= word_views(words@));
                }
                break ;
            }
            let mut end: usize = start;
            let mut word: Vec<char> = Vec::new();
            while end < len && !char_is_whitespace(s[end])
                invariant
                    start <= end <= len,
                    len == s.len(),
                    word_end(s@, start as int) == word_end(s@, end as int),
                    word@ == letters(s@, start as int, end as int),
                decreases len - end,
            {
                if char_is_alphabetic(s[end]) {
                    word.push(s[end]);
                }
                end += 1;
            }
            proof {
                lemma_word_bounds(s@, start as int);
            }
            if word.len() > 0 {
                let ghost before = word_views(words@);
                words.push(text_of(&word));
                proof {
                    assert(word_views(words@) =~= before.push(word@));
                    assert(word_views(words@) + words_from(s@, end as int) =~= before
                        + words_from(s@, p as int));
                }
            }
            p = end;
        }
        let count = words.len();
        let ghost all = word_views(words@);
        let mut i: usize = 0;
        while i < count
            invariant
                i <= count,
                count == words.len(),
                count <= len,
                all == word_views(words@),
                old(self).total() + text@.len() <= usize::MAX,
                len == text@.len(),
                self.wf(),
                self.counts() == tallied(old(self).counts(), all, i as int),
                self.total() == old(self).total() + i,
            decreases count - i,
        {
            self.count_word(words[i].clone());
            i += 1;
        }
    }

    /// Counts the words of `text`, in lower case.
    pub fn analyze_text(&mut self, text: &str)
        requires
            old(self).wf(),
            old(self).total() + lowercase(text@).len() <= usize::MAX,
        ensures
            final(self).wf(),
            final(self).counts() == tallied(
                old(self).counts(),
                words_from(lowercase(text@), 0),
                words_from(lowercase(text@), 0).len() as int,
            ),
            final(self).total() == old(self).total() + words_from(lowercase(text@), 0).len(),
    {
        let lowered = to_lowercase(text);
        self.analyze_lowercase(lowered.as_str());
    }

    /// Counts the words of `text` where the machine can hold the count, and
    /// says whether it did.
    pub fn try_analyze_text(&mut self, text: &str) -> (done: bool)
        requires
            old(self).wf(),
        ensures
            final(self).wf(),
            done == (old(self).total() + lowercase(text@).len() <= usize::MAX),
            done ==> final(self).counts() == tallied(
                old(self).counts(),
                words_from(lowercase(text@), 0),
                words_from(lowercase(text@), 0).len() as int,
            ),
            !done ==> final(self).counts() == old(self).counts() && final(self).total() == old(
                self,
            ).total(),
    {
        let lowered = to_lowercase(text);
        let chars = chars_of(lowered.as_str());
        if chars.len() <= usize::MAX - self.total_words {
            self.analyze_text(text);
            true
        } else {
            false
        }
    }

    /// The `n` words that were seen most often, each with its count, the
    /// most frequent first; of words seen equally often the one first that
    /// was seen first.
    pub fn get_most_frequent(&self, n: usize) -> (top: Vec<(String, usize)>)
        ensures
            counts_view(top@) == ranked(self.counts(), self.counts().len() as int).take(
                if n <= self.counts().len() {
                    n as int
                } else {
                    self.counts().len() as int
                },
            ),
    {
        let mut sorted: Vec<(String, usize)> = Vec::new();
        let mut i: usize = 0;
        proof {
            assert(counts_view(sorted@) =~= ranked(self.counts(), 0));
        }
        while i < self.word_counts.len()
            invariant
                i <= self.word_counts.len(),
                counts_view(sorted@) == ranked(self.counts(), i as int),
            decreases self.word_counts.len() - i,
        {
            let ghost before = counts_view(sorted@);
            let count = self.word_counts[i].1;
            let mut at: usize = 0;
            while at < sorted.len() && sorted[at].1 >= count
                invariant
                    at <= sorted.len(),
                    before == counts_view(sorted@),
                    rank_of(before, count as nat, 0) == rank_of(before, count as nat, at as int),
                decreases sorted.len() - at,
            {
                at += 1;
            }
            sorted.insert(at, (self.word_counts[i].0.clone(), count));
            proof {
                assert(counts_view(sorted@) =~= before.insert(
                    at as int,
                    self.counts()[i as int],
                ));
            }
            i += 1;
        }
        proof {
            lemma_ranked_falls(self.counts(), self.counts().len() as int);
        }
        if n < sorted.len() {
            sorted.truncate(n);
        }
        proof {
            assert(counts_view(sorted@) =~= ranked(
                self.counts(),
                self.counts().len() as int,
            ).take(
                if n <= self.counts().len() {
                    n as int
                } else {
                    self.counts().len() as int
                },
            ));
        }
        sorted
    }

    /// How often a word that is written in small letters was seen.
    pub fn frequency_of_lowercase(&self, word: &str) -> (count: usize)
        ensures
            count == count_of(self.counts(), word@),
    {
        let at = self.position(word);
        if at < self.word_counts.len() {
            self.word_counts[at].1
        } else {
            0
        }
    }

    /// How often `word` was seen, whatever the case of its letters.
    pub fn get_word_frequency(&self, word: &str) -> (count: usize)
        ensures
            count == count_of(self.counts(), lowercase(word@)),
    {
        let lowered = to_lowercase(word);
        self.frequency_of_lowercase(lowered.as_str())
    }

    /// The number of different words that were seen.
    pub fn get_unique_words(&self) -> (n: usize)
        ensures
            n == self.counts().len(),
    {
        self.word_counts.len()
    }

    /// The number of words that were seen, each as often as it was seen.
    pub fn get_total_words(&self) -> (n: usize)
        ensures
            n == self.total(),
    {
        self.total_words
    }

    /// The words that were seen `frequency` times, in the order in which
    /// they were first seen.
    pub fn get_words_with_frequency(&self, frequency: usize) -> (words: Vec<String>)
        ensures
            word_views(words@) == words_with(
                self.counts(),
                frequency as nat,
                self.counts().len() as int,
            ),
    {
        let mut words: Vec<String> = Vec::new();
        let mut i: usize = 0;
        proof {
            assert(word_views(words@) =~= words_with(self.counts(), frequency as nat, 0));
        }
        while i < self.word_counts.len()
            invariant
                i <= self.word_counts.len(),
                word_views(words@) == words_with(self.counts(), frequency as nat, i as int),
            decreases self.word_counts.len() - i,
        {
            if self.word_counts[i].1 == frequency {
                let ghost before = word_views(words@);
                words.push(self.word_counts[i].0.clone());
                proof {
                    assert(word_views(words@) =~= before.push(self.counts()[i as int].0));
                }
            }
            i += 1;
        }
        words
    }
}

/// The index of the first pair at or after `from` whose frequency is not
/// above `frequency` (the length where there is none).
pub open spec fn frequency_place(pairs: Seq<(nat, nat)>, frequency: nat, from: int) -> int
    decreases pairs.len() - from,
{
    if 0 <= from < pairs.len() && pairs[from].0 > frequency {
        frequency_place(pairs, frequency, from + 1)
    } else {
        from
    }
}

/// The pairs after one more word of the frequency `frequency` is counted:
/// the pair of that frequency counts one more, or a new pair is put in
/// before the pairs of lower frequencies.
pub open spec fn bumped(pairs: Seq<(nat, nat)>, frequency: nat) -> Seq<(nat, nat)> {
    let at = frequency_place(pairs, frequency, 0);
    if 0 <= at < pairs.len() && pairs[at].0 == frequency {
        pairs.update(at, (frequency, pairs[at].1 + 1))
    } else {
        pairs.insert(at, (frequency, 1))
    }
}

/// For every frequency among the first `upto` counts, how many words have
/// it: pairs of a frequency and a number of words, the greater frequency
/// first.
pub open spec fn distribution(counts: Seq<(Seq<char>, nat)>, upto: int) -> Seq<(nat, nat)>
    decreases upto,
{
    if upto <= 0 || upto > counts.len() {
        Seq::empty()
    } else {
        bumped(distribution(counts, upto - 1), counts[upto - 1].1)
    }
}

/// Pairs of numbers, as natural numbers.
pub open spec fn pair_views(pairs: Seq<(usize, usize)>) -> Seq<(nat, nat)> {
    Seq::new(pairs.len(), |i: int| (pairs[i].0 as nat, pairs[i].1 as nat))
}

impl WordFrequencyAnalyzer {
    /// For every frequency, how many words were seen that often: pairs of
    /// a frequency and a number of words, the greater frequency first.
    pub fn frequency_distribution(&self) -> (pairs: Vec<(usize, usize)>)
        ensures
            pair_views(pairs@) == distribution(self.counts(), self.counts().len() as int),
    {
        let mut pairs: Vec<(usize, usize)> = Vec::new();
        let mut i: usize = 0;
        proof {
            assert(pair_views(pairs@) =~= distribution(self.counts(), 0));
        }
        while i < self.word_counts.len()
            invariant
                i <= self.word_counts.len(),
                pair_views(pairs@) == distribution(self.counts(), i as int),
                forall|k: int| 0 <= k < pairs.len() ==> (#[trigger] pairs[k]).1 <= i,
            decreases self.word_counts.len() - i,
        {
            let ghost before = pair_views(pairs@);
            let frequency = self.word_counts[i].1;
            let mut at: usize = 0;
            while at < pairs.len() && pairs[at].0 > frequency
                invariant
                    at <= pairs.len(),
                    before == pair_views(pairs@),
                    frequency_place(before, frequency as nat, 0) == frequency_place(
                        before,
                        frequency as nat,
                        at as int,
                    ),
                decreases pairs.len() - at,
            {
                at += 1;
            }
            if at < pairs.len() && pairs[at].0 == frequency {
                let tally = pairs[at].1;
                pairs[at] = (frequency, tally + 1);
            } else {
                pairs.insert(at, (frequency, 1));
            }
            proof {
                assert(pair_views(pairs@) =~= bumped(before, frequency as nat));
                assert(self.counts()[i as int].1 == frequency);
            }
            i += 1;
        }
        pairs
    }
}

} // verus!
