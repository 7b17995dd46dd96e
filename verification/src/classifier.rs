//! The classifier: a frequency table, the stopwords that never enter it, and
//! the tokenizer that cuts text into words.

use crate::guess::{
    by_label, credit, credited, is_guess, leaders, leads, lemma_credited_prefix,
    lemma_credited_ranking, lemma_score_bounded, score, total_of, wins,
};
use crate::matrix::{
    distinct_keys, find_key, lemma_table_entry, lemma_table_push, lemma_table_same,
    lemma_table_update, place_of, table_of, Categorization,
};
use crate::scores::{
    insert_ranked, is_ranking, lemma_ranked_counts_fall, lemma_ranks_first_all,
    lemma_ranks_first_fresh, lemma_ranks_first_insert, lemma_ranks_first_skip, ranks_first,
};
use crate::table::{
    count_in, counted, fits, gain, learned, leaves_room, lemma_learned_count,
    lemma_occurrences_absent, lemma_occurrences_bounded, lemma_occurrences_prefix, occurrences,
    offered, sound, times_in, Table,
};
use crate::words::lowercase;
use crate::words::{compiled_from, drop_empty, find_all, tokens_of, WORD_PATTERN};
use regex::Regex;
use vstd::hash_set::StringHashSet;
use vstd::prelude::*;

verus! {

/// Why a classifier could not be built.
#[derive(Debug, Clone, Copy, PartialEq, Eq)]
pub enum BuildError {
    /// The tokenizer's pattern did not compile.
    Pattern,
}

/// A classifier that learns which words go with which label.
pub struct Bayes {
    matrix: Vec<(Categorization, u32)>,
    ignore_words: StringHashSet,
    tokenizer: Regex,
}

/// The stopwords that every classifier is built with. A contraction is one
/// token to the tokenizer, apostrophe included, and is listed here as such.
pub open spec fn default_stopwords() -> Set<Seq<char>> {
    set![
        "be"@, "i"@, "am"@, "are"@, "is"@, "was"@, "were"@, "a"@, "an"@, "this"@, "the"@, "and"@,
        "or"@, "so"@, "much"@, "not"@, "no"@, "nor"@, "do"@, "don't"@,
    ]
}

impl View for Bayes {
    type V = Table;

    /// The frequency table.
    closed spec fn view(&self) -> Table {
        table_of(self.matrix@)
    }
}

impl Bayes {
    /// The words that are never counted.
    pub closed spec fn stopwords(&self) -> Set<Seq<char>> {
        self.ignore_words@
    }

    /// The compiled expression that cuts text into words.
    pub closed spec fn tokenizer(&self) -> Regex {
        self.tokenizer
    }

    /// The stored table holds no key twice, no count of zero, and no key
    /// whose word is empty or a stopword.
    pub closed spec fn wf(&self) -> bool {
        &&& distinct_keys(self.matrix@)
        &&& forall|i: int|
            0 <= i < self.matrix.len() ==> (#[trigger] self.matrix[i]).1 > 0 && counted(
                self.ignore_words@,
                self.matrix[i].0.word@,
            )
    }

    /// The tokens of `text` under this classifier's tokenizer.
    pub open spec fn tokens(&self, text: Seq<char>) -> Seq<Seq<char>> {
        tokens_of(self.tokenizer(), text)
    }

    /// Whether `learn` takes a sample up: neither the text nor the label is
    /// empty, and counting the tokens of the text under the lowered label
    /// lets no count pass `u32::MAX`.
    pub open spec fn takes(&self, text: Seq<char>, bucket: Seq<char>) -> bool {
        &&& text.len() > 0
        &&& bucket.len() > 0
        &&& fits(self@, self.stopwords(), self.tokens(text), lowercase(bucket))
    }

    /// In a well-formed classifier every count is positive and fits in
    /// `u32`, and no stopword and no empty word has a count.
    pub proof fn lemma_wf_sound(&self)
        requires
            self.wf(),
        ensures
            sound(self@, self.stopwords()),
    {
        assert forall|k: (Seq<char>, Seq<char>)| #[trigger] self@.contains_key(k) implies 0
            < self@[k] <= u32::MAX && counted(self.stopwords(), k.1) by {
            let p = place_of(self.matrix@, k);
            lemma_table_entry(self.matrix@, p);
        }
    }

    /// A classifier around the outcome of compiling a tokenizer: with an
    /// empty table and the default stopwords where the expression compiled,
    /// the error where it did not.
    pub fn from_compiled(compiled: Result<Regex, regex::Error>) -> (built: Result<
        Bayes,
        BuildError,
    >)
        ensures
            match compiled {
                Ok(tokenizer) => built matches Ok(bayes) && {
                    &&& bayes.wf()
                    &&& bayes@ == Map::<(Seq<char>, Seq<char>), nat>::empty()
                    &&& bayes.stopwords() == default_stopwords()
                    &&& bayes.tokenizer() == tokenizer
                },
                Err(_) => built matches Err(BuildError::Pattern),
            },
    {
        match compiled {
            Ok(tokenizer) => {
                let mut bayes = Bayes {
                    matrix: Vec::new(),
                    ignore_words: StringHashSet::new(),
                    tokenizer,
                };
                assert(bayes@ =~= Map::<(Seq<char>, Seq<char>), nat>::empty());
                bayes.load_ignore_words();
                assert(bayes.stopwords() =~= default_stopwords());
                Ok(bayes)
            },
            Err(_) => Err(BuildError::Pattern),
        }
    }

    /// A classifier whose tokenizer is what `WORD_PATTERN` compiles into,
    /// with an empty table and the default stopwords; the error where the
    /// pattern does not compile.
    pub fn new() -> (built: Result<Bayes, BuildError>)
        ensures
            match compiled_from(WORD_PATTERN@) {
                Some(tokenizer) => built matches Ok(bayes) && {
                    &&& bayes.wf()
                    &&& bayes@ == Map::<(Seq<char>, Seq<char>), nat>::empty()
                    &&& bayes.stopwords() == default_stopwords()
                    &&& bayes.tokenizer() == tokenizer
                },
                None => built matches Err(BuildError::Pattern),
            },
    {
        Bayes::from_compiled(Regex::new(WORD_PATTERN))
    }

    /// Adds the default stopwords to the stopwords of a classifier that has
    /// not counted anything yet.
    fn load_ignore_words(&mut self)
        requires
            old(self).matrix@.len() == 0,
        ensures
            final(self).wf(),
            final(self)@ == old(self)@,
            final(self).tokenizer() == old(self).tokenizer(),
            final(self).stopwords() == old(self).stopwords().union(default_stopwords()),
    {
        self.ignore_words.insert("be".to_owned());
        self.ignore_words.insert("i".to_owned());
        self.ignore_words.insert("am".to_owned());
        self.ignore_words.insert("are".to_owned());
        self.ignore_words.insert("is".to_owned());
        self.ignore_words.insert("was".to_owned());
        self.ignore_words.insert("were".to_owned());
        self.ignore_words.insert("a".to_owned());
        self.ignore_words.insert("an".to_owned());
        self.ignore_words.insert("this".to_owned());
        self.ignore_words.insert("the".to_owned());
        self.ignore_words.insert("and".to_owned());
        self.ignore_words.insert("or".to_owned());
        self.ignore_words.insert("so".to_owned());
        self.ignore_words.insert("much".to_owned());
        self.ignore_words.insert("not".to_owned());
        self.ignore_words.insert("no".to_owned());
        self.ignore_words.insert("nor".to_owned());
        self.ignore_words.insert("do".to_owned());
        self.ignore_words.insert("don't".to_owned());
        assert(self.ignore_words@ =~= old(self).ignore_words@.union(default_stopwords()));
    }

    /// Whether `word`, as it is given, is one of the stopwords.
    pub fn is_stopword(&self, word: &str) -> (listed: bool)
        ensures
            listed == self.stopwords().contains(word@),
    {
        self.ignore_words.contains(word)
    }

    /// Cuts `text` into tokens: lowers it, takes the matches of the
    /// tokenizer from left to right, repeats included, and leaves out the
    /// empty ones.
    pub fn tokenize(&self, text: &str) -> (tokens: Vec<String>)
        ensures
            tokens.deep_view() == self.tokens(text@),
            forall|i: int| 0 <= i < tokens.len() ==> (#[trigger] tokens[i])@.len() > 0,
    {
        if text.is_empty() {
            return Vec::new();
        }
        let lowered = text.to_lowercase();
        let found = find_all(&self.tokenizer, lowered.as_str());
        drop_empty(&found)
    }

    /// Counts `word` once more under `bucket`, unless the word is empty or
    /// a stopword.
    pub fn add_word_to_bucket(&mut self, word: &str, bucket: &str)
        requires
            old(self).wf(),
            counted(old(self).stopwords(), word@) ==> count_in(old(self)@, bucket@, word@)
                < u32::MAX,
        ensures
            final(self).wf(),
            final(self).stopwords() == old(self).stopwords(),
            final(self).tokenizer() == old(self).tokenizer(),
            final(self)@ == offered(old(self)@, old(self).stopwords(), bucket@, word@),
    {
        if word.is_empty() || self.is_stopword(word) {
            return;
        }
        let key = Categorization { word: word.to_owned(), bucket: bucket.to_owned() };
        match find_key(&self.matrix, &key.bucket, &key.word) {
            Some(i) => {
                let seen = self.matrix[i].1;
                proof {
                    lemma_table_entry(self.matrix@, i as int);
                    lemma_table_update(self.matrix@, i as int, (key, (seen + 1) as u32));
                }
                self.matrix[i] = (key, seen + 1);
            },
            None => {
                proof {
                    lemma_table_push(self.matrix@, (key, 1u32));
                }
                self.matrix.push((key, 1));
            },
        }
    }

    /// Counts every token of `tokens` under `bucket`, as given, but for the
    /// empty ones and the stopwords.
    pub fn learn_tokens(&mut self, tokens: &Vec<String>, bucket: &str)
        requires
            old(self).wf(),
            fits(old(self)@, old(self).stopwords(), tokens.deep_view(), bucket@),
        ensures
            final(self).wf(),
            final(self).stopwords() == old(self).stopwords(),
            final(self).tokenizer() == old(self).tokenizer(),
            final(self)@ == learned(
                old(self)@,
                old(self).stopwords(),
                tokens.deep_view(),
                bucket@,
            ),
    {
        let ghost all = tokens.deep_view();
        let mut i: usize = 0;
        while i < tokens.len()
            invariant
                i <= tokens.len(),
                all == tokens.deep_view(),
                self.wf(),
                self.stopwords() == old(self).stopwords(),
                self.tokenizer() == old(self).tokenizer(),
                fits(old(self)@, old(self).stopwords(), all, bucket@),
                self@ == learned(old(self)@, old(self).stopwords(), all.take(i as int), bucket@),
            decreases tokens.len() - i,
        {
            proof {
                let word = all[i as int];
                assert(all.take(i + 1).drop_last() =~= all.take(i as int));
                assert(all.take(i + 1).last() == word);
                lemma_learned_count(
                    old(self)@,
                    old(self).stopwords(),
                    all.take(i as int),
                    bucket@,
                    bucket@,
                    word,
                );
                lemma_occurrences_prefix(all, i + 1, word);
                assert(occurrences(all.take(i + 1), word) == occurrences(all.take(i as int), word)
                    + 1);
                assert(counted(old(self).stopwords(), word) ==> count_in(old(self)@, bucket@, word)
                    + occurrences(all, word) <= u32::MAX);
            }
            self.add_word_to_bucket(tokens[i].as_str(), bucket);
            i += 1;
        }
        assert(all.take(tokens.len() as int) =~= all);
    }

    /// How often `word` was counted under `bucket`, both as they are given;
    /// zero for a pair never seen.
    pub fn count(&self, bucket: &str, word: &str) -> (seen: u32)
        requires
            self.wf(),
        ensures
            seen == count_in(self@, bucket@, word@),
    {
        let bucket = bucket.to_owned();
        let word = word.to_owned();
        match find_key(&self.matrix, &bucket, &word) {
            Some(i) => {
                proof {
                    lemma_table_entry(self.matrix@, i as int);
                }
                self.matrix[i].1
            },
            None => 0,
        }
    }

    /// Whether every token of `tokens` can be counted under `label`
    /// without any count passing `u32::MAX`.
    pub fn has_room(&self, tokens: &Vec<String>, label: &str) -> (ok: bool)
        requires
            self.wf(),
        ensures
            ok == fits(self@, self.stopwords(), tokens.deep_view(), label@),
    {
        let ghost all = tokens.deep_view();
        let mut i: usize = 0;
        while i < tokens.len()
            invariant
                i <= tokens.len(),
                all == tokens.deep_view(),
                self.wf(),
                forall|j: int|
                    0 <= j < i && counted(self.stopwords(), #[trigger] all[j]) ==> count_in(
                        self@,
                        label@,
                        all[j],
                    ) + occurrences(all, all[j]) <= u32::MAX,
            decreases tokens.len() - i,
        {
            let word = tokens[i].as_str();
            if !word.is_empty() && !self.is_stopword(word) {
                let seen = self.count(label, word);
                proof {
                    lemma_occurrences_bounded(all, word@);
                }
                if !leaves_room(seen, tokens.len()) && !leaves_room(seen, times_in(tokens, word)) {
                    assert(count_in(self@, label@, word@) + occurrences(all, word@) > u32::MAX);
                    return false;
                }
            }
            i += 1;
        }
        proof {
            self.lemma_wf_sound();
            assert forall|word: Seq<char>| counted(self.stopwords(), word) implies count_in(
                self@,
                label@,
                word,
            ) + #[trigger] occurrences(all, word) <= u32::MAX by {
                if exists|j: int| 0 <= j < all.len() && all[j] == word {
                    let j = choose|j: int| 0 <= j < all.len() && all[j] == word;
                    assert(counted(self.stopwords(), all[j]));
                } else {
                    lemma_occurrences_absent(all, word);
                    if self@.contains_key((label@, word)) {
                        assert(self@[(label@, word)] <= u32::MAX);
                    }
                }
            }
        }
        true
    }

    /// The scores of `word`: each label under which the word has a count,
    /// with that count, the highest count first and labels of equal count in
    /// the order of the labels. The word is looked up as it is given. A word
    /// without any count has no scores.
    pub fn get_scores(&self, word: &str) -> (scores: Vec<(String, u32)>)
        requires
            self.wf(),
        ensures
            is_ranking(self@, word@, scores.deep_view()),
            forall|i: int, j: int| 0 <= i < j < scores.len() ==> scores[i].1 >= scores[j].1,
            (forall|label: Seq<char>| count_in(self@, label, word@) == 0) ==> scores.len() == 0,
    {
        let wanted = word.to_owned();
        let mut scores: Vec<(String, u32)> = Vec::new();
        let mut i: usize = 0;
        while i < self.matrix.len()
            invariant
                i <= self.matrix.len(),
                wanted@ == word@,
                self.wf(),
                ranks_first(self.matrix@, i as int, word@, scores.deep_view()),
            decreases self.matrix.len() - i,
        {
            if self.matrix[i].0.word == wanted {
                let label = self.matrix[i].0.bucket.clone();
                let count = self.matrix[i].1;
                let ghost before = scores.deep_view();
                proof {
                    lemma_ranks_first_fresh(self.matrix@, i as int, word@, before);
                    assert forall|k: int| 0 <= k < scores.len() implies (#[trigger] scores[k]).0@
                        != label@ by {
                        assert(before[k].0 == scores[k].0@);
                    }
                }
                let place = insert_ranked(&mut scores, label, count);
                proof {
                    lemma_ranks_first_insert(self.matrix@, i as int, word@, before, place as int);
                }
            } else {
                proof {
                    lemma_ranks_first_skip(self.matrix@, i as int, word@, scores.deep_view());
                }
            }
            i += 1;
        }
        proof {
            let listed = scores.deep_view();
            lemma_ranks_first_all(self.matrix@, word@, listed);
            lemma_ranked_counts_fall(listed);
            assert forall|a: int, b: int| 0 <= a < b < scores.len() implies scores[a].1
                >= scores[b].1 by {
                assert(listed[a].1 == scores[a].1);
                assert(listed[b].1 == scores[b].1);
            }
            if scores.len() > 0 {
                assert(self@.contains_key((listed[0].0, word@)));
                self.lemma_wf_sound();
                assert(count_in(self@, listed[0].0, word@) > 0);
            }
        }
        scores
    }

    /// Learns that `text` goes with the label `bucket`: the label is
    /// lowered, the text cut into tokens, and each token counted under the
    /// label, but for stopwords. An empty text or label changes nothing.
    /// Nor does a sample that would take a count past `u32::MAX`. Returns
    /// whether the sample was taken up.
    pub fn learn(&mut self, text: &str, bucket: &str) -> (taken: bool)
        requires
            old(self).wf(),
        ensures
            final(self).wf(),
            final(self).stopwords() == old(self).stopwords(),
            final(self).tokenizer() == old(self).tokenizer(),
            taken == old(self).takes(text@, bucket@),
            taken ==> final(self)@ == learned(
                old(self)@,
                old(self).stopwords(),
                old(self).tokens(text@),
                lowercase(bucket@),
            ),
            taken ==> forall|label: Seq<char>, word: Seq<char>| #[trigger]
                count_in(final(self)@, label, word) == count_in(old(self)@, label, word) + gain(
                    old(self).stopwords(),
                    old(self).tokens(text@),
                    lowercase(bucket@),
                    label,
                    word,
                ),
            !taken ==> final(self)@ == old(self)@,
    {
        if text.is_empty() || bucket.is_empty() {
            return false;
        }
        let label = bucket.to_lowercase();
        let tokens = self.tokenize(text);
        if !self.has_room(&tokens, label.as_str()) {
            return false;
        }
        self.learn_tokens(&tokens, label.as_str());
        proof {
            assert forall|l: Seq<char>, word: Seq<char>| #[trigger]
                count_in(self@, l, word) == count_in(old(self)@, l, word) + gain(
                    old(self).stopwords(),
                    old(self).tokens(text@),
                    lowercase(bucket@),
                    l,
                    word,
                ) by {
                lemma_learned_count(
                    old(self)@,
                    old(self).stopwords(),
                    old(self).tokens(text@),
                    lowercase(bucket@),
                    l,
                    word,
                );
            }
        }
        true
    }

    /// The table as a list: every key with its count, each key once, in no
    /// particular order.
    pub fn entries(&self) -> (listed: Vec<(Categorization, u32)>)
        requires
            self.wf(),
        ensures
            distinct_keys(listed@),
            table_of(listed@) == self@,
    {
        let mut listed: Vec<(Categorization, u32)> = Vec::new();
        let mut i: usize = 0;
        while i < self.matrix.len()
            invariant
                i <= self.matrix.len(),
                listed.len() == i,
                forall|j: int|
                    0 <= j < i ==> (#[trigger] listed[j]).0@ == self.matrix[j].0@ && listed[j].1
                        == self.matrix[j].1,
            decreases self.matrix.len() - i,
        {
            let key = Categorization {
                bucket: self.matrix[i].0.bucket.clone(),
                word: self.matrix[i].0.word.clone(),
            };
            listed.push((key, self.matrix[i].1));
            i += 1;
        }
        proof {
            lemma_table_same(self.matrix@, listed@);
        }
        listed
    }

    /// The guess for a text already cut into `tokens`: for every token the
    /// scores of the token are added to the running totals of their labels,
    /// and the labels with the highest total are returned, in the order of
    /// the labels. No label is returned where no token has a score.
    pub fn guess_tokens(&self, tokens: &Vec<String>) -> (labels: Vec<String>)
        requires
            self.wf(),
        ensures
            is_guess(self@, tokens.deep_view(), labels.deep_view()),
    {
        let ghost all = tokens.deep_view();
        let mut totals: Vec<(String, u128)> = Vec::new();
        let mut i: usize = 0;
        while i < tokens.len()
            invariant
                i <= tokens.len(),
                all == tokens.deep_view(),
                self.wf(),
                by_label(totals.deep_view()),
                forall|l: Seq<char>| #[trigger]
                    total_of(totals.deep_view(), l) == score(self@, all.take(i as int), l),
            decreases tokens.len() - i,
        {
            let scores = self.get_scores(tokens[i].as_str());
            let ghost start = totals.deep_view();
            let ghost given = scores.deep_view();
            let ghost word = all[i as int];
            let mut k: usize = 0;
            while k < scores.len()
                invariant
                    k <= scores.len(),
                    i < tokens.len(),
                    all == tokens.deep_view(),
                    word == all[i as int],
                    given == scores.deep_view(),
                    self.wf(),
                    is_ranking(self@, word, given),
                    by_label(totals.deep_view()),
                    forall|l: Seq<char>| #[trigger]
                        total_of(start, l) == score(self@, all.take(i as int), l),
                    forall|l: Seq<char>| #[trigger]
                        total_of(totals.deep_view(), l) == total_of(start, l) + credited(
                            given.take(k as int),
                            l,
                        ),
                decreases scores.len() - k,
            {
                let ghost during = totals.deep_view();
                proof {
                    let l = given[k as int].0;
                    assert(given[k as int] == (scores[k as int].0@, scores[k as int].1));
                    assert(given.take(k + 1).drop_last() =~= given.take(k as int));
                    assert(given.take(k + 1).last() == given[k as int]);
                    lemma_credited_prefix(given, k + 1, l);
                    lemma_credited_ranking(self@, word, given, l);
                    self.lemma_wf_sound();
                    lemma_score_bounded(self@, all.take(i as int), l);
                    assert(total_of(start, l) == score(self@, all.take(i as int), l));
                    assert(total_of(during, l) == total_of(start, l) + credited(
                        given.take(k as int),
                        l,
                    ));
                    assert(count_in(self@, l, word) <= u32::MAX);
                    assert(all.take(i as int).len() * u32::MAX <= usize::MAX * u32::MAX);
                }
                credit(&mut totals, scores[k].0.as_str(), scores[k].1);
                proof {
                    assert forall|l: Seq<char>| #[trigger]
                        total_of(totals.deep_view(), l) == total_of(start, l) + credited(
                            given.take(k + 1),
                            l,
                        ) by {
                        assert(total_of(during, l) == total_of(start, l) + credited(
                            given.take(k as int),
                            l,
                        ));
                    }
                }
                k += 1;
            }
            proof {
                assert(given.take(scores.len() as int) =~= given);
                assert(all.take(i + 1).drop_last() =~= all.take(i as int));
                assert(all.take(i + 1).last() == word);
                assert forall|l: Seq<char>| #[trigger]
                    total_of(totals.deep_view(), l) == score(self@, all.take(i + 1), l) by {
                    lemma_credited_ranking(self@, word, given, l);
                    assert(total_of(start, l) == score(self@, all.take(i as int), l));
                }
            }
            i += 1;
        }
        let labels = leaders(&totals);
        proof {
            assert(all.take(tokens.len() as int) =~= all);
            let held = totals.deep_view();
            assert forall|label: Seq<char>| #[trigger]
                labels.deep_view().contains(label) <==> wins(self@, all, label) by {
                assert(total_of(held, label) == score(self@, all, label));
                if leads(held, label) {
                    assert forall|other: Seq<char>| #[trigger]
                        score(self@, all, other) <= score(self@, all, label) by {
                        assert(total_of(held, other) == score(self@, all, other));
                        assert(total_of(held, other) <= total_of(held, label));
                    }
                }
                if wins(self@, all, label) {
                    assert forall|other: Seq<char>| #[trigger]
                        total_of(held, other) <= total_of(held, label) by {
                        assert(total_of(held, other) == score(self@, all, other));
                        assert(score(self@, all, other) <= score(self@, all, label));
                    }
                }
            }
        }
        labels
    }

    /// The guess for `text`: the labels whose counts, summed over the
    /// tokens of the text, are highest, in the order of the labels. More
    /// than one label where totals tie; none for an empty text or where no
    /// token has a count.
    pub fn guess_bucket(&self, text: &str) -> (labels: Vec<String>)
        requires
            self.wf(),
        ensures
            is_guess(self@, self.tokens(text@), labels.deep_view()),
            text@.len() == 0 ==> labels.len() == 0,
    {
        if text.is_empty() {
            return Vec::new();
        }
        let tokens = self.tokenize(text);
        self.guess_tokens(&tokens)
    }
}

} // verus!
