//! The frequency table as a mathematical map, and what learning does to it.
//!
//! A key is a pair of label and word. A key is in the map exactly when the
//! word was counted under the label at least once.

use vstd::prelude::*;

verus! {

/// From (label, word) to the number of times the word was counted under the label.
pub type Table = Map<(Seq<char>, Seq<char>), nat>;

/// How often `word` was counted under `bucket`; zero for a pair never seen.
pub open spec fn count_in(table: Table, bucket: Seq<char>, word: Seq<char>) -> nat {
    if table.contains_key((bucket, word)) {
        table[(bucket, word)]
    } else {
        0
    }
}

/// A token is counted when it is not empty and no stopword.
pub open spec fn counted(stopwords: Set<Seq<char>>, word: Seq<char>) -> bool {
    word.len() > 0 && !stopwords.contains(word)
}

/// The table after `word` was counted once more under `bucket`.
pub open spec fn bump(table: Table, bucket: Seq<char>, word: Seq<char>) -> Table {
    table.insert((bucket, word), count_in(table, bucket, word) + 1)
}

/// The table after one token was offered: counted, or passed over.
pub open spec fn offered(
    table: Table,
    stopwords: Set<Seq<char>>,
    bucket: Seq<char>,
    word: Seq<char>,
) -> Table {
    if counted(stopwords, word) {
        bump(table, bucket, word)
    } else {
        table
    }
}

/// The table after every token of `tokens` was offered under `bucket`, in order.
pub open spec fn learned(
    table: Table,
    stopwords: Set<Seq<char>>,
    tokens: Seq<Seq<char>>,
    bucket: Seq<char>,
) -> Table
    decreases tokens.len(),
{
    if tokens.len() == 0 {
        table
    } else {
        offered(learned(table, stopwords, tokens.drop_last(), bucket), stopwords, bucket, tokens.last())
    }
}

/// How many times `word` stands in `tokens`.
pub open spec fn occurrences(tokens: Seq<Seq<char>>, word: Seq<char>) -> nat
    decreases tokens.len(),
{
    if tokens.len() == 0 {
        0
    } else {
        occurrences(tokens.drop_last(), word) + if tokens.last() == word {
            1nat
        } else {
            0nat
        }
    }
}

/// By how much learning `tokens` under `bucket` raises the count of (`label`, `word`).
pub open spec fn gain(
    stopwords: Set<Seq<char>>,
    tokens: Seq<Seq<char>>,
    bucket: Seq<char>,
    label: Seq<char>,
    word: Seq<char>,
) -> nat {
    if label == bucket && counted(stopwords, word) {
        occurrences(tokens, word)
    } else {
        0
    }
}

/// Every count is positive and fits in `u32`, and no key holds an empty word or a stopword.
pub open spec fn sound(table: Table, stopwords: Set<Seq<char>>) -> bool {
    forall|k: (Seq<char>, Seq<char>)| #[trigger]
        table.contains_key(k) ==> 0 < table[k] <= u32::MAX && counted(stopwords, k.1)
}

/// Learning `tokens` under `bucket` lets no count pass `u32::MAX`.
pub open spec fn fits(
    table: Table,
    stopwords: Set<Seq<char>>,
    tokens: Seq<Seq<char>>,
    bucket: Seq<char>,
) -> bool {
    forall|word: Seq<char>|
        counted(stopwords, word) ==> count_in(table, bucket, word) + #[trigger] occurrences(
            tokens,
            word,
        ) <= u32::MAX
}

/// A word stands in a sequence at most as often as the sequence is long.
pub proof fn lemma_occurrences_bounded(tokens: Seq<Seq<char>>, word: Seq<char>)
    ensures
        occurrences(tokens, word) <= tokens.len(),
    decreases tokens.len(),
{
    if tokens.len() > 0 {
        lemma_occurrences_bounded(tokens.drop_last(), word);
    }
}

/// A word stands in a prefix at most as often as in the whole.
pub proof fn lemma_occurrences_prefix(tokens: Seq<Seq<char>>, n: int, word: Seq<char>)
    requires
        0 <= n <= tokens.len(),
    ensures
        occurrences(tokens.take(n), word) <= occurrences(tokens, word),
    decreases tokens.len(),
{
    if n < tokens.len() {
        assert(tokens.drop_last().take(n) =~= tokens.take(n));
        lemma_occurrences_prefix(tokens.drop_last(), n, word);
    } else {
        assert(tokens.take(n) =~= tokens);
    }
}

/// A word that stands nowhere in a sequence stands in it zero times.
pub proof fn lemma_occurrences_absent(tokens: Seq<Seq<char>>, word: Seq<char>)
    requires
        forall|j: int| 0 <= j < tokens.len() ==> #[trigger] tokens[j] != word,
    ensures
        occurrences(tokens, word) == 0,
    decreases tokens.len(),
{
    if tokens.len() > 0 {
        assert(tokens.last() == tokens[tokens.len() - 1]);
        assert forall|j: int| 0 <= j < tokens.drop_last().len() implies #[trigger] tokens.drop_last()[j]
            != word by {
            assert(tokens.drop_last()[j] == tokens[j]);
        }
        lemma_occurrences_absent(tokens.drop_last(), word);
    }
}

/// How many times `word` stands in `tokens`.
pub fn times_in(tokens: &Vec<String>, word: &str) -> (times: usize)
    ensures
        times == occurrences(tokens.deep_view(), word@),
{
    let wanted = word.to_owned();
    let ghost all = tokens.deep_view();
    let mut times: usize = 0;
    let mut i: usize = 0;
    while i < tokens.len()
        invariant
            i <= tokens.len(),
            all == tokens.deep_view(),
            wanted@ == word@,
            times <= i,
            times == occurrences(all.take(i as int), word@),
        decreases tokens.len() - i,
    {
        proof {
            assert(all.take(i + 1).drop_last() =~= all.take(i as int));
            assert(all.take(i + 1).last() == tokens[i as int]@);
        }
        if tokens[i] == wanted {
            times += 1;
        }
        i += 1;
    }
    assert(all.take(tokens.len() as int) =~= all);
    times
}

/// Whether a count of `seen` can rise by `more` without passing `u32::MAX`.
pub fn leaves_room(seen: u32, more: usize) -> (ok: bool)
    ensures
        ok == (seen + more <= u32::MAX),
{
    more <= (u32::MAX - seen) as usize
}

/// What learning does to each single count: the count of (`label`, `word`)
/// rises by the number of times `word` stands in `tokens` where `label` is
/// the bucket learned under and `word` is counted, and stays as it was
/// everywhere else.
pub proof fn lemma_learned_count(
    table: Table,
    stopwords: Set<Seq<char>>,
    tokens: Seq<Seq<char>>,
    bucket: Seq<char>,
    label: Seq<char>,
    word: Seq<char>,
)
    ensures
        count_in(learned(table, stopwords, tokens, bucket), label, word) == count_in(
            table,
            label,
            word,
        ) + gain(stopwords, tokens, bucket, label, word),
    decreases tokens.len(),
{
    if tokens.len() > 0 {
        lemma_learned_count(table, stopwords, tokens.drop_last(), bucket, label, word);
    }
}

/// A token that is empty or a stopword is passed over: learning changes no
/// count of such a word, under any label.
pub proof fn lemma_learned_passes_over(
    table: Table,
    stopwords: Set<Seq<char>>,
    tokens: Seq<Seq<char>>,
    bucket: Seq<char>,
    label: Seq<char>,
    word: Seq<char>,
)
    requires
        word.len() == 0 || stopwords.contains(word),
    ensures
        count_in(learned(table, stopwords, tokens, bucket), label, word) == count_in(
            table,
            label,
            word,
        ),
{
    lemma_learned_count(table, stopwords, tokens, bucket, label, word);
}

/// Learning keeps a sound table sound, where every count fits.
pub proof fn lemma_learned_sound(
    table: Table,
    stopwords: Set<Seq<char>>,
    tokens: Seq<Seq<char>>,
    bucket: Seq<char>,
)
    requires
        sound(table, stopwords),
        fits(table, stopwords, tokens, bucket),
    ensures
        sound(learned(table, stopwords, tokens, bucket), stopwords),
{
    let after = learned(table, stopwords, tokens, bucket);
    assert forall|k: (Seq<char>, Seq<char>)| #[trigger] after.contains_key(k) implies 0 < after[k]
        <= u32::MAX && counted(stopwords, k.1) by {
        lemma_learned_count(table, stopwords, tokens, bucket, k.0, k.1);
        lemma_learned_keys(table, stopwords, tokens, bucket, k);
        if k.0 == bucket && counted(stopwords, k.1) {
            assert(count_in(table, bucket, k.1) + occurrences(tokens, k.1) <= u32::MAX);
        }
    }
}

/// The keys of the learned table are the keys from before and, under the
/// bucket learned under, the counted words that stand in the tokens.
pub proof fn lemma_learned_keys(
    table: Table,
    stopwords: Set<Seq<char>>,
    tokens: Seq<Seq<char>>,
    bucket: Seq<char>,
    k: (Seq<char>, Seq<char>),
)
    ensures
        learned(table, stopwords, tokens, bucket).contains_key(k) <==> table.contains_key(k) || (k.0
            == bucket && counted(stopwords, k.1) && occurrences(tokens, k.1) > 0),
    decreases tokens.len(),
{
    if tokens.len() > 0 {
        lemma_learned_keys(table, stopwords, tokens.drop_last(), bucket, k);
    }
}

/// The order of two samples does not matter: learning one and then the
/// other gives the same table as learning them the other way round.
pub proof fn lemma_learning_order(
    table: Table,
    stopwords: Set<Seq<char>>,
    first: Seq<Seq<char>>,
    first_bucket: Seq<char>,
    second: Seq<Seq<char>>,
    second_bucket: Seq<char>,
)
    ensures
        learned(
            learned(table, stopwords, first, first_bucket),
            stopwords,
            second,
            second_bucket,
        ) == learned(
            learned(table, stopwords, second, second_bucket),
            stopwords,
            first,
            first_bucket,
        ),
{
    let one = learned(table, stopwords, first, first_bucket);
    let other = learned(table, stopwords, second, second_bucket);
    let one_way = learned(one, stopwords, second, second_bucket);
    let other_way = learned(other, stopwords, first, first_bucket);
    assert forall|k: (Seq<char>, Seq<char>)| one_way.contains_key(k) <==> other_way.contains_key(
        k,
    ) by {
        lemma_learned_keys(table, stopwords, first, first_bucket, k);
        lemma_learned_keys(one, stopwords, second, second_bucket, k);
        lemma_learned_keys(table, stopwords, second, second_bucket, k);
        lemma_learned_keys(other, stopwords, first, first_bucket, k);
    }
    assert forall|k: (Seq<char>, Seq<char>)| one_way.contains_key(k) implies one_way[k]
        == other_way[k] by {
        lemma_learned_count(table, stopwords, first, first_bucket, k.0, k.1);
        lemma_learned_count(one, stopwords, second, second_bucket, k.0, k.1);
        lemma_learned_count(table, stopwords, second, second_bucket, k.0, k.1);
        lemma_learned_count(other, stopwords, first, first_bucket, k.0, k.1);
        assert(one_way[k] == count_in(one_way, k.0, k.1));
        assert(other_way[k] == count_in(other_way, k.0, k.1));
    }
    assert(one_way =~= other_way);
}

/// Where two samples fit one after the other, they fit in the other order
/// as well.
pub proof fn lemma_fits_either_order(
    table: Table,
    stopwords: Set<Seq<char>>,
    first: Seq<Seq<char>>,
    first_bucket: Seq<char>,
    second: Seq<Seq<char>>,
    second_bucket: Seq<char>,
)
    requires
        fits(table, stopwords, first, first_bucket),
        fits(learned(table, stopwords, first, first_bucket), stopwords, second, second_bucket),
    ensures
        fits(table, stopwords, second, second_bucket),
        fits(learned(table, stopwords, second, second_bucket), stopwords, first, first_bucket),
{
    let one = learned(table, stopwords, first, first_bucket);
    let other = learned(table, stopwords, second, second_bucket);
    assert forall|word: Seq<char>| counted(stopwords, word) implies count_in(
        table,
        second_bucket,
        word,
    ) + #[trigger] occurrences(second, word) <= u32::MAX by {
        lemma_learned_count(table, stopwords, first, first_bucket, second_bucket, word);
        assert(count_in(one, second_bucket, word) + occurrences(second, word) <= u32::MAX);
    }
    assert forall|word: Seq<char>| counted(stopwords, word) implies count_in(
        other,
        first_bucket,
        word,
    ) + #[trigger] occurrences(first, word) <= u32::MAX by {
        lemma_learned_count(table, stopwords, first, first_bucket, second_bucket, word);
        lemma_learned_count(table, stopwords, second, second_bucket, first_bucket, word);
        assert(count_in(one, second_bucket, word) + occurrences(second, word) <= u32::MAX);
        assert(count_in(table, first_bucket, word) + occurrences(first, word) <= u32::MAX);
    }
}

/// Learning the same tokens under the same bucket twice raises every count
/// by exactly twice what learning them once raises it by. From a table in
/// which a pair has no count yet, the count after two rounds is double the
/// count after one.
pub proof fn lemma_learning_twice_doubles(
    table: Table,
    stopwords: Set<Seq<char>>,
    tokens: Seq<Seq<char>>,
    bucket: Seq<char>,
    label: Seq<char>,
    word: Seq<char>,
)
    ensures
        ({
            let once = learned(table, stopwords, tokens, bucket);
            let twice = learned(once, stopwords, tokens, bucket);
            &&& count_in(twice, label, word) - count_in(table, label, word) == 2 * (count_in(
                once,
                label,
                word,
            ) - count_in(table, label, word))
            &&& count_in(table, label, word) == 0 ==> count_in(twice, label, word) == 2 * count_in(
                once,
                label,
                word,
            )
        }),
{
    let once = learned(table, stopwords, tokens, bucket);
    lemma_learned_count(table, stopwords, tokens, bucket, label, word);
    lemma_learned_count(once, stopwords, tokens, bucket, label, word);
}

} // verus!
