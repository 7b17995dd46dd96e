//! The scores of one word: its labels with their counts, the highest count
//! first, and labels of equal count in the order of the labels.

use crate::matrix::{distinct_keys, lemma_table_entry, place_of, table_of, Categorization};
use crate::order::{
    lemma_lex_asymmetric, lemma_lex_irreflexive, lemma_lex_total, lemma_lex_transitive, lex_lt,
    precedes,
};
use crate::table::Table;
use vstd::prelude::*;

verus! {

/// The score `a` is listed before the score `b`: its count is higher, or
/// the counts are equal and its label comes first.
pub open spec fn ranks_before(a: (Seq<char>, u32), b: (Seq<char>, u32)) -> bool {
    a.1 > b.1 || (a.1 == b.1 && lex_lt(a.0, b.0))
}

/// Each score of `scores` is listed before all that follow it.
pub open spec fn ranked(scores: Seq<(Seq<char>, u32)>) -> bool {
    forall|i: int, j: int| 0 <= i < j < scores.len() ==> ranks_before(scores[i], scores[j])
}

/// `scores` lists the scores of `word` in `table`: each label that has a
/// count for the word, once, with that count, in ranked order.
pub open spec fn is_ranking(table: Table, word: Seq<char>, scores: Seq<(Seq<char>, u32)>) -> bool {
    &&& forall|i: int|
        0 <= i < scores.len() ==> table.contains_key(((#[trigger] scores[i]).0, word))
            && table[(scores[i].0, word)] == scores[i].1
    &&& forall|label: Seq<char>| #[trigger]
        table.contains_key((label, word)) ==> exists|i: int|
            0 <= i < scores.len() && (#[trigger] scores[i]).0 == label
    &&& ranked(scores)
}

/// Listing before is transitive.
pub proof fn lemma_ranks_transitive(a: (Seq<char>, u32), b: (Seq<char>, u32), c: (Seq<char>, u32))
    requires
        ranks_before(a, b),
        ranks_before(b, c),
    ensures
        ranks_before(a, c),
{
    if a.1 == b.1 && b.1 == c.1 {
        lemma_lex_transitive(a.0, b.0, c.0);
    }
}

/// Of two scores with different labels one is listed before the other.
pub proof fn lemma_ranks_total(a: (Seq<char>, u32), b: (Seq<char>, u32))
    requires
        a.0 != b.0,
    ensures
        ranks_before(a, b) || ranks_before(b, a),
{
    lemma_lex_total(a.0, b.0);
}

/// In a ranked list the counts never rise.
pub proof fn lemma_ranked_counts_fall(scores: Seq<(Seq<char>, u32)>)
    requires
        ranked(scores),
    ensures
        forall|i: int, j: int| 0 <= i < j < scores.len() ==> scores[i].1 >= scores[j].1,
{
    assert forall|i: int, j: int| 0 <= i < j < scores.len() implies scores[i].1 >= scores[j].1 by {
        assert(ranks_before(scores[i], scores[j]));
    }
}

/// No score is listed before itself, and no two scores before each other.
pub proof fn lemma_ranks_strict(a: (Seq<char>, u32), b: (Seq<char>, u32))
    requires
        ranks_before(a, b),
    ensures
        a != b,
        !ranks_before(b, a),
{
    lemma_lex_irreflexive(a.0);
    if a.1 == b.1 {
        lemma_lex_asymmetric(a.0, b.0);
    }
}

/// Two ranked lists that hold the same scores are the same list.
pub proof fn lemma_ranked_unique(a: Seq<(Seq<char>, u32)>, b: Seq<(Seq<char>, u32)>)
    requires
        ranked(a),
        ranked(b),
        forall|i: int| 0 <= i < a.len() ==> b.contains(#[trigger] a[i]),
        forall|j: int| 0 <= j < b.len() ==> a.contains(#[trigger] b[j]),
    ensures
        a == b,
    decreases a.len(),
{
    if a.len() == 0 {
        if b.len() > 0 {
            assert(a.contains(b[0]));
        }
        assert(a =~= b);
    } else {
        assert(b.contains(a[0]));
        let j = choose|j: int| 0 <= j < b.len() && b[j] == a[0];
        assert(a.contains(b[0]));
        let i = choose|i: int| 0 <= i < a.len() && a[i] == b[0];
        if j > 0 {
            assert(ranks_before(b[0], b[j]));
            lemma_ranks_strict(b[0], b[j]);
            assert(ranks_before(a[0], a[i]));
        }
        assert(a[0] == b[0]);
        let rest_a = a.drop_first();
        let rest_b = b.drop_first();
        assert forall|n: int| 0 <= n < rest_a.len() implies rest_b.contains(
            #[trigger] rest_a[n],
        ) by {
            assert(rest_a[n] == a[n + 1]);
            assert(b.contains(a[n + 1]));
            let m = choose|m: int| 0 <= m < b.len() && b[m] == a[n + 1];
            assert(ranks_before(a[0], a[n + 1]));
            lemma_ranks_strict(a[0], a[n + 1]);
            assert(rest_b[m - 1] == b[m]);
        }
        assert forall|n: int| 0 <= n < rest_b.len() implies rest_a.contains(
            #[trigger] rest_b[n],
        ) by {
            assert(rest_b[n] == b[n + 1]);
            assert(a.contains(b[n + 1]));
            let m = choose|m: int| 0 <= m < a.len() && a[m] == b[n + 1];
            assert(ranks_before(b[0], b[n + 1]));
            lemma_ranks_strict(b[0], b[n + 1]);
            assert(rest_a[m - 1] == a[m]);
        }
        assert(ranked(rest_a)) by {
            assert forall|x: int, y: int| 0 <= x < y < rest_a.len() implies ranks_before(
                rest_a[x],
                rest_a[y],
            ) by {
                assert(ranks_before(a[x + 1], a[y + 1]));
            }
        }
        assert(ranked(rest_b)) by {
            assert forall|x: int, y: int| 0 <= x < y < rest_b.len() implies ranks_before(
                rest_b[x],
                rest_b[y],
            ) by {
                assert(ranks_before(b[x + 1], b[y + 1]));
            }
        }
        lemma_ranked_unique(rest_a, rest_b);
        assert(a =~= seq![a[0]] + rest_a);
        assert(b =~= seq![b[0]] + rest_b);
    }
}

/// A word has one ranking in a table: two lists that both are the scores
/// of the word are the same list.
pub proof fn lemma_ranking_unique(
    table: Table,
    word: Seq<char>,
    a: Seq<(Seq<char>, u32)>,
    b: Seq<(Seq<char>, u32)>,
)
    requires
        is_ranking(table, word, a),
        is_ranking(table, word, b),
    ensures
        a == b,
{
    assert forall|i: int| 0 <= i < a.len() implies b.contains(#[trigger] a[i]) by {
        assert(table.contains_key((a[i].0, word)));
        let j = choose|j: int| 0 <= j < b.len() && (#[trigger] b[j]).0 == a[i].0;
        assert(table[(b[j].0, word)] == b[j].1);
        assert(b[j] == a[i]);
    }
    assert forall|j: int| 0 <= j < b.len() implies a.contains(#[trigger] b[j]) by {
        assert(table.contains_key((b[j].0, word)));
        let i = choose|i: int| 0 <= i < a.len() && (#[trigger] a[i]).0 == b[j].0;
        assert(table[(a[i].0, word)] == a[i].1);
        assert(a[i] == b[j]);
    }
    lemma_ranked_unique(a, b);
}

/// The score stems from one of the first `n` entries, which holds `word`.
pub open spec fn backed(
    entries: Seq<(Categorization, u32)>,
    n: int,
    word: Seq<char>,
    score: (Seq<char>, u32),
) -> bool {
    exists|j: int|
        0 <= j < n && (#[trigger] entries[j]).0@ == (score.0, word) && entries[j].1 == score.1
}

/// Some score of `listed` has the label `label`.
pub open spec fn lists(listed: Seq<(Seq<char>, u32)>, label: Seq<char>) -> bool {
    exists|k: int| 0 <= k < listed.len() && (#[trigger] listed[k]).0 == label
}

/// `listed` is the ranked list of the scores of `word` among the first `n`
/// entries.
pub open spec fn ranks_first(
    entries: Seq<(Categorization, u32)>,
    n: int,
    word: Seq<char>,
    listed: Seq<(Seq<char>, u32)>,
) -> bool {
    &&& ranked(listed)
    &&& forall|k: int| 0 <= k < listed.len() ==> backed(entries, n, word, #[trigger] listed[k])
    &&& forall|j: int|
        0 <= j < n && (#[trigger] entries[j]).0.word@ == word ==> lists(
            listed,
            entries[j].0.bucket@,
        )
}

/// An entry for another word leaves the list as it is.
pub proof fn lemma_ranks_first_skip(
    entries: Seq<(Categorization, u32)>,
    n: int,
    word: Seq<char>,
    listed: Seq<(Seq<char>, u32)>,
)
    requires
        0 <= n < entries.len(),
        ranks_first(entries, n, word, listed),
        entries[n].0.word@ != word,
    ensures
        ranks_first(entries, n + 1, word, listed),
{
    assert forall|k: int| 0 <= k < listed.len() implies backed(
        entries,
        n + 1,
        word,
        #[trigger] listed[k],
    ) by {
        assert(backed(entries, n, word, listed[k]));
    }
}

/// The label of the next entry for the word is not listed yet.
pub proof fn lemma_ranks_first_fresh(
    entries: Seq<(Categorization, u32)>,
    n: int,
    word: Seq<char>,
    listed: Seq<(Seq<char>, u32)>,
)
    requires
        distinct_keys(entries),
        0 <= n < entries.len(),
        ranks_first(entries, n, word, listed),
        entries[n].0.word@ == word,
    ensures
        !lists(listed, entries[n].0.bucket@),
{
    if lists(listed, entries[n].0.bucket@) {
        let k = choose|k: int|
            0 <= k < listed.len() && (#[trigger] listed[k]).0 == entries[n].0.bucket@;
        assert(backed(entries, n, word, listed[k]));
        let j = choose|j: int|
            0 <= j < n && (#[trigger] entries[j]).0@ == (listed[k].0, word) && entries[j].1
                == listed[k].1;
        assert(entries[j].0@ != entries[n].0@);
    }
}

/// With the score of the next entry for the word put in at a place that
/// keeps the list ranked, the list covers one entry more.
pub proof fn lemma_ranks_first_insert(
    entries: Seq<(Categorization, u32)>,
    n: int,
    word: Seq<char>,
    listed: Seq<(Seq<char>, u32)>,
    place: int,
)
    requires
        0 <= n < entries.len(),
        ranks_first(entries, n, word, listed),
        entries[n].0.word@ == word,
        0 <= place <= listed.len(),
        ranked(listed.insert(place, (entries[n].0.bucket@, entries[n].1))),
    ensures
        ranks_first(entries, n + 1, word, listed.insert(place, (entries[n].0.bucket@, entries[n].1))),
{
    let new = (entries[n].0.bucket@, entries[n].1);
    let after = listed.insert(place, new);
    assert forall|k: int| 0 <= k < after.len() implies backed(
        entries,
        n + 1,
        word,
        #[trigger] after[k],
    ) by {
        if k < place {
            assert(after[k] == listed[k]);
            assert(backed(entries, n, word, listed[k]));
        } else if k == place {
            assert(entries[n].0@ == (new.0, word));
        } else {
            assert(after[k] == listed[k - 1]);
            assert(backed(entries, n, word, listed[k - 1]));
        }
    }
    assert forall|j: int| 0 <= j < n + 1 && (#[trigger] entries[j]).0.word@ == word implies lists(
        after,
        entries[j].0.bucket@,
    ) by {
        if j == n {
            assert(after[place].0 == entries[j].0.bucket@);
        } else {
            assert(lists(listed, entries[j].0.bucket@));
            let k = choose|k: int|
                0 <= k < listed.len() && (#[trigger] listed[k]).0 == entries[j].0.bucket@;
            if k < place {
                assert(after[k] == listed[k]);
            } else {
                assert(after[k + 1] == listed[k]);
            }
        }
    }
}

/// A list that covers every entry is the ranking of the word in the table.
pub proof fn lemma_ranks_first_all(
    entries: Seq<(Categorization, u32)>,
    word: Seq<char>,
    listed: Seq<(Seq<char>, u32)>,
)
    requires
        distinct_keys(entries),
        ranks_first(entries, entries.len() as int, word, listed),
    ensures
        is_ranking(table_of(entries), word, listed),
{
    let table = table_of(entries);
    assert forall|i: int| 0 <= i < listed.len() implies table.contains_key(
        ((#[trigger] listed[i]).0, word),
    ) && table[(listed[i].0, word)] == listed[i].1 by {
        assert(backed(entries, entries.len() as int, word, listed[i]));
        let j = choose|j: int|
            0 <= j < entries.len() && (#[trigger] entries[j]).0@ == (listed[i].0, word)
                && entries[j].1 == listed[i].1;
        lemma_table_entry(entries, j);
    }
    assert forall|label: Seq<char>| #[trigger] table.contains_key((label, word)) implies exists|
        i: int,
    |
        0 <= i < listed.len() && (#[trigger] listed[i]).0 == label by {
        let j = place_of(entries, (label, word));
        assert(entries[j].0.word@ == word);
        assert(lists(listed, entries[j].0.bucket@));
    }
}

/// Puts the score (`label`, `count`) at its place in a ranked list that
/// does not hold the label yet. Returns the place.
pub fn insert_ranked(scores: &mut Vec<(String, u32)>, label: String, count: u32) -> (place: usize)
    requires
        ranked(old(scores).deep_view()),
        forall|i: int| 0 <= i < old(scores).len() ==> (#[trigger] old(scores)[i]).0@ != label@,
    ensures
        place <= old(scores).len(),
        final(scores).deep_view() == old(scores).deep_view().insert(place as int, (label@, count)),
        ranked(final(scores).deep_view()),
{
    let ghost before = scores.deep_view();
    let ghost new = (label@, count);
    let mut place: usize = 0;
    while place < scores.len() && !(count > scores[place].1 || (count == scores[place].1
        && precedes(label.as_str(), scores[place].0.as_str())))
        invariant
            place <= scores.len(),
            before == scores.deep_view(),
            new == (label@, count),
            *scores == *old(scores),
            forall|i: int| 0 <= i < scores.len() ==> (#[trigger] scores[i]).0@ != label@,
            forall|j: int| 0 <= j < place ==> ranks_before(#[trigger] before[j], new),
        decreases scores.len() - place,
    {
        proof {
            assert(before[place as int] == (scores[place as int].0@, scores[place as int].1));
            lemma_ranks_total(new, before[place as int]);
        }
        place += 1;
    }
    proof {
        if place < scores.len() {
            assert(before[place as int] == (scores[place as int].0@, scores[place as int].1));
            assert(ranks_before(new, before[place as int]));
        }
        let after = before.insert(place as int, new);
        assert forall|i: int, j: int| 0 <= i < j < after.len() implies ranks_before(
            after[i],
            after[j],
        ) by {
            if j < place {
                assert(ranks_before(before[i], before[j]));
            } else if j == place {
                assert(ranks_before(before[i], new));
            } else if i == place {
                if j - 1 > place {
                    assert(ranks_before(before[place as int], before[j - 1]));
                    lemma_ranks_transitive(new, before[place as int], before[j - 1]);
                }
            } else if i < place {
                assert(ranks_before(before[i], before[j - 1]));
            } else {
                assert(ranks_before(before[i - 1], before[j - 1]));
            }
        }
    }
    scores.insert(place, (label, count));
    assert(scores.deep_view() =~= before.insert(place as int, new));
    place
}

} // verus!
