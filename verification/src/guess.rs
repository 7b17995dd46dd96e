//! Guessing the label of a text: each label is credited with the counts of
//! the text's tokens under it, and the labels with the highest total win.

use crate::order::{
    lemma_lex_asymmetric, lemma_lex_irreflexive, lemma_lex_total, lemma_lex_transitive, lex_lt,
    precedes,
};
use crate::scores::{is_ranking, ranks_before};
use crate::table::{count_in, Table};
use vstd::prelude::*;

verus! {

/// The total of `label` over `tokens`: the sum, token by token, of the
/// count of the token under the label. A token that stands twice counts twice.
pub open spec fn score(table: Table, tokens: Seq<Seq<char>>, label: Seq<char>) -> nat
    decreases tokens.len(),
{
    if tokens.len() == 0 {
        0
    } else {
        score(table, tokens.drop_last(), label) + count_in(table, label, tokens.last())
    }
}

/// `label` has a total above zero that no other label's total exceeds.
pub open spec fn wins(table: Table, tokens: Seq<Seq<char>>, label: Seq<char>) -> bool {
    &&& score(table, tokens, label) > 0
    &&& forall|other: Seq<char>| #[trigger] score(table, tokens, other) <= score(table, tokens, label)
}

/// Each label comes before all that follow it.
pub open spec fn ascending(labels: Seq<Seq<char>>) -> bool {
    forall|i: int, j: int| 0 <= i < j < labels.len() ==> lex_lt(labels[i], labels[j])
}

/// `labels` is the guess for `tokens`: the winning labels, each once, in
/// the order of the labels.
pub open spec fn is_guess(table: Table, tokens: Seq<Seq<char>>, labels: Seq<Seq<char>>) -> bool {
    &&& ascending(labels)
    &&& forall|label: Seq<char>| #[trigger] labels.contains(label) <==> wins(table, tokens, label)
}

/// Ties are kept: a label whose total equals that of a label in the guess is
/// in the guess as well.
pub proof fn lemma_guess_keeps_ties(
    table: Table,
    tokens: Seq<Seq<char>>,
    labels: Seq<Seq<char>>,
    one: Seq<char>,
    other: Seq<char>,
)
    requires
        is_guess(table, tokens, labels),
        labels.contains(one),
        score(table, tokens, other) == score(table, tokens, one),
    ensures
        labels.contains(other),
{
    assert(wins(table, tokens, one));
    assert forall|l: Seq<char>| #[trigger] score(table, tokens, l) <= score(
        table,
        tokens,
        other,
    ) by {
        assert(score(table, tokens, l) <= score(table, tokens, one));
    }
    assert(wins(table, tokens, other));
}

/// Two ascending lists that hold the same labels are the same list.
pub proof fn lemma_ascending_unique(a: Seq<Seq<char>>, b: Seq<Seq<char>>)
    requires
        ascending(a),
        ascending(b),
        forall|label: Seq<char>| a.contains(label) <==> b.contains(label),
    ensures
        a == b,
    decreases a.len(),
{
    if a.len() == 0 {
        if b.len() > 0 {
            assert(b.contains(b[0]));
            assert(a.contains(b[0]));
        }
        assert(a =~= b);
    } else {
        assert(a.contains(a[0]));
        assert(b.contains(a[0]));
        let j = choose|j: int| 0 <= j < b.len() && b[j] == a[0];
        assert(b.contains(b[0]));
        assert(a.contains(b[0]));
        let i = choose|i: int| 0 <= i < a.len() && a[i] == b[0];
        if j > 0 {
            assert(lex_lt(b[0], b[j]));
            lemma_lex_irreflexive(b[0]);
            lemma_lex_asymmetric(b[0], b[j]);
            assert(lex_lt(a[0], a[i]));
        }
        assert(a[0] == b[0]);
        let rest_a = a.drop_first();
        let rest_b = b.drop_first();
        assert forall|label: Seq<char>| rest_a.contains(label) implies rest_b.contains(label) by {
            let n = choose|n: int| 0 <= n < rest_a.len() && rest_a[n] == label;
            assert(a[n + 1] == label);
            assert(a.contains(label));
            assert(b.contains(label));
            let m = choose|m: int| 0 <= m < b.len() && b[m] == label;
            assert(lex_lt(a[0], a[n + 1]));
            lemma_lex_irreflexive(a[0]);
            assert(rest_b[m - 1] == b[m]);
        }
        assert forall|label: Seq<char>| rest_b.contains(label) implies rest_a.contains(label) by {
            let n = choose|n: int| 0 <= n < rest_b.len() && rest_b[n] == label;
            assert(b[n + 1] == label);
            assert(b.contains(label));
            assert(a.contains(label));
            let m = choose|m: int| 0 <= m < a.len() && a[m] == label;
            assert(lex_lt(b[0], b[n + 1]));
            lemma_lex_irreflexive(b[0]);
            assert(rest_a[m - 1] == a[m]);
        }
        assert(ascending(rest_a)) by {
            assert forall|x: int, y: int| 0 <= x < y < rest_a.len() implies lex_lt(
                rest_a[x],
                rest_a[y],
            ) by {
                assert(lex_lt(a[x + 1], a[y + 1]));
            }
        }
        assert(ascending(rest_b)) by {
            assert forall|x: int, y: int| 0 <= x < y < rest_b.len() implies lex_lt(
                rest_b[x],
                rest_b[y],
            ) by {
                assert(lex_lt(b[x + 1], b[y + 1]));
            }
        }
        lemma_ascending_unique(rest_a, rest_b);
        assert(a =~= seq![a[0]] + rest_a);
        assert(b =~= seq![b[0]] + rest_b);
    }
}

/// A text has one guess in a table: two lists that both are the guess for
/// the tokens are the same list.
pub proof fn lemma_guess_unique(
    table: Table,
    tokens: Seq<Seq<char>>,
    a: Seq<Seq<char>>,
    b: Seq<Seq<char>>,
)
    requires
        is_guess(table, tokens, a),
        is_guess(table, tokens, b),
    ensures
        a == b,
{
    assert forall|label: Seq<char>| a.contains(label) <==> b.contains(label) by {
        assert(a.contains(label) <==> wins(table, tokens, label));
        assert(b.contains(label) <==> wins(table, tokens, label));
    }
    lemma_ascending_unique(a, b);
}

/// What a list of running totals holds for `label`: the sum of the amounts
/// that stand under it.
pub open spec fn total_of(totals: Seq<(Seq<char>, u128)>, label: Seq<char>) -> nat
    decreases totals.len(),
{
    if totals.len() == 0 {
        0
    } else {
        total_of(totals.drop_last(), label) + if totals.last().0 == label {
            totals.last().1 as nat
        } else {
            0nat
        }
    }
}

/// What a list of scores gives to `label`: the sum of the counts that stand
/// under it.
pub open spec fn credited(scores: Seq<(Seq<char>, u32)>, label: Seq<char>) -> nat
    decreases scores.len(),
{
    if scores.len() == 0 {
        0
    } else {
        credited(scores.drop_last(), label) + if scores.last().0 == label {
            scores.last().1 as nat
        } else {
            0nat
        }
    }
}

/// The running totals stand in the order of their labels, each label once.
pub open spec fn by_label(totals: Seq<(Seq<char>, u128)>) -> bool {
    forall|i: int, j: int| 0 <= i < j < totals.len() ==> lex_lt(totals[i].0, totals[j].0)
}

/// `label` has the highest total of the list, and that total is above zero.
pub open spec fn leads(totals: Seq<(Seq<char>, u128)>, label: Seq<char>) -> bool {
    &&& total_of(totals, label) > 0
    &&& forall|other: Seq<char>| #[trigger] total_of(totals, other) <= total_of(totals, label)
}

/// A label that stands nowhere in the list has the total zero.
pub proof fn lemma_total_unlisted(totals: Seq<(Seq<char>, u128)>, label: Seq<char>)
    requires
        forall|m: int| 0 <= m < totals.len() ==> (#[trigger] totals[m]).0 != label,
    ensures
        total_of(totals, label) == 0,
    decreases totals.len(),
{
    if totals.len() > 0 {
        assert(totals.last() == totals[totals.len() - 1]);
        assert forall|m: int| 0 <= m < totals.drop_last().len() implies (
        #[trigger] totals.drop_last()[m]).0 != label by {
            assert(totals.drop_last()[m] == totals[m]);
        }
        lemma_total_unlisted(totals.drop_last(), label);
    }
}

/// In a list ordered by label, the total of a listed label is the amount
/// that stands with it.
pub proof fn lemma_total_listed(totals: Seq<(Seq<char>, u128)>, m: int)
    requires
        by_label(totals),
        0 <= m < totals.len(),
    ensures
        total_of(totals, totals[m].0) == totals[m].1,
    decreases totals.len(),
{
    let label = totals[m].0;
    let rest = totals.drop_last();
    if m == totals.len() - 1 {
        assert forall|j: int| 0 <= j < rest.len() implies (#[trigger] rest[j]).0 != label by {
            assert(lex_lt(totals[j].0, totals[m].0));
            lemma_lex_irreflexive(label);
        }
        lemma_total_unlisted(rest, label);
    } else {
        assert(lex_lt(totals[m].0, totals[totals.len() - 1].0));
        lemma_lex_irreflexive(label);
        assert(by_label(rest)) by {
            assert forall|i: int, j: int| 0 <= i < j < rest.len() implies lex_lt(
                rest[i].0,
                rest[j].0,
            ) by {
                assert(lex_lt(totals[i].0, totals[j].0));
            }
        }
        assert(rest[m] == totals[m]);
        lemma_total_listed(rest, m);
    }
}

/// A new entry raises the total of its label by its amount, wherever it is
/// put in, and no other total.
pub proof fn lemma_total_insert(
    totals: Seq<(Seq<char>, u128)>,
    place: int,
    entry: (Seq<char>, u128),
    label: Seq<char>,
)
    requires
        0 <= place <= totals.len(),
    ensures
        total_of(totals.insert(place, entry), label) == total_of(totals, label) + if entry.0
            == label {
            entry.1 as nat
        } else {
            0nat
        },
    decreases totals.len(),
{
    let longer = totals.insert(place, entry);
    if place == totals.len() {
        assert(longer.drop_last() =~= totals);
        assert(longer.last() == entry);
    } else {
        assert(longer.drop_last() =~= totals.drop_last().insert(place, entry));
        assert(longer.last() == totals.last());
        lemma_total_insert(totals.drop_last(), place, entry, label);
    }
}

/// A changed amount changes the total of its label by the difference, and
/// no other total.
pub proof fn lemma_total_update(
    totals: Seq<(Seq<char>, u128)>,
    place: int,
    amount: u128,
    label: Seq<char>,
)
    requires
        0 <= place < totals.len(),
        amount >= totals[place].1,
    ensures
        total_of(totals.update(place, (totals[place].0, amount)), label) == total_of(totals, label)
            + if totals[place].0 == label {
            (amount - totals[place].1) as nat
        } else {
            0nat
        },
    decreases totals.len(),
{
    let changed = totals.update(place, (totals[place].0, amount));
    if place == totals.len() - 1 {
        assert(changed.drop_last() =~= totals.drop_last());
    } else {
        assert(changed.drop_last() =~= totals.drop_last().update(place, (totals[place].0, amount)));
        assert(changed.last() == totals.last());
        assert(totals.drop_last()[place] == totals[place]);
        lemma_total_update(totals.drop_last(), place, amount, label);
    }
}

/// A label that stands nowhere in the scores is given nothing.
pub proof fn lemma_credited_unlisted(scores: Seq<(Seq<char>, u32)>, label: Seq<char>)
    requires
        forall|m: int| 0 <= m < scores.len() ==> (#[trigger] scores[m]).0 != label,
    ensures
        credited(scores, label) == 0,
    decreases scores.len(),
{
    if scores.len() > 0 {
        assert(scores.last() == scores[scores.len() - 1]);
        assert forall|m: int| 0 <= m < scores.drop_last().len() implies (
        #[trigger] scores.drop_last()[m]).0 != label by {
            assert(scores.drop_last()[m] == scores[m]);
        }
        lemma_credited_unlisted(scores.drop_last(), label);
    }
}

/// The first scores of a list give a label no more than the whole list.
pub proof fn lemma_credited_prefix(scores: Seq<(Seq<char>, u32)>, n: int, label: Seq<char>)
    requires
        0 <= n <= scores.len(),
    ensures
        credited(scores.take(n), label) <= credited(scores, label),
    decreases scores.len(),
{
    if n < scores.len() {
        assert(scores.drop_last().take(n) =~= scores.take(n));
        lemma_credited_prefix(scores.drop_last(), n, label);
    } else {
        assert(scores.take(n) =~= scores);
    }
}

/// The scores of a word give each label what the table counts for the
/// word under it.
pub proof fn lemma_credited_ranking(
    table: Table,
    word: Seq<char>,
    scores: Seq<(Seq<char>, u32)>,
    label: Seq<char>,
)
    requires
        is_ranking(table, word, scores),
    ensures
        credited(scores, label) == count_in(table, label, word),
{
    if exists|m: int| 0 <= m < scores.len() && (#[trigger] scores[m]).0 == label {
        let m = choose|m: int| 0 <= m < scores.len() && (#[trigger] scores[m]).0 == label;
        lemma_credited_once(table, word, scores, scores.len() as int, m);
        assert(scores.take(scores.len() as int) =~= scores);
    } else {
        lemma_credited_unlisted(scores, label);
        assert(!table.contains_key((label, word)));
    }
}

/// Among the first `n` scores of a word, a listed label is given its own
/// count and nothing more.
pub proof fn lemma_credited_once(
    table: Table,
    word: Seq<char>,
    scores: Seq<(Seq<char>, u32)>,
    n: int,
    m: int,
)
    requires
        is_ranking(table, word, scores),
        0 <= m < n <= scores.len(),
    ensures
        credited(scores.take(n), scores[m].0) == scores[m].1,
    decreases n,
{
    let label = scores[m].0;
    let first = scores.take(n);
    assert(first.drop_last() =~= scores.take(n - 1));
    assert(first.last() == scores[n - 1]);
    if m == n - 1 {
        assert forall|j: int| 0 <= j < n - 1 implies (#[trigger] scores.take(n - 1)[j]).0
            != label by {
            lemma_ranking_distinct(table, word, scores, j, m);
        }
        lemma_credited_unlisted(scores.take(n - 1), label);
    } else {
        lemma_ranking_distinct(table, word, scores, m, n - 1);
        lemma_credited_once(table, word, scores, n - 1, m);
    }
}

/// No label stands twice in the scores of a word.
pub proof fn lemma_ranking_distinct(
    table: Table,
    word: Seq<char>,
    scores: Seq<(Seq<char>, u32)>,
    i: int,
    j: int,
)
    requires
        is_ranking(table, word, scores),
        0 <= i < j < scores.len(),
    ensures
        scores[i].0 != scores[j].0,
{
    assert(ranks_before(scores[i], scores[j]));
    assert(table[(scores[i].0, word)] == scores[i].1);
    assert(table[(scores[j].0, word)] == scores[j].1);
    lemma_lex_irreflexive(scores[i].0);
}

/// Where no count passes `u32::MAX`, a total over `n` tokens does not pass
/// `n` times as much.
pub proof fn lemma_score_bounded(table: Table, tokens: Seq<Seq<char>>, label: Seq<char>)
    requires
        forall|k: (Seq<char>, Seq<char>)| #[trigger] table.contains_key(k) ==> table[k] <= u32::MAX,
    ensures
        score(table, tokens, label) <= tokens.len() * u32::MAX,
    decreases tokens.len(),
{
    if tokens.len() > 0 {
        lemma_score_bounded(table, tokens.drop_last(), label);
        if table.contains_key((label, tokens.last())) {
            assert(table[(label, tokens.last())] <= u32::MAX);
        }
    }
}

/// Adds `amount` to the running total of `label`, which gets an entry at
/// its place in the order of the labels if it has none yet. Returns the
/// place of the label's entry.
pub fn credit(totals: &mut Vec<(String, u128)>, label: &str, amount: u32) -> (place: usize)
    requires
        by_label(old(totals).deep_view()),
        total_of(old(totals).deep_view(), label@) + amount <= u128::MAX,
    ensures
        place <= old(totals).len(),
        final(totals).deep_view() == if place < old(totals).len() && old(totals)[place as int].0@
            == label@ {
            old(totals).deep_view().update(
                place as int,
                (label@, (old(totals)[place as int].1 + amount) as u128),
            )
        } else {
            old(totals).deep_view().insert(place as int, (label@, amount as u128))
        },
        by_label(final(totals).deep_view()),
        forall|l: Seq<char>| #[trigger]
            total_of(final(totals).deep_view(), l) == total_of(old(totals).deep_view(), l) + if l
                == label@ {
                amount as nat
            } else {
                0nat
            },
{
    let ghost before = totals.deep_view();
    let mut place: usize = 0;
    while place < totals.len() && precedes(totals[place].0.as_str(), label)
        invariant
            place <= totals.len(),
            before == totals.deep_view(),
            forall|j: int| 0 <= j < place ==> lex_lt((#[trigger] before[j]).0, label@),
        decreases totals.len() - place,
    {
        assert(before[place as int].0 == totals[place as int].0@);
        place += 1;
    }
    if place < totals.len() && !precedes(label, totals[place].0.as_str()) {
        proof {
            assert(before[place as int] == (totals[place as int].0@, totals[place as int].1));
            if before[place as int].0 != label@ {
                lemma_lex_total(before[place as int].0, label@);
            }
            lemma_total_listed(before, place as int);
        }
        let sum: u128 = totals[place].1 + amount as u128;
        totals[place].1 = sum;
        proof {
            let after = totals.deep_view();
            assert(after =~= before.update(place as int, (before[place as int].0, sum)));
            assert(by_label(after)) by {
                assert forall|i: int, j: int| 0 <= i < j < after.len() implies lex_lt(
                    after[i].0,
                    after[j].0,
                ) by {
                    assert(lex_lt(before[i].0, before[j].0));
                }
            }
            assert forall|l: Seq<char>| #[trigger]
                total_of(after, l) == total_of(before, l) + if l == label@ {
                    amount as nat
                } else {
                    0nat
                } by {
                lemma_total_update(before, place as int, sum, l);
            }
        }
    } else {
        let ghost entry = (label@, amount as u128);
        proof {
            let after = before.insert(place as int, entry);
            if place < totals.len() {
                assert(before[place as int].0 == totals[place as int].0@);
            }
            assert(by_label(after)) by {
                assert forall|i: int, j: int| 0 <= i < j < after.len() implies lex_lt(
                    after[i].0,
                    after[j].0,
                ) by {
                    if j < place {
                        assert(lex_lt(before[i].0, before[j].0));
                    } else if j == place {
                        assert(lex_lt(before[i].0, label@));
                    } else if i == place {
                        if j - 1 > place {
                            assert(lex_lt(before[place as int].0, before[j - 1].0));
                            lemma_lex_transitive(label@, before[place as int].0, before[j - 1].0);
                        }
                    } else if i < place {
                        assert(lex_lt(before[i].0, before[j - 1].0));
                    } else {
                        assert(lex_lt(before[i - 1].0, before[j - 1].0));
                    }
                }
            }
            assert forall|l: Seq<char>| #[trigger]
                total_of(after, l) == total_of(before, l) + if l == label@ {
                    amount as nat
                } else {
                    0nat
                } by {
                lemma_total_insert(before, place as int, entry, l);
            }
        }
        proof {
            if place < totals.len() && totals[place as int].0@ == label@ {
                lemma_lex_irreflexive(label@);
            }
        }
        totals.insert(place, (label.to_owned(), amount as u128));
        assert(totals.deep_view() =~= before.insert(place as int, entry));
    }
    place
}

/// A label with a total above zero stands in the list.
pub proof fn lemma_total_positive_listed(totals: Seq<(Seq<char>, u128)>, label: Seq<char>)
    requires
        total_of(totals, label) > 0,
    ensures
        exists|m: int| 0 <= m < totals.len() && (#[trigger] totals[m]).0 == label,
{
    if forall|m: int| 0 <= m < totals.len() ==> (#[trigger] totals[m]).0 != label {
        lemma_total_unlisted(totals, label);
    }
}

/// Where `best` is the highest amount of a list ordered by label, a label
/// leads exactly when it is listed with that amount and the amount is above zero.
pub proof fn lemma_leads_iff_best(totals: Seq<(Seq<char>, u128)>, best: u128, label: Seq<char>)
    requires
        by_label(totals),
        forall|j: int| 0 <= j < totals.len() ==> (#[trigger] totals[j]).1 <= best,
        best == 0 || exists|j: int| 0 <= j < totals.len() && (#[trigger] totals[j]).1 == best,
    ensures
        leads(totals, label) <==> best > 0 && exists|m: int|
            0 <= m < totals.len() && (#[trigger] totals[m]).0 == label && totals[m].1 == best,
{
    if leads(totals, label) {
        lemma_total_positive_listed(totals, label);
        let m = choose|m: int| 0 <= m < totals.len() && (#[trigger] totals[m]).0 == label;
        lemma_total_listed(totals, m);
        assert(best > 0);
        let j = choose|j: int| 0 <= j < totals.len() && (#[trigger] totals[j]).1 == best;
        lemma_total_listed(totals, j);
        assert(total_of(totals, totals[j].0) <= total_of(totals, label));
        assert(totals[m].1 == best);
    }
    if best > 0 && exists|m: int|
        0 <= m < totals.len() && (#[trigger] totals[m]).0 == label && totals[m].1 == best {
        let m = choose|m: int|
            0 <= m < totals.len() && (#[trigger] totals[m]).0 == label && totals[m].1 == best;
        lemma_total_listed(totals, m);
        assert forall|other: Seq<char>| #[trigger] total_of(totals, other) <= total_of(
            totals,
            label,
        ) by {
            if total_of(totals, other) > 0 {
                lemma_total_positive_listed(totals, other);
                let j = choose|j: int| 0 <= j < totals.len() && (#[trigger] totals[j]).0 == other;
                lemma_total_listed(totals, j);
            }
        }
    }
}

/// The labels that lead the running totals, in the order of the labels.
pub fn leaders(totals: &Vec<(String, u128)>) -> (labels: Vec<String>)
    requires
        by_label(totals.deep_view()),
    ensures
        ascending(labels.deep_view()),
        forall|label: Seq<char>| #[trigger]
            labels.deep_view().contains(label) <==> leads(totals.deep_view(), label),
{
    let ghost all = totals.deep_view();
    let mut best: u128 = 0;
    let mut i: usize = 0;
    while i < totals.len()
        invariant
            i <= totals.len(),
            all == totals.deep_view(),
            forall|j: int| 0 <= j < i ==> (#[trigger] all[j]).1 <= best,
            best == 0 || exists|j: int| 0 <= j < i && (#[trigger] all[j]).1 == best,
        decreases totals.len() - i,
    {
        assert(all[i as int].1 == totals[i as int].1);
        if totals[i].1 > best {
            best = totals[i].1;
        }
        i += 1;
    }
    let mut labels: Vec<String> = Vec::new();
    if best == 0 {
        proof {
            assert forall|label: Seq<char>| #[trigger]
                labels.deep_view().contains(label) <==> leads(all, label) by {
                lemma_leads_iff_best(all, best, label);
            }
        }
        return labels;
    }
    let mut k: usize = 0;
    while k < totals.len()
        invariant
            k <= totals.len(),
            all == totals.deep_view(),
            by_label(all),
            ascending(labels.deep_view()),
            forall|n: int|
                0 <= n < labels.len() ==> exists|m: int|
                    0 <= m < k && (#[trigger] all[m]).0 == (#[trigger] labels.deep_view()[n])
                        && all[m].1 == best,
            forall|m: int|
                0 <= m < k && (#[trigger] all[m]).1 == best ==> labels.deep_view().contains(
                    all[m].0,
                ),
        decreases totals.len() - k,
    {
        assert(all[k as int] == (totals[k as int].0@, totals[k as int].1));
        if totals[k].1 == best {
            let ghost before = labels.deep_view();
            let label = totals[k].0.clone();
            labels.push(label);
            proof {
                let after = labels.deep_view();
                assert(after =~= before.push(all[k as int].0));
                assert forall|a: int, b: int| 0 <= a < b < after.len() implies lex_lt(
                    after[a],
                    after[b],
                ) by {
                    if b < before.len() {
                        assert(lex_lt(before[a], before[b]));
                    } else {
                        let m = choose|m: int|
                            0 <= m < k && (#[trigger] all[m]).0 == before[a] && all[m].1 == best;
                        assert(lex_lt(all[m].0, all[k as int].0));
                    }
                }
                assert forall|n: int| 0 <= n < after.len() implies exists|m: int|
                    0 <= m < k + 1 && (#[trigger] all[m]).0 == (#[trigger] after[n]) && all[m].1
                        == best by {
                    if n < before.len() {
                        let m = choose|m: int|
                            0 <= m < k && (#[trigger] all[m]).0 == before[n] && all[m].1 == best;
                        assert(all[m].0 == after[n]);
                    } else {
                        assert(all[k as int].0 == after[n]);
                    }
                }
                assert forall|m: int| 0 <= m < k + 1 && (#[trigger] all[m]).1
                    == best implies after.contains(all[m].0) by {
                    if m < k {
                        let n = choose|n: int| 0 <= n < before.len() && before[n] == all[m].0;
                        assert(after[n] == all[m].0);
                    } else {
                        assert(after[before.len() as int] == all[m].0);
                    }
                }
            }
        }
        k += 1;
    }
    proof {
        let listed = labels.deep_view();
        assert forall|label: Seq<char>| #[trigger] listed.contains(label) <==> leads(
            all,
            label,
        ) by {
            lemma_leads_iff_best(all, best, label);
            if listed.contains(label) {
                let n = choose|n: int| 0 <= n < listed.len() && listed[n] == label;
                let m = choose|m: int|
                    0 <= m < k && (#[trigger] all[m]).0 == listed[n] && all[m].1 == best;
                assert(all[m].0 == label);
            }
            if leads(all, label) {
                let m = choose|m: int|
                    0 <= m < all.len() && (#[trigger] all[m]).0 == label && all[m].1 == best;
                assert(listed.contains(all[m].0));
            }
        }
    }
    labels
}

} // verus!
