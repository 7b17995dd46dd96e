//! The frequency table as it is stored: a list of keys with their counts, in
//! which no key stands twice.

use crate::table::Table;
use vstd::prelude::*;

verus! {

/// The key of the frequency table: a label and a word under it.
#[derive(Debug, Clone, PartialEq, Eq, Hash)]
pub struct Categorization {
    pub bucket: String,
    pub word: String,
}

impl View for Categorization {
    type V = (Seq<char>, Seq<char>);

    open spec fn view(&self) -> (Seq<char>, Seq<char>) {
        (self.bucket@, self.word@)
    }
}

/// No key stands twice in `entries`.
pub open spec fn distinct_keys(entries: Seq<(Categorization, u32)>) -> bool {
    forall|i: int, j: int| 0 <= i < j < entries.len() ==> entries[i].0@ != entries[j].0@
}

/// Some entry of `entries` has the key `k`.
pub open spec fn holds_key(entries: Seq<(Categorization, u32)>, k: (Seq<char>, Seq<char>)) -> bool {
    exists|i: int| 0 <= i < entries.len() && (#[trigger] entries[i]).0@ == k
}

/// A place at which `k` stands in `entries`, where it stands in it.
pub open spec fn place_of(entries: Seq<(Categorization, u32)>, k: (Seq<char>, Seq<char>)) -> int {
    choose|i: int| 0 <= i < entries.len() && (#[trigger] entries[i]).0@ == k
}

/// The map that `entries` stands for.
pub open spec fn table_of(entries: Seq<(Categorization, u32)>) -> Table {
    Map::new(
        |k: (Seq<char>, Seq<char>)| holds_key(entries, k),
        |k: (Seq<char>, Seq<char>)| entries[place_of(entries, k)].1 as nat,
    )
}

/// Each entry of a list without repeated keys is found in its map.
pub proof fn lemma_table_entry(entries: Seq<(Categorization, u32)>, i: int)
    requires
        distinct_keys(entries),
        0 <= i < entries.len(),
    ensures
        table_of(entries).contains_key(entries[i].0@),
        table_of(entries)[entries[i].0@] == entries[i].1,
{
    let k = entries[i].0@;
    assert(holds_key(entries, k));
    let p = place_of(entries, k);
    assert(p == i);
}

/// A new key at the end is a new key in the map.
pub proof fn lemma_table_push(entries: Seq<(Categorization, u32)>, e: (Categorization, u32))
    requires
        distinct_keys(entries),
        !holds_key(entries, e.0@),
    ensures
        distinct_keys(entries.push(e)),
        table_of(entries.push(e)) == table_of(entries).insert(e.0@, e.1 as nat),
{
    let longer = entries.push(e);
    assert(distinct_keys(longer)) by {
        assert forall|i: int, j: int| 0 <= i < j < longer.len() implies longer[i].0@
            != longer[j].0@ by {
            if j == entries.len() {
                assert(entries[i].0@ != e.0@);
            }
        }
    }
    let want = table_of(entries).insert(e.0@, e.1 as nat);
    assert forall|k: (Seq<char>, Seq<char>)| table_of(longer).contains_key(k) implies want.contains_key(k) by {
        let p = place_of(longer, k);
        if p < entries.len() {
            assert(entries[p].0@ == k);
        }
    }
    assert forall|k: (Seq<char>, Seq<char>)| want.contains_key(k) implies table_of(longer).contains_key(k) by {
        if k == e.0@ {
            assert(longer[entries.len() as int].0@ == k);
        } else {
            let p = place_of(entries, k);
            assert(longer[p].0@ == k);
        }
    }
    assert forall|k: (Seq<char>, Seq<char>)| want.contains_key(k) implies table_of(longer)[k] == want[k] by {
        if k == e.0@ {
            lemma_table_entry(longer, entries.len() as int);
        } else {
            let p = place_of(entries, k);
            lemma_table_entry(longer, p);
            lemma_table_entry(entries, p);
        }
    }
    assert(table_of(longer) =~= want);
}

/// A new count at a key's place is a new count at the key in the map.
pub proof fn lemma_table_update(
    entries: Seq<(Categorization, u32)>,
    i: int,
    e: (Categorization, u32),
)
    requires
        distinct_keys(entries),
        0 <= i < entries.len(),
        e.0@ == entries[i].0@,
    ensures
        distinct_keys(entries.update(i, e)),
        table_of(entries.update(i, e)) == table_of(entries).insert(e.0@, e.1 as nat),
{
    let changed = entries.update(i, e);
    assert(distinct_keys(changed)) by {
        assert forall|a: int, b: int| 0 <= a < b < changed.len() implies changed[a].0@
            != changed[b].0@ by {
            assert(changed[a].0@ == entries[a].0@);
            assert(changed[b].0@ == entries[b].0@);
        }
    }
    let want = table_of(entries).insert(e.0@, e.1 as nat);
    assert forall|k: (Seq<char>, Seq<char>)| table_of(changed).contains_key(k) implies want.contains_key(k) by {
        let p = place_of(changed, k);
        assert(entries[p].0@ == k);
    }
    assert forall|k: (Seq<char>, Seq<char>)| want.contains_key(k) implies table_of(changed).contains_key(k) by {
        if k == e.0@ {
            assert(changed[i].0@ == k);
        } else {
            let p = place_of(entries, k);
            assert(changed[p].0@ == k);
        }
    }
    assert forall|k: (Seq<char>, Seq<char>)| want.contains_key(k) implies table_of(changed)[k] == want[k] by {
        if k == e.0@ {
            lemma_table_entry(changed, i);
        } else {
            let p = place_of(entries, k);
            lemma_table_entry(changed, p);
            lemma_table_entry(entries, p);
        }
    }
    assert(table_of(changed) =~= want);
}

/// Two lists that agree place by place in keys and counts stand for the
/// same map.
pub proof fn lemma_table_same(a: Seq<(Categorization, u32)>, b: Seq<(Categorization, u32)>)
    requires
        distinct_keys(a),
        a.len() == b.len(),
        forall|j: int| 0 <= j < a.len() ==> (#[trigger] b[j]).0@ == a[j].0@ && b[j].1 == a[j].1,
    ensures
        distinct_keys(b),
        table_of(b) == table_of(a),
{
    assert(distinct_keys(b)) by {
        assert forall|i: int, j: int| 0 <= i < j < b.len() implies b[i].0@ != b[j].0@ by {
            assert(a[i].0@ != a[j].0@);
        }
    }
    assert forall|k: (Seq<char>, Seq<char>)| table_of(a).contains_key(k) implies table_of(
        b,
    ).contains_key(k) by {
        let p = place_of(a, k);
        assert(b[p].0@ == k);
    }
    assert forall|k: (Seq<char>, Seq<char>)| table_of(a).contains_key(k) implies table_of(b)[k]
        == table_of(a)[k] by {
        let p = place_of(a, k);
        assert(b[p].0@ == k);
        lemma_table_entry(a, p);
        lemma_table_entry(b, p);
    }
    assert forall|k: (Seq<char>, Seq<char>)| table_of(b).contains_key(k) implies table_of(
        a,
    ).contains_key(k) by {
        let p = place_of(b, k);
        assert(a[p].0@ == k);
    }
    assert(table_of(b) =~= table_of(a));
}

/// The first place of the key (`bucket`, `word`) in `entries`, if it has one.
pub fn find_key(entries: &Vec<(Categorization, u32)>, bucket: &String, word: &String) -> (place:
    Option<usize>)
    ensures
        match place {
            Some(i) => {
                &&& i < entries.len()
                &&& entries[i as int].0@ == (bucket@, word@)
                &&& forall|j: int| 0 <= j < i ==> (#[trigger] entries[j]).0@ != (bucket@, word@)
            },
            None => !holds_key(entries@, (bucket@, word@)),
        },
{
    let mut i: usize = 0;
    while i < entries.len()
        invariant
            i <= entries.len(),
            forall|j: int| 0 <= j < i ==> (#[trigger] entries[j]).0@ != (bucket@, word@),
        decreases entries.len() - i,
    {
        if entries[i].0.bucket == *bucket && entries[i].0.word == *word {
            return Some(i);
        }
        i += 1;
    }
    None
}

} // verus!
