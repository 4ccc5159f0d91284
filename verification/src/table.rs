//! A small table from texts to values.
use crate::text::same_text;
use vstd::prelude::*;

verus! {

/// A table in which each text stands at most once.
pub struct Table<V> {
    entries: Vec<(String, V)>,
}

spec fn keys_differ<V>(entries: Seq<(String, V)>) -> bool {
    forall|i: int, j: int|
        0 <= i < j < entries.len() ==> #[trigger] entries[i].0@ != #[trigger] entries[j].0@
}

spec fn contents<V>(entries: Seq<(String, V)>) -> Map<Seq<char>, V>
    decreases entries.len(),
{
    if entries.len() == 0 {
        Map::empty()
    } else {
        contents(entries.drop_last()).insert(entries.last().0@, entries.last().1)
    }
}

impl<V> View for Table<V> {
    type V = Map<Seq<char>, V>;

    closed spec fn view(&self) -> Map<Seq<char>, V> {
        contents(self.entries@)
    }
}

proof fn lemma_contents<V>(entries: Seq<(String, V)>)
    requires
        keys_differ(entries),
    ensures
        contents(entries).dom().finite(),
        contents(entries).len() == entries.len(),
        forall|i: int|
            0 <= i < entries.len() ==> contents(entries).contains_key(#[trigger] entries[i].0@)
                && contents(entries)[entries[i].0@] == entries[i].1,
        forall|k: Seq<char>| #[trigger]
            contents(entries).contains_key(k) ==> exists|i: int|
                0 <= i < entries.len() && #[trigger] entries[i].0@ == k,
    decreases entries.len(),
{
    if entries.len() > 0 {
        let before = entries.drop_last();
        lemma_contents(before);
        assert forall|k: Seq<char>| #[trigger] contents(entries).contains_key(k) implies exists|
            i: int,
        |
            0 <= i < entries.len() && #[trigger] entries[i].0@ == k by {
            if k == entries.last().0@ {
                assert(entries[entries.len() - 1].0@ == k);
            } else {
                assert(contents(before).contains_key(k));
                let i = choose|i: int| 0 <= i < before.len() && #[trigger] before[i].0@ == k;
                assert(entries[i].0@ == k);
            }
        }
        if contents(before).contains_key(entries.last().0@) {
            let i = choose|i: int|
                0 <= i < before.len() && #[trigger] before[i].0@ == entries.last().0@;
            assert(entries[i].0@ == entries[entries.len() - 1].0@);
        }
        assert forall|i: int| 0 <= i < entries.len() implies contents(entries).contains_key(
            #[trigger] entries[i].0@,
        ) && contents(entries)[entries[i].0@] == entries[i].1 by {
            if i < before.len() {
                assert(before[i].0@ == entries[i].0@);
                assert(entries[i].0@ != entries[entries.len() - 1].0@);
            }
        }
    }
}

proof fn lemma_contents_without<V>(entries: Seq<(String, V)>, i: int)
    requires
        keys_differ(entries),
        0 <= i < entries.len(),
    ensures
        keys_differ(entries.remove(i)),
        contents(entries.remove(i)) == contents(entries).remove(entries[i].0@),
{
    let rest = entries.remove(i);
    assert forall|a: int, b: int| 0 <= a < b < rest.len() implies #[trigger] rest[a].0@
        != #[trigger] rest[b].0@ by {
        let a1 = if a < i {
            a
        } else {
            a + 1
        };
        let b1 = if b < i {
            b
        } else {
            b + 1
        };
        assert(entries[a1].0@ != entries[b1].0@);
    }
    lemma_contents(entries);
    lemma_contents(rest);
    let key = entries[i].0@;
    assert forall|k: Seq<char>| #[trigger] contents(rest).contains_key(k) <==> contents(
        entries,
    ).contains_key(k) && k != key by {
        if contents(rest).contains_key(k) {
            let j = choose|j: int| 0 <= j < rest.len() && #[trigger] rest[j].0@ == k;
            let j1 = if j < i {
                j
            } else {
                j + 1
            };
            assert(entries[j1].0@ == k);
        }
        if contents(entries).contains_key(k) && k != key {
            let j = choose|j: int| 0 <= j < entries.len() && #[trigger] entries[j].0@ == k;
            let j1 = if j < i {
                j
            } else {
                j - 1
            };
            assert(rest[j1].0@ == k);
        }
    }
    assert forall|k: Seq<char>| #[trigger] contents(rest).contains_key(k) implies contents(rest)[k]
        == contents(entries)[k] by {
        let j = choose|j: int| 0 <= j < rest.len() && #[trigger] rest[j].0@ == k;
        let j1 = if j < i {
            j
        } else {
            j + 1
        };
        assert(entries[j1].0@ == k);
    }
    assert(contents(rest) =~= contents(entries).remove(key));
}

/// The position of the entry of a key.
fn position_of<V>(entries: &Vec<(String, V)>, key: &str) -> (r: Option<usize>)
    requires
        keys_differ(entries@),
    ensures
        (match r {
            Some(i) => i < entries@.len() && entries@[i as int].0@ == key@,
            None => !contents(entries@).contains_key(key@),
        }),
{
    for i in 0..entries.len()
        invariant
            forall|j: int| 0 <= j < i ==> #[trigger] entries@[j].0@ != key@,
    {
        if same_text(entries[i].0.as_str(), key) {
            return Some(i);
        }
    }
    proof {
        lemma_contents(entries@);
    }
    None
}

/// What a table holds for a key.
pub open spec fn at<V>(table: Map<Seq<char>, V>, key: Seq<char>) -> Option<V> {
    if table.contains_key(key) {
        Some(table[key])
    } else {
        None
    }
}

impl<V> Table<V> {
    #[verifier::type_invariant]
    spec fn wf(self) -> bool {
        keys_differ(self.entries@)
    }

    /// An empty table.
    pub fn new() -> (r: Self)
        ensures
            r@ == Map::<Seq<char>, V>::empty(),
    {
        Table { entries: Vec::new() }
    }

    /// The number of entries.
    pub fn len(&self) -> (r: usize)
        ensures
            self@.dom().finite(),
            r == self@.len(),
    {
        proof {
            use_type_invariant(self);
            lemma_contents(self.entries@);
        }
        self.entries.len()
    }

    /// Takes the entry of a key out.
    pub fn remove(&mut self, key: &str) -> (r: Option<V>)
        ensures
            r == at(old(self)@, key@),
            final(self)@ == old(self)@.remove(key@),
            old(self)@.dom().finite(),
    {
        proof {
            use_type_invariant(&*self);
            lemma_contents(self.entries@);
        }
        let mut entries: Vec<(String, V)> = Vec::new();
        std::mem::swap(&mut entries, &mut self.entries);
        let found = position_of(&entries, key);
        let mut r: Option<V> = None;
        if let Some(i) = found {
            proof {
                lemma_contents_without(entries@, i as int);
            }
            let (_, v) = entries.remove(i);
            r = Some(v);
        } else {
            assert(contents(entries@).remove(key@) =~= contents(entries@));
        }
        self.entries = entries;
        r
    }

    /// Sets the entry of a key, whether or not there was one.
    pub fn insert(&mut self, key: &str, value: V)
        ensures
            final(self)@ == old(self)@.insert(key@, value),
    {
        let ghost all = self@;
        self.remove(key);
        proof {
            use_type_invariant(&*self);
        }
        let mut entries: Vec<(String, V)> = Vec::new();
        std::mem::swap(&mut entries, &mut self.entries);
        let ghost rest = entries@;
        entries.push((key.to_owned(), value));
        proof {
            lemma_contents(rest);
            assert(!contents(rest).contains_key(key@));
            assert(entries@.drop_last() =~= rest);
            assert forall|i: int, j: int| 0 <= i < j < entries@.len() implies #[trigger] entries@[i].0@
                != #[trigger] entries@[j].0@ by {
                if j == rest.len() {
                    assert(contents(rest).contains_key(rest[i].0@));
                } else {
                    assert(rest[i].0@ != rest[j].0@);
                }
            }
            assert(contents(entries@) =~= all.insert(key@, value));
        }
        self.entries = entries;
    }
}

// ---------------------------------------------------------------------------
// Sums
// ---------------------------------------------------------------------------

/// The sum of the numbers in a table.
pub open spec fn total(table: Map<Seq<char>, u64>) -> nat
    decreases table.dom().len(),
{
    if table.dom().finite() && table.dom().len() > 0 {
        let key = table.dom().choose();
        table[key] as nat + total(table.remove(key))
    } else {
        0
    }
}

/// It does not matter which number is added first.
pub proof fn lemma_total(table: Map<Seq<char>, u64>, key: Seq<char>)
    requires
        table.dom().finite(),
        table.contains_key(key),
    ensures
        total(table) == table[key] + total(table.remove(key)),
    decreases table.dom().len(),
{
    assert(table.dom().contains(key));
    assert(table.dom().len() > 0);
    let first = table.dom().choose();
    if first != key {
        let rest = table.remove(first);
        lemma_total(rest, key);
        assert(rest.remove(key) =~= table.remove(key).remove(first));
        lemma_total(table.remove(key), first);
    }
}

impl Table<u64> {
    /// The sum of the numbers.
    pub fn sum(&self) -> (r: u64)
        requires
            total(self@) <= u64::MAX,
        ensures
            r == total(self@),
    {
        proof {
            use_type_invariant(self);
            lemma_contents(self.entries@);
        }
        let n = self.entries.len();
        let ghost all = self.entries@;
        let mut sum: u64 = 0;
        proof {
            assert(all.take(n as int) =~= all);
            assert(contents(all.take(0)).dom() =~= Set::empty());
        }
        for i in 0..n
            invariant
                n == all.len(),
                all == self.entries@,
                keys_differ(all),
                total(contents(all)) <= u64::MAX,
                sum == total(contents(all.take(i as int))),
        {
            proof {
                lemma_take_total(all, i + 1);
                let now = all.take(i + 1);
                assert(now.drop_last() =~= all.take(i as int));
                lemma_contents(now);
                lemma_contents(all.take(i as int));
                let key = all[i as int].0@;
                assert(now[i as int].0@ == key);
                if contents(all.take(i as int)).contains_key(key) {
                    let j = choose|j: int|
                        0 <= j < i && #[trigger] all.take(i as int)[j].0@ == key;
                    assert(all[j].0@ == all[i as int].0@);
                }
                lemma_total(contents(now), key);
                assert(contents(now).remove(key) =~= contents(all.take(i as int)));
            }
            sum = sum + self.entries[i].1;
        }
        sum
    }
}

proof fn lemma_take_total(entries: Seq<(String, u64)>, k: int)
    requires
        keys_differ(entries),
        0 <= k <= entries.len(),
    ensures
        keys_differ(entries.take(k)),
        total(contents(entries.take(k))) <= total(contents(entries)),
    decreases entries.len() - k,
{
    let part = entries.take(k);
    assert forall|i: int, j: int| 0 <= i < j < part.len() implies #[trigger] part[i].0@
        != #[trigger] part[j].0@ by {
        assert(entries[i].0@ != entries[j].0@);
    }
    if k == entries.len() {
        assert(part =~= entries);
    } else {
        lemma_take_total(entries, k + 1);
        let next = entries.take(k + 1);
        assert(next.drop_last() =~= part);
        lemma_contents(next);
        lemma_contents(part);
        let key = entries[k].0@;
        assert(next[k].0@ == key);
        if contents(part).contains_key(key) {
            let j = choose|j: int| 0 <= j < k && #[trigger] part[j].0@ == key;
            assert(entries[j].0@ == entries[k].0@);
        }
        lemma_total(contents(next), key);
        assert(contents(next).remove(key) =~= contents(part));
    }
}

} // verus!
