//! The store: a mapping from string keys to string values.

use vstd::prelude::*;
use vstd::string::*;
use crate::text::same_text;

verus! {

/// The mapping that a run of entries stands for; of two entries with one
/// key the later one counts.
spec fn entries_map(items: Seq<(String, String)>) -> Map<Seq<char>, Seq<char>>
    decreases items.len(),
{
    if items.len() == 0 {
        Map::empty()
    } else {
        entries_map(items.drop_last()).insert(items.last().0@, items.last().1@)
    }
}

/// Whether no key stands twice among the entries.
spec fn distinct_keys(items: Seq<(String, String)>) -> bool {
    forall|i: int, j: int|
        0 <= i < items.len() && 0 <= j < items.len() && i != j ==> (#[trigger] items[i]).0@ != (
        #[trigger] items[j]).0@
}

/// The keys of the mapping are the keys of the entries, and there are
/// finitely many.
proof fn lemma_entries_dom(items: Seq<(String, String)>)
    ensures
        forall|k: Seq<char>|
            entries_map(items).contains_key(k) <==> exists|i: int|
                0 <= i < items.len() && (#[trigger] items[i]).0@ == k,
        entries_map(items).dom().finite(),
    decreases items.len(),
{
    if items.len() > 0 {
        let front = items.drop_last();
        lemma_entries_dom(front);
        assert forall|k: Seq<char>| entries_map(items).contains_key(k) implies exists|i: int|
            0 <= i < items.len() && (#[trigger] items[i]).0@ == k by {
            if k == items.last().0@ {
                assert(items[items.len() - 1].0@ == k);
            } else {
                let i = choose|i: int| 0 <= i < front.len() && (#[trigger] front[i]).0@ == k;
                assert(items[i].0@ == k);
            }
        }
        assert forall|k: Seq<char>|
            (exists|i: int| 0 <= i < items.len() && (#[trigger] items[i]).0@ == k) implies entries_map(
            items,
        ).contains_key(k) by {
            let i = choose|i: int| 0 <= i < items.len() && (#[trigger] items[i]).0@ == k;
            if i < items.len() - 1 {
                assert(front[i].0@ == k);
            }
        }
    }
}

/// Where no key stands twice, each entry is what the mapping holds for its
/// key.
proof fn lemma_entries_get(items: Seq<(String, String)>, i: int)
    requires
        distinct_keys(items),
        0 <= i < items.len(),
    ensures
        entries_map(items).contains_key(items[i].0@),
        entries_map(items)[items[i].0@] == items[i].1@,
    decreases items.len(),
{
    if i < items.len() - 1 {
        let front = items.drop_last();
        assert(front[i] == items[i]);
        assert(items[items.len() - 1].0@ != items[i].0@);
        lemma_entries_get(front, i);
    }
}

/// Where no key stands twice, taking an entry out takes its key out of the
/// mapping.
proof fn lemma_entries_remove(items: Seq<(String, String)>, i: int)
    requires
        distinct_keys(items),
        0 <= i < items.len(),
    ensures
        entries_map(items.remove(i)) == entries_map(items).remove(items[i].0@),
        distinct_keys(items.remove(i)),
    decreases items.len(),
{
    let front = items.drop_last();
    let key = items[i].0@;
    if i == items.len() - 1 {
        assert(items.remove(i) =~= front);
        lemma_entries_dom(front);
        if entries_map(front).contains_key(key) {
            let j = choose|j: int| 0 <= j < front.len() && (#[trigger] front[j]).0@ == key;
            assert(items[j].0@ == key);
            assert(false);
        }
        assert(entries_map(items).remove(key) =~= entries_map(front));
    } else {
        let last = items.last();
        assert(front[i] == items[i]);
        assert(items[items.len() - 1].0@ != key);
        assert(distinct_keys(front)) by {
            assert forall|a: int, b: int|
                0 <= a < front.len() && 0 <= b < front.len() && a != b implies (
            #[trigger] front[a]).0@ != (#[trigger] front[b]).0@ by {
                assert(items[a].0@ != items[b].0@);
            }
        }
        lemma_entries_remove(front, i);
        assert(items.remove(i) =~= front.remove(i).push(last));
        assert(items.remove(i).drop_last() =~= front.remove(i));
        assert(entries_map(items.remove(i)) =~= entries_map(items).remove(key));
    }
    assert(distinct_keys(items.remove(i))) by {
        let out = items.remove(i);
        assert forall|a: int, b: int|
            0 <= a < out.len() && 0 <= b < out.len() && a != b implies (#[trigger] out[a]).0@ != (
        #[trigger] out[b]).0@ by {
            let a0 = if a < i { a } else { a + 1 };
            let b0 = if b < i { b } else { b + 1 };
            assert(out[a] == items[a0]);
            assert(out[b] == items[b0]);
        }
    }
}

/// A mapping from string keys to string values, kept in memory. No key
/// stands twice.
pub struct Storage {
    items: Vec<(String, String)>,
}

impl View for Storage {
    type V = Map<Seq<char>, Seq<char>>;

    closed spec fn view(&self) -> Map<Seq<char>, Seq<char>> {
        entries_map(self.items@)
    }
}

impl Storage {
    #[verifier::type_invariant]
    spec fn well_formed(&self) -> bool {
        distinct_keys(self.items@)
    }

    /// The store holds finitely many keys.
    pub proof fn lemma_finite(&self)
        ensures
            self@.dom().finite(),
    {
        lemma_entries_dom(self.items@);
    }

    /// An empty store.
    pub fn new() -> (r: Self)
        ensures
            r@ == Map::<Seq<char>, Seq<char>>::empty(),
    {
        Storage { items: Vec::new() }
    }

    /// The place of the entry for `k`, if there is one.
    fn find(&self, k: &str) -> (r: Option<usize>)
        ensures
            match r {
                Some(i) => i < self.items@.len() && self.items@[i as int].0@ == k@,
                None => forall|i: int|
                    0 <= i < self.items@.len() ==> (#[trigger] self.items@[i]).0@ != k@,
            },
    {
        let mut i: usize = 0;
        while i < self.items.len()
            invariant
                0 <= i <= self.items@.len(),
                forall|j: int| 0 <= j < i ==> (#[trigger] self.items@[j]).0@ != k@,
            decreases self.items@.len() - i,
        {
            if same_text(self.items[i].0.as_str(), k) {
                return Some(i);
            }
            i += 1;
        }
        None
    }

    /// Sets the value for `k` to `v`, whether or not `k` had one.
    pub fn set(&mut self, k: &str, v: &str)
        ensures
            final(self)@ == old(self)@.insert(k@, v@),
    {
        proof {
            use_type_invariant(&*self);
        }
        let found = self.find(k);
        let ghost before = self.items@;
        let mut items: Vec<(String, String)> = Vec::new();
        core::mem::swap(&mut self.items, &mut items);
        match found {
            Some(i) => {
                proof {
                    lemma_entries_remove(before, i as int);
                }
                items.remove(i);
            },
            None => {},
        }
        let ghost mid = items@;
        proof {
            lemma_entries_dom(mid);
            lemma_entries_dom(before);
        }
        assert(entries_map(mid) =~= entries_map(before).remove(k@));
        assert(!entries_map(mid).contains_key(k@));
        let entry = (k.to_owned(), v.to_owned());
        items.push(entry);
        proof {
            let after = items@;
            assert(after.drop_last() =~= mid);
            assert(entries_map(after) =~= entries_map(before).insert(k@, v@));
            assert(distinct_keys(after)) by {
                assert forall|a: int, b: int|
                    0 <= a < after.len() && 0 <= b < after.len() && a != b implies (
                #[trigger] after[a]).0@ != (#[trigger] after[b]).0@ by {
                    if a < mid.len() {
                        assert(after[a] == mid[a]);
                    }
                    if b < mid.len() {
                        assert(after[b] == mid[b]);
                    }
                }
            }
        }
        core::mem::swap(&mut self.items, &mut items);
    }

    /// The value for `k`, if it has one. The store is not changed.
    pub fn get(&self, k: &str) -> (r: Option<&String>)
        ensures
            match r {
                Some(v) => self@.contains_key(k@) && self@[k@] == v@,
                None => !self@.contains_key(k@),
            },
    {
        proof {
            use_type_invariant(self);
            lemma_entries_dom(self.items@);
        }
        match self.find(k) {
            Some(i) => {
                proof {
                    lemma_entries_get(self.items@, i as int);
                }
                Some(&self.items[i].1)
            },
            None => None,
        }
    }

    /// Whether `k` has a value.
    pub fn contains_key(&self, k: &str) -> (r: bool)
        ensures
            r == self@.contains_key(k@),
    {
        proof {
            use_type_invariant(self);
            lemma_entries_dom(self.items@);
        }
        match self.find(k) {
            Some(i) => true,
            None => false,
        }
    }

    /// Takes `k` and its value out of the store. Returns whether `k` had a
    /// value.
    pub fn del(&mut self, k: &str) -> (r: bool)
        ensures
            r == old(self)@.contains_key(k@),
            final(self)@ == old(self)@.remove(k@),
    {
        proof {
            use_type_invariant(&*self);
            lemma_entries_dom(self.items@);
        }
        match self.find(k) {
            Some(i) => {
                proof {
                    lemma_entries_remove(self.items@, i as int);
                }
                let mut items: Vec<(String, String)> = Vec::new();
                core::mem::swap(&mut self.items, &mut items);
                items.remove(i);
                core::mem::swap(&mut self.items, &mut items);
                true
            },
            None => {
                assert(self@.remove(k@) =~= self@);
                false
            },
        }
    }
}

} // verus!
