//! Values, and queues of values, kept per string key.
use vstd::prelude::*;
use crate::text::str_eq;
use std::collections::VecDeque;

verus! {

/// The map that a list of `(key, value)` entries describes; a later entry
/// for a key replaces an earlier one.
pub open spec fn map_of<V>(e: Seq<(String, V)>) -> Map<Seq<char>, V>
    decreases e.len(),
{
    if e.len() == 0 {
        Map::empty()
    } else {
        map_of(e.drop_last()).insert(e.last().0@, e.last().1)
    }
}

pub open spec fn keys_distinct<V>(e: Seq<(String, V)>) -> bool {
    forall|i: int, j: int| 0 <= i < j < e.len() ==> e[i].0@ != e[j].0@
}

pub proof fn lemma_map_of_domain<V>(e: Seq<(String, V)>, k: Seq<char>)
    ensures
        map_of(e).dom().contains(k) <==> exists|i: int| 0 <= i < e.len() && #[trigger] e[i].0@ == k,
    decreases e.len(),
{
    if e.len() > 0 {
        let d = e.drop_last();
        lemma_map_of_domain(d, k);
        if exists|i: int| 0 <= i < d.len() && #[trigger] d[i].0@ == k {
            let i = choose|i: int| 0 <= i < d.len() && #[trigger] d[i].0@ == k;
            assert(e[i].0@ == k);
        }
        if exists|i: int| 0 <= i < e.len() && #[trigger] e[i].0@ == k {
            let i = choose|i: int| 0 <= i < e.len() && #[trigger] e[i].0@ == k;
            if i < d.len() {
                assert(d[i].0@ == k);
            }
        }
    }
}

pub proof fn lemma_map_of_value<V>(e: Seq<(String, V)>, i: int)
    requires
        keys_distinct(e),
        0 <= i < e.len(),
    ensures
        map_of(e).dom().contains(e[i].0@),
        map_of(e)[e[i].0@] == e[i].1,
    decreases e.len(),
{
    let d = e.drop_last();
    if i < e.len() - 1 {
        assert(d[i] == e[i]);
        lemma_map_of_value(d, i);
    }
}

pub proof fn lemma_map_of_remove<V>(e: Seq<(String, V)>, i: int)
    requires
        keys_distinct(e),
        0 <= i < e.len(),
    ensures
        map_of(e.remove(i)) == map_of(e).remove(e[i].0@),
    decreases e.len(),
{
    let d = e.drop_last();
    let k = e[i].0@;
    if i == e.len() - 1 {
        assert(e.remove(i) =~= d);
        lemma_map_of_domain(d, k);
        assert(!map_of(d).dom().contains(k));
        assert(map_of(d) =~= map_of(e).remove(k));
    } else {
        assert(d[i] == e[i]);
        lemma_map_of_remove(d, i);
        assert(e.remove(i) =~= d.remove(i).push(e.last()));
        assert(e.remove(i).drop_last() =~= d.remove(i));
        assert(map_of(e.remove(i)) =~= map_of(e).remove(k));
    }
}

/// Values by key, at most one per key.
pub struct KeyedMap<V> {
    entries: Vec<(String, V)>,
}

/// Queues by key.
pub type KeyedQueues<T> = KeyedMap<VecDeque<T>>;

impl<V> KeyedMap<V> {
    pub closed spec fn wf(&self) -> bool {
        keys_distinct(self.entries@)
    }

    /// The value held for each key.
    pub closed spec fn view(&self) -> Map<Seq<char>, V> {
        map_of(self.entries@)
    }

    pub fn new() -> (r: Self)
        ensures
            r.wf(),
            r.view() == Map::<Seq<char>, V>::empty(),
    {
        KeyedMap { entries: Vec::new() }
    }

    /// The number of keys.
    pub fn len(&self) -> (r: usize)
        requires
            self.wf(),
        ensures
            r == self.view().dom().len(),
            self.view().dom().finite(),
    {
        proof {
            lemma_dom_len_of(self.entries@);
        }
        self.entries.len()
    }

    fn find(&self, key: &str) -> (r: Option<usize>)
        requires
            self.wf(),
        ensures
            match r {
                Some(i) => i < self.entries.len() && self.entries@[i as int].0@ == key@,
                None => !self.view().dom().contains(key@),
            },
    {
        let mut i: usize = 0;
        while i < self.entries.len()
            invariant
                i <= self.entries.len(),
                forall|j: int| 0 <= j < i ==> (#[trigger] self.entries@[j]).0@ != key@,
            decreases self.entries.len() - i,
        {
            if str_eq(self.entries[i].0.as_str(), key) {
                return Some(i);
            }
            i = i + 1;
        }
        proof {
            lemma_map_of_domain(self.entries@, key@);
        }
        None
    }

    /// The value for `key`, when there is one.
    pub fn get(&self, key: &str) -> (r: Option<&V>)
        requires
            self.wf(),
        ensures
            match r {
                Some(v) => self.view().dom().contains(key@) && *v == self.view()[key@],
                None => !self.view().dom().contains(key@),
            },
    {
        match self.find(key) {
            Some(i) => {
                proof {
                    lemma_map_of_value(self.entries@, i as int);
                }
                Some(&self.entries[i].1)
            },
            None => None,
        }
    }

    /// Whether `key` has a value.
    pub fn contains(&self, key: &str) -> (r: bool)
        requires
            self.wf(),
        ensures
            r == self.view().dom().contains(key@),
    {
        match self.find(key) {
            Some(i) => {
                proof {
                    lemma_map_of_value(self.entries@, i as int);
                }
                true
            },
            None => false,
        }
    }

    /// Removes the value for `key` and returns it.
    pub fn remove(&mut self, key: &str) -> (r: Option<V>)
        requires
            old(self).wf(),
        ensures
            final(self).wf(),
            final(self).view() == old(self).view().remove(key@),
            match r {
                Some(v) => old(self).view().dom().contains(key@) && v == old(self).view()[key@],
                None => !old(self).view().dom().contains(key@),
            },
    {
        match self.find(key) {
            None => {
                assert(self.view() =~= self.view().remove(key@));
                None
            },
            Some(i) => {
                let ghost e = self.entries@;
                proof {
                    lemma_map_of_value(e, i as int);
                    lemma_map_of_remove(e, i as int);
                }
                let (_, v) = self.entries.remove(i);
                Some(v)
            },
        }
    }

    /// Sets the value for `key` to `v`.
    pub fn put(&mut self, key: &str, v: V)
        requires
            old(self).wf(),
        ensures
            final(self).wf(),
            final(self).view() == old(self).view().insert(key@, v),
    {
        let ghost e = self.entries@;
        match self.find(key) {
            None => {
                proof {
                    lemma_map_of_domain(e, key@);
                }
                self.entries.push((key.to_string(), v));
                proof {
                    assert(self.entries@.drop_last() == e);
                }
            },
            Some(i) => {
                let (k, _) = self.entries.remove(i);
                proof {
                    lemma_map_of_remove(e, i as int);
                }
                self.entries.push((k, v));
                proof {
                    assert(self.entries@.drop_last() == e.remove(i as int));
                    assert(map_of(self.entries@) =~= map_of(e).insert(key@, v));
                }
            },
        }
    }

    /// The keys, each once.
    pub fn keys(&self) -> (r: Vec<String>)
        requires
            self.wf(),
        ensures
            forall|k: Seq<char>| self.view().dom().contains(k) <==> exists|i: int| 0 <= i < r.len() && #[trigger] r@[i]@ == k,
            forall|i: int, j: int| 0 <= i < j < r.len() ==> r@[i]@ != r@[j]@,
    {
        let mut out: Vec<String> = Vec::new();
        let mut i: usize = 0;
        while i < self.entries.len()
            invariant
                i <= self.entries.len(),
                self.wf(),
                out.len() == i,
                forall|j: int| 0 <= j < i ==> (#[trigger] out@[j])@ == self.entries@[j].0@,
            decreases self.entries.len() - i,
        {
            out.push(self.entries[i].0.clone());
            i = i + 1;
        }
        proof {
            assert forall|k: Seq<char>| self.view().dom().contains(k) <==> exists|i: int| 0 <= i < out.len() && #[trigger] out@[i]@ == k by {
                lemma_map_of_domain(self.entries@, k);
                if exists|i: int| 0 <= i < self.entries.len() && #[trigger] self.entries@[i].0@ == k {
                    let i = choose|i: int| 0 <= i < self.entries.len() && #[trigger] self.entries@[i].0@ == k;
                    assert(out@[i]@ == k);
                }
                if exists|i: int| 0 <= i < out.len() && #[trigger] out@[i]@ == k {
                    let i = choose|i: int| 0 <= i < out.len() && #[trigger] out@[i]@ == k;
                    assert(self.entries@[i].0@ == k);
                }
            }
        }
        out
    }
}

pub open spec fn contents<T>() -> spec_fn(VecDeque<T>) -> Seq<T> {
    |v: VecDeque<T>| v@
}

impl<T> KeyedMap<VecDeque<T>> {
    /// The queue held for each key, as a sequence.
    pub open spec fn queues(&self) -> Map<Seq<char>, Seq<T>> {
        self.view().map_values(contents())
    }

    /// The queue for `key`, or the empty queue when there is none.
    pub open spec fn queue(&self, key: Seq<char>) -> Seq<T> {
        if self.queues().dom().contains(key) {
            self.queues()[key]
        } else {
            Seq::empty()
        }
    }

    /// Takes the queue for `key` out (the key keeps an empty queue); returns
    /// the empty queue when the key has none.
    pub fn take(&mut self, key: &str) -> (r: VecDeque<T>)
        requires
            old(self).wf(),
        ensures
            final(self).wf(),
            r@ == old(self).queue(key@),
            final(self).queues() == if old(self).queues().dom().contains(key@) {
                old(self).queues().insert(key@, Seq::empty())
            } else {
                old(self).queues()
            },
    {
        let ghost before = self.queues();
        match self.remove(key) {
            None => {
                assert(self.queues() =~= before);
                VecDeque::new()
            },
            Some(q) => {
                self.put(key, VecDeque::new());
                assert(self.queues() =~= before.insert(key@, Seq::empty()));
                q
            },
        }
    }

    /// Sets the queue for `key` to `q`.
    pub fn put_queue(&mut self, key: &str, q: VecDeque<T>)
        requires
            old(self).wf(),
        ensures
            final(self).wf(),
            final(self).queues() == old(self).queues().insert(key@, q@),
    {
        let ghost before = self.queues();
        let ghost items = q@;
        self.put(key, q);
        assert(self.queues() =~= before.insert(key@, items));
    }
}

proof fn lemma_dom_len_of<V>(e: Seq<(String, V)>)
    requires
        keys_distinct(e),
    ensures
        map_of(e).dom().finite(),
        map_of(e).dom().len() == e.len(),
    decreases e.len(),
{
    if e.len() > 0 {
        let d = e.drop_last();
        assert(keys_distinct(d)) by {
            assert forall|i: int, j: int| 0 <= i < j < d.len() implies d[i].0@ != d[j].0@ by {
                assert(d[i] == e[i] && d[j] == e[j]);
            }
        }
        lemma_dom_len_of(d);
        lemma_map_of_domain(d, e.last().0@);
        assert(!map_of(d).dom().contains(e.last().0@)) by {
            if map_of(d).dom().contains(e.last().0@) {
                let i = choose|i: int| 0 <= i < d.len() && #[trigger] d[i].0@ == e.last().0@;
                assert(e[i].0@ != e[e.len() - 1].0@);
            }
        }
    }
}

} // verus!
