//! The committed key-value mapping: an association list with unique
//! keys, kept in insertion order so that iteration is deterministic.
//! Its view is the mathematical map the entries denote.

use vstd::prelude::*;
use crate::text::str_eq;

verus! {

/// The map an entry list denotes; a later entry overrides an earlier
/// one with the same key.
pub open spec fn entries_map(es: Seq<(Seq<char>, Seq<char>)>) -> Map<Seq<char>, Seq<char>>
    decreases es.len(),
{
    if es.len() == 0 {
        Map::empty()
    } else {
        entries_map(es.drop_last()).insert(es.last().0, es.last().1)
    }
}

/// No two entries share a key.
pub open spec fn unique_keys(es: Seq<(Seq<char>, Seq<char>)>) -> bool {
    forall|i: int, j: int| 0 <= i < j < es.len() ==> (#[trigger] es[i]).0 != (#[trigger] es[j]).0
}

/// In a list with unique keys, the denoted map holds exactly the listed
/// entries.
pub proof fn lemma_entries_map_lookup(es: Seq<(Seq<char>, Seq<char>)>, k: Seq<char>)
    requires
        unique_keys(es),
    ensures
        entries_map(es).contains_key(k) <==> (exists|i: int| 0 <= i < es.len() && (#[trigger] es[i]).0 == k),
        forall|i: int|
            0 <= i < es.len() && (#[trigger] es[i]).0 == k ==> entries_map(es)[k] == es[i].1,
    decreases es.len(),
{
    if es.len() > 0 {
        let dl = es.drop_last();
        let last = es.last();
        let n = es.len() as int;
        assert(forall|i: int| 0 <= i < n - 1 ==> #[trigger] dl[i] == es[i]);
        assert(unique_keys(dl));
        lemma_entries_map_lookup(dl, k);
        assert(es[n - 1] == last);
        if last.0 == k {
            assert(es[n - 1].0 == k);
            assert forall|i: int|
                0 <= i < n && (#[trigger] es[i]).0 == k implies entries_map(es)[k] == es[i].1 by {
                if i < n - 1 {
                    assert(es[i].0 == es[n - 1].0);
                    assert(false);
                }
            }
        } else {
            if exists|i: int| 0 <= i < n && (#[trigger] es[i]).0 == k {
                let i = choose|i: int| 0 <= i < n && (#[trigger] es[i]).0 == k;
                assert(i < n - 1);
                assert(dl[i].0 == k);
                assert(entries_map(dl).contains_key(k));
            }
            if entries_map(es).contains_key(k) {
                assert(entries_map(dl).contains_key(k));
                let i = choose|i: int| 0 <= i < dl.len() && (#[trigger] dl[i]).0 == k;
                assert(es[i].0 == k);
            }
            assert forall|i: int|
                0 <= i < n && (#[trigger] es[i]).0 == k implies entries_map(es)[k] == es[i].1 by {
                assert(i < n - 1);
                assert(dl[i].0 == k);
                assert(entries_map(dl)[k] == dl[i].1);
            }
        }
    }
}

/// An in-memory map from string key to string value.
pub struct KvMap {
    pairs: Vec<(String, String)>,
}

impl KvMap {
    /// The entries, in iteration order.
    pub closed spec fn entries(&self) -> Seq<(Seq<char>, Seq<char>)> {
        self.pairs@.map_values(|p: (String, String)| (p.0@, p.1@))
    }

    /// The mapping the entries denote.
    pub open spec fn view(&self) -> Map<Seq<char>, Seq<char>> {
        entries_map(self.entries())
    }

    /// Keys are unique; the entry list denotes the map faithfully.
    pub closed spec fn wf(&self) -> bool {
        unique_keys(self.entries())
    }

    /// An empty map.
    pub fn new() -> (m: KvMap)
        ensures
            m.wf(),
            m@ == Map::<Seq<char>, Seq<char>>::empty(),
            m.entries() == Seq::<(Seq<char>, Seq<char>)>::empty(),
    {
        let m = KvMap { pairs: Vec::new() };
        proof {
            assert(m.entries() =~= Seq::<(Seq<char>, Seq<char>)>::empty());
        }
        m
    }

    /// The value stored under `key`, if any.
    pub fn get(&self, key: &str) -> (r: Option<&String>)
        requires
            self.wf(),
        ensures
            (match r {
                Some(v) => self@.contains_key(key@) && self@[key@] == v@,
                None => !self@.contains_key(key@),
            }),
    {
        let mut i: usize = 0;
        while i < self.pairs.len()
            invariant
                self.wf(),
                i <= self.pairs@.len(),
                forall|j: int| 0 <= j < i ==> (#[trigger] self.entries()[j]).0 != key@,
            decreases self.pairs@.len() - i,
        {
            if str_eq(self.pairs[i].0.as_str(), key) {
                proof {
                    assert((self.entries()[i as int]).0 == key@);
                    lemma_entries_map_lookup(self.entries(), key@);
                }
                return Some(&self.pairs[i].1);
            }
            i = i + 1;
        }
        proof {
            lemma_entries_map_lookup(self.entries(), key@);
        }
        None
    }

    /// Binds `key` to `value`, overwriting any earlier binding.
    pub fn insert(&mut self, key: String, value: String)
        requires
            old(self).wf(),
        ensures
            final(self).wf(),
            final(self)@ == old(self)@.insert(key@, value@),
    {
        let ghost old_entries = self.entries();
        let mut i: usize = 0;
        while i < self.pairs.len()
            invariant
                self.wf(),
                self.entries() == old_entries,
                old_entries == old(self).entries(),
                i <= self.pairs@.len(),
                forall|j: int| 0 <= j < i ==> (#[trigger] self.entries()[j]).0 != key@,
            decreases self.pairs@.len() - i,
        {
            if str_eq(self.pairs[i].0.as_str(), key.as_str()) {
                self.pairs.remove(i);
                self.pairs.insert(i, (key, value));
                proof {
                    let es = self.entries();
                    assert(es =~= old_entries.update(i as int, (key@, value@)));
                    assert(forall|j: int|
                        0 <= j < es.len() ==> (#[trigger] es[j]).0 == old_entries[j].0);
                    assert(unique_keys(es));
                    let m1 = entries_map(es);
                    let m2 = entries_map(old_entries).insert(key@, value@);
                    assert forall|k: Seq<char>|
                        m1.contains_key(k) == m2.contains_key(k) by {
                        lemma_entries_map_lookup(es, k);
                        lemma_entries_map_lookup(old_entries, k);
                        if m1.contains_key(k) {
                            let j = choose|j: int| 0 <= j < es.len() && (#[trigger] es[j]).0 == k;
                            assert(old_entries[j].0 == k);
                        }
                        if k != key@ && m2.contains_key(k) {
                            let j = choose|j: int|
                                0 <= j < old_entries.len() && (#[trigger] old_entries[j]).0 == k;
                            assert(es[j].0 == k);
                        }
                        assert(es[i as int].0 == key@);
                    }
                    assert forall|k: Seq<char>| m1.contains_key(k) implies m1[k] == m2[k] by {
                        lemma_entries_map_lookup(es, k);
                        lemma_entries_map_lookup(old_entries, k);
                        if k == key@ {
                            assert(es[i as int].0 == key@ && es[i as int].1 == value@);
                        } else {
                            let j = choose|j: int| 0 <= j < es.len() && (#[trigger] es[j]).0 == k;
                            assert(j != i as int);
                            assert(old_entries[j] == es[j]);
                        }
                    }
                    assert(m1 =~= m2);
                }
                return ;
            }
            i = i + 1;
        }
        self.pairs.push((key, value));
        proof {
            let es = self.entries();
            assert(es =~= old_entries.push((key@, value@)));
            assert(es.drop_last() =~= old_entries);
            assert(unique_keys(es));
        }
    }

    /// Removes every binding.
    pub fn clear(&mut self)
        ensures
            final(self).wf(),
            final(self)@ == Map::<Seq<char>, Seq<char>>::empty(),
    {
        self.pairs.clear();
        proof {
            assert(self.entries() =~= Seq::<(Seq<char>, Seq<char>)>::empty());
        }
    }
}

} // verus!
