//! Association tables keyed by strings. The spec functions treat a table as a
//! sequence of (key, value) pairs in insertion order, where the first pair
//! with a key wins; `StrTable` is the executable table for string values,
//! used for request and response headers and for asset mounts.

use vstd::prelude::*;

verus! {

/// True when some pair in `m` has the key `k`.
pub open spec fn assoc_contains<V>(m: Seq<(Seq<char>, V)>, k: Seq<char>) -> bool {
    exists|i: int| 0 <= i < m.len() && (#[trigger] m[i]).0 == k
}

/// The value of the first pair in `m` keyed `k`, if any.
pub open spec fn assoc_get<V>(m: Seq<(Seq<char>, V)>, k: Seq<char>) -> Option<V>
    decreases m.len(),
{
    if m.len() == 0 {
        None
    } else if m.first().0 == k {
        Some(m.first().1)
    } else {
        assoc_get(m.drop_first(), k)
    }
}

/// The index of the first pair in `m` keyed `k`, defined when one exists.
pub open spec fn assoc_index<V>(m: Seq<(Seq<char>, V)>, k: Seq<char>) -> int
    decreases m.len(),
{
    if m.len() == 0 {
        0
    } else if m.first().0 == k {
        0
    } else {
        1 + assoc_index(m.drop_first(), k)
    }
}

/// A first-match lookup succeeds exactly when some pair has the key, and
/// returns the value at the first such index.
pub proof fn lemma_assoc_get_index<V>(m: Seq<(Seq<char>, V)>, k: Seq<char>)
    ensures
        assoc_get(m, k) is Some <==> assoc_contains(m, k),
        assoc_contains(m, k) ==> {
            let i = assoc_index(m, k);
            &&& 0 <= i < m.len()
            &&& m[i].0 == k
            &&& assoc_get(m, k) == Some(m[i].1)
            &&& forall|j: int| 0 <= j < i ==> (#[trigger] m[j]).0 != k
        },
    decreases m.len(),
{
    if m.len() == 0 {
    } else if m.first().0 == k {
    } else {
        let d = m.drop_first();
        lemma_assoc_get_index(d, k);
        assert(forall|j: int| 0 <= j < d.len() ==> #[trigger] d[j] == m[j + 1]);
        if assoc_contains(m, k) {
            let w = choose|i: int| 0 <= i < m.len() && (#[trigger] m[i]).0 == k;
            assert(w > 0);
            assert(d[w - 1].0 == k);
            assert(assoc_contains(d, k));
            let di = assoc_index(d, k);
            assert(m[1 + di] == d[di]);
            assert forall|j: int| 0 <= j < 1 + di implies (#[trigger] m[j]).0 != k by {
                if j > 0 {
                    assert(d[j - 1] == m[j]);
                }
            }
        }
        if assoc_contains(d, k) {
            let w = choose|i: int| 0 <= i < d.len() && (#[trigger] d[i]).0 == k;
            assert(m[w + 1].0 == k);
            assert(assoc_contains(m, k));
        }
    }
}


/// Looking a key up after appending a pair: an existing first match is
/// undisturbed; otherwise the new pair answers exactly for its own key.
pub proof fn lemma_assoc_get_push<V>(m: Seq<(Seq<char>, V)>, p: (Seq<char>, V), k: Seq<char>)
    ensures
        assoc_get(m.push(p), k) == if assoc_get(m, k) is Some {
            assoc_get(m, k)
        } else if p.0 == k {
            Some(p.1)
        } else {
            None::<V>
        },
    decreases m.len(),
{
    if m.len() == 0 {
        assert(m.push(p).first() == p);
        assert(m.push(p).drop_first() =~= m);
    } else {
        assert(m.push(p).first() == m.first());
        assert(m.push(p).drop_first() =~= m.drop_first().push(p));
        lemma_assoc_get_push(m.drop_first(), p, k);
    }
}

/// A string-to-string table. The view is the sequence of (key, value) pairs
/// in insertion order; lookups return the first pair with a matching key.
#[derive(Debug)]
pub struct StrTable {
    entries: Vec<(String, String)>,
}

impl View for StrTable {
    type V = Seq<(Seq<char>, Seq<char>)>;

    closed spec fn view(&self) -> Seq<(Seq<char>, Seq<char>)> {
        self.entries@.map_values(|p: (String, String)| (p.0@, p.1@))
    }
}

impl StrTable {
    /// An empty table.
    pub fn new() -> (r: StrTable)
        ensures
            r@ == Seq::<(Seq<char>, Seq<char>)>::empty(),
    {
        let r = StrTable { entries: Vec::new() };
        proof {
            assert(r@ =~= Seq::<(Seq<char>, Seq<char>)>::empty());
        }
        r
    }

    /// The number of stored pairs.
    pub fn len(&self) -> (n: usize)
        ensures
            n == self@.len(),
    {
        self.entries.len()
    }

    /// The key of the `i`-th pair.
    pub fn key_at(&self, i: usize) -> (k: &String)
        requires
            i < self@.len(),
        ensures
            k@ == self@[i as int].0,
    {
        &self.entries[i].0
    }

    /// The value of the `i`-th pair.
    pub fn value_at(&self, i: usize) -> (v: &String)
        requires
            i < self@.len(),
        ensures
            v@ == self@[i as int].1,
    {
        &self.entries[i].1
    }

    /// The index of the first pair keyed `k`, if any.
    fn find_key_index(&self, k: &str) -> (r: Option<usize>)
        ensures
            match r {
                Some(i) => assoc_contains(self@, k@) && i == assoc_index(self@, k@) && i
                    < self@.len(),
                None => !assoc_contains(self@, k@),
            },
    {
        let mut i: usize = 0;
        while i < self.entries.len()
            invariant
                i <= self@.len(),
                self@.len() == self.entries@.len(),
                forall|j: int| 0 <= j < i ==> (#[trigger] self@[j]).0 != k@,
            decreases self@.len() - i,
        {
            if crate::text::str_eq(self.entries[i].0.as_str(), k) {
                proof {
                    lemma_assoc_get_index(self@, k@);
                    assert(self@[i as int].0 == k@);
                    assert(assoc_index(self@, k@) == i);
                }
                return Some(i);
            }
            i = i + 1;
        }
        None
    }

    /// The value of the first pair keyed `k`, if any.
    pub fn get(&self, k: &str) -> (r: Option<&String>)
        ensures
            match r {
                Some(v) => assoc_get(self@, k@) == Some(v@),
                None => assoc_get(self@, k@) is None,
            },
    {
        proof {
            lemma_assoc_get_index(self@, k@);
        }
        match self.find_key_index(k) {
            Some(i) => Some(&self.entries[i].1),
            None => None,
        }
    }

    /// Whether some pair is keyed `k`.
    pub fn contains(&self, k: &str) -> (r: bool)
        ensures
            r == assoc_contains(self@, k@),
    {
        self.find_key_index(k).is_some()
    }

    /// Inserts the pair only when no pair with that key exists yet: the first
    /// insertion for a key wins.
    pub fn insert_if_absent(&mut self, k: String, v: String)
        ensures
            final(self)@ == if assoc_contains(old(self)@, k@) {
                old(self)@
            } else {
                old(self)@.push((k@, v@))
            },
    {
        let ghost kv = (k@, v@);
        if !self.contains(k.as_str()) {
            let ghost old_view = self@;
            self.entries.push((k, v));
            proof {
                assert(self@ =~= old_view.push(kv));
            }
        }
    }

    /// Inserts the pair, replacing the value of the first pair with that key
    /// if one exists.
    pub fn insert(&mut self, k: String, v: String)
        ensures
            final(self)@ == if assoc_contains(old(self)@, k@) {
                old(self)@.update(assoc_index(old(self)@, k@), (k@, v@))
            } else {
                old(self)@.push((k@, v@))
            },
    {
        let ghost kv = (k@, v@);
        let ghost old_view = self@;
        match self.find_key_index(k.as_str()) {
            Some(i) => {
                let _ = self.entries.remove(i);
                self.entries.insert(i, (k, v));
                proof {
                    assert(self@ =~= old_view.update(i as int, kv));
                }
            },
            None => {
                self.entries.push((k, v));
                proof {
                    assert(self@ =~= old_view.push(kv));
                }
            },
        }
    }
}

} // verus!
