//! A store in memory: its pairs, in the order of their keys.
use vstd::prelude::*;

use crate::storage::engine::{
    lemma_filter_ascending, lemma_scan_is, pairs_of, Contents, Engine, Pair,
};
use crate::storage::order::{
    clone_bytes, compare, lemma_less_irreflexive, lemma_less_transitive, less, starts_with, Order,
};

verus! {

/// Whether the keys of `s` ascend.
pub open spec fn ascending(s: Seq<Pair>) -> bool {
    forall|i: int, j: int| 0 <= i < j < s.len() ==> less((#[trigger] s[i]).0, (#[trigger] s[j]).0)
}

/// Whether `k` is a key of `s`.
pub open spec fn has_key(s: Seq<Pair>, k: Seq<u8>) -> bool {
    exists|i: int| 0 <= i < s.len() && (#[trigger] s[i]).0 == k
}

/// The value of each key of `s`.
pub open spec fn map_of(s: Seq<Pair>) -> Contents {
    Map::new(
        |k: Seq<u8>| has_key(s, k),
        |k: Seq<u8>| s[choose|i: int| 0 <= i < s.len() && (#[trigger] s[i]).0 == k].1,
    )
}

/// In ascending pairs each key stands once, with its value.
pub proof fn lemma_map_of_at(s: Seq<Pair>, i: int)
    requires
        ascending(s),
        0 <= i < s.len(),
    ensures
        map_of(s).contains_key(s[i].0),
        map_of(s)[s[i].0] == s[i].1,
{
    let k = s[i].0;
    let j = choose|j: int| 0 <= j < s.len() && (#[trigger] s[j]).0 == k;
    lemma_less_irreflexive(k);
    if j < i {
        assert(less(s[j].0, s[i].0));
    } else if i < j {
        assert(less(s[i].0, s[j].0));
    }
}

/// A pair put in at its place in the order is one more key, or a new value
/// for none: the keys still ascend.
pub proof fn lemma_map_of_insert(s: Seq<Pair>, i: int, k: Seq<u8>, v: Seq<u8>)
    requires
        ascending(s),
        0 <= i <= s.len(),
        forall|j: int| 0 <= j < i ==> less((#[trigger] s[j]).0, k),
        forall|j: int| i <= j < s.len() ==> less(k, (#[trigger] s[j]).0),
    ensures
        ascending(s.insert(i, (k, v))),
        map_of(s.insert(i, (k, v))) == map_of(s).insert(k, v),
{
    let t = s.insert(i, (k, v));
    assert forall|a: int, b: int| 0 <= a < b < t.len() implies less(
        (#[trigger] t[a]).0,
        (#[trigger] t[b]).0,
    ) by {
        let x = if a < i {
            a
        } else {
            a - 1
        };
        let y = if b < i {
            b
        } else {
            b - 1
        };
        if a != i && b != i {
            assert(t[a] == s[x] && t[b] == s[y]);
            assert(less(s[x].0, s[y].0));
        } else if a == i {
            assert(t[b] == s[y]);
        } else {
            assert(t[a] == s[x]);
        }
    }
    assert forall|key: Seq<u8>| map_of(t).contains_key(key) == map_of(s).insert(
        k,
        v,
    ).contains_key(key) by {
        if has_key(t, key) {
            let a = choose|a: int| 0 <= a < t.len() && (#[trigger] t[a]).0 == key;
            if a < i {
                assert(s[a].0 == key);
            } else if a > i {
                assert(s[a - 1].0 == key);
            }
        }
        if has_key(s, key) {
            let a = choose|a: int| 0 <= a < s.len() && (#[trigger] s[a]).0 == key;
            if a < i {
                assert(t[a].0 == key);
            } else {
                assert(t[a + 1].0 == key);
            }
        }
        if key == k {
            assert(t[i].0 == key);
        }
    }
    assert forall|key: Seq<u8>| map_of(t).contains_key(key) implies map_of(t)[key] == map_of(
        s,
    ).insert(k, v)[key] by {
        let a = choose|a: int| 0 <= a < t.len() && (#[trigger] t[a]).0 == key;
        lemma_map_of_at(t, a);
        if a < i {
            lemma_map_of_at(s, a);
            assert(less(s[a].0, k));
            lemma_less_irreflexive(k);
        } else if a > i {
            lemma_map_of_at(s, a - 1);
            assert(less(k, s[a - 1].0));
            lemma_less_irreflexive(k);
        }
    }
    assert(map_of(t) =~= map_of(s).insert(k, v));
}

/// A pair taken out is one key less: the keys still ascend.
pub proof fn lemma_map_of_remove(s: Seq<Pair>, i: int)
    requires
        ascending(s),
        0 <= i < s.len(),
    ensures
        ascending(s.remove(i)),
        map_of(s.remove(i)) == map_of(s).remove(s[i].0),
{
    let t = s.remove(i);
    let k = s[i].0;
    assert forall|a: int, b: int| 0 <= a < b < t.len() implies less(
        (#[trigger] t[a]).0,
        (#[trigger] t[b]).0,
    ) by {
        let x = if a < i {
            a
        } else {
            a + 1
        };
        let y = if b < i {
            b
        } else {
            b + 1
        };
        assert(t[a] == s[x] && t[b] == s[y]);
        assert(less(s[x].0, s[y].0));
    }
    assert forall|key: Seq<u8>| map_of(t).contains_key(key) == map_of(s).remove(k).contains_key(
        key,
    ) by {
        if has_key(t, key) {
            let a = choose|a: int| 0 <= a < t.len() && (#[trigger] t[a]).0 == key;
            let x = if a < i {
                a
            } else {
                a + 1
            };
            assert(s[x].0 == key);
            lemma_less_irreflexive(k);
            if x < i {
                assert(less(s[x].0, s[i].0));
            } else {
                assert(less(s[i].0, s[x].0));
            }
        }
        if has_key(s, key) && key != k {
            let a = choose|a: int| 0 <= a < s.len() && (#[trigger] s[a]).0 == key;
            if a < i {
                assert(t[a].0 == key);
            } else {
                assert(t[a - 1].0 == key);
            }
        }
    }
    assert forall|key: Seq<u8>| map_of(t).contains_key(key) implies map_of(t)[key] == map_of(
        s,
    ).remove(k)[key] by {
        let a = choose|a: int| 0 <= a < t.len() && (#[trigger] t[a]).0 == key;
        lemma_map_of_at(t, a);
        if a < i {
            lemma_map_of_at(s, a);
        } else {
            lemma_map_of_at(s, a + 1);
        }
    }
    assert(map_of(t) =~= map_of(s).remove(k));
}

/// A store in memory.
pub struct MemoryEngine {
    entries: Vec<(Vec<u8>, Vec<u8>)>,
}

impl MemoryEngine {
    /// An empty store.
    pub fn new() -> (store: MemoryEngine)
        ensures
            store.wf(),
            store.contents() == Contents::empty(),
    {
        let store = MemoryEngine { entries: Vec::new() };
        assert(store.contents() =~= Contents::empty());
        store
    }

    /// Where `key` stands, or would stand: behind the keys before it.
    fn place(&self, key: &Vec<u8>) -> (r: (usize, bool))
        requires
            self.wf(),
        ensures
            r.0 <= self.entries.len(),
            forall|j: int| 0 <= j < r.0 ==> less((#[trigger] pairs_of(self.entries@)[j]).0, key@),
            r.1 ==> r.0 < self.entries.len() && pairs_of(self.entries@)[r.0 as int].0 == key@,
            !r.1 ==> forall|j: int|
                r.0 <= j < self.entries.len() ==> less(
                    key@,
                    (#[trigger] pairs_of(self.entries@)[j]).0,
                ),
    {
        let ghost s = pairs_of(self.entries@);
        let mut i: usize = 0;
        while i < self.entries.len()
            invariant
                i <= self.entries.len(),
                s == pairs_of(self.entries@),
                ascending(s),
                forall|j: int| 0 <= j < i ==> less((#[trigger] s[j]).0, key@),
            decreases self.entries.len() - i,
        {
            match compare(&self.entries[i].0, key) {
                Order::Less => {},
                Order::Equal => {
                    return (i, true);
                },
                Order::Greater => {
                    assert forall|j: int| i <= j < self.entries.len() implies less(
                        key@,
                        (#[trigger] s[j]).0,
                    ) by {
                        if j > i {
                            assert(less(s[i as int].0, s[j].0));
                            lemma_less_transitive(key@, s[i as int].0, s[j].0);
                        }
                    }
                    return (i, false);
                },
            }
            i = i + 1;
        }
        (i, false)
    }
}

impl Engine for MemoryEngine {
    closed spec fn wf(&self) -> bool {
        ascending(pairs_of(self.entries@))
    }

    closed spec fn contents(&self) -> Contents {
        map_of(pairs_of(self.entries@))
    }

    proof fn lemma_scannable(&self, prefix: Seq<u8>) {
        let s = pairs_of(self.entries@);
        let keep = |p: Pair| prefix.is_prefix_of(p.0);
        let f = s.filter(keep);
        let contents = self.contents();
        lemma_filter_ascending(s, keep);
        assert forall|i: int| 0 <= i < f.len() implies {
            &&& prefix.is_prefix_of((#[trigger] f[i]).0)
            &&& contents.contains_key(f[i].0)
            &&& contents[f[i].0] == f[i].1
        } by {
            let j = choose|j: int| 0 <= j < s.len() && s[j] == f[i];
            lemma_map_of_at(s, j);
        }
        assert forall|k: Seq<u8>| #[trigger]
            contents.contains_key(k) && prefix.is_prefix_of(k) implies exists|i: int|
            0 <= i < f.len() && (#[trigger] f[i]).0 == k by {
            let j = choose|j: int| 0 <= j < s.len() && (#[trigger] s[j]).0 == k;
            assert(keep(s[j]));
            let i = choose|i: int| 0 <= i < f.len() && f[i] == s[j];
            assert(f[i].0 == k);
        }
        lemma_scan_is(f, contents, prefix);
    }

    fn get(&self, key: &Vec<u8>) -> (r: Option<Vec<u8>>) {
        let (i, found) = self.place(key);
        let ghost s = pairs_of(self.entries@);
        if found {
            proof {
                lemma_map_of_at(s, i as int);
            }
            Some(clone_bytes(&self.entries[i].1))
        } else {
            proof {
                if has_key(s, key@) {
                    let j = choose|j: int| 0 <= j < s.len() && (#[trigger] s[j]).0 == key@;
                    lemma_less_irreflexive(key@);
                }
            }
            None
        }
    }

    fn set(&mut self, key: Vec<u8>, value: Vec<u8>) {
        let (i, found) = self.place(&key);
        let ghost s = pairs_of(self.entries@);
        if found {
            self.entries.remove(i);
            proof {
                assert(pairs_of(self.entries@) == s.remove(i as int));
                lemma_map_of_remove(s, i as int);
                let t = s.remove(i as int);
                assert forall|j: int| i <= j < t.len() implies less(key@, (#[trigger] t[j]).0) by {
                    assert(t[j] == s[j + 1]);
                    assert(less(s[i as int].0, s[j + 1].0));
                }
                assert forall|j: int| 0 <= j < i implies less((#[trigger] t[j]).0, key@) by {
                    assert(t[j] == s[j]);
                }
                lemma_map_of_insert(t, i as int, key@, value@);
                assert(map_of(s).remove(key@).insert(key@, value@) == map_of(s).insert(
                    key@,
                    value@,
                ));
            }
        } else {
            proof {
                lemma_map_of_insert(s, i as int, key@, value@);
            }
        }
        let ghost t = pairs_of(self.entries@);
        self.entries.insert(i, (key, value));
        assert(pairs_of(self.entries@) == t.insert(i as int, (key@, value@)));
    }

    fn delete(&mut self, key: &Vec<u8>) {
        let (i, found) = self.place(key);
        let ghost s = pairs_of(self.entries@);
        if found {
            self.entries.remove(i);
            proof {
                assert(pairs_of(self.entries@) == s.remove(i as int));
                lemma_map_of_remove(s, i as int);
            }
        } else {
            proof {
                if has_key(s, key@) {
                    let j = choose|j: int| 0 <= j < s.len() && (#[trigger] s[j]).0 == key@;
                    lemma_less_irreflexive(key@);
                }
                assert(map_of(s).remove(key@) =~= map_of(s));
            }
        }
    }

    fn scan_prefix(&self, prefix: &Vec<u8>) -> (r: Vec<(Vec<u8>, Vec<u8>)>) {
        let ghost s = pairs_of(self.entries@);
        let mut r: Vec<(Vec<u8>, Vec<u8>)> = Vec::new();
        let ghost mut from: Seq<int> = Seq::empty();
        let mut i: usize = 0;
        while i < self.entries.len()
            invariant
                i <= self.entries.len(),
                s == pairs_of(self.entries@),
                ascending(s),
                from.len() == r.len(),
                forall|n: int| 0 <= n < r.len() ==> 0 <= #[trigger] from[n] < i,
                forall|n: int, m: int| 0 <= n < m < r.len() ==> from[n] < from[m],
                forall|n: int|
                    0 <= n < r.len() ==> (#[trigger] pairs_of(r@)[n]) == s[from[n]]
                        && prefix@.is_prefix_of(s[from[n]].0),
                forall|j: int|
                    0 <= j < i && prefix@.is_prefix_of((#[trigger] s[j]).0) ==> exists|n: int|
                        0 <= n < r.len() && #[trigger] from[n] == j,
            decreases self.entries.len() - i,
        {
            if starts_with(&self.entries[i].0, prefix) {
                let ghost before = pairs_of(r@);
                let ghost old_from = from;
                r.push((clone_bytes(&self.entries[i].0), clone_bytes(&self.entries[i].1)));
                proof {
                    from = from.push(i as int);
                    assert(pairs_of(r@) == before.push(s[i as int]));
                    assert forall|j: int|
                        0 <= j < i + 1 && prefix@.is_prefix_of(
                            (#[trigger] s[j]).0,
                        ) implies exists|n: int| 0 <= n < r.len() && #[trigger] from[n] == j by {
                        if j < i {
                            let n = choose|n: int|
                                0 <= n < old_from.len() && #[trigger] old_from[n] == j;
                            assert(from[n] == j);
                        } else {
                            assert(from[r.len() - 1] == j);
                        }
                    }
                }
            }
            i = i + 1;
        }
        proof {
            let out = pairs_of(r@);
            let contents = self.contents();
            assert forall|n: int| 0 <= n < out.len() implies {
                &&& prefix@.is_prefix_of((#[trigger] out[n]).0)
                &&& contents.contains_key(out[n].0)
                &&& contents[out[n].0] == out[n].1
            } by {
                lemma_map_of_at(s, from[n]);
            }
            assert forall|k: Seq<u8>| #[trigger]
                contents.contains_key(k) && prefix@.is_prefix_of(k) implies exists|n: int|
                0 <= n < out.len() && (#[trigger] out[n]).0 == k by {
                let j = choose|j: int| 0 <= j < s.len() && (#[trigger] s[j]).0 == k;
                let n = choose|n: int| 0 <= n < r.len() && #[trigger] from[n] == j;
                assert(out[n].0 == k);
            }
            assert forall|n: int, m: int| 0 <= n < m < out.len() implies less(
                (#[trigger] out[n]).0,
                (#[trigger] out[m]).0,
            ) by {
                assert(less(s[from[n]].0, s[from[m]].0));
            }
            lemma_scan_is(out, contents, prefix@);
        }
        r
    }
}

} // verus!
