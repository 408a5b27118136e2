//! What the transaction layer asks of a store: keys and values are byte
//! strings, each key has at most one value, and the keys that begin alike
//! can be read in order.
use vstd::prelude::*;

use crate::storage::order::{lemma_less_asymmetric, lemma_less_irreflexive, less};

verus! {

/// What a store holds: a value for each of its keys.
pub type Contents = Map<Seq<u8>, Seq<u8>>;

/// A key with its value.
pub type Pair = (Seq<u8>, Seq<u8>);

/// The model of pairs of byte strings.
pub open spec fn pairs_of(v: Seq<(Vec<u8>, Vec<u8>)>) -> Seq<Pair> {
    v.map_values(|e: (Vec<u8>, Vec<u8>)| (e.0@, e.1@))
}

/// That `pairs` are the keys of `contents` that begin with `prefix`, each
/// with its value and each once, in the order of the keys.
pub open spec fn is_scan(pairs: Seq<Pair>, contents: Contents, prefix: Seq<u8>) -> bool {
    &&& forall|i: int|
        0 <= i < pairs.len() ==> {
            &&& prefix.is_prefix_of((#[trigger] pairs[i]).0)
            &&& contents.contains_key(pairs[i].0)
            &&& contents[pairs[i].0] == pairs[i].1
        }
    &&& forall|k: Seq<u8>| #[trigger]
        contents.contains_key(k) && prefix.is_prefix_of(k) ==> exists|i: int|
            0 <= i < pairs.len() && (#[trigger] pairs[i]).0 == k
    &&& forall|i: int, j: int|
        0 <= i < j < pairs.len() ==> less((#[trigger] pairs[i]).0, (#[trigger] pairs[j]).0)
}

/// The keys of `contents` that begin with `prefix`, each with its value, in
/// the order of the keys.
pub open spec fn scan_of(contents: Contents, prefix: Seq<u8>) -> Seq<Pair> {
    choose|pairs: Seq<Pair>| is_scan(pairs, contents, prefix)
}

/// There is one way to read the keys that begin alike in order.
pub proof fn lemma_scan_unique(a: Seq<Pair>, b: Seq<Pair>, contents: Contents, prefix: Seq<u8>)
    requires
        is_scan(a, contents, prefix),
        is_scan(b, contents, prefix),
    ensures
        a == b,
    decreases a.len(),
{
    if a.len() == 0 {
        if b.len() > 0 {
            let k = b[0].0;
            assert(contents.contains_key(k) && prefix.is_prefix_of(k));
        }
        assert(a =~= b);
    } else {
        let k = a[0].0;
        assert(contents.contains_key(k) && prefix.is_prefix_of(k));
        let j = choose|j: int| 0 <= j < b.len() && (#[trigger] b[j]).0 == k;
        let l = b[0].0;
        assert(contents.contains_key(l) && prefix.is_prefix_of(l));
        let i = choose|i: int| 0 <= i < a.len() && (#[trigger] a[i]).0 == l;
        if j > 0 {
            // b[0] < b[j] = a[0] <= a[i] = b[0]
            assert(less(l, k));
            if i > 0 {
                assert(less(k, l));
                lemma_less_asymmetric(k, l);
            } else {
                lemma_less_irreflexive(k);
            }
        }
        assert(a[0] == b[0]);
        let rest = contents.remove(k);
        let ar = a.drop_first();
        let br = b.drop_first();
        assert forall|n: int| 0 <= n < ar.len() implies (#[trigger] ar[n]).0 != k by {
            assert(less(a[0].0, a[n + 1].0));
            lemma_less_irreflexive(k);
        }
        assert forall|n: int| 0 <= n < br.len() implies (#[trigger] br[n]).0 != k by {
            assert(less(b[0].0, b[n + 1].0));
            lemma_less_irreflexive(k);
        }
        assert(is_scan(ar, rest, prefix)) by {
            assert forall|key: Seq<u8>| #[trigger]
                rest.contains_key(key) && prefix.is_prefix_of(key) implies exists|n: int|
                0 <= n < ar.len() && (#[trigger] ar[n]).0 == key by {
                assert(contents.contains_key(key));
                let m = choose|m: int| 0 <= m < a.len() && (#[trigger] a[m]).0 == key;
                assert(ar[m - 1] == a[m]);
            }
            assert forall|x: int, y: int| 0 <= x < y < ar.len() implies less(
                (#[trigger] ar[x]).0,
                (#[trigger] ar[y]).0,
            ) by {
                assert(less(a[x + 1].0, a[y + 1].0));
            }
        }
        assert(is_scan(br, rest, prefix)) by {
            assert forall|key: Seq<u8>| #[trigger]
                rest.contains_key(key) && prefix.is_prefix_of(key) implies exists|n: int|
                0 <= n < br.len() && (#[trigger] br[n]).0 == key by {
                assert(contents.contains_key(key));
                let m = choose|m: int| 0 <= m < b.len() && (#[trigger] b[m]).0 == key;
                assert(br[m - 1] == b[m]);
            }
            assert forall|x: int, y: int| 0 <= x < y < br.len() implies less(
                (#[trigger] br[x]).0,
                (#[trigger] br[y]).0,
            ) by {
                assert(less(b[x + 1].0, b[y + 1].0));
            }
        }
        lemma_scan_unique(ar, br, rest, prefix);
        assert(a =~= seq![a[0]] + ar);
        assert(b =~= seq![b[0]] + br);
    }
}

/// What is read in order is `scan_of`.
pub proof fn lemma_scan_is(pairs: Seq<Pair>, contents: Contents, prefix: Seq<u8>)
    requires
        is_scan(pairs, contents, prefix),
    ensures
        pairs == scan_of(contents, prefix),
        is_scan(scan_of(contents, prefix), contents, prefix),
{
    lemma_scan_unique(pairs, scan_of(contents, prefix), contents, prefix);
}

/// What `contents` holds under the keys whose pairs `keep` accepts.
pub open spec fn kept(contents: Contents, keep: spec_fn(Pair) -> bool) -> Contents {
    contents.restrict(Set::new(|k: Seq<u8>| keep((k, contents[k]))))
}

/// The pairs that `keep` accepts, of pairs whose keys ascend: their keys
/// ascend, and they are the pairs among them that `keep` accepts.
pub proof fn lemma_filter_ascending(pairs: Seq<Pair>, keep: spec_fn(Pair) -> bool)
    requires
        forall|i: int, j: int|
            0 <= i < j < pairs.len() ==> less((#[trigger] pairs[i]).0, (#[trigger] pairs[j]).0),
    ensures
        forall|i: int, j: int|
            0 <= i < j < pairs.filter(keep).len() ==> less(
                (#[trigger] pairs.filter(keep)[i]).0,
                (#[trigger] pairs.filter(keep)[j]).0,
            ),
        forall|i: int|
            0 <= i < pairs.filter(keep).len() ==> keep(#[trigger] pairs.filter(keep)[i])
                && exists|j: int| 0 <= j < pairs.len() && pairs[j] == pairs.filter(keep)[i],
        forall|j: int|
            0 <= j < pairs.len() && keep(#[trigger] pairs[j]) ==> exists|i: int|
                0 <= i < pairs.filter(keep).len() && pairs.filter(keep)[i] == pairs[j],
    decreases pairs.len(),
{
    reveal(Seq::filter);
    if pairs.len() > 0 {
        let front = pairs.drop_last();
        let last = pairs.last();
        lemma_filter_ascending(front, keep);
        let f = front.filter(keep);
        let g = pairs.filter(keep);
        assert(g == if keep(last) {
            f.push(last)
        } else {
            f
        });
        assert forall|i: int, j: int| 0 <= i < j < g.len() implies less(
            (#[trigger] g[i]).0,
            (#[trigger] g[j]).0,
        ) by {
            if j < f.len() {
                assert(less(f[i].0, f[j].0));
            } else {
                let n = choose|n: int| 0 <= n < front.len() && front[n] == f[i];
                assert(less(pairs[n].0, pairs[pairs.len() - 1].0));
            }
        }
        assert forall|i: int| 0 <= i < g.len() implies keep(#[trigger] g[i]) && exists|j: int|
            0 <= j < pairs.len() && pairs[j] == g[i] by {
            if i < f.len() {
                let n = choose|n: int| 0 <= n < front.len() && front[n] == f[i];
                assert(pairs[n] == g[i]);
            } else {
                assert(pairs[pairs.len() - 1] == g[i]);
            }
        }
        assert forall|j: int| 0 <= j < pairs.len() && keep(#[trigger] pairs[j]) implies exists|
            i: int,
        | 0 <= i < g.len() && g[i] == pairs[j] by {
            if j < front.len() {
                assert(front[j] == pairs[j]);
                let i = choose|i: int| 0 <= i < f.len() && f[i] == front[j];
                assert(g[i] == pairs[j]);
            } else {
                assert(g[g.len() - 1] == pairs[j]);
            }
        }
    }
}

/// Of what is read in order, the pairs that `keep` accepts are what is read
/// in order of the contents that `keep` accepts.
pub proof fn lemma_scan_filter(
    pairs: Seq<Pair>,
    contents: Contents,
    prefix: Seq<u8>,
    keep: spec_fn(Pair) -> bool,
)
    requires
        is_scan(pairs, contents, prefix),
    ensures
        is_scan(pairs.filter(keep), kept(contents, keep), prefix),
        pairs.filter(keep) == scan_of(kept(contents, keep), prefix),
{
    lemma_filter_ascending(pairs, keep);
    let f = pairs.filter(keep);
    let sub = kept(contents, keep);
    assert forall|i: int| 0 <= i < f.len() implies {
        &&& prefix.is_prefix_of((#[trigger] f[i]).0)
        &&& sub.contains_key(f[i].0)
        &&& sub[f[i].0] == f[i].1
    } by {
        let j = choose|j: int| 0 <= j < pairs.len() && pairs[j] == f[i];
        assert(prefix.is_prefix_of(pairs[j].0));
    }
    assert forall|k: Seq<u8>| #[trigger]
        sub.contains_key(k) && prefix.is_prefix_of(k) implies exists|i: int|
        0 <= i < f.len() && (#[trigger] f[i]).0 == k by {
        assert(contents.contains_key(k));
        let j = choose|j: int| 0 <= j < pairs.len() && (#[trigger] pairs[j]).0 == k;
        assert(keep(pairs[j]));
        let i = choose|i: int| 0 <= i < f.len() && f[i] == pairs[j];
        assert(f[i].0 == k);
    }
    lemma_scan_is(f, sub, prefix);
}

/// A key that comes behind all the keys that begin as it does is read last.
pub proof fn lemma_scan_push(contents: Contents, prefix: Seq<u8>, k: Seq<u8>, v: Seq<u8>)
    requires
        is_scan(scan_of(contents, prefix), contents, prefix),
        prefix.is_prefix_of(k),
        !contents.contains_key(k),
        forall|other: Seq<u8>| #[trigger]
            contents.contains_key(other) && prefix.is_prefix_of(other) ==> less(other, k),
    ensures
        scan_of(contents.insert(k, v), prefix) == scan_of(contents, prefix).push((k, v)),
        is_scan(scan_of(contents.insert(k, v), prefix), contents.insert(k, v), prefix),
{
    let before = scan_of(contents, prefix);
    let after = before.push((k, v));
    let more = contents.insert(k, v);
    assert forall|key: Seq<u8>| #[trigger]
        more.contains_key(key) && prefix.is_prefix_of(key) implies exists|i: int|
        0 <= i < after.len() && (#[trigger] after[i]).0 == key by {
        if key == k {
            assert(after[before.len() as int].0 == key);
        } else {
            assert(contents.contains_key(key) && prefix.is_prefix_of(key));
            let i = choose|i: int| 0 <= i < before.len() && (#[trigger] before[i]).0 == key;
            assert(after[i].0 == key);
        }
    }
    assert forall|i: int, j: int| 0 <= i < j < after.len() implies less(
        (#[trigger] after[i]).0,
        (#[trigger] after[j]).0,
    ) by {
        if j < before.len() {
            assert(less(before[i].0, before[j].0));
        } else {
            assert(contents.contains_key(before[i].0) && prefix.is_prefix_of(before[i].0));
        }
    }
    assert forall|i: int| 0 <= i < after.len() implies {
        &&& prefix.is_prefix_of((#[trigger] after[i]).0)
        &&& more.contains_key(after[i].0)
        &&& more[after[i].0] == after[i].1
    } by {
        if i < before.len() {
            assert(after[i] == before[i]);
            assert(contents.contains_key(before[i].0));
        }
    }
    lemma_scan_is(after, more, prefix);
}

/// An ordered store of bytes under byte keys. Each operation is done when
/// it returns.
pub trait Engine {
    /// Whether the store is in order.
    spec fn wf(&self) -> bool;

    /// What the store holds.
    spec fn contents(&self) -> Contents;

    /// The keys that begin alike can be read in order.
    proof fn lemma_scannable(&self, prefix: Seq<u8>)
        requires
            self.wf(),
        ensures
            is_scan(scan_of(self.contents(), prefix), self.contents(), prefix),
    ;

    /// The value under `key`, if there is one.
    fn get(&self, key: &Vec<u8>) -> (r: Option<Vec<u8>>)
        requires
            self.wf(),
        ensures
            match r {
                Some(value) => self.contents().contains_key(key@) && value@
                    == self.contents()[key@],
                None => !self.contents().contains_key(key@),
            },
    ;

    /// Puts `value` under `key`, in place of what was there.
    fn set(&mut self, key: Vec<u8>, value: Vec<u8>)
        requires
            old(self).wf(),
        ensures
            final(self).wf(),
            final(self).contents() == old(self).contents().insert(key@, value@),
    ;

    /// Takes away `key` and its value.
    fn delete(&mut self, key: &Vec<u8>)
        requires
            old(self).wf(),
        ensures
            final(self).wf(),
            final(self).contents() == old(self).contents().remove(key@),
    ;

    /// The keys that begin with `prefix`, each with its value, in the order
    /// of the keys.
    fn scan_prefix(&self, prefix: &Vec<u8>) -> (r: Vec<(Vec<u8>, Vec<u8>)>)
        requires
            self.wf(),
        ensures
            pairs_of(r@) == scan_of(self.contents(), prefix@),
            is_scan(pairs_of(r@), self.contents(), prefix@),
    ;
}

} // verus!
