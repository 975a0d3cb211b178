//! Append-only key-value store that the index is written to and read from.
use vstd::prelude::*;

use crate::block::bytes_list_view;
use crate::indexer::{pairs_view, SpecPair};
use crate::types::{IndexValue, SpecIndexValue};

verus! {

/// The map that writing `pairs` in order, over `m`, leaves: a later write of
/// a key replaces an earlier one.
pub open spec fn apply_pairs(m: Map<Seq<u8>, SpecIndexValue>, pairs: Seq<SpecPair>) -> Map<
    Seq<u8>,
    SpecIndexValue,
>
    decreases pairs.len(),
{
    if pairs.len() == 0 {
        m
    } else {
        apply_pairs(m, pairs.drop_last()).insert(pairs.last().0, pairs.last().1)
    }
}

/// The key-value store: a log of writes, the latest write of a key holding.
pub struct Store {
    entries: Vec<(Vec<u8>, IndexValue)>,
}

impl View for Store {
    type V = Map<Seq<u8>, SpecIndexValue>;

    closed spec fn view(&self) -> Map<Seq<u8>, SpecIndexValue> {
        apply_pairs(Map::empty(), pairs_view(self.entries@))
    }
}

/// Byte-wise equality of two slices.
pub fn bytes_eq(a: &[u8], b: &[u8]) -> (r: bool)
    ensures
        r == (a@ == b@),
{
    if a.len() != b.len() {
        return false;
    }
    let mut i: usize = 0;
    while i < a.len()
        invariant
            i <= a@.len(),
            a@.len() == b@.len(),
            forall|j: int| 0 <= j < i ==> a@[j] == b@[j],
        decreases a@.len() - i,
    {
        if a[i] != b[i] {
            return false;
        }
        i = i + 1;
    }
    assert(a@ =~= b@);
    true
}

proof fn lemma_apply_pairs_push(m: Map<Seq<u8>, SpecIndexValue>, pairs: Seq<SpecPair>, p: SpecPair)
    ensures
        apply_pairs(m, pairs.push(p)) == apply_pairs(m, pairs).insert(p.0, p.1),
{
    assert(pairs.push(p).drop_last() =~= pairs);
}

/// Writing a concatenation is writing one list, then the other.
pub proof fn lemma_apply_pairs_append(
    m: Map<Seq<u8>, SpecIndexValue>,
    a: Seq<SpecPair>,
    b: Seq<SpecPair>,
)
    ensures
        apply_pairs(m, a + b) == apply_pairs(apply_pairs(m, a), b),
    decreases b.len(),
{
    if b.len() == 0 {
        assert(a + b =~= a);
    } else {
        assert((a + b).drop_last() =~= a + b.drop_last());
        lemma_apply_pairs_append(m, a, b.drop_last());
    }
}

/// A key that no pair writes keeps its value.
pub proof fn lemma_apply_pairs_untouched(
    m: Map<Seq<u8>, SpecIndexValue>,
    pairs: Seq<SpecPair>,
    k: Seq<u8>,
)
    requires
        forall|i: int| 0 <= i < pairs.len() ==> (#[trigger] pairs[i]).0 != k,
    ensures
        apply_pairs(m, pairs).contains_key(k) == m.contains_key(k),
        m.contains_key(k) ==> apply_pairs(m, pairs)[k] == m[k],
    decreases pairs.len(),
{
    if pairs.len() > 0 {
        assert(pairs.last() == pairs[pairs.len() - 1]);
        assert forall|i: int| 0 <= i < pairs.drop_last().len() implies (
        #[trigger] pairs.drop_last()[i]).0 != k by {
            assert(pairs.drop_last()[i] == pairs[i]);
        }
        lemma_apply_pairs_untouched(m, pairs.drop_last(), k);
    }
}

/// The value of a key after writing pairs is that of the last pair that writes it.
pub proof fn lemma_apply_pairs_last(
    m: Map<Seq<u8>, SpecIndexValue>,
    pairs: Seq<SpecPair>,
    i: int,
)
    requires
        0 <= i < pairs.len(),
        forall|j: int| i < j < pairs.len() ==> (#[trigger] pairs[j]).0 != pairs[i].0,
    ensures
        apply_pairs(m, pairs).contains_key(pairs[i].0),
        apply_pairs(m, pairs)[pairs[i].0] == pairs[i].1,
    decreases pairs.len(),
{
    if i == pairs.len() - 1 {
    } else {
        assert(pairs.last() == pairs[pairs.len() - 1]);
        assert forall|j: int| i < j < pairs.drop_last().len() implies (
        #[trigger] pairs.drop_last()[j]).0 != pairs.drop_last()[i].0 by {
            assert(pairs.drop_last()[j] == pairs[j]);
        }
        lemma_apply_pairs_last(m, pairs.drop_last(), i);
    }
}

/// After writing `pairs` over `m`, a key that some pair writes holds the
/// value of one of the pairs that write it.
pub proof fn lemma_apply_pairs_source(
    m: Map<Seq<u8>, SpecIndexValue>,
    pairs: Seq<SpecPair>,
    k: Seq<u8>,
    i: int,
) -> (e: int)
    requires
        0 <= i < pairs.len(),
        pairs[i].0 == k,
    ensures
        0 <= e < pairs.len(),
        pairs[e].0 == k,
        apply_pairs(m, pairs).contains_key(k),
        apply_pairs(m, pairs)[k] == pairs[e].1,
    decreases pairs.len(),
{
    if pairs.last().0 == k {
        (pairs.len() - 1) as int
    } else {
        assert(pairs.drop_last()[i] == pairs[i]);
        let e = lemma_apply_pairs_source(m, pairs.drop_last(), k, i);
        assert(pairs.drop_last()[e] == pairs[e]);
        e
    }
}

/// No later pair writes the key of pair `e`.
pub open spec fn latest(pairs: Seq<SpecPair>, e: int) -> bool {
    forall|j: int| e < j < pairs.len() ==> (#[trigger] pairs[j]).0 != pairs[e].0
}

/// Among the pairs from `i` on that write the key of pair `i`, the last one.
proof fn lemma_latest_exists(pairs: Seq<SpecPair>, i: int) -> (e: int)
    requires
        0 <= i < pairs.len(),
    ensures
        i <= e < pairs.len(),
        pairs[e].0 == pairs[i].0,
        latest(pairs, e),
    decreases pairs.len() - i,
{
    if latest(pairs, i) {
        i
    } else {
        let j = choose|j: int| i < j < pairs.len() && (#[trigger] pairs[j]).0 == pairs[i].0;
        lemma_latest_exists(pairs, j)
    }
}

impl Store {
    /// An empty store.
    pub fn new() -> (s: Store)
        ensures
            s@ == Map::<Seq<u8>, SpecIndexValue>::empty(),
    {
        let s = Store { entries: Vec::new() };
        assert(pairs_view(s.entries@) =~= Seq::<SpecPair>::empty());
        s
    }

    /// Reads the value of `key`.
    pub fn get(&self, key: &[u8]) -> (r: Option<&IndexValue>)
        ensures
            match r {
                Some(v) => self@.contains_key(key@) && self@[key@] == v@,
                None => !self@.contains_key(key@),
            },
    {
        let ghost all = pairs_view(self.entries@);
        let mut j: usize = self.entries.len();
        while j > 0
            invariant
                j <= self.entries@.len(),
                all == pairs_view(self.entries@),
                forall|i: int| j <= i < all.len() ==> (#[trigger] all[i]).0 != key@,
            decreases j,
        {
            let entry = &self.entries[j - 1];
            if bytes_eq(entry.0.as_slice(), key) {
                proof {
                    lemma_apply_pairs_last(Map::empty(), all, j - 1);
                }
                return Some(&entry.1);
            }
            j = j - 1;
        }
        proof {
            lemma_apply_pairs_untouched(Map::empty(), all, key@);
        }
        None
    }


    /// Whether a later write replaces the write at position `j`.
    fn written_later(&self, j: usize) -> (found: bool)
        requires
            j < self.entries@.len(),
        ensures
            found == !latest(pairs_view(self.entries@), j as int),
    {
        let ghost all = pairs_view(self.entries@);
        let n = self.entries.len();
        let key = &self.entries[j].0;
        let mut later: usize = j + 1;
        while later < n
            invariant
                j < n,
                j + 1 <= later <= n,
                n == all.len(),
                all == pairs_view(self.entries@),
                *key == self.entries@[j as int].0,
                forall|e: int| j < e < later ==> (#[trigger] all[e]).0 != all[j as int].0,
            decreases n - later,
        {
            if bytes_eq(self.entries[later].0.as_slice(), key.as_slice()) {
                assert(all[later as int].0 == all[j as int].0);
                return true;
            }
            later = later + 1;
        }
        false
    }

    /// The keys that hold a value, each once.
    pub fn keys(&self) -> (ks: Vec<Vec<u8>>)
        ensures
            bytes_list_view(ks@).no_duplicates(),
            forall|k: Seq<u8>| self@.contains_key(k) <==> bytes_list_view(ks@).contains(k),
    {
        let ghost all = pairs_view(self.entries@);
        let n = self.entries.len();
        let mut ks: Vec<Vec<u8>> = Vec::new();
        let ghost mut pos: Seq<int> = seq![];
        let mut j: usize = 0;
        while j < n
            invariant
                j <= n,
                n == all.len(),
                all == pairs_view(self.entries@),
                pos.len() == ks@.len(),
                forall|i: int|
                    0 <= i < ks@.len() ==> 0 <= #[trigger] pos[i] < j && all[pos[i]].0 == ks@[i]@
                        && latest(all, pos[i]),
                forall|i1: int, i2: int|
                    0 <= i1 < i2 < ks@.len() ==> #[trigger] pos[i1] < #[trigger] pos[i2],
                forall|e: int|
                    0 <= e < j && latest(all, e) ==> exists|i: int|
                        0 <= i < ks@.len() && #[trigger] pos[i] == e,
            decreases n - j,
        {
            let key = &self.entries[j].0;
            let found = self.written_later(j);
            if !found {
                ks.push(vstd::slice::slice_to_vec(key.as_slice()));
                proof {
                    let old_pos = pos;
                    pos = pos.push(j as int);
                    assert forall|e: int| 0 <= e < j + 1 && latest(all, e) implies exists|i: int|
                        0 <= i < ks@.len() && #[trigger] pos[i] == e by {
                        if e < j {
                            let i = choose|i: int| 0 <= i < old_pos.len() && #[trigger] old_pos[i] == e;
                            assert(pos[i] == e);
                        } else {
                            assert(pos[old_pos.len() as int] == e);
                        }
                    }
                }
            }
            j = j + 1;
        }
        proof {
            let kv = bytes_list_view(ks@);
            assert forall|i1: int, i2: int|
                0 <= i1 < kv.len() && 0 <= i2 < kv.len() && i1 != i2 implies kv[i1] != kv[i2] by {
                assert(kv[i1] == ks@[i1]@ && kv[i2] == ks@[i2]@);
                if i1 < i2 {
                    assert(pos[i1] < pos[i2]);
                } else {
                    assert(pos[i2] < pos[i1]);
                }
            }
            assert forall|k: Seq<u8>| self@.contains_key(k) implies kv.contains(k) by {
                if forall|i: int| 0 <= i < all.len() ==> (#[trigger] all[i]).0 != k {
                    lemma_apply_pairs_untouched(Map::empty(), all, k);
                } else {
                    let i = choose|i: int| 0 <= i < all.len() && (#[trigger] all[i]).0 == k;
                    let e = lemma_latest_exists(all, i);
                    let t = choose|t: int| 0 <= t < ks@.len() && #[trigger] pos[t] == e;
                    assert(kv[t] == ks@[t]@);
                }
            }
            assert forall|k: Seq<u8>| kv.contains(k) implies self@.contains_key(k) by {
                let i = choose|i: int| 0 <= i < kv.len() && kv[i] == k;
                assert(kv[i] == ks@[i]@);
                lemma_apply_pairs_last(Map::empty(), all, pos[i]);
            }
        }
        ks
    }

    /// Writes `value` under `key`.
    pub fn set(&mut self, key: Vec<u8>, value: IndexValue)
        ensures
            final(self)@ == old(self)@.insert(key@, value@),
    {
        let ghost before = pairs_view(self.entries@);
        self.entries.push((key, value));
        proof {
            assert(pairs_view(self.entries@) =~= before.push((key@, value@)));
            lemma_apply_pairs_push(Map::empty(), before, (key@, value@));
        }
    }

    /// Writes the pairs in order.
    pub fn flush(&mut self, pairs: Vec<(Vec<u8>, IndexValue)>)
        ensures
            final(self)@ == apply_pairs(old(self)@, pairs_view(pairs@)),
    {
        let ghost before = pairs_view(self.entries@);
        let mut pairs = pairs;
        let ghost added = pairs_view(pairs@);
        self.entries.append(&mut pairs);
        proof {
            assert(pairs_view(self.entries@) =~= before + added);
            lemma_apply_pairs_append(Map::empty(), before, added);
        }
    }
}

} // verus!
