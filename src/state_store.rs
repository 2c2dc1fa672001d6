//! The state store facade over the storage engine: point reads, batch ingestion in key
//! order, and prefix iteration in either direction.
use vstd::prelude::*;

use crate::conflict_detector::{ConflictDetector, ConflictError};
use crate::iterator::DirectedUserIterator;
use crate::key::{
    copy_key, has_prefix, key_lt, lemma_lex_lt_asymmetric, lemma_lex_lt_total,
    lemma_lex_lt_transitive, lemma_next_key_bounds_prefix, lex_lt, next_key, next_key_of,
};
use crate::storage::{
    apply_batch, batch_view, is_backward_scan, is_forward_scan, sorted_by_key, HummockStorage,
    Version,
};
use crate::value::HummockValue;

verus! {

/// A key with the payload to write, `None` for a deletion.
pub type KvPair = (Vec<u8>, Option<Vec<u8>>);

pub open spec fn payload_view(v: Option<Vec<u8>>) -> Option<Seq<u8>> {
    match v {
        Some(b) => Some(b@),
        None => None,
    }
}

/// The pairs of a batch as keys and payloads.
pub open spec fn pairs_view(kv_pairs: Seq<KvPair>) -> Seq<(Seq<u8>, Option<Seq<u8>>)> {
    kv_pairs.map_values(|p: KvPair| (p.0@, payload_view(p.1)))
}

/// `x` placed into `s` after every pair whose key is not above its own.
pub open spec fn insert_by_key(
    s: Seq<(Seq<u8>, Option<Seq<u8>>)>,
    x: (Seq<u8>, Option<Seq<u8>>),
) -> Seq<(Seq<u8>, Option<Seq<u8>>)>
    decreases s.len(),
{
    if s.len() == 0 {
        seq![x]
    } else if lex_lt(x.0, s[0].0) {
        seq![x] + s
    } else {
        seq![s[0]] + insert_by_key(s.drop_first(), x)
    }
}

/// `s` sorted by key; pairs with equal keys keep their order.
pub open spec fn sort_by_key(s: Seq<(Seq<u8>, Option<Seq<u8>>)>) -> Seq<(Seq<u8>, Option<Seq<u8>>)>
    decreases s.len(),
{
    if s.len() == 0 {
        s
    } else {
        insert_by_key(sort_by_key(s.drop_last()), s.last())
    }
}

proof fn lemma_insert_at_position(
    s: Seq<(Seq<u8>, Option<Seq<u8>>)>,
    x: (Seq<u8>, Option<Seq<u8>>),
    p: int,
)
    requires
        0 <= p <= s.len(),
        forall|j: int| 0 <= j < p ==> !lex_lt(x.0, #[trigger] s[j].0),
        p < s.len() ==> lex_lt(x.0, s[p].0),
    ensures
        insert_by_key(s, x) == s.insert(p, x),
    decreases p,
{
    if s.len() == 0 {
        assert(s.insert(p, x) =~= seq![x]);
    } else if p == 0 {
        assert(s.insert(p, x) =~= seq![x] + s);
    } else {
        let t = s.drop_first();
        assert forall|j: int| 0 <= j < p - 1 implies !lex_lt(x.0, #[trigger] t[j].0) by {
            assert(t[j] == s[j + 1]);
        }
        lemma_insert_at_position(t, x, p - 1);
        assert(s.insert(p, x) =~= seq![s[0]] + t.insert(p - 1, x));
    }
}

proof fn lemma_insert_keeps_sorted(
    s: Seq<(Seq<u8>, Option<Seq<u8>>)>,
    x: (Seq<u8>, Option<Seq<u8>>),
    p: int,
)
    requires
        sorted_by_key(s),
        0 <= p <= s.len(),
        forall|j: int| 0 <= j < p ==> !lex_lt(x.0, #[trigger] s[j].0),
        p < s.len() ==> lex_lt(x.0, s[p].0),
    ensures
        sorted_by_key(s.insert(p, x)),
{
    let t = s.insert(p, x);
    assert forall|a: int, b: int| 0 <= a < b < t.len() implies !lex_lt(
        #[trigger] t[b].0,
        #[trigger] t[a].0,
    ) by {
        if b < p {
            assert(t[a] == s[a] && t[b] == s[b]);
        } else if b == p {
            assert(t[a] == s[a]);
        } else if a == p {
            assert(t[b] == s[b - 1]);
            // x < s[p] <= s[b - 1]
            if lex_lt(s[b - 1].0, x.0) {
                if b - 1 > p {
                    if s[b - 1].0 != s[p].0 {
                        lemma_lex_lt_total(s[b - 1].0, s[p].0);
                        lemma_lex_lt_transitive(s[p].0, s[b - 1].0, x.0);
                    }
                }
                lemma_lex_lt_asymmetric(x.0, s[p].0);
            }
        } else if a < p {
            assert(t[a] == s[a] && t[b] == s[b - 1]);
        } else {
            assert(t[a] == s[a - 1] && t[b] == s[b - 1]);
        }
    }
}

/// The pairs of `kv_pairs`, sorted by key with equal keys kept in order, each
/// payload turned into the value it writes.
fn sort_batch(kv_pairs: &Vec<KvPair>) -> (r: Vec<(Vec<u8>, HummockValue)>)
    ensures
        batch_view(r@) == sort_by_key(pairs_view(kv_pairs@)),
        sorted_by_key(batch_view(r@)),
{
    let mut r: Vec<(Vec<u8>, HummockValue)> = Vec::new();
    let mut i: usize = 0;
    proof {
        assert(batch_view(r@) =~= sort_by_key(pairs_view(kv_pairs@).subrange(0, 0)));
    }
    while i < kv_pairs.len()
        invariant
            i <= kv_pairs@.len(),
            batch_view(r@) == sort_by_key(pairs_view(kv_pairs@).subrange(0, i as int)),
            sorted_by_key(batch_view(r@)),
        decreases kv_pairs@.len() - i,
    {
        let key = copy_key(&kv_pairs[i].0);
        let value = match &kv_pairs[i].1 {
            Some(v) => HummockValue::Put(copy_key(v)),
            None => HummockValue::Delete,
        };
        let ghost x = (key@, value.payload());
        let ghost before = batch_view(r@);
        let mut p: usize = 0;
        while p < r.len() && !key_lt(&key, &r[p].0)
            invariant
                p <= r@.len(),
                before == batch_view(r@),
                x.0 == key@,
                forall|j: int| 0 <= j < p ==> !lex_lt(x.0, #[trigger] before[j].0),
            decreases r@.len() - p,
        {
            p += 1;
        }
        proof {
            lemma_insert_at_position(before, x, p as int);
            lemma_insert_keeps_sorted(before, x, p as int);
            let pv = pairs_view(kv_pairs@);
            assert(pv.subrange(0, i + 1).drop_last() =~= pv.subrange(0, i as int));
            assert(pv[i as int] == x);
        }
        r.insert(p, (key, value));
        proof {
            assert(batch_view(r@) =~= before.insert(p as int, x));
        }
        i += 1;
    }
    proof {
        assert(pairs_view(kv_pairs@).subrange(0, i as int) =~= pairs_view(kv_pairs@));
    }
    r
}

/// A state store over one storage engine.
pub struct HummockStateStore {
    pub storage: HummockStorage,
}

/// A one-shot iterator over the pairs of a scan, handed out by the state store.
pub struct HummockStateStoreIter(DirectedUserIterator);

impl HummockStateStoreIter {
    /// The pairs not yet returned, in the order `next` returns them.
    pub closed spec fn remaining(&self) -> Seq<(Seq<u8>, Seq<u8>)> {
        self.0.remaining()
    }

    pub closed spec fn wf(&self) -> bool {
        self.0.wf()
    }

    /// Returns the current pair and moves past it; `None` once the pairs are used up,
    /// and from then on.
    pub fn next(&mut self) -> (r: Option<(Vec<u8>, Vec<u8>)>)
        requires
            old(self).wf(),
        ensures
            final(self).wf(),
            old(self).remaining().len() == 0 ==> r is None && final(self).remaining() == old(
                self,
            ).remaining(),
            old(self).remaining().len() > 0 ==> {
                &&& r is Some
                &&& (r.unwrap().0@, r.unwrap().1@) == old(self).remaining()[0]
                &&& final(self).remaining() == old(self).remaining().drop_first()
            },
    {
        let iter = &mut self.0;
        if iter.is_valid() {
            let kv = (copy_key(iter.key()), copy_key(iter.value()));
            iter.next();
            proof {
                let o = old(self).0;
                assert(o.remaining()[0] == o.items()[o.pos()]);
                assert(self.0.remaining() =~= o.remaining().drop_first());
            }
            Some(kv)
        } else {
            None
        }
    }
}

impl HummockStateStore {
    pub fn new(storage: HummockStorage) -> (r: HummockStateStore)
        ensures
            r.storage == storage,
    {
        HummockStateStore { storage }
    }

    /// The payload of the latest version of `key`, if it holds one.
    pub fn get(&self, key: &[u8]) -> (r: Option<Vec<u8>>)
        requires
            self.storage.wf(),
        ensures
            match r {
                Some(v) => self.storage.versions().contains_key(key@)
                    && self.storage.versions()[key@].1 == Some(v@),
                None => !self.storage.versions().contains_key(key@)
                    || self.storage.versions()[key@].1 is None,
            },
    {
        self.storage.get(key)
    }

    /// Sorts `kv_pairs` by key, equal keys kept in order, and writes them at `epoch`.
    pub fn ingest_batch(&mut self, kv_pairs: Vec<KvPair>, epoch: u64) -> (r: Result<
        (),
        ConflictError,
    >)
        requires
            old(self).storage.wf(),
        ensures
            final(self).storage.wf(),
            final(self).storage.detector().is_some() == old(self).storage.detector().is_some(),
            old(self).storage.detector().is_none() ==> r is Ok,
            old(self).storage.detector().is_some() ==> ConflictDetector::track_post(
                old(self).storage.detector().unwrap(),
                sort_by_key(pairs_view(kv_pairs@)).map_values(
                    |p: (Seq<u8>, Option<Seq<u8>>)| p.0,
                ),
                epoch,
                final(self).storage.detector().unwrap(),
                r,
            ),
            r is Ok ==> final(self).storage.versions() == apply_batch(
                old(self).storage.versions(),
                sort_by_key(pairs_view(kv_pairs@)),
                epoch,
            ),
            r is Err ==> final(self).storage.versions() == old(self).storage.versions(),
    {
        let sorted = sort_batch(&kv_pairs);
        proof {
            assert(crate::conflict_detector::batch_keys(sorted@) =~= batch_view(
                sorted@,
            ).map_values(|p: (Seq<u8>, Option<Seq<u8>>)| p.0));
        }
        self.storage.write_batch(sorted.as_slice(), epoch)
    }

    /// An iterator over the keys that begin with `prefix`, in ascending order: the
    /// scan runs over `[prefix, next_key(prefix))`.
    pub fn iter(&self, prefix: &[u8]) -> (r: HummockStateStoreIter)
        requires
            self.storage.wf(),
        ensures
            r.wf(),
            is_forward_scan(r.remaining(), self.storage.versions(), prefix@, next_key_of(prefix@)),
    {
        let upper = next_key(prefix);
        let mut inner = self.storage.range_scan(prefix, upper.as_slice());
        inner.rewind();
        proof {
            assert(inner.remaining() =~= inner.items());
        }
        HummockStateStoreIter(inner)
    }

    /// An iterator over the keys that begin with `prefix`, in descending order: the
    /// scan runs backward over `[prefix, next_key(prefix))`.
    pub fn reverse_iter(&self, prefix: &[u8]) -> (r: HummockStateStoreIter)
        requires
            self.storage.wf(),
        ensures
            r.wf(),
            is_backward_scan(r.remaining(), self.storage.versions(), prefix@, next_key_of(prefix@)),
    {
        let upper = next_key(prefix);
        let mut inner = self.storage.reverse_range_scan(prefix, upper.as_slice());
        inner.rewind();
        proof {
            assert(inner.remaining() =~= inner.items());
        }
        HummockStateStoreIter(inner)
    }
}

/// A forward prefix scan yields only keys that begin with the prefix, and every key
/// that begins with it and holds a payload.
pub proof fn lemma_iter_yields_prefix_family(
    items: Seq<(Seq<u8>, Seq<u8>)>,
    m: Map<Seq<u8>, Version>,
    prefix: Seq<u8>,
)
    requires
        is_forward_scan(items, m, prefix, next_key_of(prefix)),
    ensures
        forall|i: int| 0 <= i < items.len() ==> has_prefix(#[trigger] items[i].0, prefix),
        forall|k: Seq<u8>, v: Seq<u8>|
            m.contains_key(k) && has_prefix(k, prefix) && m[k].1 == Some(v) ==> #[trigger] items.contains(
                (k, v),
            ),
{
    assert forall|i: int| 0 <= i < items.len() implies has_prefix(#[trigger] items[i].0, prefix) by {
        assert(items.contains((items[i].0, items[i].1)));
        lemma_next_key_bounds_prefix(prefix, items[i].0);
    }
    assert forall|k: Seq<u8>, v: Seq<u8>|
        m.contains_key(k) && has_prefix(k, prefix) && m[k].1 == Some(v) implies #[trigger] items.contains(
            (k, v),
        ) by {
        lemma_next_key_bounds_prefix(prefix, k);
    }
}

/// A backward prefix scan yields only keys that begin with the prefix, and every key
/// that begins with it and holds a payload, each once in descending order.
pub proof fn lemma_reverse_iter_yields_prefix_family(
    items: Seq<(Seq<u8>, Seq<u8>)>,
    m: Map<Seq<u8>, Version>,
    prefix: Seq<u8>,
)
    requires
        is_backward_scan(items, m, prefix, next_key_of(prefix)),
    ensures
        forall|i: int| 0 <= i < items.len() ==> has_prefix(#[trigger] items[i].0, prefix),
        forall|k: Seq<u8>, v: Seq<u8>|
            m.contains_key(k) && has_prefix(k, prefix) && m[k].1 == Some(v) ==> #[trigger] items.contains(
                (k, v),
            ),
        forall|a: int, b: int| 0 <= a < b < items.len() ==> lex_lt(#[trigger] items[b].0, #[trigger] items[a].0),
{
    assert forall|i: int| 0 <= i < items.len() implies has_prefix(#[trigger] items[i].0, prefix) by {
        assert(items.contains((items[i].0, items[i].1)));
        lemma_next_key_bounds_prefix(prefix, items[i].0);
    }
    assert forall|k: Seq<u8>, v: Seq<u8>|
        m.contains_key(k) && has_prefix(k, prefix) && m[k].1 == Some(v) implies #[trigger] items.contains(
            (k, v),
        ) by {
        lemma_next_key_bounds_prefix(prefix, k);
    }
}

} // verus!
