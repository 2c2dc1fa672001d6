//! An in-memory versioned key space: for each key, the latest version written to it.
use vstd::prelude::*;

use crate::conflict_detector::{batch_keys, empty_history, ConflictDetector, ConflictError};
use crate::key::{
    copy_key, in_forward_range, key_eq, key_lt, lemma_lex_lt_asymmetric,
    lemma_lex_lt_irreflexive, lemma_lex_lt_total, lemma_lex_lt_transitive, lex_lt,
};
use crate::iterator::{DirectedUserIterator, Direction};
use crate::value::HummockValue;

verus! {

/// The epoch of the latest write to a key, and what it wrote (`None` for a deletion).
pub type Version = (u64, Option<Seq<u8>>);

/// A stored entry: key, epoch of its latest write, and the value written.
pub type Entry = (Vec<u8>, u64, HummockValue);

/// Whether the keys of `s` strictly increase.
pub open spec fn strictly_sorted(s: Seq<Entry>) -> bool {
    forall|a: int, b: int| 0 <= a < b < s.len() ==> lex_lt(#[trigger] s[a].0@, #[trigger] s[b].0@)
}

/// The version held by each key of `s`.
pub open spec fn versions_of(s: Seq<Entry>) -> Map<Seq<u8>, Version> {
    Map::new(
        |k: Seq<u8>| exists|i: int| 0 <= i < s.len() && s[i].0@ == k,
        |k: Seq<u8>|
            {
                let i = choose|i: int| 0 <= i < s.len() && s[i].0@ == k;
                (s[i].1, s[i].2.payload())
            },
    )
}

/// The versions of an empty key space.
pub open spec fn no_versions() -> Map<Seq<u8>, Version> {
    Map::empty()
}

/// A write of `value` at `epoch` to key `k`: it replaces the key's version unless
/// that version was written at a later epoch.
pub open spec fn write_version(
    m: Map<Seq<u8>, Version>,
    k: Seq<u8>,
    epoch: u64,
    value: Option<Seq<u8>>,
) -> Map<Seq<u8>, Version> {
    if m.contains_key(k) && m[k].0 > epoch {
        m
    } else {
        m.insert(k, (epoch, value))
    }
}

/// The pairs of a batch as keys and payloads.
pub open spec fn batch_view(kv_pairs: Seq<(Vec<u8>, HummockValue)>) -> Seq<(Seq<u8>, Option<Seq<u8>>)> {
    kv_pairs.map_values(|p: (Vec<u8>, HummockValue)| (p.0@, p.1.payload()))
}

/// Whether the keys of `s` never decrease.
pub open spec fn sorted_by_key(s: Seq<(Seq<u8>, Option<Seq<u8>>)>) -> bool {
    forall|a: int, b: int| 0 <= a < b < s.len() ==> !lex_lt(#[trigger] s[b].0, #[trigger] s[a].0)
}

/// The writes of `pairs` at `epoch`, applied one after the other.
pub open spec fn apply_batch(
    m: Map<Seq<u8>, Version>,
    pairs: Seq<(Seq<u8>, Option<Seq<u8>>)>,
    epoch: u64,
) -> Map<Seq<u8>, Version>
    decreases pairs.len(),
{
    if pairs.len() == 0 {
        m
    } else {
        let last = pairs.last();
        write_version(apply_batch(m, pairs.drop_last(), epoch), last.0, epoch, last.1)
    }
}

/// Whether `items` lists, in strictly ascending key order, exactly the keys of `m` in
/// `[lower, upper)` whose version holds a payload, each with that payload.
pub open spec fn is_forward_scan(
    items: Seq<(Seq<u8>, Seq<u8>)>,
    m: Map<Seq<u8>, Version>,
    lower: Seq<u8>,
    upper: Seq<u8>,
) -> bool {
    &&& forall|a: int, b: int|
        0 <= a < b < items.len() ==> lex_lt(#[trigger] items[a].0, #[trigger] items[b].0)
    &&& forall|k: Seq<u8>, v: Seq<u8>|
        #![trigger items.contains((k, v))]
        items.contains((k, v)) <==> (m.contains_key(k) && in_forward_range(k, lower, upper)
            && m[k].1 == Some(v))
}

/// Whether `items` lists, in strictly descending key order, exactly the keys of `m` in
/// `[lower, upper)` whose version holds a payload, each with that payload.
pub open spec fn is_backward_scan(
    items: Seq<(Seq<u8>, Seq<u8>)>,
    m: Map<Seq<u8>, Version>,
    lower: Seq<u8>,
    upper: Seq<u8>,
) -> bool {
    &&& forall|a: int, b: int|
        0 <= a < b < items.len() ==> lex_lt(#[trigger] items[b].0, #[trigger] items[a].0)
    &&& forall|k: Seq<u8>, v: Seq<u8>|
        #![trigger items.contains((k, v))]
        items.contains((k, v)) <==> (m.contains_key(k) && in_forward_range(k, lower, upper)
            && m[k].1 == Some(v))
}

proof fn lemma_versions_at(s: Seq<Entry>, i: int)
    requires
        strictly_sorted(s),
        0 <= i < s.len(),
    ensures
        versions_of(s).contains_key(s[i].0@),
        versions_of(s)[s[i].0@] == (s[i].1, s[i].2.payload()),
{
    let k = s[i].0@;
    assert(exists|j: int| 0 <= j < s.len() && s[j].0@ == k);
    let j = choose|j: int| 0 <= j < s.len() && s[j].0@ == k;
    if j < i {
        assert(lex_lt(s[j].0@, s[i].0@));
        lemma_lex_lt_irreflexive(k);
    } else if i < j {
        assert(lex_lt(s[i].0@, s[j].0@));
        lemma_lex_lt_irreflexive(k);
    }
}

proof fn lemma_versions_update(s: Seq<Entry>, p: int, x: Entry)
    requires
        strictly_sorted(s),
        0 <= p < s.len(),
        x.0@ == s[p].0@,
    ensures
        strictly_sorted(s.update(p, x)),
        versions_of(s.update(p, x)) == versions_of(s).insert(x.0@, (x.1, x.2.payload())),
{
    let t = s.update(p, x);
    assert(forall|j: int| 0 <= j < s.len() ==> (#[trigger] t[j]).0@ == s[j].0@);
    let target = versions_of(s).insert(x.0@, (x.1, x.2.payload()));
    assert forall|k: Seq<u8>| #[trigger] versions_of(t).contains_key(k) == target.contains_key(k) by {
        if versions_of(s).contains_key(k) {
            let i = choose|i: int| 0 <= i < s.len() && s[i].0@ == k;
            assert(t[i].0@ == k);
        }
        if versions_of(t).contains_key(k) {
            let i = choose|i: int| 0 <= i < t.len() && t[i].0@ == k;
            assert(s[i].0@ == k);
        }
    }
    assert forall|k: Seq<u8>| #[trigger] versions_of(t).contains_key(k) implies versions_of(t)[k]
        == target[k] by {
        let i = choose|i: int| 0 <= i < t.len() && t[i].0@ == k;
        lemma_versions_at(t, i);
        if i != p {
            lemma_versions_at(s, i);
        }
    }
    assert(versions_of(t) =~= target);
}

proof fn lemma_versions_insert(s: Seq<Entry>, p: int, x: Entry)
    requires
        strictly_sorted(s),
        0 <= p <= s.len(),
        forall|j: int| 0 <= j < p ==> lex_lt(#[trigger] s[j].0@, x.0@),
        forall|j: int| p <= j < s.len() ==> lex_lt(x.0@, #[trigger] s[j].0@),
    ensures
        strictly_sorted(s.insert(p, x)),
        versions_of(s.insert(p, x)) == versions_of(s).insert(x.0@, (x.1, x.2.payload())),
{
    let t = s.insert(p, x);
    assert(forall|j: int| 0 <= j < p ==> #[trigger] t[j] == s[j]);
    assert(forall|j: int| p < j < t.len() ==> #[trigger] t[j] == s[j - 1]);
    assert forall|a: int, b: int| 0 <= a < b < t.len() implies lex_lt(
        #[trigger] t[a].0@,
        #[trigger] t[b].0@,
    ) by {
        if b < p {
        } else if b == p {
        } else if a < p {
            assert(lex_lt(s[a].0@, x.0@));
            assert(lex_lt(x.0@, s[b - 1].0@));
            lemma_lex_lt_transitive(s[a].0@, x.0@, s[b - 1].0@);
        } else if a == p {
        } else {
            assert(lex_lt(s[a - 1].0@, s[b - 1].0@));
        }
    }
    let target = versions_of(s).insert(x.0@, (x.1, x.2.payload()));
    assert forall|k: Seq<u8>| #[trigger] versions_of(t).contains_key(k) == target.contains_key(k) by {
        if versions_of(s).contains_key(k) {
            let i = choose|i: int| 0 <= i < s.len() && s[i].0@ == k;
            if i < p {
                assert(t[i].0@ == k);
            } else {
                assert(t[i + 1].0@ == k);
            }
        }
        if k == x.0@ {
            assert(t[p].0@ == k);
        }
        if versions_of(t).contains_key(k) {
            let i = choose|i: int| 0 <= i < t.len() && t[i].0@ == k;
            if i < p {
                assert(s[i].0@ == k);
            } else if i > p {
                assert(s[i - 1].0@ == k);
            }
        }
    }
    assert forall|k: Seq<u8>| #[trigger] versions_of(t).contains_key(k) implies versions_of(t)[k]
        == target[k] by {
        let i = choose|i: int| 0 <= i < t.len() && t[i].0@ == k;
        lemma_versions_at(t, i);
        if i < p {
            lemma_versions_at(s, i);
            lemma_lex_lt_irreflexive(k);
        } else if i > p {
            lemma_versions_at(s, i - 1);
            lemma_lex_lt_irreflexive(k);
        }
    }
    assert(versions_of(t) =~= target);
}

/// The first position whose key is not below `key`.
fn find_position(entries: &Vec<Entry>, key: &[u8]) -> (p: usize)
    requires
        strictly_sorted(entries@),
    ensures
        p <= entries@.len(),
        forall|j: int| 0 <= j < p ==> lex_lt(#[trigger] entries@[j].0@, key@),
        p < entries@.len() ==> !lex_lt(entries@[p as int].0@, key@),
{
    let mut p: usize = 0;
    while p < entries.len() && key_lt(&entries[p].0, key)
        invariant
            p <= entries@.len(),
            forall|j: int| 0 <= j < p ==> lex_lt(#[trigger] entries@[j].0@, key@),
        decreases entries@.len() - p,
    {
        p += 1;
    }
    p
}

/// Where `key` stands: its position if present, or the position it would take.
proof fn lemma_position_decides(s: Seq<Entry>, k: Seq<u8>, p: int)
    requires
        strictly_sorted(s),
        0 <= p <= s.len(),
        forall|j: int| 0 <= j < p ==> lex_lt(#[trigger] s[j].0@, k),
        p < s.len() ==> !lex_lt(s[p].0@, k),
        p < s.len() ==> s[p].0@ != k,
    ensures
        !versions_of(s).contains_key(k),
        forall|j: int| p <= j < s.len() ==> lex_lt(k, #[trigger] s[j].0@),
{
    if p < s.len() {
        lemma_lex_lt_total(s[p].0@, k);
    }
    assert forall|j: int| p <= j < s.len() implies lex_lt(k, #[trigger] s[j].0@) by {
        if j > p {
            lemma_lex_lt_transitive(k, s[p].0@, s[j].0@);
        }
    }
    if versions_of(s).contains_key(k) {
        let i = choose|i: int| 0 <= i < s.len() && s[i].0@ == k;
        lemma_lex_lt_irreflexive(k);
    }
}

fn copy_value(v: &HummockValue) -> (r: HummockValue)
    ensures
        r.payload() == v.payload(),
{
    match v {
        HummockValue::Put(bytes) => HummockValue::Put(copy_key(bytes)),
        HummockValue::Delete => HummockValue::Delete,
    }
}

/// Writes one version into sorted entries.
fn write_entry(entries: &mut Vec<Entry>, key: &[u8], epoch: u64, value: HummockValue)
    requires
        strictly_sorted(old(entries)@),
    ensures
        strictly_sorted(final(entries)@),
        versions_of(final(entries)@) == write_version(
            versions_of(old(entries)@),
            key@,
            epoch,
            value.payload(),
        ),
{
    let p = find_position(entries, key);
    if p < entries.len() && key_eq(&entries[p].0, key) {
        proof {
            lemma_versions_at(entries@, p as int);
        }
        if entries[p].1 <= epoch {
            let x: Entry = (copy_key(key), epoch, value);
            proof {
                lemma_versions_update(entries@, p as int, x);
            }
            entries.set(p, x);
        }
    } else {
        proof {
            lemma_position_decides(entries@, key@, p as int);
        }
        let x: Entry = (copy_key(key), epoch, value);
        proof {
            lemma_versions_insert(entries@, p as int, x);
        }
        entries.insert(p, x);
    }
}

/// The payload stored for `key`, if its latest version holds one.
fn lookup(entries: &Vec<Entry>, key: &[u8]) -> (r: Option<Vec<u8>>)
    requires
        strictly_sorted(entries@),
    ensures
        match r {
            Some(v) => versions_of(entries@).contains_key(key@) && versions_of(entries@)[key@].1
                == Some(v@),
            None => !versions_of(entries@).contains_key(key@) || versions_of(
                entries@,
            )[key@].1 is None,
        },
{
    let p = find_position(entries, key);
    if p < entries.len() && key_eq(&entries[p].0, key) {
        proof {
            lemma_versions_at(entries@, p as int);
        }
        match &entries[p].2 {
            HummockValue::Put(v) => Some(copy_key(v)),
            HummockValue::Delete => None,
        }
    } else {
        proof {
            lemma_position_decides(entries@, key@, p as int);
        }
        None
    }
}

/// The key and payload pairs as plain sequences.
pub open spec fn items_view(items: Seq<(Vec<u8>, Vec<u8>)>) -> Seq<(Seq<u8>, Seq<u8>)> {
    items.map_values(|p: (Vec<u8>, Vec<u8>)| (p.0@, p.1@))
}

/// Whether entry `e` belongs in a scan of `[lower, upper)` as `(k, v)`.
pub open spec fn range_hit(e: Entry, lower: Seq<u8>, upper: Seq<u8>, k: Seq<u8>, v: Seq<u8>) -> bool {
    e.0@ == k && in_forward_range(k, lower, upper) && e.2.payload() == Some(v)
}

/// The pairs of `entries` in `[lower, upper)` that hold a payload, in ascending key order.
fn scan_forward(entries: &Vec<Entry>, lower: &[u8], upper: &[u8]) -> (r: Vec<(Vec<u8>, Vec<u8>)>)
    requires
        strictly_sorted(entries@),
    ensures
        is_forward_scan(items_view(r@), versions_of(entries@), lower@, upper@),
{
    let ghost s = entries@;
    let mut r: Vec<(Vec<u8>, Vec<u8>)> = Vec::new();
    let mut i: usize = 0;
    while i < entries.len()
        invariant
            s == entries@,
            strictly_sorted(s),
            i <= s.len(),
            forall|m: int|
                0 <= m < r@.len() ==> exists|j: int|
                    0 <= j < i && (#[trigger] items_view(r@)[m]).0 == s[j].0@,
            forall|a: int, b: int|
                0 <= a < b < r@.len() ==> lex_lt(
                    #[trigger] items_view(r@)[a].0,
                    #[trigger] items_view(r@)[b].0,
                ),
            forall|k: Seq<u8>, v: Seq<u8>|
                #![trigger items_view(r@).contains((k, v))]
                items_view(r@).contains((k, v)) <==> exists|j: int|
                    0 <= j < i && range_hit(s[j], lower@, upper@, k, v),
        decreases s.len() - i,
    {
        let key = &entries[i].0;
        let in_range = !key_lt(key, lower) && (upper.len() == 0 || key_lt(key, upper));
        proof {
            if !lex_lt(key@, lower@) && key@ != lower@ {
                lemma_lex_lt_total(key@, lower@);
            }
            if lex_lt(key@, lower@) {
                lemma_lex_lt_asymmetric(key@, lower@);
                lemma_lex_lt_irreflexive(key@);
            }
        }
        assert(in_range == in_forward_range(key@, lower@, upper@));
        let ghost old_items = items_view(r@);
        if in_range {
            match &entries[i].2 {
                HummockValue::Put(v) => {
                    r.push((copy_key(key), copy_key(v)));
                    proof {
                        let nv = items_view(r@);
                        assert(nv =~= old_items.push((s[i as int].0@, v@)));
                        assert forall|m: int| 0 <= m < old_items.len() implies lex_lt(
                            old_items[m].0,
                            s[i as int].0@,
                        ) by {
                            let j = choose|j: int| 0 <= j < i && old_items[m].0 == s[j].0@;
                            assert(lex_lt(s[j].0@, s[i as int].0@));
                        }
                        assert forall|m: int| 0 <= m < nv.len() implies exists|j: int|
                            0 <= j < i + 1 && (#[trigger] nv[m]).0 == s[j].0@ by {
                            if m < old_items.len() {
                                assert(nv[m] == old_items[m]);
                            } else {
                                assert(nv[m].0 == s[i as int].0@);
                            }
                        }
                        assert forall|k: Seq<u8>, w: Seq<u8>| #[trigger]
                            nv.contains((k, w)) <==> exists|j: int|
                                0 <= j < i + 1 && range_hit(s[j], lower@, upper@, k, w) by {
                            if nv.contains((k, w)) {
                                let m = choose|m: int| 0 <= m < nv.len() && nv[m] == (k, w);
                                if m < old_items.len() {
                                    assert(old_items.contains((k, w)));
                                } else {
                                    assert(range_hit(s[i as int], lower@, upper@, k, w));
                                }
                            }
                            if exists|j: int|
                                0 <= j < i + 1 && range_hit(s[j], lower@, upper@, k, w) {
                                let j = choose|j: int|
                                    0 <= j < i + 1 && range_hit(s[j], lower@, upper@, k, w);
                                if j < i {
                                    assert(exists|j: int|
                                        0 <= j < i && range_hit(s[j], lower@, upper@, k, w));
                                    assert(old_items.contains((k, w)));
                                    let m = choose|m: int|
                                        0 <= m < old_items.len() && old_items[m] == (k, w);
                                    assert(nv[m] == (k, w));
                                } else {
                                    assert(nv[old_items.len() as int] == (k, w));
                                }
                            }
                        }
                    }
                },
                HummockValue::Delete => {},
            }
        }
        proof {
            let nv = items_view(r@);
            assert forall|k: Seq<u8>, w: Seq<u8>| #[trigger]
                nv.contains((k, w)) <==> exists|j: int|
                    0 <= j < i + 1 && range_hit(s[j], lower@, upper@, k, w) by {
                if exists|j: int| 0 <= j < i + 1 && range_hit(s[j], lower@, upper@, k, w) {
                    let j = choose|j: int|
                        0 <= j < i + 1 && range_hit(s[j], lower@, upper@, k, w);
                    if j < i {
                        assert(exists|j: int| 0 <= j < i && range_hit(s[j], lower@, upper@, k, w));
                    }
                }
            }
        }
        i += 1;
    }
    proof {
        let nv = items_view(r@);
        let m = versions_of(s);
        assert forall|k: Seq<u8>, w: Seq<u8>| #[trigger]
            nv.contains((k, w)) <==> (m.contains_key(k) && in_forward_range(k, lower@, upper@)
                && m[k].1 == Some(w)) by {
            if nv.contains((k, w)) {
                let j = choose|j: int| 0 <= j < i && range_hit(s[j], lower@, upper@, k, w);
                lemma_versions_at(s, j);
            }
            if m.contains_key(k) && in_forward_range(k, lower@, upper@) && m[k].1 == Some(w) {
                let j = choose|j: int| 0 <= j < s.len() && s[j].0@ == k;
                lemma_versions_at(s, j);
                assert(range_hit(s[j], lower@, upper@, k, w));
            }
        }
    }
    r
}

/// The pairs of `entries` in `[lower, upper)` that hold a payload, in descending key order.
fn scan_backward(entries: &Vec<Entry>, lower: &[u8], upper: &[u8]) -> (r: Vec<(Vec<u8>, Vec<u8>)>)
    requires
        strictly_sorted(entries@),
    ensures
        is_backward_scan(items_view(r@), versions_of(entries@), lower@, upper@),
{
    let ghost s = entries@;
    let mut r: Vec<(Vec<u8>, Vec<u8>)> = Vec::new();
    let mut i: usize = entries.len();
    while i > 0
        invariant
            s == entries@,
            strictly_sorted(s),
            i <= s.len(),
            forall|m: int|
                0 <= m < r@.len() ==> exists|j: int|
                    i <= j < s.len() && (#[trigger] items_view(r@)[m]).0 == s[j].0@,
            forall|a: int, b: int|
                0 <= a < b < r@.len() ==> lex_lt(
                    #[trigger] items_view(r@)[b].0,
                    #[trigger] items_view(r@)[a].0,
                ),
            forall|k: Seq<u8>, v: Seq<u8>|
                #![trigger items_view(r@).contains((k, v))]
                items_view(r@).contains((k, v)) <==> exists|j: int|
                    i <= j < s.len() && range_hit(s[j], lower@, upper@, k, v),
        decreases i,
    {
        i -= 1;
        let key = &entries[i].0;
        let in_range = !key_lt(key, lower) && (upper.len() == 0 || key_lt(key, upper));
        proof {
            if !lex_lt(key@, lower@) && key@ != lower@ {
                lemma_lex_lt_total(key@, lower@);
            }
            if lex_lt(key@, lower@) {
                lemma_lex_lt_asymmetric(key@, lower@);
                lemma_lex_lt_irreflexive(key@);
            }
        }
        assert(in_range == in_forward_range(key@, lower@, upper@));
        let ghost old_items = items_view(r@);
        if in_range {
            match &entries[i].2 {
                HummockValue::Put(v) => {
                    r.push((copy_key(key), copy_key(v)));
                    proof {
                        let nv = items_view(r@);
                        assert(nv =~= old_items.push((s[i as int].0@, v@)));
                        assert forall|m: int| 0 <= m < old_items.len() implies lex_lt(
                            s[i as int].0@,
                            old_items[m].0,
                        ) by {
                            let j = choose|j: int|
                                i + 1 <= j < s.len() && old_items[m].0 == s[j].0@;
                            assert(lex_lt(s[i as int].0@, s[j].0@));
                        }
                        assert forall|m: int| 0 <= m < nv.len() implies exists|j: int|
                            i <= j < s.len() && (#[trigger] nv[m]).0 == s[j].0@ by {
                            if m < old_items.len() {
                                assert(nv[m] == old_items[m]);
                            } else {
                                assert(nv[m].0 == s[i as int].0@);
                            }
                        }
                        assert forall|k: Seq<u8>, w: Seq<u8>| #[trigger]
                            nv.contains((k, w)) <==> exists|j: int|
                                i <= j < s.len() && range_hit(s[j], lower@, upper@, k, w) by {
                            if nv.contains((k, w)) {
                                let m = choose|m: int| 0 <= m < nv.len() && nv[m] == (k, w);
                                if m < old_items.len() {
                                    assert(old_items.contains((k, w)));
                                } else {
                                    assert(range_hit(s[i as int], lower@, upper@, k, w));
                                }
                            }
                            if exists|j: int|
                                i <= j < s.len() && range_hit(s[j], lower@, upper@, k, w) {
                                let j = choose|j: int|
                                    i <= j < s.len() && range_hit(s[j], lower@, upper@, k, w);
                                if j > i {
                                    assert(exists|j: int|
                                        i + 1 <= j < s.len() && range_hit(s[j], lower@, upper@, k, w));
                                    assert(old_items.contains((k, w)));
                                    let m = choose|m: int|
                                        0 <= m < old_items.len() && old_items[m] == (k, w);
                                    assert(nv[m] == (k, w));
                                } else {
                                    assert(nv[old_items.len() as int] == (k, w));
                                }
                            }
                        }
                    }
                },
                HummockValue::Delete => {},
            }
        }
        proof {
            let nv = items_view(r@);
            assert forall|k: Seq<u8>, w: Seq<u8>| #[trigger]
                nv.contains((k, w)) <==> exists|j: int|
                    i <= j < s.len() && range_hit(s[j], lower@, upper@, k, w) by {
                if exists|j: int| i <= j < s.len() && range_hit(s[j], lower@, upper@, k, w) {
                    let j = choose|j: int|
                        i <= j < s.len() && range_hit(s[j], lower@, upper@, k, w);
                    if j > i {
                        assert(exists|j: int|
                            i + 1 <= j < s.len() && range_hit(s[j], lower@, upper@, k, w));
                    }
                }
            }
        }
    }
    proof {
        let nv = items_view(r@);
        let m = versions_of(s);
        assert forall|k: Seq<u8>, w: Seq<u8>| #[trigger]
            nv.contains((k, w)) <==> (m.contains_key(k) && in_forward_range(k, lower@, upper@)
                && m[k].1 == Some(w)) by {
            if nv.contains((k, w)) {
                let j = choose|j: int|
                    i <= j < s.len() && range_hit(s[j], lower@, upper@, k, w);
                lemma_versions_at(s, j);
            }
            if m.contains_key(k) && in_forward_range(k, lower@, upper@) && m[k].1 == Some(w) {
                let j = choose|j: int| 0 <= j < s.len() && s[j].0@ == k;
                lemma_versions_at(s, j);
                assert(range_hit(s[j], lower@, upper@, k, w));
            }
        }
    }
    r
}

/// What a batch leaves in the key space, key by key. A key the batch does not name
/// keeps its version. A key it names whose version was not written at a later epoch
/// ends with the batch's epoch and the value of the last pair that names it.
pub proof fn lemma_apply_batch_effect(
    m: Map<Seq<u8>, Version>,
    pairs: Seq<(Seq<u8>, Option<Seq<u8>>)>,
    epoch: u64,
    k: Seq<u8>,
)
    ensures
        (forall|j: int| 0 <= j < pairs.len() ==> #[trigger] pairs[j].0 != k) ==> {
            &&& apply_batch(m, pairs, epoch).contains_key(k) == m.contains_key(k)
            &&& m.contains_key(k) ==> apply_batch(m, pairs, epoch)[k] == m[k]
        },
        (!m.contains_key(k) || m[k].0 <= epoch) ==> {
            &&& (!apply_batch(m, pairs, epoch).contains_key(k) || apply_batch(m, pairs, epoch)[k].0
                <= epoch)
            &&& forall|j: int|
                0 <= j < pairs.len() && #[trigger] pairs[j].0 == k && (forall|l: int|
                    j < l < pairs.len() ==> #[trigger] pairs[l].0 != k) ==> apply_batch(
                    m,
                    pairs,
                    epoch,
                ).contains_key(k) && apply_batch(m, pairs, epoch)[k] == (epoch, pairs[j].1)
        },
    decreases pairs.len(),
{
    if pairs.len() > 0 {
        let init = pairs.drop_last();
        lemma_apply_batch_effect(m, init, epoch, k);
        assert(forall|j: int| 0 <= j < init.len() ==> #[trigger] init[j] == pairs[j]);
        if (!m.contains_key(k) || m[k].0 <= epoch) {
            assert forall|j: int|
                0 <= j < pairs.len() && #[trigger] pairs[j].0 == k && (forall|l: int|
                    j < l < pairs.len() ==> #[trigger] pairs[l].0 != k) implies apply_batch(
                m,
                pairs,
                epoch,
            ).contains_key(k) && apply_batch(m, pairs, epoch)[k] == (epoch, pairs[j].1) by {
                if j < pairs.len() - 1 {
                    assert(pairs[pairs.len() - 1].0 != k);
                    assert forall|l: int| j < l < init.len() implies #[trigger] init[l].0 != k by {
                        assert(pairs[l].0 != k);
                    }
                    assert(init[j].0 == k);
                }
            }
        }
    }
}

/// The storage engine: the latest version of each key, with the conflict detector when
/// write conflict detection is enabled.
pub struct HummockStorage {
    entries: Vec<Entry>,
    conflict_detector: Option<ConflictDetector>,
}

impl HummockStorage {
    /// The latest version of each key written.
    pub closed spec fn versions(&self) -> Map<Seq<u8>, Version> {
        versions_of(self.entries@)
    }

    pub closed spec fn detector(&self) -> Option<ConflictDetector> {
        self.conflict_detector
    }

    pub closed spec fn wf(&self) -> bool {
        strictly_sorted(self.entries@)
    }

    /// An empty engine; it checks writes for conflicts when detection is enabled.
    pub fn new(write_conflict_detection_enabled: bool) -> (r: HummockStorage)
        ensures
            r.wf(),
            r.versions() == no_versions(),
            r.detector().is_some() == write_conflict_detection_enabled,
            r.detector().is_some() ==> {
                &&& r.detector().unwrap().history() == empty_history()
                &&& r.detector().unwrap().watermark() == 0
                &&& r.detector().unwrap().archived() == Set::<u64>::empty()
            },
    {
        let entries: Vec<Entry> = Vec::new();
        proof {
            assert(versions_of(entries@) =~= Map::<Seq<u8>, Version>::empty());
        }
        HummockStorage {
            entries,
            conflict_detector: ConflictDetector::new_from_config(write_conflict_detection_enabled),
        }
    }

    /// The payload of the latest version of `key`; `None` when the key was never
    /// written or its latest version is a deletion.
    pub fn get(&self, key: &[u8]) -> (r: Option<Vec<u8>>)
        requires
            self.wf(),
        ensures
            match r {
                Some(v) => self.versions().contains_key(key@) && self.versions()[key@].1 == Some(
                    v@,
                ),
                None => !self.versions().contains_key(key@) || self.versions()[key@].1 is None,
            },
    {
        lookup(&self.entries, key)
    }

    /// Writes `kv_pairs`, sorted by key, at `epoch`, one after the other, after the
    /// conflict detector (if any) has accepted them. A refused batch leaves the key
    /// space as it was.
    pub fn write_batch(&mut self, kv_pairs: &[(Vec<u8>, HummockValue)], epoch: u64) -> (r: Result<
        (),
        ConflictError,
    >)
        requires
            old(self).wf(),
            sorted_by_key(batch_view(kv_pairs@)),
        ensures
            final(self).wf(),
            final(self).detector().is_some() == old(self).detector().is_some(),
            old(self).detector().is_none() ==> r is Ok,
            old(self).detector().is_some() ==> ConflictDetector::track_post(
                old(self).detector().unwrap(),
                batch_keys(kv_pairs@),
                epoch,
                final(self).detector().unwrap(),
                r,
            ),
            r is Ok ==> final(self).versions() == apply_batch(
                old(self).versions(),
                batch_view(kv_pairs@),
                epoch,
            ),
            r is Err ==> final(self).versions() == old(self).versions(),
    {
        let taken = self.conflict_detector.take();
        match taken {
            Some(mut detector) => {
                let checked = detector.check_conflict_and_track_write_batch(kv_pairs, epoch);
                self.conflict_detector = Some(detector);
                if checked.is_err() {
                    return checked;
                }
            },
            None => {},
        }
        let ghost start = self.versions();
        let ghost checked_detector = self.conflict_detector;
        proof {
            assert(batch_view(kv_pairs@).subrange(0, 0) =~= Seq::<(Seq<u8>, Option<Seq<u8>>)>::empty());
        }
        let mut i: usize = 0;
        while i < kv_pairs.len()
            invariant
                i <= kv_pairs@.len(),
                strictly_sorted(self.entries@),
                self.conflict_detector == checked_detector,
                self.versions() == apply_batch(
                    start,
                    batch_view(kv_pairs@).subrange(0, i as int),
                    epoch,
                ),
            decreases kv_pairs@.len() - i,
        {
            let value = copy_value(&kv_pairs[i].1);
            write_entry(&mut self.entries, &kv_pairs[i].0, epoch, value);
            proof {
                let bv = batch_view(kv_pairs@);
                assert(bv.subrange(0, i + 1).drop_last() =~= bv.subrange(0, i as int));
            }
            i += 1;
        }
        proof {
            assert(batch_view(kv_pairs@).subrange(0, i as int) =~= batch_view(kv_pairs@));
        }
        Ok(())
    }

    /// A forward cursor, not yet rewound, over the keys in `[lower, upper)` whose latest
    /// version holds a payload; an empty `upper` leaves the range unbounded above.
    pub fn range_scan(&self, lower: &[u8], upper: &[u8]) -> (r: DirectedUserIterator)
        requires
            self.wf(),
        ensures
            r.wf(),
            r.direction() == Direction::Forward,
            is_forward_scan(r.items(), self.versions(), lower@, upper@),
    {
        let items = scan_forward(&self.entries, lower, upper);
        DirectedUserIterator::new(Direction::Forward, items)
    }

    /// A backward cursor, not yet rewound, over the keys in `[lower, upper)` whose
    /// latest version holds a payload, from the largest down; an empty `upper` leaves
    /// the range unbounded above.
    pub fn reverse_range_scan(&self, lower: &[u8], upper: &[u8]) -> (r: DirectedUserIterator)
        requires
            self.wf(),
        ensures
            r.wf(),
            r.direction() == Direction::Backward,
            is_backward_scan(r.items(), self.versions(), lower@, upper@),
    {
        let items = scan_backward(&self.entries, lower, upper);
        DirectedUserIterator::new(Direction::Backward, items)
    }
}

} // verus!
