//! Detects write conflicts within each epoch: a key written twice in one epoch, a write
//! to an epoch at or below the watermark, and a write to an archived epoch.
use std::collections::HashSet;

use crossbeam::atomic::AtomicCell;
use dashmap::{DashMap, DashSet};
use vstd::prelude::*;

use crate::key::copy_key;
use crate::value::HummockValue;

verus! {

#[verifier::external_type_specification]
#[verifier::external_body]
#[verifier::reject_recursive_types(K)]
#[verifier::reject_recursive_types(V)]
#[verifier::reject_recursive_types(S)]
pub struct ExDashMap<K, V, S>(DashMap<K, V, S>);

#[verifier::external_type_specification]
#[verifier::external_body]
#[verifier::reject_recursive_types(K)]
#[verifier::reject_recursive_types(S)]
pub struct ExDashSet<K, S>(DashSet<K, S>);

#[verifier::external_type_specification]
#[verifier::external_body]
#[verifier::reject_recursive_types(T)]
pub struct ExAtomicCell<T>(AtomicCell<T>);

/// Epoch -> keys written in it.
pub type EpochHistory = DashMap<u64, HashSet<Vec<u8>>>;

/// The keys held under each epoch of a history map.
pub uninterp spec fn history_of(m: EpochHistory) -> Map<u64, Set<Seq<u8>>>;

/// The epochs held by an epoch set.
pub uninterp spec fn epochs_of(s: DashSet<u64>) -> Set<u64>;

/// The value held by an atomic epoch cell.
pub uninterp spec fn cell_value(c: AtomicCell<u64>) -> u64;

/// Relies on `DashMap::new`: the map starts empty.
#[verifier::external_body]
fn history_new() -> (r: EpochHistory)
    ensures
        history_of(r) == empty_history(),
{
    DashMap::new()
}

/// Relies on `DashMap::entry` and `Entry::or_default`: an absent epoch gets an empty
/// key set, a present one is left as it is.
#[verifier::external_body]
fn history_open_epoch(m: &mut EpochHistory, epoch: u64)
    ensures
        history_of(*final(m)) == history_of(*old(m)).insert(
            epoch,
            keys_in_epoch(history_of(*old(m)), epoch),
        ),
{
    m.entry(epoch).or_default();
}

/// Relies on `DashMap::entry`, `Entry::or_default` and `HashSet::insert`, made under
/// one shard lock: the key joins the epoch's set, and the result says whether it was
/// absent before.
#[verifier::external_body]
fn history_insert_key(m: &mut EpochHistory, epoch: u64, key: Vec<u8>) -> (r:
    bool)
    ensures
        r == !keys_in_epoch(history_of(*old(m)), epoch).contains(key@),
        history_of(*final(m)) == history_of(*old(m)).insert(
            epoch,
            keys_in_epoch(history_of(*old(m)), epoch).insert(key@),
        ),
{
    m.entry(epoch).or_default().insert(key)
}

/// Relies on `DashMap::remove`: the epoch's entry is gone afterwards.
#[verifier::external_body]
fn history_remove_epoch(m: &mut EpochHistory, epoch: u64)
    ensures
        history_of(*final(m)) == history_of(*old(m)).remove(epoch),
{
    m.remove(&epoch);
}

/// Relies on `DashMap::get` and `HashSet::len`: the number of keys held under the
/// epoch, or `None` without an entry.
#[verifier::external_body]
fn history_key_count(m: &EpochHistory, epoch: u64) -> (r: Option<usize>)
    ensures
        r.is_some() == history_of(*m).contains_key(epoch),
        r.is_some() ==> r.unwrap() == history_of(*m)[epoch].len(),
{
    m.get(&epoch).map(|keys| keys.len())
}

/// Relies on `DashMap::retain`: the entries for which the predicate holds stay.
#[verifier::external_body]
fn history_retain_above(m: &mut EpochHistory, watermark: u64)
    ensures
        history_of(*final(m)) == history_of(*old(m)).restrict(epochs_above(watermark)),
{
    m.retain(|e, _| is_above(e, watermark))
}

/// Relies on `DashSet::new`: the set starts empty.
#[verifier::external_body]
fn epoch_set_new() -> (r: DashSet<u64>)
    ensures
        epochs_of(r) == Set::<u64>::empty(),
{
    DashSet::new()
}

/// Relies on `DashSet::contains`.
#[verifier::external_body]
fn epoch_set_contains(s: &DashSet<u64>, epoch: u64) -> (r: bool)
    ensures
        r == epochs_of(*s).contains(epoch),
{
    s.contains(&epoch)
}

/// Relies on `DashSet::insert`: the result says whether the epoch was absent before.
#[verifier::external_body]
fn epoch_set_insert(s: &mut DashSet<u64>, epoch: u64) -> (r: bool)
    ensures
        r == !epochs_of(*old(s)).contains(epoch),
        epochs_of(*final(s)) == epochs_of(*old(s)).insert(epoch),
{
    s.insert(epoch)
}

/// Relies on `DashSet::retain`: the epochs for which the predicate holds stay.
#[verifier::external_body]
fn epoch_set_retain_above(s: &mut DashSet<u64>, watermark: u64)
    ensures
        epochs_of(*final(s)) == epochs_of(*old(s)).filter(|e: u64| e > watermark),
{
    s.retain(|e| is_above(e, watermark))
}

/// Relies on `AtomicCell::new`: the cell holds the given value.
#[verifier::external_body]
fn cell_new(v: u64) -> (r: AtomicCell<u64>)
    ensures
        cell_value(r) == v,
{
    AtomicCell::new(v)
}

/// Relies on `AtomicCell::load`: it returns the value held.
#[verifier::external_body]
fn cell_load(c: &AtomicCell<u64>) -> (r: u64)
    ensures
        r == cell_value(*c),
{
    c.load()
}

/// Relies on `AtomicCell::compare_exchange`: the new value is stored exactly when the
/// held value equals `current`, and the result says whether it was.
#[verifier::external_body]
fn cell_compare_exchange(c: &mut AtomicCell<u64>, current: u64, new: u64) -> (r: bool)
    ensures
        r == (cell_value(*old(c)) == current),
        cell_value(*final(c)) == if r {
            new
        } else {
            cell_value(*old(c))
        },
{
    c.compare_exchange(current, new).is_ok()
}

fn is_above(e: &u64, watermark: u64) -> (r: bool)
    ensures
        r == (*e > watermark),
{
    *e > watermark
}

/// A breach of the single-writer-per-epoch protocol. Each variant is fatal: it means
/// the coordination upstream is broken, and a caller must not carry on after it.
#[derive(Debug, Clone, PartialEq, Eq)]
pub enum ConflictError {
    /// A write or an archival names an epoch at or below the watermark.
    EpochNotAboveWatermark { epoch: u64, watermark: u64 },
    /// A write names an epoch that has been archived.
    EpochArchived { epoch: u64 },
    /// An epoch is archived a second time.
    EpochAlreadyArchived { epoch: u64 },
    /// A key is written a second time within one epoch.
    DuplicateKey { epoch: u64, key: Vec<u8> },
    /// The watermark would not increase.
    WatermarkRegression { watermark: u64, epoch: u64 },
}

/// The epochs above `w`.
pub open spec fn epochs_above(w: u64) -> Set<u64> {
    Set::new(|e: u64| e > w)
}

/// A history with no epoch.
pub open spec fn empty_history() -> Map<u64, Set<Seq<u8>>> {
    Map::empty()
}

/// The keys seen for `epoch`: empty while the epoch has no entry.
pub open spec fn keys_in_epoch(h: Map<u64, Set<Seq<u8>>>, epoch: u64) -> Set<Seq<u8>> {
    if h.contains_key(epoch) {
        h[epoch]
    } else {
        Set::empty()
    }
}

/// The keys of a batch, in order.
pub open spec fn batch_keys(kv_pairs: Seq<(Vec<u8>, HummockValue)>) -> Seq<Seq<u8>> {
    kv_pairs.map_values(|p: (Vec<u8>, HummockValue)| p.0@)
}

/// The keys among the first `n` of `keys`.
pub open spec fn keys_upto(keys: Seq<Seq<u8>>, n: int) -> Set<Seq<u8>> {
    Set::new(|k: Seq<u8>| exists|j: int| 0 <= j < n && keys[j] == k)
}

/// Whether the key at position `i` was seen already or occurs earlier in `keys`.
pub open spec fn is_repeat(seen: Set<Seq<u8>>, keys: Seq<Seq<u8>>, i: int) -> bool {
    seen.contains(keys[i]) || exists|j: int| 0 <= j < i && keys[j] == keys[i]
}

/// Whether none of the first `n` keys is a repeat.
pub open spec fn no_repeat_before(seen: Set<Seq<u8>>, keys: Seq<Seq<u8>>, n: int) -> bool {
    forall|i: int| 0 <= i < n ==> !#[trigger] is_repeat(seen, keys, i)
}

/// Whether a batch with `keys` may be written to `epoch`.
pub open spec fn write_accepted(
    watermark: u64,
    archived: Set<u64>,
    history: Map<u64, Set<Seq<u8>>>,
    keys: Seq<Seq<u8>>,
    epoch: u64,
) -> bool {
    &&& epoch > watermark
    &&& !archived.contains(epoch)
    &&& no_repeat_before(keys_in_epoch(history, epoch), keys, keys.len() as int)
}

pub struct ConflictDetector {
    // epoch -> keys written in it
    epoch_history: EpochHistory,
    epoch_watermark: AtomicCell<u64>,
    epoch_set: DashSet<u64>,
}

impl ConflictDetector {
    /// The keys written so far in each open epoch.
    pub closed spec fn history(&self) -> Map<u64, Set<Seq<u8>>> {
        history_of(self.epoch_history)
    }

    /// The highest epoch known to be archived with all the epochs below it.
    pub closed spec fn watermark(&self) -> u64 {
        cell_value(self.epoch_watermark)
    }

    /// The epochs archived one by one above the watermark.
    pub closed spec fn archived(&self) -> Set<u64> {
        epochs_of(self.epoch_set)
    }

    /// The outcome of a watermark update to `epoch`.
    pub open spec fn set_watermark_post(
        old: ConflictDetector,
        epoch: u64,
        new: ConflictDetector,
        r: Result<(), ConflictError>,
    ) -> bool {
        &&& new.history() == old.history()
        &&& new.archived() == old.archived()
        &&& if epoch > old.watermark() {
            r == Ok::<(), ConflictError>(()) && new.watermark() == epoch
        } else {
            r == Err::<(), ConflictError>(
                ConflictError::WatermarkRegression { watermark: old.watermark(), epoch },
            ) && new.watermark() == old.watermark()
        }
    }

    /// The outcome of checking and tracking a batch with `keys` in `epoch`.
    pub open spec fn track_post(
        old: ConflictDetector,
        keys: Seq<Seq<u8>>,
        epoch: u64,
        new: ConflictDetector,
        r: Result<(), ConflictError>,
    ) -> bool {
        let seen = keys_in_epoch(old.history(), epoch);
        &&& new.watermark() == old.watermark()
        &&& new.archived() == old.archived()
        &&& (r is Ok <==> write_accepted(
            old.watermark(),
            old.archived(),
            old.history(),
            keys,
            epoch,
        ))
        &&& (r is Ok ==> new.history() == old.history().insert(
            epoch,
            seen.union(keys_upto(keys, keys.len() as int)),
        ))
        &&& match r {
            Ok(_) => true,
            Err(ConflictError::EpochNotAboveWatermark { epoch: e, watermark: w }) => {
                &&& e == epoch
                &&& w == old.watermark()
                &&& epoch <= old.watermark()
                &&& new.history() == old.history()
            },
            Err(ConflictError::EpochArchived { epoch: e }) => {
                &&& e == epoch
                &&& epoch > old.watermark()
                &&& old.archived().contains(epoch)
                &&& new.history() == old.history()
            },
            Err(ConflictError::DuplicateKey { epoch: e, key }) => {
                &&& e == epoch
                &&& epoch > old.watermark()
                &&& !old.archived().contains(epoch)
                &&& exists|i: int|
                    0 <= i < keys.len() && no_repeat_before(seen, keys, i) && is_repeat(
                        seen,
                        keys,
                        i,
                    ) && key@ == keys[i] && new.history() == old.history().insert(
                        epoch,
                        seen.union(keys_upto(keys, i)),
                    )
            },
            Err(_) => false,
        }
    }

    /// The outcome of archiving `epoch`, with the first epoch of its generation if any.
    pub open spec fn archive_post(
        old: ConflictDetector,
        epoch: u64,
        first_epoch: Option<u64>,
        new: ConflictDetector,
        r: Result<(), ConflictError>,
    ) -> bool {
        if epoch <= old.watermark() {
            &&& r == Err::<(), ConflictError>(
                ConflictError::EpochNotAboveWatermark { epoch, watermark: old.watermark() },
            )
            &&& new.history() == old.history()
            &&& new.watermark() == old.watermark()
            &&& new.archived() == old.archived()
        } else if old.archived().contains(epoch) {
            &&& r == Err::<(), ConflictError>(ConflictError::EpochAlreadyArchived { epoch })
            &&& new.history() == old.history()
            &&& new.watermark() == old.watermark()
            &&& new.archived() == old.archived()
        } else {
            let archived = old.archived().insert(epoch);
            let history = old.history().remove(epoch);
            match first_epoch {
                Some(f) if (f - 1) as u64 != old.watermark() => if f - 1 > old.watermark() {
                    let w = (f - 1) as u64;
                    &&& r == Ok::<(), ConflictError>(())
                    &&& new.watermark() == w
                    &&& new.archived() == archived.filter(|e: u64| e > w)
                    &&& new.history() == history.restrict(epochs_above(w))
                } else {
                    &&& r == Err::<(), ConflictError>(
                        ConflictError::WatermarkRegression {
                            watermark: old.watermark(),
                            epoch: (f - 1) as u64,
                        },
                    )
                    &&& new.watermark() == old.watermark()
                    &&& new.archived() == archived
                    &&& new.history() == history
                },
                _ => {
                    &&& r == Ok::<(), ConflictError>(())
                    &&& new.watermark() == old.watermark()
                    &&& new.archived() == archived
                    &&& new.history() == history
                },
            }
        }
    }

    /// A detector with no history, no archived epoch, and the watermark at the
    /// smallest epoch.
    pub fn new() -> (r: ConflictDetector)
        ensures
            r.history() == empty_history(),
            r.watermark() == 0,
            r.archived() == Set::<u64>::empty(),
    {
        ConflictDetector {
            epoch_history: history_new(),
            epoch_watermark: cell_new(u64::MIN),
            epoch_set: epoch_set_new(),
        }
    }

    /// A detector when write conflict detection is enabled, none otherwise.
    pub fn new_from_config(write_conflict_detection_enabled: bool) -> (r: Option<ConflictDetector>)
        ensures
            r.is_some() == write_conflict_detection_enabled,
            r.is_some() ==> {
                &&& r.unwrap().history() == empty_history()
                &&& r.unwrap().watermark() == 0
                &&& r.unwrap().archived() == Set::<u64>::empty()
            },
    {
        if write_conflict_detection_enabled {
            Some(ConflictDetector::new())
        } else {
            None
        }
    }

    pub fn get_epoch_watermark(&self) -> (r: u64)
        ensures
            r == self.watermark(),
    {
        cell_load(&self.epoch_watermark)
    }

    /// Sets the watermark by compare-and-swap; the new value must lie strictly above
    /// the value last observed.
    pub fn set_watermark(&mut self, epoch: u64) -> (r: Result<(), ConflictError>)
        ensures
            Self::set_watermark_post(*old(self), epoch, *final(self), r),
    {
        loop
            invariant
                *self == *old(self),
            decreases 0nat,
        {
            let current_watermark = self.get_epoch_watermark();
            if epoch <= current_watermark {
                return Err(
                    ConflictError::WatermarkRegression { watermark: current_watermark, epoch },
                );
            }
            if cell_compare_exchange(&mut self.epoch_watermark, current_watermark, epoch) {
                return Ok(());
            }
        }
    }

    /// Checks that `kv_pairs` may be written to `epoch` and records their keys. The
    /// epoch must lie above the watermark and must not be archived, and no key may
    /// have been written in it before, in this batch or an earlier one.
    pub fn check_conflict_and_track_write_batch(
        &mut self,
        kv_pairs: &[(Vec<u8>, HummockValue)],
        epoch: u64,
    ) -> (r: Result<(), ConflictError>)
        ensures
            Self::track_post(*old(self), batch_keys(kv_pairs@), epoch, *final(self), r),
    {
        let ghost keys = batch_keys(kv_pairs@);
        let ghost seen = keys_in_epoch(self.history(), epoch);
        let watermark = self.get_epoch_watermark();
        if epoch <= watermark {
            return Err(ConflictError::EpochNotAboveWatermark { epoch, watermark });
        }
        if epoch_set_contains(&self.epoch_set, epoch) {
            return Err(ConflictError::EpochArchived { epoch });
        }
        history_open_epoch(&mut self.epoch_history, epoch);
        proof {
            assert(keys_upto(keys, 0) =~= Set::<Seq<u8>>::empty());
            assert(seen.union(keys_upto(keys, 0)) =~= seen);
        }
        let mut i: usize = 0;
        while i < kv_pairs.len()
            invariant
                i <= kv_pairs@.len(),
                keys == batch_keys(kv_pairs@),
                keys.len() == kv_pairs@.len(),
                seen == keys_in_epoch(old(self).history(), epoch),
                self.watermark() == old(self).watermark(),
                self.archived() == old(self).archived(),
                self.history() == old(self).history().insert(
                    epoch,
                    seen.union(keys_upto(keys, i as int)),
                ),
                no_repeat_before(seen, keys, i as int),
                epoch > old(self).watermark(),
                !old(self).archived().contains(epoch),
            decreases kv_pairs@.len() - i,
        {
            let key = copy_key(&kv_pairs[i].0);
            proof {
                assert(key@ == keys[i as int]);
            }
            let ghost before = self.history();
            let fresh = history_insert_key(&mut self.epoch_history, epoch, key);
            let ghost cur = seen.union(keys_upto(keys, i as int));
            proof {
                assert(keys_in_epoch(before, epoch) == cur);
                assert(cur.contains(keys[i as int]) == is_repeat(seen, keys, i as int));
                assert(keys_upto(keys, i + 1) =~= keys_upto(keys, i as int).insert(keys[i as int]));
                assert(seen.union(keys_upto(keys, i + 1)) =~= cur.insert(keys[i as int]));
            }
            if !fresh {
                let dup = copy_key(&kv_pairs[i].0);
                proof {
                    assert(cur.insert(keys[i as int]) =~= cur);
                    let j = i as int;
                    assert(0 <= j < keys.len() && no_repeat_before(seen, keys, j) && is_repeat(
                        seen,
                        keys,
                        j,
                    ) && dup@ == keys[j] && self.history() == old(self).history().insert(
                        epoch,
                        seen.union(keys_upto(keys, j)),
                    ));
                }
                return Err(ConflictError::DuplicateKey { epoch, key: dup });
            }
            i += 1;
        }
        Ok(())
    }

    /// Archives `epoch`: it can never be written again, and its recorded keys are
    /// dropped. Where `first_epoch` is given and `first_epoch - 1` differs from the
    /// watermark, the watermark moves to `first_epoch - 1`, and the archived epochs and
    /// the recorded keys of the epochs at or below it are forgotten.
    pub fn archive_epoch(&mut self, epoch: u64, first_epoch: Option<u64>) -> (r: Result<
        (),
        ConflictError,
    >)
        requires
            first_epoch != Some(0u64),
        ensures
            Self::archive_post(*old(self), epoch, first_epoch, *final(self), r),
    {
        let watermark = self.get_epoch_watermark();
        if epoch <= watermark {
            return Err(ConflictError::EpochNotAboveWatermark { epoch, watermark });
        }
        let ghost archived_before = self.archived();
        if !epoch_set_insert(&mut self.epoch_set, epoch) {
            proof {
                assert(archived_before.insert(epoch) =~= archived_before);
            }
            return Err(ConflictError::EpochAlreadyArchived { epoch });
        }
        history_remove_epoch(&mut self.epoch_history, epoch);
        if let Some(first_epoch) = first_epoch {
            if first_epoch - 1 != self.get_epoch_watermark() {
                match self.set_watermark(first_epoch - 1) {
                    Ok(()) => {},
                    Err(e) => {
                        return Err(e);
                    },
                }
                epoch_set_retain_above(&mut self.epoch_set, first_epoch - 1);
                history_retain_above(&mut self.epoch_history, first_epoch - 1);
            }
        }
        Ok(())
    }

    /// The number of keys seen for `epoch`, or `None` when the epoch has no entry.
    pub fn written_key_count(&self, epoch: u64) -> (r: Option<usize>)
        ensures
            r.is_some() == self.history().contains_key(epoch),
            r.is_some() ==> r.unwrap() == self.history()[epoch].len(),
    {
        history_key_count(&self.epoch_history, epoch)
    }
}

impl Default for ConflictDetector {
    fn default() -> (r: ConflictDetector)
        ensures
            r.history() == empty_history(),
            r.watermark() == 0,
            r.archived() == Set::<u64>::empty(),
    {
        ConflictDetector::new()
    }
}

/// A key written in an epoch cannot be written in that epoch again by a later batch.
pub proof fn lemma_rewrite_in_later_batch_refused(
    d0: ConflictDetector,
    keys1: Seq<Seq<u8>>,
    d1: ConflictDetector,
    r1: Result<(), ConflictError>,
    keys2: Seq<Seq<u8>>,
    d2: ConflictDetector,
    r2: Result<(), ConflictError>,
    epoch: u64,
    i1: int,
    i2: int,
)
    requires
        ConflictDetector::track_post(d0, keys1, epoch, d1, r1),
        r1 is Ok,
        ConflictDetector::track_post(d1, keys2, epoch, d2, r2),
        0 <= i1 < keys1.len(),
        0 <= i2 < keys2.len(),
        keys1[i1] == keys2[i2],
    ensures
        r2 is Err,
{
    assert(keys_upto(keys1, keys1.len() as int).contains(keys1[i1]));
    assert(keys_in_epoch(d1.history(), epoch).contains(keys2[i2]));
    assert(is_repeat(keys_in_epoch(d1.history(), epoch), keys2, i2));
}

/// A batch that holds one key twice is refused.
pub proof fn lemma_rewrite_in_one_batch_refused(
    d0: ConflictDetector,
    keys: Seq<Seq<u8>>,
    epoch: u64,
    d1: ConflictDetector,
    r: Result<(), ConflictError>,
    i: int,
    j: int,
)
    requires
        ConflictDetector::track_post(d0, keys, epoch, d1, r),
        0 <= i < j < keys.len(),
        keys[i] == keys[j],
    ensures
        r is Err,
{
    assert(is_repeat(keys_in_epoch(d0.history(), epoch), keys, j));
}

/// A write to one epoch leaves every other epoch as it was: a batch that another epoch
/// would accept before it, that epoch still accepts after it, also where both batches
/// hold the same keys.
pub proof fn lemma_other_epoch_unaffected(
    d0: ConflictDetector,
    keys1: Seq<Seq<u8>>,
    e1: u64,
    d1: ConflictDetector,
    r1: Result<(), ConflictError>,
    keys2: Seq<Seq<u8>>,
    e2: u64,
    d2: ConflictDetector,
    r2: Result<(), ConflictError>,
)
    requires
        ConflictDetector::track_post(d0, keys1, e1, d1, r1),
        e1 != e2,
        write_accepted(d0.watermark(), d0.archived(), d0.history(), keys2, e2),
        ConflictDetector::track_post(d1, keys2, e2, d2, r2),
    ensures
        r2 is Ok,
{
    assert(keys_in_epoch(d1.history(), e2) == keys_in_epoch(d0.history(), e2));
}

/// Archiving epoch `e` as the first epoch of its generation moves the watermark to
/// `e - 1`, and afterwards every write to `e` or below is refused.
pub proof fn lemma_archive_first_epoch_closes_below(
    d0: ConflictDetector,
    e: u64,
    d1: ConflictDetector,
    r1: Result<(), ConflictError>,
    keys: Seq<Seq<u8>>,
    target: u64,
    d2: ConflictDetector,
    r2: Result<(), ConflictError>,
)
    requires
        e > 0,
        ConflictDetector::archive_post(d0, e, Some(e), d1, r1),
        r1 is Ok,
        target <= e,
        ConflictDetector::track_post(d1, keys, target, d2, r2),
    ensures
        d1.watermark() == e - 1,
        r2 is Err,
{
    assert(d1.archived().contains(e));
}

/// Archiving epoch `e` drops the keys recorded for it.
pub proof fn lemma_archive_drops_keys(
    d0: ConflictDetector,
    e: u64,
    first_epoch: Option<u64>,
    d1: ConflictDetector,
    r: Result<(), ConflictError>,
)
    requires
        ConflictDetector::archive_post(d0, e, first_epoch, d1, r),
        r is Ok,
    ensures
        !d1.history().contains_key(e),
{
}

/// A write to an epoch below the watermark is refused, whatever the history holds.
pub proof fn lemma_below_watermark_refused(
    d0: ConflictDetector,
    keys: Seq<Seq<u8>>,
    epoch: u64,
    d1: ConflictDetector,
    r: Result<(), ConflictError>,
)
    requires
        epoch < d0.watermark(),
        ConflictDetector::track_post(d0, keys, epoch, d1, r),
    ensures
        r == Err::<(), ConflictError>(
            ConflictError::EpochNotAboveWatermark { epoch, watermark: d0.watermark() },
        ),
{
}

/// Whether every write to `epoch` is refused: the epoch is archived, or at or below
/// the watermark.
pub open spec fn epoch_closed(d: ConflictDetector, epoch: u64) -> bool {
    d.archived().contains(epoch) || epoch <= d.watermark()
}

/// Whether every write of key `k` to `epoch` is refused: `k` was written in that epoch
/// already, or the epoch is closed.
pub open spec fn key_closed(d: ConflictDetector, epoch: u64, k: Seq<u8>) -> bool {
    keys_in_epoch(d.history(), epoch).contains(k) || epoch_closed(d, epoch)
}

/// A batch written to a closed epoch is refused.
pub proof fn lemma_closed_epoch_refuses(
    d0: ConflictDetector,
    keys: Seq<Seq<u8>>,
    epoch: u64,
    d1: ConflictDetector,
    r: Result<(), ConflictError>,
)
    requires
        epoch_closed(d0, epoch),
        ConflictDetector::track_post(d0, keys, epoch, d1, r),
    ensures
        r is Err,
{
}

/// A batch that holds a key closed for its epoch is refused.
pub proof fn lemma_closed_key_refuses(
    d0: ConflictDetector,
    keys: Seq<Seq<u8>>,
    epoch: u64,
    d1: ConflictDetector,
    r: Result<(), ConflictError>,
    i: int,
)
    requires
        0 <= i < keys.len(),
        key_closed(d0, epoch, keys[i]),
        ConflictDetector::track_post(d0, keys, epoch, d1, r),
    ensures
        r is Err,
{
    if keys_in_epoch(d0.history(), epoch).contains(keys[i]) {
        assert(is_repeat(keys_in_epoch(d0.history(), epoch), keys, i));
    }
}

/// An accepted batch closes each of its keys for its epoch.
pub proof fn lemma_write_closes_keys(
    d0: ConflictDetector,
    keys: Seq<Seq<u8>>,
    epoch: u64,
    d1: ConflictDetector,
    r: Result<(), ConflictError>,
    i: int,
)
    requires
        ConflictDetector::track_post(d0, keys, epoch, d1, r),
        r is Ok,
        0 <= i < keys.len(),
    ensures
        key_closed(d1, epoch, keys[i]),
{
    assert(keys_upto(keys, keys.len() as int).contains(keys[i]));
}

/// Archiving `e` as the first epoch of its generation closes `e` and every epoch below.
pub proof fn lemma_archive_first_epoch_closes(
    d0: ConflictDetector,
    e: u64,
    d1: ConflictDetector,
    r: Result<(), ConflictError>,
    target: u64,
)
    requires
        ConflictDetector::archive_post(d0, e, Some(e), d1, r),
        r is Ok,
        target <= e,
    ensures
        epoch_closed(d1, target),
{
}

/// A write, accepted or refused, keeps closed epochs and keys closed.
pub proof fn lemma_write_keeps_closed(
    d0: ConflictDetector,
    keys: Seq<Seq<u8>>,
    e: u64,
    d1: ConflictDetector,
    r: Result<(), ConflictError>,
    epoch: u64,
    k: Seq<u8>,
)
    requires
        ConflictDetector::track_post(d0, keys, e, d1, r),
    ensures
        epoch_closed(d0, epoch) ==> epoch_closed(d1, epoch),
        key_closed(d0, epoch, k) ==> key_closed(d1, epoch, k),
{
    if keys_in_epoch(d0.history(), epoch).contains(k) && e == epoch {
        let seen = keys_in_epoch(d0.history(), epoch);
        if r is Ok {
            assert(seen.union(keys_upto(keys, keys.len() as int)).contains(k));
        }
    }
}

/// An archival, accepted or refused, keeps closed epochs and keys closed.
pub proof fn lemma_archive_keeps_closed(
    d0: ConflictDetector,
    e: u64,
    first_epoch: Option<u64>,
    d1: ConflictDetector,
    r: Result<(), ConflictError>,
    epoch: u64,
    k: Seq<u8>,
)
    requires
        ConflictDetector::archive_post(d0, e, first_epoch, d1, r),
    ensures
        epoch_closed(d0, epoch) ==> epoch_closed(d1, epoch),
        key_closed(d0, epoch, k) ==> key_closed(d1, epoch, k),
{
}

/// A watermark update, accepted or refused, keeps closed epochs and keys closed.
pub proof fn lemma_set_watermark_keeps_closed(
    d0: ConflictDetector,
    w: u64,
    d1: ConflictDetector,
    r: Result<(), ConflictError>,
    epoch: u64,
    k: Seq<u8>,
)
    requires
        ConflictDetector::set_watermark_post(d0, w, d1, r),
    ensures
        epoch_closed(d0, epoch) ==> epoch_closed(d1, epoch),
        key_closed(d0, epoch, k) ==> key_closed(d1, epoch, k),
{
}

} // verus!
