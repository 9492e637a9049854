use vstd::prelude::*;

use std::collections::HashSet;

use crate::apply::{apply_delta, apply_version_delta, copy_version, lemma_filter_step};
use crate::file_info::{FileModel, ids_of_files, refill_files};
use crate::ids::{delta_ids, get_sst_ids, newly_added_sst_ids};
use crate::refill::{refill_version, registry_view};
use crate::registry::{SstableRegistry, fresh_from, grows_by, lemma_fresh_trans, lemma_grows_trans};
use crate::strip::{
    entry_has, group_has, log_has, refill_entry, refill_group, refill_level_model, refill_log,
    refill_version_model, strip_delta, strip_version, stripped_version, stripped_version_delta,
    version_ids,
};
use crate::write::{delta_files, register_delta_files, register_version_files, version_files};
use crate::version::{DeltaModel, Version, VersionDelta, VersionModel};

verus! {

broadcast use vstd::std_specs::hash::group_hash_axioms;

/// One row of the epoch index: the version committed at `epoch`.
#[derive(Clone, Copy, PartialEq, Eq, Structural, Debug)]
pub struct EpochIndexEntry {
    pub epoch: u64,
    pub version_id: u64,
}

/// Why a historical version could not be produced.
#[derive(Clone, Copy, PartialEq, Eq, Structural, Debug)]
pub enum TimeTravelError {
    /// No indexed epoch at or below the query epoch.
    VersionNotFound { epoch: u64 },
    /// No keyframe at or below the version that the epoch resolved to.
    NoReplayVersion { epoch: u64, version_id: u64 },
    /// A delta whose predecessor lies behind the version being replayed.
    BrokenDeltaChain { version_id: u64, delta_id: u64 },
    /// A file of the reconstructed version is absent from the registry.
    MissingFileInfo { epoch: u64, version_id: u64 },
}

/// The archive as mathematics: the epoch index, the stripped keyframes and deltas, and the
/// file registry.
pub ghost struct ArchiveModel {
    pub epoch_index: Seq<EpochIndexEntry>,
    pub keyframes: Seq<VersionModel>,
    pub deltas: Seq<DeltaModel>,
    pub registry: Map<u64, FileModel>,
}

/// The time-travel history that the storage manager persists: the epoch index, the
/// keyframes, the delta log and the file registry, with the batch size of registry fetches.
pub struct HummockManager {
    pub epoch_index: Vec<EpochIndexEntry>,
    pub keyframes: Vec<Version>,
    pub deltas: Vec<VersionDelta>,
    pub registry: SstableRegistry,
    pub fetch_batch_size: usize,
}

pub open spec fn versions_view(v: Seq<Version>) -> Seq<VersionModel> {
    v.map_values(|x: Version| x@)
}

pub open spec fn deltas_view(v: Seq<VersionDelta>) -> Seq<DeltaModel> {
    v.map_values(|x: VersionDelta| x@)
}

impl View for HummockManager {
    type V = ArchiveModel;

    open spec fn view(&self) -> ArchiveModel {
        ArchiveModel {
            epoch_index: self.epoch_index@,
            keyframes: versions_view(self.keyframes@),
            deltas: deltas_view(self.deltas@),
            registry: self.registry@,
        }
    }
}

// ---- resolving an epoch, as mathematics ----

/// `j` is the last index row whose epoch is at most `e`.
pub open spec fn latest_at(idx: Seq<EpochIndexEntry>, e: u64, j: int) -> bool {
    &&& 0 <= j < idx.len()
    &&& idx[j].epoch <= e
    &&& forall|k: int| j < k < idx.len() ==> (#[trigger] idx[k]).epoch > e
}

/// `k` is the last keyframe whose id is at most `t`.
pub open spec fn anchor_at(kfs: Seq<VersionModel>, t: u64, k: int) -> bool {
    &&& 0 <= k < kfs.len()
    &&& kfs[k].id <= t
    &&& forall|m: int| k < m < kfs.len() ==> (#[trigger] kfs[m]).id > t
}

/// The deltas with ids in `(lo, hi]`.
pub open spec fn in_span(lo: u64, hi: u64) -> spec_fn(DeltaModel) -> bool {
    |d: DeltaModel| lo < d.id && d.id <= hi
}

/// One replay step: ids skipped by unarchived steps are advanced over, then `d` applies.
pub open spec fn replay_step(v: Option<VersionModel>, d: DeltaModel) -> Option<VersionModel> {
    match v {
        Some(v) => if v.id > d.prev_id {
            None
        } else {
            Some(apply_delta(VersionModel { id: d.prev_id, ..v }, d))
        },
        None => None,
    }
}

pub open spec fn replay(kf: VersionModel, ds: Seq<DeltaModel>) -> Option<VersionModel>
    decreases ds.len(),
{
    if ds.len() == 0 {
        Some(kf)
    } else {
        replay_step(replay(kf, ds.drop_last()), ds.last())
    }
}

/// The stripped version with id `t`, replayed from keyframe `k`.
pub open spec fn reconstruct(a: ArchiveModel, t: u64, k: int) -> Option<VersionModel> {
    match replay(a.keyframes[k], a.deltas.filter(in_span(a.keyframes[k].id, t))) {
        Some(v) => Some(VersionModel { id: t, ..v }),
        None => None,
    }
}

/// The delta that first breaks the chain of a replay.
pub open spec fn broken_at(kf: VersionModel, ds: Seq<DeltaModel>) -> u64
    decreases ds.len(),
{
    if ds.len() == 0 {
        0
    } else if replay(kf, ds.drop_last()) is None {
        broken_at(kf, ds.drop_last())
    } else {
        ds.last().id
    }
}

/// The fully materialized version visible at epoch `e`, or why there is none.
pub open spec fn resolve_spec(a: ArchiveModel, e: u64) -> Result<VersionModel, TimeTravelError> {
    if !(exists|j: int| latest_at(a.epoch_index, e, j)) {
        Err(TimeTravelError::VersionNotFound { epoch: e })
    } else {
        let j = choose|j: int| latest_at(a.epoch_index, e, j);
        let t = a.epoch_index[j].version_id;
        if !(exists|k: int| anchor_at(a.keyframes, t, k)) {
            Err(TimeTravelError::NoReplayVersion { epoch: e, version_id: t })
        } else {
            let k = choose|k: int| anchor_at(a.keyframes, t, k);
            match reconstruct(a, t, k) {
                None => Err(
                    TimeTravelError::BrokenDeltaChain {
                        version_id: t,
                        delta_id: broken_at(
                            a.keyframes[k],
                            a.deltas.filter(in_span(a.keyframes[k].id, t)),
                        ),
                    },
                ),
                Some(v) => if version_ids(v).subset_of(a.registry.dom()) {
                    Ok(refill_version_model(v, a.registry))
                } else {
                    Err(TimeTravelError::MissingFileInfo { epoch: e, version_id: t })
                },
            }
        }
    }
}

// ---- lemmas ----

pub proof fn lemma_latest_unique(idx: Seq<EpochIndexEntry>, e: u64, j1: int, j2: int)
    requires
        latest_at(idx, e, j1),
        latest_at(idx, e, j2),
    ensures
        j1 == j2,
{
    if j1 < j2 {
        assert(idx[j2].epoch > e);
    }
    if j2 < j1 {
        assert(idx[j1].epoch > e);
    }
}

pub proof fn lemma_anchor_unique(kfs: Seq<VersionModel>, t: u64, k1: int, k2: int)
    requires
        anchor_at(kfs, t, k1),
        anchor_at(kfs, t, k2),
    ensures
        k1 == k2,
{
    if k1 < k2 {
        assert(kfs[k2].id > t);
    }
    if k2 < k1 {
        assert(kfs[k1].id > t);
    }
}

proof fn lemma_replay_stays_broken(
    kf: VersionModel,
    ds: Seq<DeltaModel>,
    p: spec_fn(DeltaModel) -> bool,
    i: int,
    m: int,
)
    requires
        0 <= i <= m <= ds.len(),
        replay(kf, ds.subrange(0, i).filter(p)) is None,
    ensures
        replay(kf, ds.subrange(0, m).filter(p)) is None,
        broken_at(kf, ds.subrange(0, m).filter(p)) == broken_at(kf, ds.subrange(0, i).filter(p)),
    decreases m - i,
{
    if m > i {
        lemma_replay_stays_broken(kf, ds, p, i, m - 1);
        lemma_filter_step(ds, p, m - 1);
        let prev = ds.subrange(0, m - 1).filter(p);
        if p(ds[m - 1]) {
            assert(prev.push(ds[m - 1]).drop_last() =~= prev);
        }
    }
}

proof fn lemma_files_agree(fs: Seq<FileModel>, r1: Map<u64, FileModel>, r2: Map<u64, FileModel>)
    requires
        forall|i: int| 0 <= i < fs.len() ==> r1[(#[trigger] fs[i]).sst_id] == r2[fs[i].sst_id],
    ensures
        refill_files(fs, r1) == refill_files(fs, r2),
{
    assert(refill_files(fs, r1) =~= refill_files(fs, r2));
}

/// Refilling reads the registry only at the ids that the version references.
pub proof fn lemma_refill_agree(v: VersionModel, r1: Map<u64, FileModel>, r2: Map<u64, FileModel>)
    requires
        forall|id: u64| #[trigger] version_ids(v).contains(id) ==> r1[id] == r2[id],
    ensures
        refill_version_model(v, r1) == refill_version_model(v, r2),
{
    assert forall|g: int| 0 <= g < v.groups.len() implies refill_group(#[trigger] v.groups[g], r1)
        == refill_group(v.groups[g], r2) by {
        let gm = v.groups[g];
        assert forall|j: int| 0 <= j < gm.l0.len() implies refill_level_model(#[trigger] gm.l0[j], r1)
            == refill_level_model(gm.l0[j], r2) by {
            assert forall|i: int| 0 <= i < gm.l0[j].files.len() implies r1[(#[trigger] gm.l0[j].files[i]).sst_id]
                == r2[gm.l0[j].files[i].sst_id] by {
                let id = gm.l0[j].files[i].sst_id;
                assert(ids_of_files(gm.l0[j].files).contains(id));
                assert(group_has(v.groups[g], id));
                assert(version_ids(v).contains(id));
            }
            lemma_files_agree(gm.l0[j].files, r1, r2);
        }
        assert forall|j: int| 0 <= j < gm.levels.len() implies refill_level_model(#[trigger] gm.levels[j], r1)
            == refill_level_model(gm.levels[j], r2) by {
            assert forall|i: int| 0 <= i < gm.levels[j].files.len() implies r1[(#[trigger] gm.levels[j].files[i]).sst_id]
                == r2[gm.levels[j].files[i].sst_id] by {
                let id = gm.levels[j].files[i].sst_id;
                assert(ids_of_files(gm.levels[j].files).contains(id));
                assert(group_has(v.groups[g], id));
                assert(version_ids(v).contains(id));
            }
            lemma_files_agree(gm.levels[j].files, r1, r2);
        }
        assert(refill_group(gm, r1).l0 =~= refill_group(gm, r2).l0);
        assert(refill_group(gm, r1).levels =~= refill_group(gm, r2).levels);
    }
    assert forall|t: int| 0 <= t < v.table_change_log.len() implies refill_log(
        #[trigger] v.table_change_log[t],
        r1,
    ) == refill_log(v.table_change_log[t], r2) by {
        let tl = v.table_change_log[t];
        assert forall|k: int| 0 <= k < tl.entries.len() implies refill_entry(#[trigger] tl.entries[k], r1)
            == refill_entry(tl.entries[k], r2) by {
            let e = tl.entries[k];
            assert forall|i: int| 0 <= i < e.old_value.len() implies r1[(#[trigger] e.old_value[i]).sst_id]
                == r2[e.old_value[i].sst_id] by {
                let id = e.old_value[i].sst_id;
                assert(ids_of_files(e.old_value).contains(id));
                assert(entry_has(tl.entries[k], id));
                assert(log_has(v.table_change_log[t], id));
                assert(version_ids(v).contains(id));
            }
            assert forall|i: int| 0 <= i < e.new_value.len() implies r1[(#[trigger] e.new_value[i]).sst_id]
                == r2[e.new_value[i].sst_id] by {
                let id = e.new_value[i].sst_id;
                assert(ids_of_files(e.new_value).contains(id));
                assert(entry_has(tl.entries[k], id));
                assert(log_has(v.table_change_log[t], id));
                assert(version_ids(v).contains(id));
            }
            lemma_files_agree(e.old_value, r1, r2);
            lemma_files_agree(e.new_value, r1, r2);
        }
        assert(refill_log(tl, r1).entries =~= refill_log(tl, r2).entries);
    }
    assert(refill_version_model(v, r1).groups =~= refill_version_model(v, r2).groups);
    assert(refill_version_model(v, r1).table_change_log =~= refill_version_model(v, r2).table_change_log);
}

// ---- resolving an epoch, in code ----

fn find_latest(idx: &Vec<EpochIndexEntry>, e: u64) -> (r: Option<usize>)
    ensures
        match r {
            Some(j) => latest_at(idx@, e, j as int),
            None => !(exists|j: int| latest_at(idx@, e, j)),
        },
{
    let mut found: Option<usize> = None;
    let mut i: usize = 0;
    while i < idx.len()
        invariant
            i <= idx@.len(),
            match found {
                Some(j) => j < i && idx@[j as int].epoch <= e && forall|k: int|
                    j < k < i ==> (#[trigger] idx@[k]).epoch > e,
                None => forall|k: int| 0 <= k < i ==> (#[trigger] idx@[k]).epoch > e,
            },
        decreases idx@.len() - i,
    {
        if idx[i].epoch <= e {
            found = Some(i);
        }
        i += 1;
    }
    match found {
        Some(j) => {},
        None => {
            assert forall|j: int| !latest_at(idx@, e, j) by {
                if 0 <= j < idx@.len() {
                    assert(idx@[j].epoch > e);
                }
            }
        },
    }
    found
}

fn find_anchor(kfs: &Vec<Version>, t: u64) -> (r: Option<usize>)
    ensures
        match r {
            Some(k) => anchor_at(versions_view(kfs@), t, k as int),
            None => !(exists|k: int| #[trigger] anchor_at(versions_view(kfs@), t, k)),
        },
{
    let ghost kv = versions_view(kfs@);
    let mut found: Option<usize> = None;
    let mut i: usize = 0;
    while i < kfs.len()
        invariant
            i <= kfs@.len(),
            kv == versions_view(kfs@),
            match found {
                Some(k) => k < i && kv[k as int].id <= t && forall|m: int|
                    k < m < i ==> (#[trigger] kv[m]).id > t,
                None => forall|m: int| 0 <= m < i ==> (#[trigger] kv[m]).id > t,
            },
        decreases kfs@.len() - i,
    {
        if kfs[i].id <= t {
            found = Some(i);
        }
        i += 1;
    }
    match found {
        Some(k) => {},
        None => {
            assert forall|k: int| !anchor_at(kv, t, k) by {
                if 0 <= k < kv.len() {
                    assert(kv[k].id > t);
                }
            }
        },
    }
    found
}

/// Replays, from the keyframe `version`, the deltas with ids in `(lo, hi]` in order: before
/// each, the running id advances over versions that left no delta; a delta whose
/// predecessor lies behind the running version breaks the chain, and its id is returned.
pub fn replay_archive(version: &Version, deltas: &Vec<VersionDelta>, lo: u64, hi: u64) -> (r: Result<Version, u64>)
    ensures
        match r {
            Ok(v) => replay(version@, deltas_view(deltas@).filter(in_span(lo, hi))) == Some(v@),
            Err(delta_id) => replay(version@, deltas_view(deltas@).filter(in_span(lo, hi))) is None
                && broken_at(version@, deltas_view(deltas@).filter(in_span(lo, hi))) == delta_id,
        },
{
    let ghost ds = deltas_view(deltas@);
    let ghost kf = version@;
    let ghost p = in_span(lo, hi);
    let mut running = copy_version(version);
    let mut i: usize = 0;
    assert(ds.subrange(0, 0).filter(p) =~= Seq::<DeltaModel>::empty()) by {
        reveal(Seq::filter);
    }
    while i < deltas.len()
        invariant
            i <= deltas@.len(),
            ds == deltas_view(deltas@),
            kf == version@,
            p == in_span(lo, hi),
            replay(kf, ds.subrange(0, i as int).filter(p)) == Some(running@),
        decreases deltas@.len() - i,
    {
        let d = &deltas[i];
        proof {
            lemma_filter_step(ds, p, i as int);
        }
        if lo < d.id && d.id <= hi {
            let ghost prefix = ds.subrange(0, i as int).filter(p);
            assert(prefix.push(d@).drop_last() =~= prefix);
            if running.id > d.prev_id {
                proof {
                    assert(replay(kf, ds.subrange(0, i + 1).filter(p)) is None);
                    lemma_replay_stays_broken(kf, ds, p, i + 1, ds.len() as int);
                    assert(ds.subrange(0, ds.len() as int) =~= ds);
                    assert(broken_at(kf, prefix.push(d@)) == d.id);
                }
                return Err(d.id);
            }
            running.id = d.prev_id;
            apply_version_delta(&mut running, d);
        }
        i += 1;
    }
    assert(ds.subrange(0, ds.len() as int) =~= ds);
    Ok(running)
}

impl HummockManager {
    /// An empty archive that fetches file records `fetch_batch_size` at a time.
    pub fn new(fetch_batch_size: usize) -> (r: HummockManager)
        requires
            fetch_batch_size > 0,
        ensures
            r@.epoch_index.len() == 0,
            r@.keyframes.len() == 0,
            r@.deltas.len() == 0,
            r@.registry == Map::<u64, FileModel>::empty(),
            r.fetch_batch_size == fetch_batch_size,
    {
        HummockManager {
            epoch_index: Vec::new(),
            keyframes: Vec::new(),
            deltas: Vec::new(),
            registry: SstableRegistry::new(),
            fetch_batch_size,
        }
    }

    /// The object ids of every file record that time travel keeps.
    pub fn all_object_ids_in_time_travel(&self) -> (r: Vec<u64>)
        ensures
            r@.len() == self@.registry.dom().len(),
            forall|o: u64|
                #[trigger] r@.contains(o) <==> exists|id: u64| #[trigger] self@.registry.contains_key(id)
                    && self@.registry[id].object_id == o,
    {
        let r = self.registry.object_ids();
        proof {
            let reg = self.registry@;
            assert forall|o: u64| #[trigger] r@.contains(o) <==> exists|id: u64| #[trigger] self@.registry.contains_key(id)
                && self@.registry[id].object_id == o by {
                if r@.contains(o) {
                    let id = choose|id: u64| #[trigger] reg.contains_key(id) && reg[id].object_id == o;
                    assert(self@.registry.contains_key(id));
                }
                if exists|id: u64| #[trigger] self@.registry.contains_key(id) && self@.registry[id].object_id == o {
                    let id = choose|id: u64| #[trigger] self@.registry.contains_key(id) && self@.registry[id].object_id == o;
                    assert(reg.contains_key(id) && reg[id].object_id == o);
                }
            }
        }
        r
    }

    /// The fully materialized version visible at `query_epoch`: the version of the last
    /// indexed epoch at or below it, replayed from the nearest keyframe and refilled from
    /// the registry.
    pub fn epoch_to_version(&self, query_epoch: u64) -> (r: Result<Version, TimeTravelError>)
        requires
            self.fetch_batch_size > 0,
        ensures
            match r {
                Ok(v) => resolve_spec(self@, query_epoch) == Ok::<VersionModel, TimeTravelError>(v@),
                Err(err) => resolve_spec(self@, query_epoch) == Err::<VersionModel, TimeTravelError>(err),
            },
    {
        let ghost a = self@;
        let j = match find_latest(&self.epoch_index, query_epoch) {
            Some(j) => j,
            None => {
                return Err(TimeTravelError::VersionNotFound { epoch: query_epoch });
            },
        };
        proof {
            let c = choose|c: int| latest_at(a.epoch_index, query_epoch, c);
            lemma_latest_unique(a.epoch_index, query_epoch, c, j as int);
        }
        let t = self.epoch_index[j].version_id;
        let k = match find_anchor(&self.keyframes, t) {
            Some(k) => k,
            None => {
                return Err(TimeTravelError::NoReplayVersion { epoch: query_epoch, version_id: t });
            },
        };
        proof {
            assert(anchor_at(a.keyframes, t, k as int));
            let c = choose|c: int| anchor_at(a.keyframes, t, c);
            lemma_anchor_unique(a.keyframes, t, c, k as int);
        }
        let kid = self.keyframes[k].id;
        let mut running = match replay_archive(&self.keyframes[k], &self.deltas, kid, t) {
            Ok(v) => v,
            Err(delta_id) => {
                return Err(TimeTravelError::BrokenDeltaChain { version_id: t, delta_id });
            },
        };
        running.id = t;
        let ghost v = running@;
        assert(reconstruct(a, t, k as int) == Some(v));
        let ids = get_sst_ids(&running);
        let infos = self.registry.get_many(&ids, self.fetch_batch_size);
        let mut n: usize = 0;
        while n < ids.len()
            invariant
                n <= ids@.len(),
                a == self@,
                latest_at(a.epoch_index, query_epoch, j as int),
                t == a.epoch_index[j as int].version_id,
                anchor_at(a.keyframes, t, k as int),
                (choose|c: int| latest_at(a.epoch_index, query_epoch, c)) == j as int,
                (choose|c: int| anchor_at(a.keyframes, t, c)) == k as int,
                reconstruct(a, t, k as int) == Some(v),
                ids@.to_set() == version_ids(v),
                forall|id: u64|
                    #[trigger] registry_view(infos).contains_key(id) <==> ids@.contains(id)
                        && a.registry.contains_key(id),
                forall|m: int| 0 <= m < n ==> registry_view(infos).contains_key(#[trigger] ids@[m]),
            decreases ids@.len() - n,
        {
            if !infos.contains_key(&ids[n]) {
                proof {
                    assert(!registry_view(infos).contains_key(ids@[n as int]));
                    assert(ids@.contains(ids@[n as int]));
                    assert(ids@.to_set().contains(ids@[n as int]));
                    assert(!a.registry.contains_key(ids@[n as int]));
                }
                return Err(TimeTravelError::MissingFileInfo { epoch: query_epoch, version_id: t });
            }
            n += 1;
        }
        proof {
            assert forall|id: u64| version_ids(v).contains(id) implies registry_view(infos).contains_key(id) && a.registry.contains_key(id) by {
                assert(ids@.to_set().contains(id));
                let m = choose|m: int| 0 <= m < ids@.len() && ids@[m] == id;
                assert(registry_view(infos).contains_key(ids@[m]));
            }
            assert forall|id: u64| #[trigger] version_ids(v).contains(id) implies registry_view(infos)[id] == a.registry[id] by {
                assert(ids@.to_set().contains(id));
                let m = choose|m: int| 0 <= m < ids@.len() && ids@[m] == id;
                assert(registry_view(infos).contains_key(ids@[m]));
            }
            lemma_refill_agree(v, registry_view(infos), a.registry);
        }
        refill_version(&mut running, &infos);
        Ok(running)
    }
}

// ---- reclaiming history, as mathematics ----

/// The index rows are in increasing epoch order with non-decreasing versions, and keyframes
/// and deltas are in increasing id order.
pub open spec fn archive_wf(a: ArchiveModel) -> bool {
    &&& forall|i: int, j: int|
        0 <= i < j < a.epoch_index.len() ==> (#[trigger] a.epoch_index[i]).epoch
            < (#[trigger] a.epoch_index[j]).epoch && a.epoch_index[i].version_id
            <= a.epoch_index[j].version_id
    &&& forall|i: int, j: int|
        0 <= i < j < a.keyframes.len() ==> (#[trigger] a.keyframes[i]).id < (#[trigger] a.keyframes[j]).id
    &&& forall|i: int, j: int|
        0 <= i < j < a.deltas.len() ==> (#[trigger] a.deltas[i]).id < (#[trigger] a.deltas[j]).id
}

/// `j` is the last index row whose epoch is below `w`.
pub open spec fn latest_below(idx: Seq<EpochIndexEntry>, w: u64, j: int) -> bool {
    &&& 0 <= j < idx.len()
    &&& idx[j].epoch < w
    &&& forall|k: int| j < k < idx.len() ==> (#[trigger] idx[k]).epoch >= w
}

pub open spec fn epoch_kept(w: u64) -> spec_fn(EpochIndexEntry) -> bool {
    |x: EpochIndexEntry| x.epoch >= w
}

pub open spec fn keyframe_kept(anchor: u64) -> spec_fn(VersionModel) -> bool {
    |v: VersionModel| v.id >= anchor
}

pub open spec fn delta_kept(anchor: u64) -> spec_fn(DeltaModel) -> bool {
    |d: DeltaModel| d.id >= anchor
}

/// The file ids that reclaiming up to the keyframe at index `k` frees: those added by a
/// removed delta and absent from the anchor keyframe, and those of a removed keyframe that
/// the next keyframe no longer references.
pub open spec fn reclaimed(a: ArchiveModel, k: int) -> Set<u64> {
    Set::new(
        |id: u64|
            (exists|i: int|
                0 <= i < a.deltas.len() && (#[trigger] a.deltas[i]).id < a.keyframes[k].id
                    && delta_ids(a.deltas[i]).contains(id) && !version_ids(a.keyframes[k]).contains(
                    id,
                )) || (exists|i: int|
                0 <= i < k && version_ids(#[trigger] a.keyframes[i]).contains(id) && !version_ids(
                    a.keyframes[i + 1],
                ).contains(id)),
    )
}

/// The archive after reclaiming history below the epoch watermark `w`.
pub open spec fn truncate_spec(a: ArchiveModel, w: u64) -> ArchiveModel {
    if !(exists|j: int| latest_below(a.epoch_index, w, j)) {
        a
    } else {
        let j = choose|j: int| latest_below(a.epoch_index, w, j);
        let v = a.epoch_index[j].version_id;
        let idx = a.epoch_index.filter(epoch_kept(w));
        if !(exists|k: int| anchor_at(a.keyframes, v, k)) {
            ArchiveModel { epoch_index: idx, ..a }
        } else {
            let k = choose|k: int| anchor_at(a.keyframes, v, k);
            let anchor = a.keyframes[k].id;
            ArchiveModel {
                epoch_index: idx,
                keyframes: a.keyframes.filter(keyframe_kept(anchor)),
                deltas: a.deltas.filter(delta_kept(anchor)),
                registry: a.registry.remove_keys(reclaimed(a, k)),
            }
        }
    }
}

// ---- reclaiming history, in code ----

pub proof fn lemma_sorted_filter_suffix<A>(s: Seq<A>, p: spec_fn(A) -> bool, m: int)
    requires
        0 <= m <= s.len(),
        forall|i: int| 0 <= i < s.len() ==> (p(#[trigger] s[i]) <==> i >= m),
    ensures
        s.filter(p) == s.subrange(m, s.len() as int),
    decreases s.len(),
{
    reveal(Seq::filter);
    if s.len() > 0 {
        let t = s.drop_last();
        if m == s.len() {
            lemma_sorted_filter_suffix(t, p, t.len() as int);
            assert(!p(s[s.len() - 1]));
        } else {
            lemma_sorted_filter_suffix(t, p, m);
            assert(p(s[s.len() - 1]));
            assert(t.subrange(m, t.len() as int).push(s[s.len() - 1]) =~= s.subrange(m, s.len() as int));
        }
        assert(s.subrange(m, s.len() as int).len() == s.len() - m);
    } else {
        assert(s.subrange(m, s.len() as int) =~= s);
    }
}

fn find_latest_below(idx: &Vec<EpochIndexEntry>, w: u64) -> (r: Option<usize>)
    ensures
        match r {
            Some(j) => latest_below(idx@, w, j as int),
            None => !(exists|j: int| latest_below(idx@, w, j)),
        },
{
    let mut found: Option<usize> = None;
    let mut i: usize = 0;
    while i < idx.len()
        invariant
            i <= idx@.len(),
            match found {
                Some(j) => j < i && idx@[j as int].epoch < w && forall|k: int|
                    j < k < i ==> (#[trigger] idx@[k]).epoch >= w,
                None => forall|k: int| 0 <= k < i ==> (#[trigger] idx@[k]).epoch >= w,
            },
        decreases idx@.len() - i,
    {
        if idx[i].epoch < w {
            found = Some(i);
        }
        i += 1;
    }
    match found {
        Some(j) => {},
        None => {
            assert forall|j: int| !latest_below(idx@, w, j) by {
                if 0 <= j < idx@.len() {
                    assert(idx@[j].epoch >= w);
                }
            }
        },
    }
    found
}

fn kept_index(idx: &Vec<EpochIndexEntry>, w: u64) -> (r: Vec<EpochIndexEntry>)
    ensures
        r@ == idx@.filter(epoch_kept(w)),
{
    let mut r: Vec<EpochIndexEntry> = Vec::new();
    let mut i: usize = 0;
    while i < idx.len()
        invariant
            i <= idx@.len(),
            r@ == idx@.subrange(0, i as int).filter(epoch_kept(w)),
        decreases idx@.len() - i,
    {
        proof {
            lemma_filter_step(idx@, epoch_kept(w), i as int);
        }
        if idx[i].epoch >= w {
            r.push(idx[i]);
        }
        i += 1;
    }
    assert(idx@.subrange(0, idx@.len() as int) =~= idx@);
    r
}

fn id_set(v: &Vec<u64>) -> (r: HashSet<u64>)
    ensures
        forall|id: u64| #[trigger] r@.contains(id) <==> v@.contains(id),
{
    let mut r: HashSet<u64> = HashSet::new();
    let mut i: usize = 0;
    while i < v.len()
        invariant
            i <= v@.len(),
            forall|id: u64| #[trigger] r@.contains(id) <==> exists|q: int| 0 <= q < i && v@[q] == id,
        decreases v@.len() - i,
    {
        r.insert(v[i]);
        i += 1;
        assert forall|id: u64| #[trigger] r@.contains(id) <==> exists|q: int| 0 <= q < i && v@[q] == id by {
            if id == v@[i - 1] {
                assert(v@[i - 1] == id);
            }
        }
    }
    r
}

/// Appends to `out` the ids of `src` that `exclude` lacks.
fn push_missing(src: &Vec<u64>, exclude: &HashSet<u64>, out: &mut Vec<u64>)
    ensures
        forall|id: u64|
            #[trigger] final(out)@.contains(id) <==> old(out)@.contains(id) || (src@.contains(id)
                && !exclude@.contains(id)),
{
    let ghost start = out@;
    let mut i: usize = 0;
    while i < src.len()
        invariant
            i <= src@.len(),
            forall|id: u64|
                #[trigger] out@.contains(id) <==> start.contains(id) || ((exists|q: int|
                    0 <= q < i && src@[q] == id) && !exclude@.contains(id)),
        decreases src@.len() - i,
    {
        let x = src[i];
        if !exclude.contains(&x) {
            let ghost before = out@;
            out.push(x);
            assert forall|id: u64| #[trigger] out@.contains(id) <==> before.contains(id) || id == x by {
                if out@.contains(id) {
                    let q = choose|q: int| 0 <= q < out@.len() && out@[q] == id;
                    if q < before.len() {
                        assert(before[q] == id);
                    }
                }
                if before.contains(id) {
                    let q = choose|q: int| 0 <= q < before.len() && before[q] == id;
                    assert(out@[q] == id);
                }
                if id == x {
                    assert(out@[before.len() as int] == id);
                }
            }
        }
        i += 1;
        assert forall|id: u64| #[trigger] out@.contains(id) <==> start.contains(id) || ((exists|q: int|
            0 <= q < i && src@[q] == id) && !exclude@.contains(id)) by {
            if id == x {
                assert(src@[i - 1] == id);
            }
        }
    }
    assert forall|id: u64| #[trigger] out@.contains(id) <==> start.contains(id) || (src@.contains(id)
        && !exclude@.contains(id)) by {
        if src@.contains(id) {
            let q = choose|q: int| 0 <= q < src@.len() && src@[q] == id;
        }
    }
}

impl HummockManager {
    /// Reclaims the history that no epoch at or above `epoch_watermark` needs: index rows
    /// below the watermark, keyframes and deltas below the anchor keyframe, and the files
    /// that only they referenced.
    pub fn truncate_time_travel_metadata(&mut self, epoch_watermark: u64)
        requires
            archive_wf(old(self)@),
        ensures
            final(self)@ == truncate_spec(old(self)@, epoch_watermark),
            final(self).fetch_batch_size == old(self).fetch_batch_size,
    {
        let ghost a = self@;
        let j = match find_latest_below(&self.epoch_index, epoch_watermark) {
            Some(j) => j,
            None => {
                return;
            },
        };
        proof {
            let c = choose|c: int| latest_below(a.epoch_index, epoch_watermark, c);
            if c < j {
                assert(a.epoch_index[j as int].epoch >= epoch_watermark);
            }
            if j < c {
                assert(a.epoch_index[c].epoch >= epoch_watermark);
            }
        }
        let v = self.epoch_index[j].version_id;
        self.epoch_index = kept_index(&self.epoch_index, epoch_watermark);
        let k = match find_anchor(&self.keyframes, v) {
            Some(k) => k,
            None => {
                return;
            },
        };
        proof {
            assert(anchor_at(a.keyframes, v, k as int));
            let c = choose|c: int| anchor_at(a.keyframes, v, c);
            lemma_anchor_unique(a.keyframes, v, c, k as int);
        }
        let anchor = self.keyframes[k].id;
        let floor_ids = get_sst_ids(&self.keyframes[k]);
        let floor = id_set(&floor_ids);
        let mut doomed: Vec<u64> = Vec::new();
        let mut i: usize = 0;
        while i < self.deltas.len()
            invariant
                i <= self.deltas@.len(),
                a.deltas == deltas_view(self.deltas@),
                a.keyframes == versions_view(self.keyframes@),
                k < a.keyframes.len(),
                anchor == a.keyframes[k as int].id,
                forall|id: u64| #[trigger] floor@.contains(id) <==> version_ids(a.keyframes[k as int]).contains(id),
                forall|id: u64|
                    #[trigger] doomed@.contains(id) <==> exists|q: int|
                        0 <= q < i && (#[trigger] a.deltas[q]).id < anchor && delta_ids(a.deltas[q]).contains(id)
                            && !version_ids(a.keyframes[k as int]).contains(id),
            decreases self.deltas@.len() - i,
        {
            let ghost before = doomed@;
            if self.deltas[i].id < anchor {
                let added = newly_added_sst_ids(&self.deltas[i]);
                push_missing(&added, &floor, &mut doomed);
                proof {
                    assert forall|id: u64| added@.contains(id) <==> delta_ids(a.deltas[i as int]).contains(id) by {
                        assert(added@.to_set().contains(id) <==> added@.contains(id));
                    }
                }
            }
            i += 1;
            assert forall|id: u64|
                #[trigger] doomed@.contains(id) <==> exists|q: int|
                    0 <= q < i && (#[trigger] a.deltas[q]).id < anchor && delta_ids(a.deltas[q]).contains(id)
                        && !version_ids(a.keyframes[k as int]).contains(id) by {
                if doomed@.contains(id) && !before.contains(id) {
                    assert(a.deltas[i - 1].id < anchor);
                }
            }
        }
        let mut next = floor;
        let mut i: usize = k;
        while i > 0
            invariant
                i <= k,
                a.deltas == deltas_view(self.deltas@),
                a.keyframes == versions_view(self.keyframes@),
                k < a.keyframes.len(),
                anchor == a.keyframes[k as int].id,
                forall|id: u64| #[trigger] next@.contains(id) <==> version_ids(a.keyframes[i as int]).contains(id),
                forall|id: u64|
                    #[trigger] doomed@.contains(id) <==> (exists|q: int|
                        0 <= q < a.deltas.len() && (#[trigger] a.deltas[q]).id < anchor && delta_ids(a.deltas[q]).contains(id)
                            && !version_ids(a.keyframes[k as int]).contains(id)) || (exists|q: int|
                        i <= q < k && version_ids(#[trigger] a.keyframes[q]).contains(id) && !version_ids(
                            a.keyframes[q + 1],
                        ).contains(id)),
            decreases i,
        {
            i -= 1;
            let ghost before = doomed@;
            let ids = get_sst_ids(&self.keyframes[i]);
            push_missing(&ids, &next, &mut doomed);
            proof {
                assert forall|id: u64| ids@.contains(id) <==> version_ids(a.keyframes[i as int]).contains(id) by {
                    assert(ids@.to_set().contains(id) <==> ids@.contains(id));
                }
                assert forall|id: u64|
                    #[trigger] doomed@.contains(id) <==> (exists|q: int|
                        0 <= q < a.deltas.len() && (#[trigger] a.deltas[q]).id < anchor && delta_ids(a.deltas[q]).contains(id)
                            && !version_ids(a.keyframes[k as int]).contains(id)) || (exists|q: int|
                        i <= q < k && version_ids(#[trigger] a.keyframes[q]).contains(id) && !version_ids(
                            a.keyframes[q + 1],
                        ).contains(id)) by {
                    if doomed@.contains(id) && !before.contains(id) {
                        assert(version_ids(a.keyframes[i as int]).contains(id));
                    }
                    if exists|q: int|
                        i <= q < k && version_ids(#[trigger] a.keyframes[q]).contains(id) && !version_ids(
                            a.keyframes[q + 1],
                        ).contains(id) {
                        let q = choose|q: int|
                            i <= q < k && version_ids(#[trigger] a.keyframes[q]).contains(id) && !version_ids(
                                a.keyframes[q + 1],
                            ).contains(id);
                        if q > i {
                            assert(before.contains(id));
                        }
                    }
                }
            }
            next = id_set(&ids);
        }
        proof {
            assert forall|id: u64| doomed@.to_set().contains(id) <==> reclaimed(a, k as int).contains(id) by {
                assert(doomed@.to_set().contains(id) <==> doomed@.contains(id));
            }
            assert(doomed@.to_set() =~= reclaimed(a, k as int));
        }
        self.registry.delete_many(&doomed);
        let kept_keyframes = self.keyframes.split_off(k);
        self.keyframes = kept_keyframes;
        let mut m: usize = 0;
        while m < self.deltas.len() && self.deltas[m].id < anchor
            invariant
                m <= self.deltas@.len(),
                a.deltas == deltas_view(self.deltas@),
                forall|q: int| 0 <= q < m ==> (#[trigger] a.deltas[q]).id < anchor,
            decreases self.deltas@.len() - m,
        {
            m += 1;
        }
        let kept_deltas = self.deltas.split_off(m);
        self.deltas = kept_deltas;
        proof {
            lemma_sorted_filter_suffix(a.keyframes, keyframe_kept(anchor), k as int);
            assert(versions_view(self.keyframes@) =~= a.keyframes.subrange(k as int, a.keyframes.len() as int));
            assert forall|q: int| 0 <= q < a.deltas.len() implies (delta_kept(anchor)(#[trigger] a.deltas[q]) <==> q >= m) by {
                if q > m {
                    assert(a.deltas[m as int].id < a.deltas[q].id);
                }
            }
            lemma_sorted_filter_suffix(a.deltas, delta_kept(anchor), m as int);
            assert(deltas_view(self.deltas@) =~= a.deltas.subrange(m as int, a.deltas.len() as int));
        }
    }
}

// ---- the write path ----

pub open spec fn has_keyframe(kfs: Seq<VersionModel>, id: u64) -> bool {
    exists|i: int| 0 <= i < kfs.len() && (#[trigger] kfs[i]).id == id
}

pub open spec fn has_delta(ds: Seq<DeltaModel>, id: u64) -> bool {
    exists|i: int| 0 <= i < ds.len() && (#[trigger] ds[i]).id == id
}

/// A write may follow the archive: its epoch is above every indexed one, and its ids are
/// at or above every id already archived.
pub open spec fn write_follows(a: ArchiveModel, version: Option<VersionModel>, delta: DeltaModel) -> bool {
    &&& forall|i: int|
        0 <= i < a.epoch_index.len() ==> (#[trigger] a.epoch_index[i]).epoch < delta.max_committed_epoch
            && a.epoch_index[i].version_id <= delta.id
    &&& forall|i: int| 0 <= i < a.deltas.len() ==> (#[trigger] a.deltas[i]).id <= delta.id
    &&& match version {
        Some(v) => forall|i: int| 0 <= i < a.keyframes.len() ==> (#[trigger] a.keyframes[i]).id <= v.id,
        None => true,
    }
}

fn find_keyframe(kfs: &Vec<Version>, id: u64) -> (r: bool)
    ensures
        r == has_keyframe(versions_view(kfs@), id),
{
    let mut i: usize = 0;
    while i < kfs.len()
        invariant
            i <= kfs@.len(),
            forall|q: int| 0 <= q < i ==> (#[trigger] kfs@[q]).id != id,
        decreases kfs@.len() - i,
    {
        if kfs[i].id == id {
            assert(versions_view(kfs@)[i as int].id == id);
            return true;
        }
        i += 1;
    }
    assert forall|q: int| 0 <= q < kfs@.len() implies (#[trigger] versions_view(kfs@)[q]).id != id by {
        assert(kfs@[q].id != id);
    }
    false
}

fn find_delta(ds: &Vec<VersionDelta>, id: u64) -> (r: bool)
    ensures
        r == has_delta(deltas_view(ds@), id),
{
    let mut i: usize = 0;
    while i < ds.len()
        invariant
            i <= ds@.len(),
            forall|q: int| 0 <= q < i ==> (#[trigger] ds@[q]).id != id,
        decreases ds@.len() - i,
    {
        if ds[i].id == id {
            assert(deltas_view(ds@)[i as int].id == id);
            return true;
        }
        i += 1;
    }
    assert forall|q: int| 0 <= q < ds@.len() implies (#[trigger] deltas_view(ds@)[q]).id != id by {
        assert(ds@[q].id != id);
    }
    false
}

impl HummockManager {
    /// Persists one commit: the index row for the delta's epoch, the keyframe `version`
    /// when one is given, and the delta, each stripped, after their files are recorded.
    pub fn write_time_travel_metadata(&mut self, version: Option<&Version>, delta: &VersionDelta)
        requires
            archive_wf(old(self)@),
            write_follows(
                old(self)@,
                match version {
                    Some(v) => Some(v@),
                    None => None,
                },
                delta@,
            ),
        ensures
            archive_wf(final(self)@),
            final(self).fetch_batch_size == old(self).fetch_batch_size,
            final(self)@.epoch_index == old(self)@.epoch_index.push(
                EpochIndexEntry { epoch: delta.max_committed_epoch, version_id: delta.id },
            ),
            final(self)@.keyframes == match version {
                Some(v) => if has_keyframe(old(self)@.keyframes, v.id) {
                    old(self)@.keyframes
                } else {
                    old(self)@.keyframes.push(strip_version(v@))
                },
                None => old(self)@.keyframes,
            },
            final(self)@.deltas == if has_delta(old(self)@.deltas, delta.id) {
                old(self)@.deltas
            } else {
                old(self)@.deltas.push(strip_delta(delta@))
            },
            grows_by(
                old(self)@.registry,
                final(self)@.registry,
                match version {
                    Some(v) => version_ids(v@).union(delta_ids(delta@)),
                    None => delta_ids(delta@),
                },
            ),
            fresh_from(
                old(self)@.registry,
                final(self)@.registry,
                match version {
                    Some(v) => version_files(v@).union(delta_files(delta@)),
                    None => delta_files(delta@),
                },
            ),
    {
        let ghost a = self@;
        self.epoch_index.push(EpochIndexEntry { epoch: delta.max_committed_epoch, version_id: delta.id });
        let ghost mid = self.registry@;
        match version {
            Some(v) => {
                register_version_files(&mut self.registry, v);
                if !find_keyframe(&self.keyframes, v.id) {
                    let kf = stripped_version(v);
                    self.keyframes.push(kf);
                    assert(versions_view(self.keyframes@) =~= a.keyframes.push(strip_version(v@)));
                }
            },
            None => {
                proof {
                    assert(self.registry@.dom() =~= mid.dom().union(Set::<u64>::empty()));
                }
            },
        }
        let ghost mid2 = self.registry@;
        register_delta_files(&mut self.registry, delta);
        if !find_delta(&self.deltas, delta.id) {
            let sd = stripped_version_delta(delta);
            self.deltas.push(sd);
            assert(deltas_view(self.deltas@) =~= a.deltas.push(strip_delta(delta@)));
        }
        proof {
            match version {
                Some(v) => {
                    lemma_grows_trans(a.registry, mid2, self.registry@, version_ids(v@), delta_ids(delta@));
                    lemma_fresh_trans(a.registry, mid2, self.registry@, version_files(v@), delta_files(delta@), delta_ids(delta@));
                },
                None => {
                    lemma_grows_trans(a.registry, mid2, self.registry@, Set::<u64>::empty(), delta_ids(delta@));
                    assert(Set::<u64>::empty().union(delta_ids(delta@)) =~= delta_ids(delta@));
                    assert(mid2 == a.registry);
                },
            }
            let b = self@;
            assert forall|i: int, j: int| 0 <= i < j < b.epoch_index.len() implies (#[trigger] b.epoch_index[i]).epoch
                < (#[trigger] b.epoch_index[j]).epoch && b.epoch_index[i].version_id <= b.epoch_index[j].version_id by {
                if j == b.epoch_index.len() - 1 {
                    assert(a.epoch_index[i].epoch < delta.max_committed_epoch);
                } else {
                    assert(a.epoch_index[i] == b.epoch_index[i]);
                    assert(a.epoch_index[j] == b.epoch_index[j]);
                }
            }
            assert forall|i: int, j: int| 0 <= i < j < b.keyframes.len() implies (#[trigger] b.keyframes[i]).id < (#[trigger] b.keyframes[j]).id by {
                if j >= a.keyframes.len() {
                    assert(a.keyframes[i].id <= b.keyframes[j].id);
                    assert(a.keyframes[i].id != b.keyframes[j].id);
                } else {
                    assert(a.keyframes[i] == b.keyframes[i]);
                }
            }
            assert forall|i: int, j: int| 0 <= i < j < b.deltas.len() implies (#[trigger] b.deltas[i]).id < (#[trigger] b.deltas[j]).id by {
                if j >= a.deltas.len() {
                    assert(a.deltas[i].id <= b.deltas[j].id);
                    assert(a.deltas[i].id != b.deltas[j].id);
                } else {
                    assert(a.deltas[i] == b.deltas[i]);
                }
            }
        }
    }
}

} // verus!
