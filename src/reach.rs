use vstd::prelude::*;

use crate::apply::{
    apply_all_group_deltas, apply_delta, apply_files, apply_group_delta, apply_group_delta_list,
    apply_intra, apply_log_delta, apply_log_deltas, apply_sorted_level, apply_sub_level,
    empty_level, has_group, is_first_group, live_at, log_kept, new_group, not_removed,
    update_log,
};
use crate::archive::replay;
use crate::file_info::{FileModel, ids_of_files};
use crate::ids::{delta_ids, group_delta_adds, log_delta_adds};
use crate::strip::{entry_has, group_has, levels_have, log_has, version_ids};
use crate::version::{
    ChangeLogDeltaModel, DeltaModel, GroupDeltaModel, GroupDeltasModel, GroupModel,
    IntraLevelModel, LevelModel, TableLogModel, VersionModel,
};

verus! {

pub open spec fn groups_have(gs: Seq<GroupModel>, id: u64) -> bool {
    exists|g: int| 0 <= g < gs.len() && group_has(#[trigger] gs[g], id)
}

pub open spec fn logs_have(ls: Seq<TableLogModel>, id: u64) -> bool {
    exists|t: int| 0 <= t < ls.len() && log_has(#[trigger] ls[t], id)
}

proof fn lemma_filter_from<A>(s: Seq<A>, p: spec_fn(A) -> bool, i: int)
    requires
        0 <= i < s.filter(p).len(),
    ensures
        s.contains(s.filter(p)[i]),
{
    assert(s.filter(p).contains(s.filter(p)[i]));
    s.lemma_filter_contains_rev(p, s.filter(p)[i]);
}

proof fn lemma_files_ids(files: Seq<FileModel>, removed: Seq<u64>, inserted: Seq<FileModel>, id: u64)
    requires
        ids_of_files(apply_files(files, removed, inserted)).contains(id),
    ensures
        ids_of_files(files).contains(id) || ids_of_files(inserted).contains(id),
{
    let kept = files.filter(not_removed(removed));
    let r = kept + inserted;
    let i = choose|i: int| 0 <= i < r.len() && (#[trigger] r[i]).sst_id == id;
    if i < kept.len() {
        lemma_filter_from(files, not_removed(removed), i);
        let j = choose|j: int| 0 <= j < files.len() && files[j] == kept[i];
        assert(files[j].sst_id == id);
    } else {
        assert(inserted[i - kept.len()].sst_id == id);
    }
}

proof fn lemma_intra_ids(g: GroupModel, x: IntraLevelModel, id: u64)
    requires
        group_has(apply_intra(g, x), id),
    ensures
        group_has(g, id) || ids_of_files(x.inserted).contains(id),
{
    let r = apply_intra(g, x);
    if x.level_idx == 0 {
        if levels_have(r.l0, id) {
            let updated = g.l0.map_values(|l: LevelModel| apply_sub_level(l, x));
            let j = choose|j: int| 0 <= j < r.l0.len() && ids_of_files((#[trigger] r.l0[j]).files).contains(id);
            if j < g.l0.len() {
                assert(r.l0[j] == apply_sub_level(g.l0[j], x));
                if g.l0[j].sub_level_id == x.l0_sub_level_id {
                    lemma_files_ids(g.l0[j].files, x.removed, x.inserted, id);
                } else {
                    lemma_files_ids(g.l0[j].files, x.removed, Seq::empty(), id);
                }
                if ids_of_files(g.l0[j].files).contains(id) {
                    assert(levels_have(g.l0, id));
                }
            } else {
                assert(r.l0[j].files == x.inserted);
            }
        } else {
            assert(r.levels == g.levels);
        }
    } else {
        if levels_have(r.levels, id) {
            let j = choose|j: int| 0 <= j < r.levels.len() && ids_of_files((#[trigger] r.levels[j]).files).contains(id);
            assert(r.levels[j] == apply_sorted_level(g.levels[j], x));
            if g.levels[j].level_idx == x.level_idx {
                lemma_files_ids(g.levels[j].files, x.removed, x.inserted, id);
            }
            if ids_of_files(g.levels[j].files).contains(id) {
                assert(levels_have(g.levels, id));
            }
        } else {
            assert(r.l0 == g.l0);
        }
    }
}

proof fn lemma_first_group_from(gs: Seq<GroupModel>, gid: u64, j: int)
    requires
        0 <= j < gs.len(),
        gs[j].group_id == gid,
    ensures
        exists|c: int| is_first_group(gs, gid, c),
    decreases j,
{
    if exists|k: int| 0 <= k < j && (#[trigger] gs[k]).group_id == gid {
        let k = choose|k: int| 0 <= k < j && (#[trigger] gs[k]).group_id == gid;
        lemma_first_group_from(gs, gid, k);
    } else {
        assert(is_first_group(gs, gid, j));
    }
}

proof fn lemma_group_delta_ids(gs: Seq<GroupModel>, gid: u64, d: GroupDeltaModel, id: u64)
    requires
        groups_have(apply_group_delta(gs, gid, d), id),
    ensures
        groups_have(gs, id) || group_delta_adds(d, id),
{
    let r = apply_group_delta(gs, gid, d);
    let g = choose|g: int| 0 <= g < r.len() && group_has(#[trigger] r[g], id);
    match d {
        GroupDeltaModel::IntraLevel(x) => {
            if gs[g].group_id == gid {
                lemma_intra_ids(gs[g], x, id);
            }
            if group_has(gs[g], id) {
                assert(groups_have(gs, id));
            }
        },
        GroupDeltaModel::GroupConstruct { max_level } => {
            if !has_group(gs, gid) && g == gs.len() {
                let ng = new_group(gid, max_level);
                assert(r[g] == ng);
                if levels_have(ng.levels, id) {
                    let j = choose|j: int| 0 <= j < ng.levels.len() && ids_of_files((#[trigger] ng.levels[j]).files).contains(id);
                    assert(ng.levels[j] == empty_level(j));
                    assert(false);
                }
                assert(false);
            } else {
                assert(group_has(gs[g], id));
            }
        },
        GroupDeltaModel::GroupDestroy => {
            if has_group(gs, gid) {
                let j = choose|j: int| 0 <= j < gs.len() && (#[trigger] gs[j]).group_id == gid;
                lemma_first_group_from(gs, gid, j);
                let c = choose|c: int| is_first_group(gs, gid, c);
                if g < c {
                    assert(r[g] == gs[g]);
                } else {
                    assert(r[g] == gs[g + 1]);
                }
            } else {
                assert(group_has(gs[g], id));
            }
        },
    }
}

proof fn lemma_group_delta_list_ids(gs: Seq<GroupModel>, gid: u64, ds: Seq<GroupDeltaModel>, id: u64)
    requires
        groups_have(apply_group_delta_list(gs, gid, ds), id),
    ensures
        groups_have(gs, id) || exists|k: int| 0 <= k < ds.len() && group_delta_adds(#[trigger] ds[k], id),
    decreases ds.len(),
{
    if ds.len() > 0 {
        let prev = apply_group_delta_list(gs, gid, ds.drop_last());
        lemma_group_delta_ids(prev, gid, ds.last(), id);
        if groups_have(prev, id) {
            lemma_group_delta_list_ids(gs, gid, ds.drop_last(), id);
            if !groups_have(gs, id) {
                let k = choose|k: int| 0 <= k < ds.drop_last().len() && group_delta_adds(#[trigger] ds.drop_last()[k], id);
                assert(group_delta_adds(ds[k], id));
            }
        } else {
            assert(group_delta_adds(ds[ds.len() - 1], id));
        }
    }
}

proof fn lemma_all_group_deltas_ids(gs: Seq<GroupModel>, gds: Seq<GroupDeltasModel>, id: u64)
    requires
        groups_have(apply_all_group_deltas(gs, gds), id),
    ensures
        groups_have(gs, id) || exists|x: int, k: int|
            0 <= x < gds.len() && 0 <= k < gds[x].deltas.len() && group_delta_adds(#[trigger] gds[x].deltas[k], id),
    decreases gds.len(),
{
    if gds.len() > 0 {
        let prev = apply_all_group_deltas(gs, gds.drop_last());
        lemma_group_delta_list_ids(prev, gds.last().group_id, gds.last().deltas, id);
        if groups_have(prev, id) {
            lemma_all_group_deltas_ids(gs, gds.drop_last(), id);
            if !groups_have(gs, id) {
                let (x, k) = choose|x: int, k: int|
                    0 <= x < gds.drop_last().len() && 0 <= k < gds.drop_last()[x].deltas.len() && group_delta_adds(#[trigger] gds.drop_last()[x].deltas[k], id);
                assert(group_delta_adds(gds[x].deltas[k], id));
            }
        } else {
            let k = choose|k: int| 0 <= k < gds.last().deltas.len() && group_delta_adds(#[trigger] gds.last().deltas[k], id);
            assert(group_delta_adds(gds[gds.len() - 1].deltas[k], id));
        }
    }
}

proof fn lemma_update_log_ids(t: TableLogModel, c: ChangeLogDeltaModel, id: u64)
    requires
        log_has(update_log(t, c), id),
    ensures
        log_has(t, id) || log_delta_adds(c, id),
{
    let appended = match c.new_log {
        Some(e) => t.entries.push(e),
        None => t.entries,
    };
    let r = update_log(t, c);
    let k = choose|k: int| 0 <= k < r.entries.len() && entry_has(#[trigger] r.entries[k], id);
    lemma_filter_from(appended, live_at(c.truncate_epoch), k);
    let j = choose|j: int| 0 <= j < appended.len() && appended[j] == r.entries[k];
    if j < t.entries.len() {
        assert(appended[j] == t.entries[j]);
        assert(entry_has(t.entries[j], id));
    }
}

proof fn lemma_log_delta_ids(ls: Seq<TableLogModel>, c: ChangeLogDeltaModel, id: u64)
    requires
        logs_have(apply_log_delta(ls, c), id),
    ensures
        logs_have(ls, id) || log_delta_adds(c, id),
{
    let with_table = if !crate::apply::has_log(ls, c.table_id) && c.new_log is Some {
        ls.push(TableLogModel { table_id: c.table_id, entries: Seq::empty() })
    } else {
        ls
    };
    let r = apply_log_delta(ls, c);
    let t = choose|t: int| 0 <= t < r.len() && log_has(#[trigger] r[t], id);
    let base = with_table[t];
    if base.table_id == c.table_id {
        lemma_update_log_ids(base, c, id);
    }
    if log_has(base, id) {
        if t < ls.len() {
            assert(base == ls[t]);
            assert(logs_have(ls, id));
        } else {
            let k = choose|k: int| 0 <= k < base.entries.len() && entry_has(#[trigger] base.entries[k], id);
            assert(false);
        }
    }
}

proof fn lemma_log_deltas_ids(ls: Seq<TableLogModel>, cs: Seq<ChangeLogDeltaModel>, id: u64)
    requires
        logs_have(apply_log_deltas(ls, cs), id),
    ensures
        logs_have(ls, id) || exists|x: int| 0 <= x < cs.len() && log_delta_adds(#[trigger] cs[x], id),
    decreases cs.len(),
{
    if cs.len() > 0 {
        let prev = apply_log_deltas(ls, cs.drop_last());
        lemma_log_delta_ids(prev, cs.last(), id);
        if logs_have(prev, id) {
            lemma_log_deltas_ids(ls, cs.drop_last(), id);
            if !logs_have(ls, id) {
                let x = choose|x: int| 0 <= x < cs.drop_last().len() && log_delta_adds(#[trigger] cs.drop_last()[x], id);
                assert(log_delta_adds(cs[x], id));
            }
        } else {
            assert(log_delta_adds(cs[cs.len() - 1], id));
        }
    }
}

/// A delta adds no reference but the files it brings.
pub proof fn lemma_apply_delta_ids(v: VersionModel, d: DeltaModel, id: u64)
    requires
        version_ids(apply_delta(v, d)).contains(id),
    ensures
        version_ids(v).contains(id) || delta_ids(d).contains(id),
{
    let r = apply_delta(v, d);
    if groups_have(r.groups, id) {
        lemma_all_group_deltas_ids(v.groups, d.group_deltas, id);
        if groups_have(v.groups, id) {
            let g = choose|g: int| 0 <= g < v.groups.len() && group_has(#[trigger] v.groups[g], id);
            assert(version_ids(v).contains(id));
        } else {
            let (x, k) = choose|x: int, k: int|
                0 <= x < d.group_deltas.len() && 0 <= k < d.group_deltas[x].deltas.len() && group_delta_adds(#[trigger] d.group_deltas[x].deltas[k], id);
            assert(delta_ids(d).contains(id));
        }
    } else {
        let logs = apply_log_deltas(v.table_change_log, d.change_log_delta);
        let t = choose|t: int| 0 <= t < r.table_change_log.len() && log_has(#[trigger] r.table_change_log[t], id);
        lemma_filter_from(logs, log_kept(d.removed_table_ids), t);
        let j = choose|j: int| 0 <= j < logs.len() && logs[j] == r.table_change_log[t];
        assert(logs_have(logs, id));
        lemma_log_deltas_ids(v.table_change_log, d.change_log_delta, id);
        if logs_have(v.table_change_log, id) {
            let q = choose|q: int| 0 <= q < v.table_change_log.len() && log_has(#[trigger] v.table_change_log[q], id);
            assert(version_ids(v).contains(id));
        } else {
            let x = choose|x: int| 0 <= x < d.change_log_delta.len() && log_delta_adds(#[trigger] d.change_log_delta[x], id);
            assert(delta_ids(d).contains(id));
        }
    }
}

/// A replay references only files of its keyframe and files that its deltas add.
pub proof fn lemma_replay_ids(kf: VersionModel, ds: Seq<DeltaModel>, id: u64)
    requires
        replay(kf, ds) is Some,
        version_ids(replay(kf, ds)->Some_0).contains(id),
    ensures
        version_ids(kf).contains(id) || exists|x: int| 0 <= x < ds.len() && delta_ids(#[trigger] ds[x]).contains(id),
    decreases ds.len(),
{
    if ds.len() > 0 {
        let prev = replay(kf, ds.drop_last());
        let d = ds.last();
        let v = prev->Some_0;
        let moved = VersionModel { id: d.prev_id, ..v };
        assert(version_ids(moved) == version_ids(v));
        lemma_apply_delta_ids(moved, d, id);
        if version_ids(v).contains(id) {
            lemma_replay_ids(kf, ds.drop_last(), id);
            if !version_ids(kf).contains(id) {
                let x = choose|x: int| 0 <= x < ds.drop_last().len() && delta_ids(#[trigger] ds.drop_last()[x]).contains(id);
                assert(delta_ids(ds[x]).contains(id));
            }
        } else {
            assert(delta_ids(ds[ds.len() - 1]).contains(id));
        }
    }
}

} // verus!
