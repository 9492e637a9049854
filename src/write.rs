use vstd::prelude::*;

use crate::file_info::{files_view, ids_of_files};
use crate::ids::{delta_ids, group_delta_adds, log_delta_adds};
use crate::file_info::FileModel;
use crate::registry::{SstableRegistry, fresh_from, grows_by, lemma_fresh_trans, lemma_grows_trans};
use crate::strip::{entry_has, group_has, levels_have, log_has, version_ids};
use crate::version::{
    ChangeLogDeltaModel, DeltaModel, GroupDelta, GroupDeltaModel, Level, LevelModel, TableChangeLog,
    TableLogModel, Version, VersionDelta, VersionModel, levels_view,
};

verus! {

/// The file records held by a list of tiers.
pub open spec fn levels_files(ls: Seq<LevelModel>) -> Set<FileModel> {
    Set::new(|f: FileModel| exists|j: int| 0 <= j < ls.len() && (#[trigger] ls[j]).files.contains(f))
}

/// The file records held by a table's change log.
pub open spec fn log_files(t: TableLogModel) -> Set<FileModel> {
    Set::new(
        |f: FileModel|
            exists|k: int|
                0 <= k < t.entries.len() && ((#[trigger] t.entries[k]).old_value.contains(f)
                    || t.entries[k].new_value.contains(f)),
    )
}

/// The file records held by a version, in its tiers and change logs.
pub open spec fn version_files(v: VersionModel) -> Set<FileModel> {
    Set::new(
        |f: FileModel|
            (exists|g: int|
                0 <= g < v.groups.len() && (levels_files((#[trigger] v.groups[g]).l0).contains(f)
                    || levels_files(v.groups[g].levels).contains(f))) || (exists|t: int|
                0 <= t < v.table_change_log.len() && log_files(#[trigger] v.table_change_log[t]).contains(f)),
    )
}

pub open spec fn group_delta_files(gd: GroupDeltaModel) -> Set<FileModel> {
    match gd {
        GroupDeltaModel::IntraLevel(x) => x.inserted.to_set(),
        _ => Set::empty(),
    }
}

pub open spec fn log_delta_files(c: ChangeLogDeltaModel) -> Set<FileModel> {
    match c.new_log {
        Some(e) => e.old_value.to_set().union(e.new_value.to_set()),
        None => Set::empty(),
    }
}

/// The file records that a delta brings.
pub open spec fn delta_files(d: DeltaModel) -> Set<FileModel> {
    Set::new(
        |f: FileModel|
            (exists|x: int, k: int|
                0 <= x < d.group_deltas.len() && 0 <= k < d.group_deltas[x].deltas.len()
                    && group_delta_files(#[trigger] d.group_deltas[x].deltas[k]).contains(f)) || (exists|c: int|
                0 <= c < d.change_log_delta.len() && log_delta_files(#[trigger] d.change_log_delta[c]).contains(f)),
    )
}

fn register_level_list(reg: &mut SstableRegistry, ls: &Vec<Level>)
    ensures
        grows_by(old(reg)@, final(reg)@, Set::new(|id: u64| levels_have(levels_view(ls@), id))),
        fresh_from(old(reg)@, final(reg)@, levels_files(levels_view(ls@))),
{
    let ghost start = reg@;
    let ghost lv = levels_view(ls@);
    let mut i: usize = 0;
    proof {
        assert(Set::new(|f: FileModel| exists|q: int| 0 <= q < 0 && (#[trigger] lv[q]).files.contains(f)) =~= Set::<FileModel>::empty());
        assert(Set::new(|id: u64| exists|q: int| 0 <= q < 0 && ids_of_files((#[trigger] lv[q]).files).contains(id)) =~= Set::<u64>::empty());
        assert(reg@.dom() =~= start.dom().union(Set::<u64>::empty()));
    }
    while i < ls.len()
        invariant
            i <= ls@.len(),
            lv == levels_view(ls@),
            grows_by(start, reg@, Set::new(|id: u64| exists|q: int| 0 <= q < i && ids_of_files((#[trigger] lv[q]).files).contains(id))),
            fresh_from(start, reg@, Set::new(|f: FileModel| exists|q: int| 0 <= q < i && (#[trigger] lv[q]).files.contains(f))),
        decreases ls@.len() - i,
    {
        let ghost mid = reg@;
        reg.register_files(&ls[i].table_infos);
        proof {
            let s_old = Set::new(|id: u64| exists|q: int| 0 <= q < i && ids_of_files((#[trigger] lv[q]).files).contains(id));
            lemma_grows_trans(start, mid, reg@, s_old, ids_of_files(lv[i as int].files));
            let s_new = Set::new(|id: u64| exists|q: int| 0 <= q < i + 1 && ids_of_files((#[trigger] lv[q]).files).contains(id));
            assert(s_new =~= s_old.union(ids_of_files(lv[i as int].files)));
            let f_old = Set::new(|f: FileModel| exists|q: int| 0 <= q < i && (#[trigger] lv[q]).files.contains(f));
            lemma_fresh_trans(start, mid, reg@, f_old, lv[i as int].files.to_set(), ids_of_files(lv[i as int].files));
            let f_new = Set::new(|f: FileModel| exists|q: int| 0 <= q < i + 1 && (#[trigger] lv[q]).files.contains(f));
            assert(f_new =~= f_old.union(lv[i as int].files.to_set()));
        }
        i += 1;
    }
    assert(Set::new(|id: u64| exists|q: int| 0 <= q < ls@.len() && ids_of_files((#[trigger] lv[q]).files).contains(id)) =~= Set::new(|id: u64| levels_have(lv, id)));
    assert(Set::new(|f: FileModel| exists|q: int| 0 <= q < ls@.len() && (#[trigger] lv[q]).files.contains(f)) =~= levels_files(lv));
}

fn register_table_log(reg: &mut SstableRegistry, t: &TableChangeLog)
    ensures
        grows_by(old(reg)@, final(reg)@, Set::new(|id: u64| log_has(t@, id))),
        fresh_from(old(reg)@, final(reg)@, log_files(t@)),
{
    let ghost start = reg@;
    let ghost tv = t@;
    let mut k: usize = 0;
    proof {
        assert(Set::new(|f: FileModel| exists|q: int| 0 <= q < 0 && ((#[trigger] tv.entries[q]).old_value.contains(f) || tv.entries[q].new_value.contains(f))) =~= Set::<FileModel>::empty());
        assert(Set::new(|id: u64| exists|q: int| 0 <= q < 0 && entry_has(#[trigger] tv.entries[q], id)) =~= Set::<u64>::empty());
        assert(reg@.dom() =~= start.dom().union(Set::<u64>::empty()));
    }
    while k < t.entries.len()
        invariant
            k <= t.entries@.len(),
            tv == t@,
            grows_by(start, reg@, Set::new(|id: u64| exists|q: int| 0 <= q < k && entry_has(#[trigger] tv.entries[q], id))),
            fresh_from(start, reg@, Set::new(|f: FileModel| exists|q: int| 0 <= q < k && ((#[trigger] tv.entries[q]).old_value.contains(f) || tv.entries[q].new_value.contains(f)))),
        decreases t.entries@.len() - k,
    {
        let ghost mid = reg@;
        reg.register_files(&t.entries[k].old_value);
        let ghost mid2 = reg@;
        reg.register_files(&t.entries[k].new_value);
        proof {
            let e = tv.entries[k as int];
            let s_old = Set::new(|id: u64| exists|q: int| 0 <= q < k && entry_has(#[trigger] tv.entries[q], id));
            lemma_grows_trans(start, mid, mid2, s_old, ids_of_files(e.old_value));
            lemma_grows_trans(start, mid2, reg@, s_old.union(ids_of_files(e.old_value)), ids_of_files(e.new_value));
            let s_new = Set::new(|id: u64| exists|q: int| 0 <= q < k + 1 && entry_has(#[trigger] tv.entries[q], id));
            assert(s_new =~= s_old.union(ids_of_files(e.old_value)).union(ids_of_files(e.new_value)));
            let f_old = Set::new(|f: FileModel| exists|q: int| 0 <= q < k && ((#[trigger] tv.entries[q]).old_value.contains(f) || tv.entries[q].new_value.contains(f)));
            lemma_fresh_trans(start, mid, mid2, f_old, e.old_value.to_set(), ids_of_files(e.old_value));
            lemma_fresh_trans(start, mid2, reg@, f_old.union(e.old_value.to_set()), e.new_value.to_set(), ids_of_files(e.new_value));
            let f_new = Set::new(|f: FileModel| exists|q: int| 0 <= q < k + 1 && ((#[trigger] tv.entries[q]).old_value.contains(f) || tv.entries[q].new_value.contains(f)));
            assert(f_new =~= f_old.union(e.old_value.to_set()).union(e.new_value.to_set()));
        }
        k += 1;
    }
    assert(Set::new(|id: u64| exists|q: int| 0 <= q < t.entries@.len() && entry_has(#[trigger] tv.entries[q], id)) =~= Set::new(|id: u64| log_has(tv, id)));
    assert(Set::new(|f: FileModel| exists|q: int| 0 <= q < t.entries@.len() && ((#[trigger] tv.entries[q]).old_value.contains(f) || tv.entries[q].new_value.contains(f))) =~= log_files(tv));
}

/// Records every file that `version` references, keeping records already present.
pub fn register_version_files(reg: &mut SstableRegistry, version: &Version)
    ensures
        grows_by(old(reg)@, final(reg)@, version_ids(version@)),
        fresh_from(old(reg)@, final(reg)@, version_files(version@)),
{
    let ghost start = reg@;
    let ghost v = version@;
    let mut g: usize = 0;
    proof {
        assert(Set::new(|f: FileModel| exists|q: int| 0 <= q < 0 && (levels_files((#[trigger] v.groups[q]).l0).contains(f) || levels_files(v.groups[q].levels).contains(f))) =~= Set::<FileModel>::empty());
        assert(Set::new(|id: u64| exists|q: int| 0 <= q < 0 && group_has(#[trigger] v.groups[q], id)) =~= Set::<u64>::empty());
        assert(reg@.dom() =~= start.dom().union(Set::<u64>::empty()));
    }
    while g < version.groups.len()
        invariant
            g <= version.groups@.len(),
            v == version@,
            grows_by(start, reg@, Set::new(|id: u64| exists|q: int| 0 <= q < g && group_has(#[trigger] v.groups[q], id))),
            fresh_from(start, reg@, Set::new(|f: FileModel| exists|q: int| 0 <= q < g && (levels_files((#[trigger] v.groups[q]).l0).contains(f) || levels_files(v.groups[q].levels).contains(f)))),
        decreases version.groups@.len() - g,
    {
        let ghost mid = reg@;
        register_level_list(reg, &version.groups[g].l0);
        let ghost mid2 = reg@;
        register_level_list(reg, &version.groups[g].levels);
        proof {
            let gm = v.groups[g as int];
            let s_old = Set::new(|id: u64| exists|q: int| 0 <= q < g && group_has(#[trigger] v.groups[q], id));
            let a1 = Set::new(|id: u64| levels_have(gm.l0, id));
            let a2 = Set::new(|id: u64| levels_have(gm.levels, id));
            lemma_grows_trans(start, mid, mid2, s_old, a1);
            lemma_grows_trans(start, mid2, reg@, s_old.union(a1), a2);
            let s_new = Set::new(|id: u64| exists|q: int| 0 <= q < g + 1 && group_has(#[trigger] v.groups[q], id));
            assert(s_new =~= s_old.union(a1).union(a2));
            let f_old = Set::new(|f: FileModel| exists|q: int| 0 <= q < g && (levels_files((#[trigger] v.groups[q]).l0).contains(f) || levels_files(v.groups[q].levels).contains(f)));
            lemma_fresh_trans(start, mid, mid2, f_old, levels_files(gm.l0), a1);
            lemma_fresh_trans(start, mid2, reg@, f_old.union(levels_files(gm.l0)), levels_files(gm.levels), a2);
            let f_new = Set::new(|f: FileModel| exists|q: int| 0 <= q < g + 1 && (levels_files((#[trigger] v.groups[q]).l0).contains(f) || levels_files(v.groups[q].levels).contains(f)));
            assert(f_new =~= f_old.union(levels_files(gm.l0)).union(levels_files(gm.levels)));
        }
        g += 1;
    }
    let ghost s_groups = Set::new(|id: u64| exists|q: int| 0 <= q < v.groups.len() && group_has(#[trigger] v.groups[q], id));
    let ghost f_groups = Set::new(|f: FileModel| exists|q: int| 0 <= q < v.groups.len() && (levels_files((#[trigger] v.groups[q]).l0).contains(f) || levels_files(v.groups[q].levels).contains(f)));
    let ghost mid = reg@;
    let mut t: usize = 0;
    proof {
        assert(Set::new(|f: FileModel| exists|q: int| 0 <= q < 0 && log_files(#[trigger] v.table_change_log[q]).contains(f)) =~= Set::<FileModel>::empty());
        assert(Set::new(|id: u64| exists|q: int| 0 <= q < 0 && log_has(#[trigger] v.table_change_log[q], id)) =~= Set::<u64>::empty());
        assert(reg@.dom() =~= mid.dom().union(Set::<u64>::empty()));
    }
    while t < version.table_change_log.len()
        invariant
            t <= version.table_change_log@.len(),
            v == version@,
            grows_by(start, mid, s_groups),
            fresh_from(start, mid, f_groups),
            grows_by(mid, reg@, Set::new(|id: u64| exists|q: int| 0 <= q < t && log_has(#[trigger] v.table_change_log[q], id))),
            fresh_from(mid, reg@, Set::new(|f: FileModel| exists|q: int| 0 <= q < t && log_files(#[trigger] v.table_change_log[q]).contains(f))),
        decreases version.table_change_log@.len() - t,
    {
        let ghost before = reg@;
        register_table_log(reg, &version.table_change_log[t]);
        proof {
            let s_old = Set::new(|id: u64| exists|q: int| 0 <= q < t && log_has(#[trigger] v.table_change_log[q], id));
            let a1 = Set::new(|id: u64| log_has(v.table_change_log[t as int], id));
            lemma_grows_trans(mid, before, reg@, s_old, a1);
            let s_new = Set::new(|id: u64| exists|q: int| 0 <= q < t + 1 && log_has(#[trigger] v.table_change_log[q], id));
            assert(s_new =~= s_old.union(a1));
            let f_old = Set::new(|f: FileModel| exists|q: int| 0 <= q < t && log_files(#[trigger] v.table_change_log[q]).contains(f));
            lemma_fresh_trans(mid, before, reg@, f_old, log_files(v.table_change_log[t as int]), a1);
            let f_new = Set::new(|f: FileModel| exists|q: int| 0 <= q < t + 1 && log_files(#[trigger] v.table_change_log[q]).contains(f));
            assert(f_new =~= f_old.union(log_files(v.table_change_log[t as int])));
        }
        t += 1;
    }
    proof {
        let s_logs = Set::new(|id: u64| exists|q: int| 0 <= q < v.table_change_log.len() && log_has(#[trigger] v.table_change_log[q], id));
        lemma_grows_trans(start, mid, reg@, s_groups, s_logs);
        assert(s_groups.union(s_logs) =~= version_ids(v));
        let f_logs = Set::new(|f: FileModel| exists|q: int| 0 <= q < v.table_change_log.len() && log_files(#[trigger] v.table_change_log[q]).contains(f));
        lemma_fresh_trans(start, mid, reg@, f_groups, f_logs, s_logs);
        assert(f_groups.union(f_logs) =~= version_files(v));
    }
}

/// Records every file that `delta` adds, keeping records already present.
pub fn register_delta_files(reg: &mut SstableRegistry, delta: &VersionDelta)
    ensures
        grows_by(old(reg)@, final(reg)@, delta_ids(delta@)),
        fresh_from(old(reg)@, final(reg)@, delta_files(delta@)),
{
    let ghost start = reg@;
    let ghost d = delta@;
    let mut g: usize = 0;
    proof {
        assert(Set::new(|f: FileModel| exists|x: int, k: int| 0 <= x < 0 && 0 <= k < d.group_deltas[x].deltas.len() && group_delta_files(#[trigger] d.group_deltas[x].deltas[k]).contains(f)) =~= Set::<FileModel>::empty());
        assert(Set::new(|id: u64| exists|x: int, k: int| 0 <= x < 0 && 0 <= k < d.group_deltas[x].deltas.len() && group_delta_adds(#[trigger] d.group_deltas[x].deltas[k], id)) =~= Set::<u64>::empty());
        assert(reg@.dom() =~= start.dom().union(Set::<u64>::empty()));
    }
    while g < delta.group_deltas.len()
        invariant
            g <= delta.group_deltas@.len(),
            d == delta@,
            grows_by(start, reg@, Set::new(|id: u64| exists|x: int, k: int| 0 <= x < g && 0 <= k < d.group_deltas[x].deltas.len() && group_delta_adds(#[trigger] d.group_deltas[x].deltas[k], id))),
            fresh_from(start, reg@, Set::new(|f: FileModel| exists|x: int, k: int| 0 <= x < g && 0 <= k < d.group_deltas[x].deltas.len() && group_delta_files(#[trigger] d.group_deltas[x].deltas[k]).contains(f))),
        decreases delta.group_deltas@.len() - g,
    {
        let gds = &delta.group_deltas[g];
        let ghost mid = reg@;
        let mut k: usize = 0;
        proof {
            assert(Set::new(|f: FileModel| exists|y: int| 0 <= y < 0 && group_delta_files(#[trigger] d.group_deltas[g as int].deltas[y]).contains(f)) =~= Set::<FileModel>::empty());
            assert(Set::new(|id: u64| exists|y: int| 0 <= y < 0 && group_delta_adds(#[trigger] d.group_deltas[g as int].deltas[y], id)) =~= Set::<u64>::empty());
            assert(reg@.dom() =~= mid.dom().union(Set::<u64>::empty()));
        }
        while k < gds.group_deltas.len()
            invariant
                k <= gds.group_deltas@.len(),
                d == delta@,
                g < delta.group_deltas@.len(),
                gds == delta.group_deltas@[g as int],
                grows_by(mid, reg@, Set::new(|id: u64| exists|y: int| 0 <= y < k && group_delta_adds(#[trigger] d.group_deltas[g as int].deltas[y], id))),
                fresh_from(mid, reg@, Set::new(|f: FileModel| exists|y: int| 0 <= y < k && group_delta_files(#[trigger] d.group_deltas[g as int].deltas[y]).contains(f))),
            decreases gds.group_deltas@.len() - k,
        {
            let ghost before = reg@;
            let ghost s_old = Set::new(|id: u64| exists|y: int| 0 <= y < k && group_delta_adds(#[trigger] d.group_deltas[g as int].deltas[y], id));
            let ghost s_new = Set::new(|id: u64| exists|y: int| 0 <= y < k + 1 && group_delta_adds(#[trigger] d.group_deltas[g as int].deltas[y], id));
            let ghost f_old = Set::new(|f: FileModel| exists|y: int| 0 <= y < k && group_delta_files(#[trigger] d.group_deltas[g as int].deltas[y]).contains(f));
            let ghost f_new = Set::new(|f: FileModel| exists|y: int| 0 <= y < k + 1 && group_delta_files(#[trigger] d.group_deltas[g as int].deltas[y]).contains(f));
            match &gds.group_deltas[k] {
                GroupDelta::IntraLevel(x) => {
                    reg.register_files(&x.inserted_table_infos);
                    proof {
                        assert(d.group_deltas[g as int].deltas[k as int] == gds.group_deltas@[k as int]@);
                        assert(d.group_deltas[g as int].deltas[k as int] == crate::version::GroupDeltaModel::IntraLevel(x@));
                        lemma_grows_trans(mid, before, reg@, s_old, ids_of_files(files_view(x.inserted_table_infos@)));
                        assert(s_new =~= s_old.union(ids_of_files(files_view(x.inserted_table_infos@))));
                        lemma_fresh_trans(mid, before, reg@, f_old, files_view(x.inserted_table_infos@).to_set(), ids_of_files(files_view(x.inserted_table_infos@)));
                        assert(f_new =~= f_old.union(files_view(x.inserted_table_infos@).to_set()));
                    }
                },
                _ => {
                    proof {
                        assert(d.group_deltas[g as int].deltas[k as int] == gds.group_deltas@[k as int]@);
                        assert(s_new =~= s_old);
                        assert(f_new =~= f_old);
                    }
                },
            }
            k += 1;
        }
        proof {
            let s_old = Set::new(|id: u64| exists|x: int, k: int| 0 <= x < g && 0 <= k < d.group_deltas[x].deltas.len() && group_delta_adds(#[trigger] d.group_deltas[x].deltas[k], id));
            let a1 = Set::new(|id: u64| exists|y: int| 0 <= y < d.group_deltas[g as int].deltas.len() && group_delta_adds(#[trigger] d.group_deltas[g as int].deltas[y], id));
            lemma_grows_trans(start, mid, reg@, s_old, a1);
            let f_old = Set::new(|f: FileModel| exists|x: int, k: int| 0 <= x < g && 0 <= k < d.group_deltas[x].deltas.len() && group_delta_files(#[trigger] d.group_deltas[x].deltas[k]).contains(f));
            let b1 = Set::new(|f: FileModel| exists|y: int| 0 <= y < d.group_deltas[g as int].deltas.len() && group_delta_files(#[trigger] d.group_deltas[g as int].deltas[y]).contains(f));
            lemma_fresh_trans(start, mid, reg@, f_old, b1, a1);
            let f_new = Set::new(|f: FileModel| exists|x: int, k: int| 0 <= x < g + 1 && 0 <= k < d.group_deltas[x].deltas.len() && group_delta_files(#[trigger] d.group_deltas[x].deltas[k]).contains(f));
            assert forall|f: FileModel| f_new.contains(f) <==> f_old.union(b1).contains(f) by {
                if f_new.contains(f) {
                    let (x, y) = choose|x: int, k: int| 0 <= x < g + 1 && 0 <= k < d.group_deltas[x].deltas.len() && group_delta_files(#[trigger] d.group_deltas[x].deltas[k]).contains(f);
                    if x == g {
                        assert(b1.contains(f));
                    } else {
                        assert(f_old.contains(f));
                    }
                }
                if b1.contains(f) {
                    let y = choose|y: int| 0 <= y < d.group_deltas[g as int].deltas.len() && group_delta_files(#[trigger] d.group_deltas[g as int].deltas[y]).contains(f);
                    assert(group_delta_files(d.group_deltas[g as int].deltas[y]).contains(f));
                }
            }
            assert(f_new =~= f_old.union(b1));
            let s_new = Set::new(|id: u64| exists|x: int, k: int| 0 <= x < g + 1 && 0 <= k < d.group_deltas[x].deltas.len() && group_delta_adds(#[trigger] d.group_deltas[x].deltas[k], id));
            assert forall|id: u64| s_new.contains(id) <==> s_old.union(a1).contains(id) by {
                if s_new.contains(id) {
                    let (x, y) = choose|x: int, k: int| 0 <= x < g + 1 && 0 <= k < d.group_deltas[x].deltas.len() && group_delta_adds(#[trigger] d.group_deltas[x].deltas[k], id);
                    if x == g {
                        assert(a1.contains(id));
                    } else {
                        assert(s_old.contains(id));
                    }
                }
                if a1.contains(id) {
                    let y = choose|y: int| 0 <= y < d.group_deltas[g as int].deltas.len() && group_delta_adds(#[trigger] d.group_deltas[g as int].deltas[y], id);
                    assert(group_delta_adds(d.group_deltas[g as int].deltas[y], id));
                }
            }
            assert(s_new =~= s_old.union(a1));
        }
        g += 1;
    }
    let ghost s_groups = Set::new(|id: u64| exists|x: int, k: int| 0 <= x < d.group_deltas.len() && 0 <= k < d.group_deltas[x].deltas.len() && group_delta_adds(#[trigger] d.group_deltas[x].deltas[k], id));
    let ghost f_groups = Set::new(|f: FileModel| exists|x: int, k: int| 0 <= x < d.group_deltas.len() && 0 <= k < d.group_deltas[x].deltas.len() && group_delta_files(#[trigger] d.group_deltas[x].deltas[k]).contains(f));
    let ghost mid = reg@;
    let mut c: usize = 0;
    proof {
        assert(Set::new(|f: FileModel| exists|y: int| 0 <= y < 0 && log_delta_files(#[trigger] d.change_log_delta[y]).contains(f)) =~= Set::<FileModel>::empty());
        assert(Set::new(|id: u64| exists|y: int| 0 <= y < 0 && log_delta_adds(#[trigger] d.change_log_delta[y], id)) =~= Set::<u64>::empty());
        assert(reg@.dom() =~= mid.dom().union(Set::<u64>::empty()));
    }
    while c < delta.change_log_delta.len()
        invariant
            c <= delta.change_log_delta@.len(),
            d == delta@,
            grows_by(start, mid, s_groups),
            fresh_from(start, mid, f_groups),
            grows_by(mid, reg@, Set::new(|id: u64| exists|y: int| 0 <= y < c && log_delta_adds(#[trigger] d.change_log_delta[y], id))),
            fresh_from(mid, reg@, Set::new(|f: FileModel| exists|y: int| 0 <= y < c && log_delta_files(#[trigger] d.change_log_delta[y]).contains(f))),
        decreases delta.change_log_delta@.len() - c,
    {
        let ghost before = reg@;
        let ghost s_old = Set::new(|id: u64| exists|y: int| 0 <= y < c && log_delta_adds(#[trigger] d.change_log_delta[y], id));
        let ghost s_new = Set::new(|id: u64| exists|y: int| 0 <= y < c + 1 && log_delta_adds(#[trigger] d.change_log_delta[y], id));
        let ghost f_old = Set::new(|f: FileModel| exists|y: int| 0 <= y < c && log_delta_files(#[trigger] d.change_log_delta[y]).contains(f));
        let ghost f_new = Set::new(|f: FileModel| exists|y: int| 0 <= y < c + 1 && log_delta_files(#[trigger] d.change_log_delta[y]).contains(f));
        match &delta.change_log_delta[c].new_log {
            Some(e) => {
                reg.register_files(&e.old_value);
                let ghost mid2 = reg@;
                reg.register_files(&e.new_value);
                proof {
                    assert(d.change_log_delta[c as int] == delta.change_log_delta@[c as int]@);
                    assert(d.change_log_delta[c as int].new_log == Some(e@));
                    let o = ids_of_files(files_view(e.old_value@));
                    let n = ids_of_files(files_view(e.new_value@));
                    lemma_grows_trans(mid, before, mid2, s_old, o);
                    lemma_grows_trans(mid, mid2, reg@, s_old.union(o), n);
                    assert(s_new =~= s_old.union(o).union(n));
                    let fo = files_view(e.old_value@).to_set();
                    let fnw = files_view(e.new_value@).to_set();
                    lemma_fresh_trans(mid, before, mid2, f_old, fo, o);
                    lemma_fresh_trans(mid, mid2, reg@, f_old.union(fo), fnw, n);
                    assert(f_new =~= f_old.union(fo).union(fnw));
                }
            },
            None => {
                proof {
                    assert(d.change_log_delta[c as int] == delta.change_log_delta@[c as int]@);
                    assert(s_new =~= s_old);
                    assert(f_new =~= f_old);
                }
            },
        }
        c += 1;
    }
    proof {
        let s_logs = Set::new(|id: u64| exists|y: int| 0 <= y < d.change_log_delta.len() && log_delta_adds(#[trigger] d.change_log_delta[y], id));
        lemma_grows_trans(start, mid, reg@, s_groups, s_logs);
        assert(s_groups.union(s_logs) =~= delta_ids(d));
        let f_logs = Set::new(|f: FileModel| exists|y: int| 0 <= y < d.change_log_delta.len() && log_delta_files(#[trigger] d.change_log_delta[y]).contains(f));
        lemma_fresh_trans(start, mid, reg@, f_groups, f_logs, s_logs);
        assert(f_groups.union(f_logs) =~= delta_files(d));
    }
}

} // verus!
