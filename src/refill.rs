use vstd::prelude::*;

use std::collections::HashMap;

use crate::file_info::{FileInfo, FileModel, files_recorded, ids_of_files, ids_present, refill_files, strip_files};
use crate::strip::{
    entry_has, group_has, levels_have, levels_recorded, log_has, refill_entry, refill_group,
    refill_level_model, refill_levels, refill_log, refill_version_model, strip_entry, strip_group,
    strip_level, strip_levels, strip_log, strip_version, version_ids, version_recorded,
};
use crate::version::{Level, LevelModel, TableChangeLog, TableLogModel, Version, VersionModel};

verus! {

broadcast use vstd::std_specs::hash::group_hash_axioms;

/// What a map from file id to full record holds, as mathematics.
pub open spec fn registry_view(m: HashMap<u64, FileInfo>) -> Map<u64, FileModel> {
    m@.map_values(|f: FileInfo| f@)
}

/// Replaces a placeholder by the full record that `sst_id_to_info` holds under its id.
pub fn refill_sstable_info(sstable_info: &mut FileInfo, sst_id_to_info: &HashMap<u64, FileInfo>)
    requires
        sst_id_to_info@.contains_key(old(sstable_info).sst_id),
    ensures
        final(sstable_info)@ == registry_view(*sst_id_to_info)[old(sstable_info).sst_id],
{
    let id = sstable_info.sst_id;
    match sst_id_to_info.get(&id) {
        Some(info) => {
            *sstable_info = info.duplicate();
        },
        None => {},
    }
}

fn refill_file_list(files: &mut Vec<FileInfo>, sst_id_to_info: &HashMap<u64, FileInfo>)
    requires
        ids_present(crate::file_info::files_view(old(files)@), registry_view(*sst_id_to_info)),
    ensures
        crate::file_info::files_view(final(files)@) == refill_files(
            crate::file_info::files_view(old(files)@),
            registry_view(*sst_id_to_info),
        ),
{
    let ghost reg = registry_view(*sst_id_to_info);
    let ghost orig = crate::file_info::files_view(files@);
    let mut i: usize = 0;
    while i < files.len()
        invariant
            i <= files@.len(),
            files@.len() == orig.len(),
            reg == registry_view(*sst_id_to_info),
            ids_present(orig, reg),
            forall|j: int| 0 <= j < i ==> (#[trigger] files@[j])@ == reg[orig[j].sst_id],
            forall|j: int| i <= j < files@.len() ==> (#[trigger] files@[j])@ == orig[j],
        decreases files@.len() - i,
    {
        assert(reg.contains_key(orig[i as int].sst_id));
        refill_sstable_info(&mut files[i], sst_id_to_info);
        i += 1;
    }
    assert(crate::file_info::files_view(files@) =~= refill_files(orig, reg));
}

/// Replaces every placeholder of `level` by its full record.
pub fn refill_level(level: &mut Level, sst_id_to_info: &HashMap<u64, FileInfo>)
    requires
        ids_present(old(level)@.files, registry_view(*sst_id_to_info)),
    ensures
        final(level)@ == refill_level_model(old(level)@, registry_view(*sst_id_to_info)),
{
    refill_file_list(&mut level.table_infos, sst_id_to_info);
}

pub open spec fn levels_present(ls: Seq<LevelModel>, reg: Map<u64, FileModel>) -> bool {
    forall|j: int| 0 <= j < ls.len() ==> ids_present((#[trigger] ls[j]).files, reg)
}

proof fn lemma_group_present(v: VersionModel, reg: Map<u64, FileModel>, g: int)
    requires
        version_ids(v).subset_of(reg.dom()),
        0 <= g < v.groups.len(),
    ensures
        levels_present(v.groups[g].l0, reg),
        levels_present(v.groups[g].levels, reg),
{
    let gm = v.groups[g];
    assert forall|j: int| 0 <= j < gm.l0.len() implies ids_present((#[trigger] gm.l0[j]).files, reg) by {
        assert forall|i: int| 0 <= i < gm.l0[j].files.len() implies reg.contains_key(
            (#[trigger] gm.l0[j].files[i]).sst_id,
        ) by {
            let id = gm.l0[j].files[i].sst_id;
            assert(ids_of_files(gm.l0[j].files).contains(id));
            assert(group_has(v.groups[g], id));
            assert(version_ids(v).contains(id));
        }
    }
    assert forall|j: int| 0 <= j < gm.levels.len() implies ids_present(
        (#[trigger] gm.levels[j]).files,
        reg,
    ) by {
        assert forall|i: int| 0 <= i < gm.levels[j].files.len() implies reg.contains_key(
            (#[trigger] gm.levels[j].files[i]).sst_id,
        ) by {
            let id = gm.levels[j].files[i].sst_id;
            assert(ids_of_files(gm.levels[j].files).contains(id));
            assert(group_has(v.groups[g], id));
            assert(version_ids(v).contains(id));
        }
    }
}

proof fn lemma_log_present(v: VersionModel, reg: Map<u64, FileModel>, t: int)
    requires
        version_ids(v).subset_of(reg.dom()),
        0 <= t < v.table_change_log.len(),
    ensures
        forall|k: int|
            0 <= k < v.table_change_log[t].entries.len() ==> ids_present(
                (#[trigger] v.table_change_log[t].entries[k]).old_value,
                reg,
            ) && ids_present(v.table_change_log[t].entries[k].new_value, reg),
{
    let tl = v.table_change_log[t];
    assert forall|k: int| 0 <= k < tl.entries.len() implies ids_present(
        (#[trigger] tl.entries[k]).old_value,
        reg,
    ) && ids_present(tl.entries[k].new_value, reg) by {
        let e = tl.entries[k];
        assert forall|i: int| 0 <= i < e.old_value.len() implies reg.contains_key(
            (#[trigger] e.old_value[i]).sst_id,
        ) by {
            let id = e.old_value[i].sst_id;
            assert(ids_of_files(e.old_value).contains(id));
            assert(entry_has(tl.entries[k], id));
            assert(log_has(v.table_change_log[t], id));
            assert(version_ids(v).contains(id));
        }
        assert forall|i: int| 0 <= i < e.new_value.len() implies reg.contains_key(
            (#[trigger] e.new_value[i]).sst_id,
        ) by {
            let id = e.new_value[i].sst_id;
            assert(ids_of_files(e.new_value).contains(id));
            assert(entry_has(tl.entries[k], id));
            assert(log_has(v.table_change_log[t], id));
            assert(version_ids(v).contains(id));
        }
    }
}

fn refill_level_list(ls: &mut Vec<Level>, sst_id_to_info: &HashMap<u64, FileInfo>)
    requires
        levels_present(crate::version::levels_view(old(ls)@), registry_view(*sst_id_to_info)),
    ensures
        crate::version::levels_view(final(ls)@) == refill_levels(
            crate::version::levels_view(old(ls)@),
            registry_view(*sst_id_to_info),
        ),
{
    let ghost reg = registry_view(*sst_id_to_info);
    let ghost orig = crate::version::levels_view(ls@);
    let mut j: usize = 0;
    while j < ls.len()
        invariant
            j <= ls@.len(),
            ls@.len() == orig.len(),
            reg == registry_view(*sst_id_to_info),
            levels_present(orig, reg),
            forall|k: int| 0 <= k < j ==> (#[trigger] ls@[k])@ == refill_level_model(orig[k], reg),
            forall|k: int| j <= k < ls@.len() ==> (#[trigger] ls@[k])@ == orig[k],
        decreases ls@.len() - j,
    {
        assert(ids_present(orig[j as int].files, reg));
        refill_level(&mut ls[j], sst_id_to_info);
        j += 1;
    }
    assert(crate::version::levels_view(ls@) =~= refill_levels(orig, reg));
}

/// Replaces every placeholder of a table's change log by its full record.
pub fn refill_table_change_log(
    table_change_log: &mut TableChangeLog,
    sst_id_to_info: &HashMap<u64, FileInfo>,
)
    requires
        forall|k: int|
            0 <= k < old(table_change_log)@.entries.len() ==> ids_present(
                (#[trigger] old(table_change_log)@.entries[k]).old_value,
                registry_view(*sst_id_to_info),
            ) && ids_present(
                old(table_change_log)@.entries[k].new_value,
                registry_view(*sst_id_to_info),
            ),
    ensures
        final(table_change_log)@ == refill_log(
            old(table_change_log)@,
            registry_view(*sst_id_to_info),
        ),
{
    let ghost reg = registry_view(*sst_id_to_info);
    let ghost orig = table_change_log@;
    let mut k: usize = 0;
    while k < table_change_log.entries.len()
        invariant
            k <= table_change_log.entries@.len(),
            table_change_log.entries@.len() == orig.entries.len(),
            table_change_log.table_id == orig.table_id,
            reg == registry_view(*sst_id_to_info),
            forall|x: int|
                0 <= x < orig.entries.len() ==> ids_present((#[trigger] orig.entries[x]).old_value, reg)
                    && ids_present(orig.entries[x].new_value, reg),
            forall|x: int|
                0 <= x < k ==> (#[trigger] table_change_log.entries@[x])@ == refill_entry(
                    orig.entries[x],
                    reg,
                ),
            forall|x: int|
                k <= x < table_change_log.entries@.len() ==> (#[trigger] table_change_log.entries@[x])@
                    == orig.entries[x],
        decreases table_change_log.entries@.len() - k,
    {
        assert(ids_present(orig.entries[k as int].old_value, reg));
        let entry = &mut table_change_log.entries[k];
        refill_file_list(&mut entry.old_value, sst_id_to_info);
        refill_file_list(&mut entry.new_value, sst_id_to_info);
        k += 1;
    }
    assert(table_change_log@.entries =~= refill_log(orig, reg).entries);
}

/// Replaces every placeholder of `version`, in its tiers and its change logs, by the full
/// record held under its id.
pub fn refill_version(version: &mut Version, sst_id_to_info: &HashMap<u64, FileInfo>)
    requires
        version_ids(old(version)@).subset_of(registry_view(*sst_id_to_info).dom()),
    ensures
        final(version)@ == refill_version_model(old(version)@, registry_view(*sst_id_to_info)),
{
    let ghost reg = registry_view(*sst_id_to_info);
    let ghost orig = version@;
    let mut g: usize = 0;
    while g < version.groups.len()
        invariant
            g <= version.groups@.len(),
            version.groups@.len() == orig.groups.len(),
            version.table_change_log@ == old(version).table_change_log@,
            version.id == orig.id,
            version.max_committed_epoch == orig.max_committed_epoch,
            version.safe_epoch == orig.safe_epoch,
            version.table_watermarks@ == orig.table_watermarks,
            version.state_table_info@ == orig.state_table_info,
            orig == old(version)@,
            reg == registry_view(*sst_id_to_info),
            version_ids(orig).subset_of(reg.dom()),
            forall|x: int|
                0 <= x < g ==> (#[trigger] version.groups@[x])@ == refill_group(orig.groups[x], reg),
            forall|x: int| g <= x < version.groups@.len() ==> (#[trigger] version.groups@[x])@ == orig.groups[x],
        decreases version.groups@.len() - g,
    {
        proof {
            lemma_group_present(orig, reg, g as int);
        }
        let group = &mut version.groups[g];
        refill_level_list(&mut group.l0, sst_id_to_info);
        refill_level_list(&mut group.levels, sst_id_to_info);
        g += 1;
    }
    let mut t: usize = 0;
    while t < version.table_change_log.len()
        invariant
            t <= version.table_change_log@.len(),
            version.table_change_log@.len() == orig.table_change_log.len(),
            version.id == orig.id,
            version.max_committed_epoch == orig.max_committed_epoch,
            version.safe_epoch == orig.safe_epoch,
            version.table_watermarks@ == orig.table_watermarks,
            version.state_table_info@ == orig.state_table_info,
            reg == registry_view(*sst_id_to_info),
            version_ids(orig).subset_of(reg.dom()),
            forall|x: int|
                0 <= x < version.groups@.len() ==> (#[trigger] version.groups@[x])@ == refill_group(orig.groups[x], reg),
            version.groups@.len() == orig.groups.len(),
            forall|x: int|
                0 <= x < t ==> (#[trigger] version.table_change_log@[x])@ == refill_log(
                    orig.table_change_log[x],
                    reg,
                ),
            forall|x: int|
                t <= x < version.table_change_log@.len() ==> (#[trigger] version.table_change_log@[x])@
                    == orig.table_change_log[x],
        decreases version.table_change_log@.len() - t,
    {
        proof {
            lemma_log_present(orig, reg, t as int);
        }
        refill_table_change_log(&mut version.table_change_log[t], sst_id_to_info);
        t += 1;
    }
    assert(version@.groups =~= refill_version_model(orig, reg).groups);
    assert(version@.table_change_log =~= refill_version_model(orig, reg).table_change_log);
}

proof fn lemma_files_round_trip(fs: Seq<FileModel>, reg: Map<u64, FileModel>)
    requires
        files_recorded(fs, reg),
    ensures
        refill_files(strip_files(fs), reg) == fs,
        ids_present(strip_files(fs), reg),
{
    assert(refill_files(strip_files(fs), reg) =~= fs);
}

proof fn lemma_levels_round_trip(ls: Seq<LevelModel>, reg: Map<u64, FileModel>)
    requires
        levels_recorded(ls, reg),
    ensures
        refill_levels(strip_levels(ls), reg) == ls,
{
    assert forall|j: int| 0 <= j < ls.len() implies refill_level_model(
        strip_level(#[trigger] ls[j]),
        reg,
    ) == ls[j] by {
        lemma_files_round_trip(ls[j].files, reg);
    }
    assert(refill_levels(strip_levels(ls), reg) =~= ls);
}

proof fn lemma_log_round_trip(t: TableLogModel, reg: Map<u64, FileModel>)
    requires
        forall|k: int|
            0 <= k < t.entries.len() ==> files_recorded((#[trigger] t.entries[k]).old_value, reg)
                && files_recorded(t.entries[k].new_value, reg),
    ensures
        refill_log(strip_log(t), reg) == t,
{
    assert forall|k: int| 0 <= k < t.entries.len() implies refill_entry(
        strip_entry(#[trigger] t.entries[k]),
        reg,
    ) == t.entries[k] by {
        lemma_files_round_trip(t.entries[k].old_value, reg);
        lemma_files_round_trip(t.entries[k].new_value, reg);
    }
    assert(refill_log(strip_log(t), reg).entries =~= t.entries);
}

/// Stripping a version and refilling it from a registry that records every file of the
/// version, with the same content, gives back the version; and every id of the stripped
/// version is found in that registry.
pub proof fn lemma_refill_after_strip(v: VersionModel, reg: Map<u64, FileModel>)
    requires
        version_recorded(v, reg),
    ensures
        version_ids(strip_version(v)).subset_of(reg.dom()),
        refill_version_model(strip_version(v), reg) == v,
{
    let sv = strip_version(v);
    assert forall|g: int| 0 <= g < v.groups.len() implies refill_group(
        strip_group(#[trigger] v.groups[g]),
        reg,
    ) == v.groups[g] by {
        lemma_levels_round_trip(v.groups[g].l0, reg);
        lemma_levels_round_trip(v.groups[g].levels, reg);
    }
    assert forall|t: int| 0 <= t < v.table_change_log.len() implies refill_log(
        strip_log(#[trigger] v.table_change_log[t]),
        reg,
    ) == v.table_change_log[t] by {
        lemma_log_round_trip(v.table_change_log[t], reg);
    }
    assert(refill_version_model(sv, reg).groups =~= v.groups);
    assert(refill_version_model(sv, reg).table_change_log =~= v.table_change_log);
    assert forall|id: u64| version_ids(sv).contains(id) implies reg.contains_key(id) by {
        if exists|g: int| 0 <= g < sv.groups.len() && group_has(#[trigger] sv.groups[g], id) {
            let g = choose|g: int| 0 <= g < sv.groups.len() && group_has(#[trigger] sv.groups[g], id);
            if levels_have(sv.groups[g].l0, id) {
                let j = choose|j: int| 0 <= j < sv.groups[g].l0.len() && ids_of_files((#[trigger] sv.groups[g].l0[j]).files).contains(id);
                let i = choose|i: int| 0 <= i < sv.groups[g].l0[j].files.len() && (#[trigger] sv.groups[g].l0[j].files[i]).sst_id == id;
                assert(files_recorded(v.groups[g].l0[j].files, reg));
                assert(v.groups[g].l0[j].files[i].sst_id == id);
            } else {
                let j = choose|j: int| 0 <= j < sv.groups[g].levels.len() && ids_of_files((#[trigger] sv.groups[g].levels[j]).files).contains(id);
                let i = choose|i: int| 0 <= i < sv.groups[g].levels[j].files.len() && (#[trigger] sv.groups[g].levels[j].files[i]).sst_id == id;
                assert(files_recorded(v.groups[g].levels[j].files, reg));
                assert(v.groups[g].levels[j].files[i].sst_id == id);
            }
        } else {
            let t = choose|t: int| 0 <= t < sv.table_change_log.len() && log_has(#[trigger] sv.table_change_log[t], id);
            let k = choose|k: int| 0 <= k < sv.table_change_log[t].entries.len() && entry_has(#[trigger] sv.table_change_log[t].entries[k], id);
            let e = sv.table_change_log[t].entries[k];
            assert(files_recorded(v.table_change_log[t].entries[k].old_value, reg));
            assert(files_recorded(v.table_change_log[t].entries[k].new_value, reg));
            if ids_of_files(e.old_value).contains(id) {
                let i = choose|i: int| 0 <= i < e.old_value.len() && (#[trigger] e.old_value[i]).sst_id == id;
                assert(v.table_change_log[t].entries[k].old_value[i].sst_id == id);
            } else {
                let i = choose|i: int| 0 <= i < e.new_value.len() && (#[trigger] e.new_value[i]).sst_id == id;
                assert(v.table_change_log[t].entries[k].new_value[i].sst_id == id);
            }
        }
    }
}

} // verus!
