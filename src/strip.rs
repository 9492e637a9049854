use vstd::prelude::*;

use crate::file_info::{
    FileModel, copy_table_ids, files_recorded, ids_of_files, refill_files, strip_files,
    stripped_files,
};
use crate::version::{
    ChangeLogDelta, ChangeLogDeltaModel, ChangeLogEntry, GroupDelta, GroupDeltas, IntraLevelDelta,
    VersionDelta, ChangeLogModel, DeltaModel, GroupDeltaModel,
    GroupDeltasModel, GroupLevels, GroupModel, IntraLevelModel, Level, LevelModel, StateTableInfo,
    TableChangeLog, TableLogModel, TableWatermark, Version, VersionModel, levels_view,
};

verus! {

// ---- stripping, as mathematics ----

pub open spec fn strip_level(l: LevelModel) -> LevelModel {
    LevelModel { files: strip_files(l.files), ..l }
}

pub open spec fn strip_levels(ls: Seq<LevelModel>) -> Seq<LevelModel> {
    ls.map_values(|l: LevelModel| strip_level(l))
}

pub open spec fn strip_group(g: GroupModel) -> GroupModel {
    GroupModel { group_id: g.group_id, l0: strip_levels(g.l0), levels: strip_levels(g.levels) }
}

pub open spec fn strip_entry(e: ChangeLogModel) -> ChangeLogModel {
    ChangeLogModel {
        old_value: strip_files(e.old_value),
        new_value: strip_files(e.new_value),
        epochs: e.epochs,
    }
}

pub open spec fn strip_log(t: TableLogModel) -> TableLogModel {
    TableLogModel { table_id: t.table_id, entries: t.entries.map_values(|e: ChangeLogModel| strip_entry(e)) }
}

/// The persisted form of a version: every file reduced to its placeholder.
pub open spec fn strip_version(v: VersionModel) -> VersionModel {
    VersionModel {
        groups: v.groups.map_values(|g: GroupModel| strip_group(g)),
        table_change_log: v.table_change_log.map_values(|t: TableLogModel| strip_log(t)),
        ..v
    }
}

pub open spec fn strip_intra(d: IntraLevelModel) -> IntraLevelModel {
    IntraLevelModel { inserted: strip_files(d.inserted), ..d }
}

pub open spec fn strip_group_delta(d: GroupDeltaModel) -> GroupDeltaModel {
    match d {
        GroupDeltaModel::IntraLevel(l) => GroupDeltaModel::IntraLevel(strip_intra(l)),
        _ => d,
    }
}

pub open spec fn strip_group_deltas(d: GroupDeltasModel) -> GroupDeltasModel {
    GroupDeltasModel {
        group_id: d.group_id,
        deltas: d.deltas.map_values(|x: GroupDeltaModel| strip_group_delta(x)),
    }
}

pub open spec fn strip_log_delta(c: ChangeLogDeltaModel) -> ChangeLogDeltaModel {
    ChangeLogDeltaModel {
        table_id: c.table_id,
        new_log: match c.new_log {
            Some(e) => Some(strip_entry(e)),
            None => None,
        },
        truncate_epoch: c.truncate_epoch,
    }
}

/// The persisted form of a delta: every file reduced to its placeholder.
pub open spec fn strip_delta(d: DeltaModel) -> DeltaModel {
    DeltaModel {
        group_deltas: d.group_deltas.map_values(|g: GroupDeltasModel| strip_group_deltas(g)),
        change_log_delta: d.change_log_delta.map_values(
            |c: ChangeLogDeltaModel| strip_log_delta(c),
        ),
        ..d
    }
}

// ---- refilling, as mathematics ----

pub open spec fn refill_level_model(l: LevelModel, reg: Map<u64, FileModel>) -> LevelModel {
    LevelModel { files: refill_files(l.files, reg), ..l }
}

pub open spec fn refill_levels(ls: Seq<LevelModel>, reg: Map<u64, FileModel>) -> Seq<LevelModel> {
    ls.map_values(|l: LevelModel| refill_level_model(l, reg))
}

pub open spec fn refill_group(g: GroupModel, reg: Map<u64, FileModel>) -> GroupModel {
    GroupModel {
        group_id: g.group_id,
        l0: refill_levels(g.l0, reg),
        levels: refill_levels(g.levels, reg),
    }
}

pub open spec fn refill_entry(e: ChangeLogModel, reg: Map<u64, FileModel>) -> ChangeLogModel {
    ChangeLogModel {
        old_value: refill_files(e.old_value, reg),
        new_value: refill_files(e.new_value, reg),
        epochs: e.epochs,
    }
}

pub open spec fn refill_log(t: TableLogModel, reg: Map<u64, FileModel>) -> TableLogModel {
    TableLogModel {
        table_id: t.table_id,
        entries: t.entries.map_values(|e: ChangeLogModel| refill_entry(e, reg)),
    }
}

/// Every placeholder of `v` replaced by the record that `reg` holds under its id.
pub open spec fn refill_version_model(v: VersionModel, reg: Map<u64, FileModel>) -> VersionModel {
    VersionModel {
        groups: v.groups.map_values(|g: GroupModel| refill_group(g, reg)),
        table_change_log: v.table_change_log.map_values(|t: TableLogModel| refill_log(t, reg)),
        ..v
    }
}

// ---- the files a version references ----

pub open spec fn levels_have(ls: Seq<LevelModel>, id: u64) -> bool {
    exists|j: int| 0 <= j < ls.len() && ids_of_files((#[trigger] ls[j]).files).contains(id)
}

pub open spec fn group_has(g: GroupModel, id: u64) -> bool {
    levels_have(g.l0, id) || levels_have(g.levels, id)
}

pub open spec fn entry_has(e: ChangeLogModel, id: u64) -> bool {
    ids_of_files(e.old_value).contains(id) || ids_of_files(e.new_value).contains(id)
}

pub open spec fn log_has(t: TableLogModel, id: u64) -> bool {
    exists|k: int| 0 <= k < t.entries.len() && entry_has(#[trigger] t.entries[k], id)
}

/// The ids of all files that `v` references: in every tier and in every change log.
pub open spec fn version_ids(v: VersionModel) -> Set<u64> {
    Set::new(
        |id: u64|
            (exists|g: int| 0 <= g < v.groups.len() && group_has(#[trigger] v.groups[g], id)) || (
            exists|t: int|
                0 <= t < v.table_change_log.len() && log_has(#[trigger] v.table_change_log[t], id)),
    )
}

pub open spec fn levels_recorded(ls: Seq<LevelModel>, reg: Map<u64, FileModel>) -> bool {
    forall|j: int| 0 <= j < ls.len() ==> files_recorded((#[trigger] ls[j]).files, reg)
}

/// Every file that `v` references is recorded in `reg` with the same content.
pub open spec fn version_recorded(v: VersionModel, reg: Map<u64, FileModel>) -> bool {
    &&& forall|g: int|
        0 <= g < v.groups.len() ==> levels_recorded((#[trigger] v.groups[g]).l0, reg)
            && levels_recorded(v.groups[g].levels, reg)
    &&& forall|t: int, k: int|
        0 <= t < v.table_change_log.len() && 0 <= k < v.table_change_log[t].entries.len()
            ==> files_recorded((#[trigger] v.table_change_log[t].entries[k]).old_value, reg)
            && files_recorded(v.table_change_log[t].entries[k].new_value, reg)
}

// ---- stripping, in code ----

pub fn stripped_level(origin: &Level) -> (r: Level)
    ensures
        r@ == strip_level(origin@),
{
    Level {
        level_idx: origin.level_idx,
        sub_level_id: origin.sub_level_id,
        table_infos: stripped_files(&origin.table_infos),
    }
}

fn stripped_level_list(origin: &Vec<Level>) -> (r: Vec<Level>)
    ensures
        levels_view(r@) == strip_levels(levels_view(origin@)),
{
    let mut r: Vec<Level> = Vec::new();
    let mut i: usize = 0;
    while i < origin.len()
        invariant
            i <= origin@.len(),
            r@.len() == i,
            forall|j: int| 0 <= j < i ==> (#[trigger] r@[j])@ == strip_level(origin@[j]@),
        decreases origin@.len() - i,
    {
        r.push(stripped_level(&origin[i]));
        i += 1;
    }
    assert(levels_view(r@) =~= strip_levels(levels_view(origin@)));
    r
}

/// Strips the tiers of one group.
pub fn stripped_levels(origin: &GroupLevels) -> (r: GroupLevels)
    ensures
        r@ == strip_group(origin@),
{
    GroupLevels {
        group_id: origin.group_id,
        l0: stripped_level_list(&origin.l0),
        levels: stripped_level_list(&origin.levels),
    }
}

pub fn stripped_epoch_new_change_log(origin: &ChangeLogEntry) -> (r: ChangeLogEntry)
    ensures
        r@ == strip_entry(origin@),
{
    let mut epochs: Vec<u64> = Vec::new();
    let mut i: usize = 0;
    while i < origin.epochs.len()
        invariant
            i <= origin.epochs@.len(),
            epochs@ == origin.epochs@.subrange(0, i as int),
        decreases origin.epochs@.len() - i,
    {
        epochs.push(origin.epochs[i]);
        i += 1;
    }
    assert(epochs@ =~= origin.epochs@);
    ChangeLogEntry {
        old_value: stripped_files(&origin.old_value),
        new_value: stripped_files(&origin.new_value),
        epochs,
    }
}

fn stripped_table_change_log(origin: &TableChangeLog) -> (r: TableChangeLog)
    ensures
        r@ == strip_log(origin@),
{
    let mut entries: Vec<ChangeLogEntry> = Vec::new();
    let mut i: usize = 0;
    while i < origin.entries.len()
        invariant
            i <= origin.entries@.len(),
            entries@.len() == i,
            forall|j: int|
                0 <= j < i ==> (#[trigger] entries@[j])@ == strip_entry(origin.entries@[j]@),
        decreases origin.entries@.len() - i,
    {
        entries.push(stripped_epoch_new_change_log(&origin.entries[i]));
        i += 1;
    }
    let r = TableChangeLog { table_id: origin.table_id, entries };
    assert(r@.entries =~= strip_log(origin@).entries);
    r
}

fn copy_watermarks(v: &Vec<TableWatermark>) -> (r: Vec<TableWatermark>)
    ensures
        r@ == v@,
{
    let mut r: Vec<TableWatermark> = Vec::new();
    let mut i: usize = 0;
    while i < v.len()
        invariant
            i <= v@.len(),
            r@ == v@.subrange(0, i as int),
        decreases v@.len() - i,
    {
        r.push(v[i]);
        i += 1;
    }
    assert(r@ =~= v@);
    r
}

fn copy_state_infos(v: &Vec<StateTableInfo>) -> (r: Vec<StateTableInfo>)
    ensures
        r@ == v@,
{
    let mut r: Vec<StateTableInfo> = Vec::new();
    let mut i: usize = 0;
    while i < v.len()
        invariant
            i <= v@.len(),
            r@ == v@.subrange(0, i as int),
        decreases v@.len() - i,
    {
        r.push(v[i]);
        i += 1;
    }
    assert(r@ =~= v@);
    r
}

/// The persisted form of `version`.
pub fn stripped_version(version: &Version) -> (r: Version)
    ensures
        r@ == strip_version(version@),
{
    let mut groups: Vec<GroupLevels> = Vec::new();
    let mut i: usize = 0;
    while i < version.groups.len()
        invariant
            i <= version.groups@.len(),
            groups@.len() == i,
            forall|j: int|
                0 <= j < i ==> (#[trigger] groups@[j])@ == strip_group(version.groups@[j]@),
        decreases version.groups@.len() - i,
    {
        groups.push(stripped_levels(&version.groups[i]));
        i += 1;
    }
    let mut logs: Vec<TableChangeLog> = Vec::new();
    let mut i: usize = 0;
    while i < version.table_change_log.len()
        invariant
            i <= version.table_change_log@.len(),
            logs@.len() == i,
            forall|j: int|
                0 <= j < i ==> (#[trigger] logs@[j])@ == strip_log(
                    version.table_change_log@[j]@,
                ),
        decreases version.table_change_log@.len() - i,
    {
        logs.push(stripped_table_change_log(&version.table_change_log[i]));
        i += 1;
    }
    let r = Version {
        id: version.id,
        groups,
        max_committed_epoch: version.max_committed_epoch,
        safe_epoch: version.safe_epoch,
        table_watermarks: copy_watermarks(&version.table_watermarks),
        table_change_log: logs,
        state_table_info: copy_state_infos(&version.state_table_info),
    };
    assert(r@.groups =~= strip_version(version@).groups);
    assert(r@.table_change_log =~= strip_version(version@).table_change_log);
    r
}

fn copy_ids(v: &Vec<u64>) -> (r: Vec<u64>)
    ensures
        r@ == v@,
{
    let mut r: Vec<u64> = Vec::new();
    let mut i: usize = 0;
    while i < v.len()
        invariant
            i <= v@.len(),
            r@ == v@.subrange(0, i as int),
        decreases v@.len() - i,
    {
        r.push(v[i]);
        i += 1;
    }
    assert(r@ =~= v@);
    r
}

pub fn stripped_intra_level_delta(origin: &IntraLevelDelta) -> (r: IntraLevelDelta)
    ensures
        r@ == strip_intra(origin@),
{
    IntraLevelDelta {
        level_idx: origin.level_idx,
        l0_sub_level_id: origin.l0_sub_level_id,
        removed_table_ids: copy_ids(&origin.removed_table_ids),
        inserted_table_infos: stripped_files(&origin.inserted_table_infos),
    }
}

pub fn stripped_group_delta(origin: &GroupDelta) -> (r: GroupDelta)
    ensures
        r@ == strip_group_delta(origin@),
{
    match origin {
        GroupDelta::IntraLevel(l) => GroupDelta::IntraLevel(stripped_intra_level_delta(l)),
        GroupDelta::GroupConstruct { max_level } => GroupDelta::GroupConstruct {
            max_level: *max_level,
        },
        GroupDelta::GroupDestroy => GroupDelta::GroupDestroy,
    }
}

pub fn stripped_group_deltas(origin: &GroupDeltas) -> (r: GroupDeltas)
    ensures
        r@ == strip_group_deltas(origin@),
{
    let mut ds: Vec<GroupDelta> = Vec::new();
    let mut i: usize = 0;
    while i < origin.group_deltas.len()
        invariant
            i <= origin.group_deltas@.len(),
            ds@.len() == i,
            forall|j: int|
                0 <= j < i ==> (#[trigger] ds@[j])@ == strip_group_delta(
                    origin.group_deltas@[j]@,
                ),
        decreases origin.group_deltas@.len() - i,
    {
        ds.push(stripped_group_delta(&origin.group_deltas[i]));
        i += 1;
    }
    let r = GroupDeltas { group_id: origin.group_id, group_deltas: ds };
    assert(r@.deltas =~= strip_group_deltas(origin@).deltas);
    r
}

pub fn stripped_change_log_delta(origin: &ChangeLogDelta) -> (r: ChangeLogDelta)
    ensures
        r@ == strip_log_delta(origin@),
{
    let new_log = match &origin.new_log {
        Some(e) => Some(stripped_epoch_new_change_log(e)),
        None => None,
    };
    ChangeLogDelta { table_id: origin.table_id, new_log, truncate_epoch: origin.truncate_epoch }
}

/// The persisted form of `delta`.
pub fn stripped_version_delta(delta: &VersionDelta) -> (r: VersionDelta)
    ensures
        r@ == strip_delta(delta@),
{
    let mut gds: Vec<GroupDeltas> = Vec::new();
    let mut i: usize = 0;
    while i < delta.group_deltas.len()
        invariant
            i <= delta.group_deltas@.len(),
            gds@.len() == i,
            forall|j: int|
                0 <= j < i ==> (#[trigger] gds@[j])@ == strip_group_deltas(
                    delta.group_deltas@[j]@,
                ),
        decreases delta.group_deltas@.len() - i,
    {
        gds.push(stripped_group_deltas(&delta.group_deltas[i]));
        i += 1;
    }
    let mut cds: Vec<ChangeLogDelta> = Vec::new();
    let mut i: usize = 0;
    while i < delta.change_log_delta.len()
        invariant
            i <= delta.change_log_delta@.len(),
            cds@.len() == i,
            forall|j: int|
                0 <= j < i ==> (#[trigger] cds@[j])@ == strip_log_delta(
                    delta.change_log_delta@[j]@,
                ),
        decreases delta.change_log_delta@.len() - i,
    {
        cds.push(stripped_change_log_delta(&delta.change_log_delta[i]));
        i += 1;
    }
    let r = VersionDelta {
        id: delta.id,
        prev_id: delta.prev_id,
        group_deltas: gds,
        max_committed_epoch: delta.max_committed_epoch,
        safe_epoch: delta.safe_epoch,
        trivial_move: delta.trivial_move,
        new_table_watermarks: copy_watermarks(&delta.new_table_watermarks),
        removed_table_ids: copy_table_ids(&delta.removed_table_ids),
        change_log_delta: cds,
        state_table_info_delta: copy_state_infos(&delta.state_table_info_delta),
    };
    assert(r@.group_deltas =~= strip_delta(delta@).group_deltas);
    assert(r@.change_log_delta =~= strip_delta(delta@).change_log_delta);
    r
}

} // verus!
