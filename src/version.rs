use vstd::prelude::*;

use crate::file_info::{FileInfo, FileModel, files_view};

verus! {

/// One tier: a sub-level of L0 (`level_idx == 0`) or a sorted level.
#[derive(Debug, PartialEq, Eq)]
pub struct Level {
    pub level_idx: u32,
    pub sub_level_id: u64,
    pub table_infos: Vec<FileInfo>,
}

pub ghost struct LevelModel {
    pub level_idx: u32,
    pub sub_level_id: u64,
    pub files: Seq<FileModel>,
}

impl View for Level {
    type V = LevelModel;

    open spec fn view(&self) -> LevelModel {
        LevelModel {
            level_idx: self.level_idx,
            sub_level_id: self.sub_level_id,
            files: files_view(self.table_infos@),
        }
    }
}

pub open spec fn levels_view(v: Seq<Level>) -> Seq<LevelModel> {
    v.map_values(|l: Level| l@)
}

/// The tiers of one compaction group: the overlapping L0 sub-levels and the sorted levels.
#[derive(Debug, PartialEq, Eq)]
pub struct GroupLevels {
    pub group_id: u64,
    pub l0: Vec<Level>,
    pub levels: Vec<Level>,
}

pub ghost struct GroupModel {
    pub group_id: u64,
    pub l0: Seq<LevelModel>,
    pub levels: Seq<LevelModel>,
}

impl View for GroupLevels {
    type V = GroupModel;

    open spec fn view(&self) -> GroupModel {
        GroupModel { group_id: self.group_id, l0: levels_view(self.l0@), levels: levels_view(self.levels@) }
    }
}

pub open spec fn groups_view(v: Seq<GroupLevels>) -> Seq<GroupModel> {
    v.map_values(|g: GroupLevels| g@)
}

/// One change-log record of a table: the files before and after, over a range of epochs.
#[derive(Debug, PartialEq, Eq)]
pub struct ChangeLogEntry {
    pub old_value: Vec<FileInfo>,
    pub new_value: Vec<FileInfo>,
    pub epochs: Vec<u64>,
}

pub ghost struct ChangeLogModel {
    pub old_value: Seq<FileModel>,
    pub new_value: Seq<FileModel>,
    pub epochs: Seq<u64>,
}

impl View for ChangeLogEntry {
    type V = ChangeLogModel;

    open spec fn view(&self) -> ChangeLogModel {
        ChangeLogModel {
            old_value: files_view(self.old_value@),
            new_value: files_view(self.new_value@),
            epochs: self.epochs@,
        }
    }
}

pub open spec fn entries_view(v: Seq<ChangeLogEntry>) -> Seq<ChangeLogModel> {
    v.map_values(|e: ChangeLogEntry| e@)
}

/// The change log of one table.
#[derive(Debug, PartialEq, Eq)]
pub struct TableChangeLog {
    pub table_id: u32,
    pub entries: Vec<ChangeLogEntry>,
}

pub ghost struct TableLogModel {
    pub table_id: u32,
    pub entries: Seq<ChangeLogModel>,
}

impl View for TableChangeLog {
    type V = TableLogModel;

    open spec fn view(&self) -> TableLogModel {
        TableLogModel { table_id: self.table_id, entries: entries_view(self.entries@) }
    }
}

pub open spec fn logs_view(v: Seq<TableChangeLog>) -> Seq<TableLogModel> {
    v.map_values(|t: TableChangeLog| t@)
}

/// The watermark of one table.
#[derive(Clone, Copy, PartialEq, Eq, Structural, Debug)]
pub struct TableWatermark {
    pub table_id: u32,
    pub watermark: u64,
}

/// Per-table state: the epoch committed for it and the group that holds it.
#[derive(Clone, Copy, PartialEq, Eq, Structural, Debug)]
pub struct StateTableInfo {
    pub table_id: u32,
    pub committed_epoch: u64,
    pub compaction_group_id: u64,
}

/// A complete snapshot of the referenced-file graph at one instant.
#[derive(Debug, PartialEq, Eq)]
pub struct Version {
    pub id: u64,
    pub groups: Vec<GroupLevels>,
    pub max_committed_epoch: u64,
    pub safe_epoch: u64,
    pub table_watermarks: Vec<TableWatermark>,
    pub table_change_log: Vec<TableChangeLog>,
    pub state_table_info: Vec<StateTableInfo>,
}

pub ghost struct VersionModel {
    pub id: u64,
    pub groups: Seq<GroupModel>,
    pub max_committed_epoch: u64,
    pub safe_epoch: u64,
    pub table_watermarks: Seq<TableWatermark>,
    pub table_change_log: Seq<TableLogModel>,
    pub state_table_info: Seq<StateTableInfo>,
}

impl View for Version {
    type V = VersionModel;

    open spec fn view(&self) -> VersionModel {
        VersionModel {
            id: self.id,
            groups: groups_view(self.groups@),
            max_committed_epoch: self.max_committed_epoch,
            safe_epoch: self.safe_epoch,
            table_watermarks: self.table_watermarks@,
            table_change_log: logs_view(self.table_change_log@),
            state_table_info: self.state_table_info@,
        }
    }
}

/// File insertions and removals on one tier of a group.
#[derive(Debug, PartialEq, Eq)]
pub struct IntraLevelDelta {
    pub level_idx: u32,
    pub l0_sub_level_id: u64,
    pub removed_table_ids: Vec<u64>,
    pub inserted_table_infos: Vec<FileInfo>,
}

pub ghost struct IntraLevelModel {
    pub level_idx: u32,
    pub l0_sub_level_id: u64,
    pub removed: Seq<u64>,
    pub inserted: Seq<FileModel>,
}

impl View for IntraLevelDelta {
    type V = IntraLevelModel;

    open spec fn view(&self) -> IntraLevelModel {
        IntraLevelModel {
            level_idx: self.level_idx,
            l0_sub_level_id: self.l0_sub_level_id,
            removed: self.removed_table_ids@,
            inserted: files_view(self.inserted_table_infos@),
        }
    }
}

/// One change to a compaction group.
#[derive(Debug, PartialEq, Eq)]
pub enum GroupDelta {
    IntraLevel(IntraLevelDelta),
    /// Creates the group, if absent, with `max_level` empty sorted levels.
    GroupConstruct { max_level: u32 },
    GroupDestroy,
}

pub ghost enum GroupDeltaModel {
    IntraLevel(IntraLevelModel),
    GroupConstruct { max_level: u32 },
    GroupDestroy,
}

impl View for GroupDelta {
    type V = GroupDeltaModel;

    open spec fn view(&self) -> GroupDeltaModel {
        match self {
            GroupDelta::IntraLevel(d) => GroupDeltaModel::IntraLevel(d@),
            GroupDelta::GroupConstruct { max_level } => GroupDeltaModel::GroupConstruct {
                max_level: *max_level,
            },
            GroupDelta::GroupDestroy => GroupDeltaModel::GroupDestroy,
        }
    }
}

/// The changes of one delta to one compaction group, in order.
#[derive(Debug, PartialEq, Eq)]
pub struct GroupDeltas {
    pub group_id: u64,
    pub group_deltas: Vec<GroupDelta>,
}

pub ghost struct GroupDeltasModel {
    pub group_id: u64,
    pub deltas: Seq<GroupDeltaModel>,
}

impl View for GroupDeltas {
    type V = GroupDeltasModel;

    open spec fn view(&self) -> GroupDeltasModel {
        GroupDeltasModel {
            group_id: self.group_id,
            deltas: self.group_deltas@.map_values(|d: GroupDelta| d@),
        }
    }
}

/// A change to one table's change log: an optional new record, then a truncation.
#[derive(Debug, PartialEq, Eq)]
pub struct ChangeLogDelta {
    pub table_id: u32,
    pub new_log: Option<ChangeLogEntry>,
    pub truncate_epoch: u64,
}

pub ghost struct ChangeLogDeltaModel {
    pub table_id: u32,
    pub new_log: Option<ChangeLogModel>,
    pub truncate_epoch: u64,
}

impl View for ChangeLogDelta {
    type V = ChangeLogDeltaModel;

    open spec fn view(&self) -> ChangeLogDeltaModel {
        ChangeLogDeltaModel {
            table_id: self.table_id,
            new_log: match self.new_log {
                Some(e) => Some(e@),
                None => None,
            },
            truncate_epoch: self.truncate_epoch,
        }
    }
}

/// How the version `id` derives from the version `prev_id`.
#[derive(Debug, PartialEq, Eq)]
pub struct VersionDelta {
    pub id: u64,
    pub prev_id: u64,
    pub group_deltas: Vec<GroupDeltas>,
    pub max_committed_epoch: u64,
    pub safe_epoch: u64,
    pub trivial_move: bool,
    pub new_table_watermarks: Vec<TableWatermark>,
    pub removed_table_ids: Vec<u32>,
    pub change_log_delta: Vec<ChangeLogDelta>,
    pub state_table_info_delta: Vec<StateTableInfo>,
}

pub ghost struct DeltaModel {
    pub id: u64,
    pub prev_id: u64,
    pub group_deltas: Seq<GroupDeltasModel>,
    pub max_committed_epoch: u64,
    pub safe_epoch: u64,
    pub trivial_move: bool,
    pub new_table_watermarks: Seq<TableWatermark>,
    pub removed_table_ids: Seq<u32>,
    pub change_log_delta: Seq<ChangeLogDeltaModel>,
    pub state_table_info_delta: Seq<StateTableInfo>,
}

impl View for VersionDelta {
    type V = DeltaModel;

    open spec fn view(&self) -> DeltaModel {
        DeltaModel {
            id: self.id,
            prev_id: self.prev_id,
            group_deltas: self.group_deltas@.map_values(|g: GroupDeltas| g@),
            max_committed_epoch: self.max_committed_epoch,
            safe_epoch: self.safe_epoch,
            trivial_move: self.trivial_move,
            new_table_watermarks: self.new_table_watermarks@,
            removed_table_ids: self.removed_table_ids@,
            change_log_delta: self.change_log_delta@.map_values(|c: ChangeLogDelta| c@),
            state_table_info_delta: self.state_table_info_delta@,
        }
    }
}

} // verus!
