use hummock_time_travel::archive::{EpochIndexEntry, HummockManager, TimeTravelError};
use hummock_time_travel::file_info::{stripped_sstable_info, FileInfo};
use hummock_time_travel::ids::{get_sst_ids, newly_added_sst_ids};
use hummock_time_travel::refill::refill_version;
use hummock_time_travel::registry::{fetch_batches, SstableRegistry};
use hummock_time_travel::strip::{stripped_version, stripped_version_delta};
use hummock_time_travel::apply::apply_version_delta;
use hummock_time_travel::version::{
    ChangeLogDelta, ChangeLogEntry, GroupDelta, GroupDeltas, GroupLevels, IntraLevelDelta, Level,
    StateTableInfo, TableChangeLog, TableWatermark, Version, VersionDelta,
};
use std::collections::HashMap;

fn file(id: u64) -> FileInfo {
    FileInfo {
        sst_id: id,
        object_id: id + 1000,
        file_size: id * 10,
        key_range_left: vec![b'a', id as u8],
        key_range_right: vec![b'z', id as u8],
        table_ids: vec![7, id as u32],
        min_epoch: 1,
        max_epoch: id + 5,
    }
}

fn version_with(id: u64, epoch: u64, files: &[u64]) -> Version {
    Version {
        id,
        groups: vec![GroupLevels {
            group_id: 2,
            l0: vec![],
            levels: vec![Level { level_idx: 1, sub_level_id: 0, table_infos: files.iter().map(|f| file(*f)).collect() }],
        }],
        max_committed_epoch: epoch,
        safe_epoch: 0,
        table_watermarks: vec![],
        table_change_log: vec![],
        state_table_info: vec![],
    }
}

fn delta(id: u64, prev_id: u64, epoch: u64, removed: &[u64], inserted: &[u64]) -> VersionDelta {
    let group_deltas = if removed.is_empty() && inserted.is_empty() {
        vec![]
    } else {
        vec![GroupDeltas {
            group_id: 2,
            group_deltas: vec![GroupDelta::IntraLevel(IntraLevelDelta {
                level_idx: 1,
                l0_sub_level_id: 0,
                removed_table_ids: removed.to_vec(),
                inserted_table_infos: inserted.iter().map(|f| file(*f)).collect(),
            })],
        }]
    };
    VersionDelta {
        id,
        prev_id,
        group_deltas,
        max_committed_epoch: epoch,
        safe_epoch: 0,
        trivial_move: false,
        new_table_watermarks: vec![],
        removed_table_ids: vec![],
        change_log_delta: vec![],
        state_table_info_delta: vec![],
    }
}

fn level_ids(v: &Version) -> Vec<u64> {
    v.groups[0].levels[0].table_infos.iter().map(|f| f.sst_id).collect()
}

fn scenario() -> HummockManager {
    let mut a = HummockManager::new(100);
    let v0 = version_with(1, 10, &[1, 2]);
    a.write_time_travel_metadata(Some(&v0), &delta(1, 0, 10, &[], &[]));
    a.write_time_travel_metadata(None, &delta(2, 1, 20, &[1], &[3]));
    a
}

#[test]
fn scenario_resolve_before_delta() {
    let a = scenario();
    let v = a.epoch_to_version(15).unwrap();
    assert_eq!(v, version_with(1, 10, &[1, 2]));
}

#[test]
fn scenario_resolve_after_delta() {
    let a = scenario();
    let v = a.epoch_to_version(25).unwrap();
    assert_eq!(v.id, 2);
    assert_eq!(v.max_committed_epoch, 20);
    assert_eq!(level_ids(&v), vec![2, 3]);
    assert_eq!(v.groups[0].levels[0].table_infos[1], file(3));
    assert_eq!(v.groups[0].levels[0].table_infos[0], file(2));
}

#[test]
fn scenario_truncate() {
    let mut a = scenario();
    a.truncate_time_travel_metadata(20);
    assert_eq!(a.epoch_index, vec![EpochIndexEntry { epoch: 20, version_id: 2 }]);
    assert!(a.registry.contains(2));
    assert!(a.registry.contains(3));
    assert_eq!(a.epoch_to_version(15), Err(TimeTravelError::VersionNotFound { epoch: 15 }));
    let v = a.epoch_to_version(25).unwrap();
    assert_eq!(level_ids(&v), vec![2, 3]);
}

#[test]
fn truncate_reclaims_below_anchor() {
    let mut a = HummockManager::new(100);
    a.write_time_travel_metadata(Some(&version_with(1, 10, &[1, 2])), &delta(1, 0, 10, &[], &[]));
    a.write_time_travel_metadata(None, &delta(2, 1, 20, &[1], &[3]));
    a.write_time_travel_metadata(None, &delta(3, 2, 30, &[3], &[4]));
    a.write_time_travel_metadata(Some(&version_with(4, 40, &[2, 4, 5])), &delta(4, 3, 40, &[], &[5]));
    a.write_time_travel_metadata(None, &delta(5, 4, 50, &[2], &[6]));
    let before = a.epoch_to_version(55).unwrap();
    a.truncate_time_travel_metadata(45);
    // Rows below epoch 45 are gone; the anchor is the keyframe of version 4.
    assert_eq!(a.epoch_index.len(), 1);
    assert_eq!(a.keyframes.len(), 1);
    assert_eq!(a.keyframes[0].id, 4);
    assert!(a.deltas.iter().all(|d| d.id >= 4));
    // Files 1 and 3 were dropped before the anchor and never came back.
    assert!(!a.registry.contains(1));
    assert!(!a.registry.contains(3));
    for id in [2, 4, 5, 6] {
        assert!(a.registry.contains(id));
    }
    assert_eq!(a.epoch_to_version(55).unwrap(), before);
    assert_eq!(level_ids(&before), vec![4, 5, 6]);
}

#[test]
fn truncate_without_old_rows_changes_nothing() {
    let mut a = scenario();
    a.truncate_time_travel_metadata(5);
    assert_eq!(a.epoch_index.len(), 2);
    assert_eq!(a.keyframes.len(), 1);
    assert_eq!(a.deltas.len(), 2);
}

#[test]
fn epochs_between_rows_resolve_to_the_earlier_row() {
    let a = scenario();
    let at10 = a.epoch_to_version(10).unwrap();
    for e in 10..20 {
        assert_eq!(a.epoch_to_version(e).unwrap(), at10);
    }
    assert_ne!(a.epoch_to_version(20).unwrap(), at10);
}

#[test]
fn resolve_before_history_is_not_found() {
    let a = scenario();
    assert_eq!(a.epoch_to_version(9), Err(TimeTravelError::VersionNotFound { epoch: 9 }));
}

#[test]
fn resolve_without_keyframe_fails() {
    let mut a = HummockManager::new(100);
    a.write_time_travel_metadata(None, &delta(3, 2, 10, &[], &[1]));
    assert_eq!(
        a.epoch_to_version(10),
        Err(TimeTravelError::NoReplayVersion { epoch: 10, version_id: 3 })
    );
}

#[test]
fn resolve_with_broken_chain_fails() {
    let mut a = HummockManager::new(100);
    a.write_time_travel_metadata(Some(&version_with(5, 10, &[1])), &delta(5, 4, 10, &[], &[]));
    a.write_time_travel_metadata(None, &delta(6, 3, 20, &[], &[2]));
    assert_eq!(
        a.epoch_to_version(20),
        Err(TimeTravelError::BrokenDeltaChain { version_id: 6, delta_id: 6 })
    );
}

#[test]
fn resolve_with_missing_file_fails() {
    let mut a = HummockManager::new(100);
    let v = version_with(1, 10, &[1, 2]);
    a.epoch_index.push(EpochIndexEntry { epoch: 10, version_id: 1 });
    a.keyframes.push(stripped_version(&v));
    a.registry.insert(&file(1));
    assert_eq!(
        a.epoch_to_version(10),
        Err(TimeTravelError::MissingFileInfo { epoch: 10, version_id: 1 })
    );
}

#[test]
fn gaps_in_the_delta_log_are_advanced_over() {
    let mut a = HummockManager::new(100);
    a.write_time_travel_metadata(Some(&version_with(1, 10, &[1])), &delta(1, 0, 10, &[], &[]));
    // Versions 2 and 3 were compaction-only and left no delta.
    a.write_time_travel_metadata(None, &delta(4, 3, 20, &[], &[2]));
    a.epoch_index.push(EpochIndexEntry { epoch: 30, version_id: 6 });
    let v = a.epoch_to_version(25).unwrap();
    assert_eq!(v.id, 4);
    assert_eq!(level_ids(&v), vec![1, 2]);
    let v = a.epoch_to_version(30).unwrap();
    assert_eq!(v.id, 6);
    assert_eq!(level_ids(&v), vec![1, 2]);
}

#[test]
fn batch_fetch_boundary() {
    let ids: Vec<u64> = vec![11, 12, 13, 14, 15];
    let batches = fetch_batches(&ids, 2);
    assert_eq!(batches, vec![vec![11, 12], vec![13, 14], vec![15]]);
    let mut a = HummockManager::new(2);
    a.write_time_travel_metadata(Some(&version_with(1, 10, &ids)), &delta(1, 0, 10, &[], &[]));
    let v = a.epoch_to_version(10).unwrap();
    assert_eq!(v, version_with(1, 10, &ids));
}

#[test]
fn batch_counts() {
    assert_eq!(fetch_batches(&vec![], 3).len(), 0);
    assert_eq!(fetch_batches(&vec![1, 2, 3], 3).len(), 1);
    assert_eq!(fetch_batches(&vec![1, 2, 3, 4], 3).len(), 2);
    assert_eq!(fetch_batches(&vec![1, 2, 3, 4, 5, 6, 7], 1).len(), 7);
}

#[test]
fn registry_insert_is_idempotent() {
    let mut once = SstableRegistry::new();
    once.insert(&file(1));
    let mut twice = SstableRegistry::new();
    twice.insert(&file(1));
    let mut changed = file(1);
    changed.file_size = 999;
    twice.insert(&changed);
    twice.insert(&file(1));
    let a = once.get_many(&vec![1], 10);
    let b = twice.get_many(&vec![1], 10);
    assert_eq!(a, b);
    assert_eq!(b.get(&1), Some(&file(1)));
}

#[test]
fn registry_get_many_and_delete_many() {
    let mut r = SstableRegistry::new();
    for id in 1..=5 {
        r.insert(&file(id));
    }
    let got = r.get_many(&vec![2, 4, 9], 1);
    assert_eq!(got.len(), 2);
    assert_eq!(got.get(&4), Some(&file(4)));
    r.delete_many(&vec![2, 4, 9, 4]);
    assert!(!r.contains(2));
    assert!(!r.contains(4));
    assert!(r.contains(1) && r.contains(3) && r.contains(5));
}

fn rich_version() -> Version {
    Version {
        id: 9,
        groups: vec![GroupLevels {
            group_id: 3,
            l0: vec![Level { level_idx: 0, sub_level_id: 77, table_infos: vec![file(21), file(22)] }],
            levels: vec![
                Level { level_idx: 1, sub_level_id: 0, table_infos: vec![file(23)] },
                Level { level_idx: 2, sub_level_id: 0, table_infos: vec![] },
            ],
        }],
        max_committed_epoch: 900,
        safe_epoch: 800,
        table_watermarks: vec![TableWatermark { table_id: 5, watermark: 44 }],
        table_change_log: vec![TableChangeLog {
            table_id: 5,
            entries: vec![ChangeLogEntry { old_value: vec![file(24)], new_value: vec![file(21)], epochs: vec![880, 890] }],
        }],
        state_table_info: vec![StateTableInfo { table_id: 5, committed_epoch: 900, compaction_group_id: 3 }],
    }
}

#[test]
fn strip_then_refill_round_trip() {
    let v = rich_version();
    let mut s = stripped_version(&v);
    assert_ne!(s, v);
    assert_eq!(s.groups[0].l0[0].table_infos[0], stripped_sstable_info(&file(21)));
    assert_eq!(s.groups[0].l0[0].table_infos[0].object_id, 0);
    let mut reg: HashMap<u64, FileInfo> = HashMap::new();
    for id in 21..=24 {
        reg.insert(id, file(id));
    }
    refill_version(&mut s, &reg);
    assert_eq!(s, v);
}

#[test]
fn sst_ids_are_distinct_and_complete() {
    let v = rich_version();
    let mut ids = get_sst_ids(&v);
    ids.sort();
    assert_eq!(ids, vec![21, 22, 23, 24]);
}

#[test]
fn stripped_delta_keeps_ids_only() {
    let mut d = delta(2, 1, 20, &[1], &[3]);
    d.change_log_delta.push(ChangeLogDelta {
        table_id: 5,
        new_log: Some(ChangeLogEntry { old_value: vec![], new_value: vec![file(8)], epochs: vec![20] }),
        truncate_epoch: 0,
    });
    let s = stripped_version_delta(&d);
    assert_eq!(s.id, 2);
    assert_eq!(s.prev_id, 1);
    match &s.group_deltas[0].group_deltas[0] {
        GroupDelta::IntraLevel(x) => {
            assert_eq!(x.removed_table_ids, vec![1]);
            assert_eq!(x.inserted_table_infos[0].sst_id, 3);
            assert_eq!(x.inserted_table_infos[0].file_size, 0);
        }
        _ => panic!("expected an intra-level delta"),
    }
    let mut added = newly_added_sst_ids(&d);
    added.sort();
    assert_eq!(added, vec![3, 8]);
}

#[test]
fn apply_delta_updates_tiers_and_tables() {
    let mut v = rich_version();
    let d = VersionDelta {
        id: 10,
        prev_id: 9,
        group_deltas: vec![
            GroupDeltas {
                group_id: 3,
                group_deltas: vec![GroupDelta::IntraLevel(IntraLevelDelta {
                    level_idx: 0,
                    l0_sub_level_id: 78,
                    removed_table_ids: vec![22],
                    inserted_table_infos: vec![file(30)],
                })],
            },
            GroupDeltas { group_id: 4, group_deltas: vec![GroupDelta::GroupConstruct { max_level: 2 }] },
        ],
        max_committed_epoch: 1000,
        safe_epoch: 850,
        trivial_move: false,
        new_table_watermarks: vec![TableWatermark { table_id: 5, watermark: 50 }, TableWatermark { table_id: 6, watermark: 1 }],
        removed_table_ids: vec![6],
        change_log_delta: vec![ChangeLogDelta {
            table_id: 5,
            new_log: Some(ChangeLogEntry { old_value: vec![], new_value: vec![file(30)], epochs: vec![1000] }),
            truncate_epoch: 895,
        }],
        state_table_info_delta: vec![StateTableInfo { table_id: 5, committed_epoch: 1000, compaction_group_id: 3 }],
    };
    apply_version_delta(&mut v, &d);
    assert_eq!(v.id, 10);
    assert_eq!(v.max_committed_epoch, 1000);
    assert_eq!(v.safe_epoch, 850);
    let l0 = &v.groups[0].l0;
    assert_eq!(l0.len(), 2);
    assert_eq!(l0[0].table_infos, vec![file(21)]);
    assert_eq!(l0[1].sub_level_id, 78);
    assert_eq!(l0[1].table_infos, vec![file(30)]);
    assert_eq!(v.groups.len(), 2);
    assert_eq!(v.groups[1].group_id, 4);
    assert_eq!(v.groups[1].levels.len(), 2);
    assert_eq!(v.groups[1].levels[1].level_idx, 2);
    assert_eq!(v.table_watermarks, vec![TableWatermark { table_id: 5, watermark: 50 }]);
    assert_eq!(v.table_change_log[0].entries.len(), 1);
    assert_eq!(v.table_change_log[0].entries[0].epochs, vec![1000]);
    assert_eq!(v.state_table_info[0].committed_epoch, 1000);
}

#[test]
fn group_destroy_removes_the_group() {
    let mut v = rich_version();
    let mut d = delta(10, 9, 1000, &[], &[]);
    d.group_deltas.push(GroupDeltas { group_id: 3, group_deltas: vec![GroupDelta::GroupDestroy] });
    d.removed_table_ids.push(5);
    apply_version_delta(&mut v, &d);
    assert!(v.groups.is_empty());
    assert!(v.table_change_log.is_empty());
    assert!(v.table_watermarks.is_empty());
    assert!(v.state_table_info.is_empty());
}

#[test]
fn object_ids_of_kept_files() {
    let mut a = scenario();
    let mut ids = a.all_object_ids_in_time_travel();
    ids.sort();
    assert_eq!(ids, vec![1001, 1002, 1003]);
    a.registry.delete_many(&vec![2]);
    let mut ids = a.all_object_ids_in_time_travel();
    ids.sort();
    assert_eq!(ids, vec![1001, 1003]);
}
