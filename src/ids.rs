use vstd::prelude::*;

use std::collections::HashSet;

use crate::file_info::{FileInfo, files_view, ids_of_files};
use crate::strip::{entry_has, group_has, levels_have, log_has, version_ids};
use crate::version::{
    ChangeLogDeltaModel, ChangeLogEntry, DeltaModel, GroupDelta, GroupDeltaModel, GroupLevels, Level,
    TableChangeLog, Version, VersionDelta, levels_view,
};

verus! {

broadcast use vstd::std_specs::hash::group_hash_axioms;

/// `acc` lists, once each, exactly the ids in `seen`.
pub open spec fn distinct_ids(acc: Seq<u64>, seen: Set<u64>) -> bool {
    acc.no_duplicates() && acc.to_set() == seen
}

pub(crate) fn add_file_ids(files: &Vec<FileInfo>, acc: &mut Vec<u64>, seen: &mut HashSet<u64>)
    requires
        distinct_ids(old(acc)@, old(seen)@),
    ensures
        distinct_ids(final(acc)@, final(seen)@),
        forall|id: u64|
            #[trigger] final(seen)@.contains(id) <==> old(seen)@.contains(id) || ids_of_files(
                files_view(files@),
            ).contains(id),
{
    let ghost fs = files_view(files@);
    let ghost start = seen@;
    let mut i: usize = 0;
    while i < files.len()
        invariant
            i <= files@.len(),
            fs == files_view(files@),
            distinct_ids(acc@, seen@),
            forall|id: u64|
                #[trigger] seen@.contains(id) <==> start.contains(id) || exists|j: int|
                    0 <= j < i && (#[trigger] fs[j]).sst_id == id,
        decreases files@.len() - i,
    {
        let id = files[i].sst_id;
        if !seen.contains(&id) {
            proof {
                assert(!acc@.contains(id));
                assert(acc@.push(id).to_set() =~= acc@.to_set().insert(id)) by {
                    assert forall|x: u64| acc@.push(id).to_set().contains(x) implies acc@.to_set().insert(id).contains(x) by {
                        let k = choose|k: int| 0 <= k < acc@.push(id).len() && acc@.push(id)[k] == x;
                        if k < acc@.len() { assert(acc@[k] == x); }
                    }
                    assert forall|x: u64| acc@.to_set().insert(id).contains(x) implies acc@.push(id).to_set().contains(x) by {
                        if x == id { assert(acc@.push(id)[acc@.len() as int] == x); }
                        else {
                            let k = choose|k: int| 0 <= k < acc@.len() && acc@[k] == x;
                            assert(acc@.push(id)[k] == x);
                        }
                    }
                }
            }
            acc.push(id);
            seen.insert(id);
        }
        i += 1;
        assert forall|x: u64| #[trigger] seen@.contains(x) <==> start.contains(x) || exists|j: int|
                    0 <= j < i && (#[trigger] fs[j]).sst_id == x by {
            if x == id { assert(fs[i - 1].sst_id == x); }
        }
    }
}

fn add_level_ids(ls: &Vec<Level>, acc: &mut Vec<u64>, seen: &mut HashSet<u64>)
    requires
        distinct_ids(old(acc)@, old(seen)@),
    ensures
        distinct_ids(final(acc)@, final(seen)@),
        forall|id: u64|
            #[trigger] final(seen)@.contains(id) <==> old(seen)@.contains(id) || levels_have(
                levels_view(ls@),
                id,
            ),
{
    let ghost lv = levels_view(ls@);
    let ghost start = seen@;
    let mut i: usize = 0;
    while i < ls.len()
        invariant
            i <= ls@.len(),
            lv == levels_view(ls@),
            distinct_ids(acc@, seen@),
            forall|id: u64|
                #[trigger] seen@.contains(id) <==> start.contains(id) || exists|j: int|
                    0 <= j < i && ids_of_files((#[trigger] lv[j]).files).contains(id),
        decreases ls@.len() - i,
    {
        add_file_ids(&ls[i].table_infos, acc, seen);
        i += 1;
        assert forall|x: u64| #[trigger] seen@.contains(x) <==> start.contains(x) || exists|j: int|
                    0 <= j < i && ids_of_files((#[trigger] lv[j]).files).contains(x) by {
            if ids_of_files(lv[i - 1].files).contains(x) {}
        }
    }
}

fn add_log_ids(t: &TableChangeLog, acc: &mut Vec<u64>, seen: &mut HashSet<u64>)
    requires
        distinct_ids(old(acc)@, old(seen)@),
    ensures
        distinct_ids(final(acc)@, final(seen)@),
        forall|id: u64|
            #[trigger] final(seen)@.contains(id) <==> old(seen)@.contains(id) || log_has(t@, id),
{
    let ghost start = seen@;
    let mut k: usize = 0;
    while k < t.entries.len()
        invariant
            k <= t.entries@.len(),
            distinct_ids(acc@, seen@),
            forall|id: u64|
                #[trigger] seen@.contains(id) <==> start.contains(id) || exists|j: int|
                    0 <= j < k && entry_has((#[trigger] t@.entries[j]), id),
        decreases t.entries@.len() - k,
    {
        let e: &ChangeLogEntry = &t.entries[k];
        add_file_ids(&e.old_value, acc, seen);
        add_file_ids(&e.new_value, acc, seen);
        k += 1;
        assert forall|x: u64| #[trigger] seen@.contains(x) <==> start.contains(x) || exists|j: int|
                    0 <= j < k && entry_has((#[trigger] t@.entries[j]), x) by {
            if entry_has(t@.entries[k - 1], x) {}
        }
    }
}

/// The distinct ids of all files that `version` references, in its tiers and change logs.
pub fn get_sst_ids(version: &Version) -> (r: Vec<u64>)
    ensures
        r@.no_duplicates(),
        r@.to_set() == version_ids(version@),
{
    let mut acc: Vec<u64> = Vec::new();
    let mut seen: HashSet<u64> = HashSet::new();
    proof {
        assert(acc@.to_set() =~= seen@);
    }
    let ghost v = version@;
    let mut g: usize = 0;
    while g < version.groups.len()
        invariant
            g <= version.groups@.len(),
            v == version@,
            distinct_ids(acc@, seen@),
            forall|id: u64|
                #[trigger] seen@.contains(id) <==> exists|j: int|
                    0 <= j < g && group_has((#[trigger] v.groups[j]), id),
        decreases version.groups@.len() - g,
    {
        let grp: &GroupLevels = &version.groups[g];
        add_level_ids(&grp.l0, &mut acc, &mut seen);
        add_level_ids(&grp.levels, &mut acc, &mut seen);
        g += 1;
        assert forall|x: u64| #[trigger] seen@.contains(x) <==> exists|j: int|
                    0 <= j < g && group_has((#[trigger] v.groups[j]), x) by {
            if group_has(v.groups[g - 1], x) {}
        }
    }
    let mut t: usize = 0;
    while t < version.table_change_log.len()
        invariant
            t <= version.table_change_log@.len(),
            v == version@,
            distinct_ids(acc@, seen@),
            forall|id: u64|
                #[trigger] seen@.contains(id) <==> (exists|j: int|
                    0 <= j < v.groups.len() && group_has((#[trigger] v.groups[j]), id)) || exists|j: int|
                    0 <= j < t && log_has((#[trigger] v.table_change_log[j]), id),
        decreases version.table_change_log@.len() - t,
    {
        add_log_ids(&version.table_change_log[t], &mut acc, &mut seen);
        t += 1;
        assert forall|x: u64| #[trigger] seen@.contains(x) <==> (exists|j: int|
                    0 <= j < v.groups.len() && group_has((#[trigger] v.groups[j]), x)) || exists|j: int|
                    0 <= j < t && log_has((#[trigger] v.table_change_log[j]), x) by {
            if log_has(v.table_change_log[t - 1], x) {}
        }
    }
    assert(seen@ =~= version_ids(v));
    acc
}

/// `gd` inserts a file with id `id`.
pub open spec fn group_delta_adds(gd: GroupDeltaModel, id: u64) -> bool {
    match gd {
        GroupDeltaModel::IntraLevel(x) => ids_of_files(x.inserted).contains(id),
        _ => false,
    }
}

/// `c` brings a change-log record that references `id`.
pub open spec fn log_delta_adds(c: ChangeLogDeltaModel, id: u64) -> bool {
    match c.new_log {
        Some(e) => entry_has(e, id),
        None => false,
    }
}

/// The ids of the files that `d` adds: inserted into tiers or carried by new change-log
/// records.
pub open spec fn delta_ids(d: DeltaModel) -> Set<u64> {
    Set::new(
        |id: u64|
            (exists|g: int, k: int|
                0 <= g < d.group_deltas.len() && 0 <= k < d.group_deltas[g].deltas.len()
                    && group_delta_adds(#[trigger] d.group_deltas[g].deltas[k], id)) || (exists|c: int|
                0 <= c < d.change_log_delta.len() && log_delta_adds(#[trigger] d.change_log_delta[c], id)),
    )
}

/// The distinct ids of the files that `delta` adds.
pub fn newly_added_sst_ids(delta: &VersionDelta) -> (r: Vec<u64>)
    ensures
        r@.no_duplicates(),
        r@.to_set() == delta_ids(delta@),
{
    let ghost d = delta@;
    let mut acc: Vec<u64> = Vec::new();
    let mut seen: HashSet<u64> = HashSet::new();
    proof {
        assert(acc@.to_set() =~= seen@);
    }
    let mut g: usize = 0;
    while g < delta.group_deltas.len()
        invariant
            g <= delta.group_deltas@.len(),
            d == delta@,
            distinct_ids(acc@, seen@),
            forall|id: u64|
                #[trigger] seen@.contains(id) <==> exists|x: int, k: int|
                    0 <= x < g && 0 <= k < d.group_deltas[x].deltas.len() && group_delta_adds(
                        #[trigger] d.group_deltas[x].deltas[k],
                        id,
                    ),
        decreases delta.group_deltas@.len() - g,
    {
        let gds = &delta.group_deltas[g];
        let ghost start = seen@;
        let mut k: usize = 0;
        while k < gds.group_deltas.len()
            invariant
                k <= gds.group_deltas@.len(),
                d == delta@,
                gds == delta.group_deltas@[g as int],
                g < delta.group_deltas@.len(),
                distinct_ids(acc@, seen@),
                forall|id: u64|
                    #[trigger] seen@.contains(id) <==> start.contains(id) || exists|y: int|
                        0 <= y < k && group_delta_adds(#[trigger] d.group_deltas[g as int].deltas[y], id),
            decreases gds.group_deltas@.len() - k,
        {
            match &gds.group_deltas[k] {
                GroupDelta::IntraLevel(x) => {
                    add_file_ids(&x.inserted_table_infos, &mut acc, &mut seen);
                },
                _ => {},
            }
            k += 1;
            assert forall|id: u64| #[trigger] seen@.contains(id) <==> start.contains(id) || exists|y: int|
                0 <= y < k && group_delta_adds(#[trigger] d.group_deltas[g as int].deltas[y], id) by {
                if group_delta_adds(d.group_deltas[g as int].deltas[k - 1], id) {}
            }
        }
        g += 1;
        assert forall|id: u64| #[trigger] seen@.contains(id) <==> exists|x: int, k: int|
            0 <= x < g && 0 <= k < d.group_deltas[x].deltas.len() && group_delta_adds(
                #[trigger] d.group_deltas[x].deltas[k],
                id,
            ) by {
            if seen@.contains(id) && !start.contains(id) {
                let y = choose|y: int| 0 <= y < d.group_deltas[g - 1].deltas.len() && group_delta_adds(#[trigger] d.group_deltas[g - 1].deltas[y], id);
                assert(group_delta_adds(d.group_deltas[g - 1].deltas[y], id));
            }
            if exists|x: int, k: int|
                0 <= x < g && 0 <= k < d.group_deltas[x].deltas.len() && group_delta_adds(
                    #[trigger] d.group_deltas[x].deltas[k],
                    id,
                ) {
                let (x, y) = choose|x: int, k: int|
                    0 <= x < g && 0 <= k < d.group_deltas[x].deltas.len() && group_delta_adds(
                        #[trigger] d.group_deltas[x].deltas[k],
                        id,
                    );
                if x < g - 1 {
                    assert(start.contains(id));
                } else {
                    assert(group_delta_adds(d.group_deltas[g - 1].deltas[y], id));
                }
            }
        }
    }
    let mut c: usize = 0;
    while c < delta.change_log_delta.len()
        invariant
            c <= delta.change_log_delta@.len(),
            d == delta@,
            distinct_ids(acc@, seen@),
            forall|id: u64|
                #[trigger] seen@.contains(id) <==> (exists|x: int, k: int|
                    0 <= x < d.group_deltas.len() && 0 <= k < d.group_deltas[x].deltas.len()
                        && group_delta_adds(#[trigger] d.group_deltas[x].deltas[k], id)) || exists|y: int|
                    0 <= y < c && log_delta_adds(#[trigger] d.change_log_delta[y], id),
        decreases delta.change_log_delta@.len() - c,
    {
        match &delta.change_log_delta[c].new_log {
            Some(e) => {
                add_file_ids(&e.old_value, &mut acc, &mut seen);
                add_file_ids(&e.new_value, &mut acc, &mut seen);
            },
            None => {},
        }
        c += 1;
        assert forall|id: u64| #[trigger] seen@.contains(id) <==> (exists|x: int, k: int|
                    0 <= x < d.group_deltas.len() && 0 <= k < d.group_deltas[x].deltas.len()
                        && group_delta_adds(#[trigger] d.group_deltas[x].deltas[k], id)) || exists|y: int|
                    0 <= y < c && log_delta_adds(#[trigger] d.change_log_delta[y], id) by {
            if log_delta_adds(d.change_log_delta[c - 1], id) {}
        }
    }
    assert(seen@ =~= delta_ids(d));
    acc
}

} // verus!
