use vstd::prelude::*;

use crate::file_info::{FileInfo, FileModel, files_view};
use crate::version::{
    ChangeLogDelta, ChangeLogEntry, GroupDelta, GroupDeltas, GroupLevels, IntraLevelDelta, Level,
    TableChangeLog, Version, VersionDelta, entries_view, groups_view, levels_view, logs_view,
    ChangeLogDeltaModel, ChangeLogModel, DeltaModel, GroupDeltaModel, GroupDeltasModel, GroupModel,
    IntraLevelModel, LevelModel, StateTableInfo, TableLogModel, TableWatermark, VersionModel,
};

verus! {

// ---- applying a delta, as mathematics ----

pub open spec fn not_removed(removed: Seq<u64>) -> spec_fn(FileModel) -> bool {
    |f: FileModel| !removed.contains(f.sst_id)
}

/// The files of a tier after removing `removed` and appending `inserted`.
pub open spec fn apply_files(
    files: Seq<FileModel>,
    removed: Seq<u64>,
    inserted: Seq<FileModel>,
) -> Seq<FileModel> {
    files.filter(not_removed(removed)) + inserted
}

pub open spec fn has_sub_level(l0: Seq<LevelModel>, sub_level_id: u64) -> bool {
    exists|j: int| 0 <= j < l0.len() && (#[trigger] l0[j]).sub_level_id == sub_level_id
}

pub open spec fn apply_sub_level(l: LevelModel, d: IntraLevelModel) -> LevelModel {
    if l.sub_level_id == d.l0_sub_level_id {
        LevelModel { files: apply_files(l.files, d.removed, d.inserted), ..l }
    } else {
        LevelModel { files: apply_files(l.files, d.removed, Seq::empty()), ..l }
    }
}

/// L0 after a delta on it: the removed files leave every sub-level, the inserted ones join
/// the sub-level `l0_sub_level_id`, which is appended if absent.
pub open spec fn apply_l0(l0: Seq<LevelModel>, d: IntraLevelModel) -> Seq<LevelModel> {
    let updated = l0.map_values(|l: LevelModel| apply_sub_level(l, d));
    if has_sub_level(l0, d.l0_sub_level_id) || d.inserted.len() == 0 {
        updated
    } else {
        updated.push(LevelModel { level_idx: 0, sub_level_id: d.l0_sub_level_id, files: d.inserted })
    }
}

pub open spec fn apply_sorted_level(l: LevelModel, d: IntraLevelModel) -> LevelModel {
    if l.level_idx == d.level_idx {
        LevelModel { files: apply_files(l.files, d.removed, d.inserted), ..l }
    } else {
        l
    }
}

pub open spec fn apply_intra(g: GroupModel, d: IntraLevelModel) -> GroupModel {
    if d.level_idx == 0 {
        GroupModel { l0: apply_l0(g.l0, d), ..g }
    } else {
        GroupModel { levels: g.levels.map_values(|l: LevelModel| apply_sorted_level(l, d)), ..g }
    }
}

pub open spec fn empty_level(i: int) -> LevelModel {
    LevelModel { level_idx: (i + 1) as u32, sub_level_id: 0, files: Seq::empty() }
}

pub open spec fn new_group(group_id: u64, max_level: u32) -> GroupModel {
    GroupModel {
        group_id,
        l0: Seq::empty(),
        levels: Seq::new(max_level as nat, |i: int| empty_level(i)),
    }
}

pub open spec fn is_first_group(groups: Seq<GroupModel>, group_id: u64, j: int) -> bool {
    &&& 0 <= j < groups.len()
    &&& groups[j].group_id == group_id
    &&& forall|k: int| 0 <= k < j ==> (#[trigger] groups[k]).group_id != group_id
}

pub open spec fn has_group(groups: Seq<GroupModel>, group_id: u64) -> bool {
    exists|j: int| 0 <= j < groups.len() && (#[trigger] groups[j]).group_id == group_id
}

/// The groups after one change to the group `group_id`.
pub open spec fn apply_group_delta(
    groups: Seq<GroupModel>,
    group_id: u64,
    d: GroupDeltaModel,
) -> Seq<GroupModel> {
    match d {
        GroupDeltaModel::IntraLevel(x) => groups.map_values(
            |g: GroupModel|
                if g.group_id == group_id {
                    apply_intra(g, x)
                } else {
                    g
                },
        ),
        GroupDeltaModel::GroupConstruct { max_level } => if has_group(groups, group_id) {
            groups
        } else {
            groups.push(new_group(group_id, max_level))
        },
        GroupDeltaModel::GroupDestroy => if has_group(groups, group_id) {
            groups.remove(choose|j: int| is_first_group(groups, group_id, j))
        } else {
            groups
        },
    }
}

pub open spec fn apply_group_delta_list(
    groups: Seq<GroupModel>,
    group_id: u64,
    ds: Seq<GroupDeltaModel>,
) -> Seq<GroupModel>
    decreases ds.len(),
{
    if ds.len() == 0 {
        groups
    } else {
        apply_group_delta(apply_group_delta_list(groups, group_id, ds.drop_last()), group_id, ds.last())
    }
}

pub open spec fn apply_all_group_deltas(
    groups: Seq<GroupModel>,
    gds: Seq<GroupDeltasModel>,
) -> Seq<GroupModel>
    decreases gds.len(),
{
    if gds.len() == 0 {
        groups
    } else {
        apply_group_delta_list(
            apply_all_group_deltas(groups, gds.drop_last()),
            gds.last().group_id,
            gds.last().deltas,
        )
    }
}

pub open spec fn upsert_watermark(ws: Seq<TableWatermark>, w: TableWatermark) -> Seq<TableWatermark> {
    if exists|j: int| 0 <= j < ws.len() && (#[trigger] ws[j]).table_id == w.table_id {
        ws.map_values(|x: TableWatermark| if x.table_id == w.table_id { w } else { x })
    } else {
        ws.push(w)
    }
}

pub open spec fn upsert_watermarks(ws: Seq<TableWatermark>, news: Seq<TableWatermark>) -> Seq<TableWatermark>
    decreases news.len(),
{
    if news.len() == 0 {
        ws
    } else {
        upsert_watermark(upsert_watermarks(ws, news.drop_last()), news.last())
    }
}

pub open spec fn upsert_state_info(ss: Seq<StateTableInfo>, s: StateTableInfo) -> Seq<StateTableInfo> {
    if exists|j: int| 0 <= j < ss.len() && (#[trigger] ss[j]).table_id == s.table_id {
        ss.map_values(|x: StateTableInfo| if x.table_id == s.table_id { s } else { x })
    } else {
        ss.push(s)
    }
}

pub open spec fn upsert_state_infos(ss: Seq<StateTableInfo>, news: Seq<StateTableInfo>) -> Seq<StateTableInfo>
    decreases news.len(),
{
    if news.len() == 0 {
        ss
    } else {
        upsert_state_info(upsert_state_infos(ss, news.drop_last()), news.last())
    }
}

/// A change-log record outlives a truncation at `epoch` if one of its epochs reaches it.
pub open spec fn entry_live(e: ChangeLogModel, epoch: u64) -> bool {
    exists|k: int| 0 <= k < e.epochs.len() && (#[trigger] e.epochs[k]) >= epoch
}

pub open spec fn live_at(epoch: u64) -> spec_fn(ChangeLogModel) -> bool {
    |e: ChangeLogModel| entry_live(e, epoch)
}

pub open spec fn has_log(logs: Seq<TableLogModel>, table_id: u32) -> bool {
    exists|j: int| 0 <= j < logs.len() && (#[trigger] logs[j]).table_id == table_id
}

pub open spec fn update_log(t: TableLogModel, c: ChangeLogDeltaModel) -> TableLogModel {
    let appended = match c.new_log {
        Some(e) => t.entries.push(e),
        None => t.entries,
    };
    TableLogModel { table_id: t.table_id, entries: appended.filter(live_at(c.truncate_epoch)) }
}

/// The change logs after one change-log delta: the table's log is created if a record
/// comes for it, the record appended, and records wholly before the truncation epoch dropped.
pub open spec fn apply_log_delta(logs: Seq<TableLogModel>, c: ChangeLogDeltaModel) -> Seq<TableLogModel> {
    let with_table = if !has_log(logs, c.table_id) && c.new_log is Some {
        logs.push(TableLogModel { table_id: c.table_id, entries: Seq::empty() })
    } else {
        logs
    };
    with_table.map_values(
        |t: TableLogModel|
            if t.table_id == c.table_id {
                update_log(t, c)
            } else {
                t
            },
    )
}

pub open spec fn apply_log_deltas(logs: Seq<TableLogModel>, cs: Seq<ChangeLogDeltaModel>) -> Seq<TableLogModel>
    decreases cs.len(),
{
    if cs.len() == 0 {
        logs
    } else {
        apply_log_delta(apply_log_deltas(logs, cs.drop_last()), cs.last())
    }
}

pub open spec fn watermark_kept(removed: Seq<u32>) -> spec_fn(TableWatermark) -> bool {
    |w: TableWatermark| !removed.contains(w.table_id)
}

pub open spec fn state_kept(removed: Seq<u32>) -> spec_fn(StateTableInfo) -> bool {
    |s: StateTableInfo| !removed.contains(s.table_id)
}

pub open spec fn log_kept(removed: Seq<u32>) -> spec_fn(TableLogModel) -> bool {
    |t: TableLogModel| !removed.contains(t.table_id)
}

/// The version that `d` derives from `v`.
pub open spec fn apply_delta(v: VersionModel, d: DeltaModel) -> VersionModel {
    VersionModel {
        id: d.id,
        groups: apply_all_group_deltas(v.groups, d.group_deltas),
        max_committed_epoch: d.max_committed_epoch,
        safe_epoch: d.safe_epoch,
        table_watermarks: upsert_watermarks(v.table_watermarks, d.new_table_watermarks).filter(
            watermark_kept(d.removed_table_ids),
        ),
        table_change_log: apply_log_deltas(v.table_change_log, d.change_log_delta).filter(
            log_kept(d.removed_table_ids),
        ),
        state_table_info: upsert_state_infos(v.state_table_info, d.state_table_info_delta).filter(
            state_kept(d.removed_table_ids),
        ),
    }
}

// ---- applying a delta, in code ----

pub(crate) proof fn lemma_filter_step<A>(s: Seq<A>, p: spec_fn(A) -> bool, i: int)
    requires
        0 <= i < s.len(),
    ensures
        s.subrange(0, i + 1).filter(p) == if p(s[i]) {
            s.subrange(0, i).filter(p).push(s[i])
        } else {
            s.subrange(0, i).filter(p)
        },
{
    reveal(Seq::filter);
    assert(s.subrange(0, i + 1).drop_last() =~= s.subrange(0, i));
}

fn contains_id(v: &Vec<u64>, x: u64) -> (r: bool)
    ensures
        r == v@.contains(x),
{
    let mut i: usize = 0;
    while i < v.len()
        invariant
            i <= v@.len(),
            forall|k: int| 0 <= k < i ==> v@[k] != x,
        decreases v@.len() - i,
    {
        if v[i] == x {
            return true;
        }
        i += 1;
    }
    false
}

fn contains_table(v: &Vec<u32>, x: u32) -> (r: bool)
    ensures
        r == v@.contains(x),
{
    let mut i: usize = 0;
    while i < v.len()
        invariant
            i <= v@.len(),
            forall|k: int| 0 <= k < i ==> v@[k] != x,
        decreases v@.len() - i,
    {
        if v[i] == x {
            return true;
        }
        i += 1;
    }
    false
}

fn kept_files(files: &Vec<FileInfo>, removed: &Vec<u64>) -> (r: Vec<FileInfo>)
    ensures
        files_view(r@) == files_view(files@).filter(not_removed(removed@)),
{
    let ghost s = files_view(files@);
    let mut r: Vec<FileInfo> = Vec::new();
    let mut i: usize = 0;
    while i < files.len()
        invariant
            i <= files@.len(),
            s == files_view(files@),
            files_view(r@) == s.subrange(0, i as int).filter(not_removed(removed@)),
        decreases files@.len() - i,
    {
        proof {
            lemma_filter_step(s, not_removed(removed@), i as int);
        }
        if !contains_id(removed, files[i].sst_id) {
            r.push(files[i].duplicate());
            assert(files_view(r@) =~= s.subrange(0, i + 1).filter(not_removed(removed@)));
        }
        i += 1;
    }
    assert(s.subrange(0, s.len() as int) =~= s);
    r
}

fn append_copies(dst: &mut Vec<FileInfo>, src: &Vec<FileInfo>)
    ensures
        files_view(final(dst)@) == files_view(old(dst)@) + files_view(src@),
{
    let ghost start = files_view(dst@);
    let mut i: usize = 0;
    while i < src.len()
        invariant
            i <= src@.len(),
            files_view(dst@) == start + files_view(src@).subrange(0, i as int),
        decreases src@.len() - i,
    {
        let ghost before = dst@;
        dst.push(src[i].duplicate());
        assert(files_view(dst@) =~= files_view(before).push(src@[i as int]@));
        assert(files_view(src@).subrange(0, i + 1) =~= files_view(src@).subrange(0, i as int).push(
            src@[i as int]@,
        ));
        i += 1;
        assert(files_view(dst@) =~= start + files_view(src@).subrange(0, i as int));
    }
    assert(files_view(src@).subrange(0, src@.len() as int) =~= files_view(src@));
}

fn copy_files(src: &Vec<FileInfo>) -> (r: Vec<FileInfo>)
    ensures
        files_view(r@) == files_view(src@),
{
    let mut r: Vec<FileInfo> = Vec::new();
    append_copies(&mut r, src);
    assert(files_view(r@) =~= files_view(src@));
    r
}

fn apply_intra_level_delta(g: &mut GroupLevels, d: &IntraLevelDelta)
    ensures
        final(g)@ == apply_intra(old(g)@, d@),
{
    let ghost orig = g@;
    if d.level_idx == 0 {
        let mut found = false;
        let mut j: usize = 0;
        while j < g.l0.len()
            invariant
                j <= g.l0@.len(),
                g.l0@.len() == orig.l0.len(),
                g.group_id == orig.group_id,
                levels_view(g.levels@) == orig.levels,
                found == exists|k: int| 0 <= k < j && (#[trigger] orig.l0[k]).sub_level_id == d.l0_sub_level_id,
                forall|k: int| 0 <= k < j ==> (#[trigger] g.l0@[k])@ == apply_sub_level(orig.l0[k], d@),
                forall|k: int| j <= k < g.l0@.len() ==> (#[trigger] g.l0@[k])@ == orig.l0[k],
            decreases g.l0@.len() - j,
        {
            let l: &mut Level = &mut g.l0[j];
            let mut nf = kept_files(&l.table_infos, &d.removed_table_ids);
            if l.sub_level_id == d.l0_sub_level_id {
                found = true;
                append_copies(&mut nf, &d.inserted_table_infos);
            } else {
                assert(files_view(nf@) =~= files_view(nf@) + Seq::<FileModel>::empty());
            }
            l.table_infos = nf;
            j += 1;
        }
        assert(levels_view(g.l0@) =~= orig.l0.map_values(|l: LevelModel| apply_sub_level(l, d@)));
        if !found && d.inserted_table_infos.len() > 0 {
            let nl = Level {
                level_idx: 0,
                sub_level_id: d.l0_sub_level_id,
                table_infos: copy_files(&d.inserted_table_infos),
            };
            g.l0.push(nl);
            assert(levels_view(g.l0@) =~= apply_l0(orig.l0, d@));
        }
    } else {
        let mut j: usize = 0;
        while j < g.levels.len()
            invariant
                j <= g.levels@.len(),
                g.levels@.len() == orig.levels.len(),
                g.group_id == orig.group_id,
                levels_view(g.l0@) == orig.l0,
                forall|k: int| 0 <= k < j ==> (#[trigger] g.levels@[k])@ == apply_sorted_level(orig.levels[k], d@),
                forall|k: int| j <= k < g.levels@.len() ==> (#[trigger] g.levels@[k])@ == orig.levels[k],
            decreases g.levels@.len() - j,
        {
            let l: &mut Level = &mut g.levels[j];
            if l.level_idx == d.level_idx {
                let mut nf = kept_files(&l.table_infos, &d.removed_table_ids);
                append_copies(&mut nf, &d.inserted_table_infos);
                l.table_infos = nf;
            }
            j += 1;
        }
        assert(levels_view(g.levels@) =~= orig.levels.map_values(|l: LevelModel| apply_sorted_level(l, d@)));
    }
}

fn new_group_levels(group_id: u64, max_level: u32) -> (r: GroupLevels)
    ensures
        r@ == new_group(group_id, max_level),
{
    let mut levels: Vec<Level> = Vec::new();
    let mut i: u32 = 0;
    while i < max_level
        invariant
            i <= max_level,
            levels@.len() == i,
            forall|k: int| 0 <= k < i ==> (#[trigger] levels@[k])@ == empty_level(k),
        decreases max_level - i,
    {
        levels.push(Level { level_idx: i + 1, sub_level_id: 0, table_infos: Vec::new() });
        proof {
            assert(levels@[i as int]@.files =~= Seq::<FileModel>::empty());
        }
        i += 1;
    }
    let r = GroupLevels { group_id, l0: Vec::new(), levels };
    assert(r@.levels =~= new_group(group_id, max_level).levels);
    assert(r@.l0 =~= new_group(group_id, max_level).l0);
    r
}

fn find_group(groups: &Vec<GroupLevels>, group_id: u64) -> (r: Option<usize>)
    ensures
        match r {
            Some(j) => is_first_group(groups_view(groups@), group_id, j as int),
            None => !has_group(groups_view(groups@), group_id),
        },
{
    let ghost gv = groups_view(groups@);
    let mut j: usize = 0;
    while j < groups.len()
        invariant
            j <= groups@.len(),
            gv == groups_view(groups@),
            forall|k: int| 0 <= k < j ==> (#[trigger] gv[k]).group_id != group_id,
        decreases groups@.len() - j,
    {
        if groups[j].group_id == group_id {
            return Some(j);
        }
        j += 1;
    }
    None
}

fn apply_one_group_delta(groups: &mut Vec<GroupLevels>, group_id: u64, d: &GroupDelta)
    ensures
        groups_view(final(groups)@) == apply_group_delta(groups_view(old(groups)@), group_id, d@),
{
    let ghost orig = groups_view(groups@);
    match d {
        GroupDelta::IntraLevel(x) => {
            let mut j: usize = 0;
            while j < groups.len()
                invariant
                    j <= groups@.len(),
                    groups@.len() == orig.len(),
                    forall|k: int| 0 <= k < j ==> (#[trigger] groups@[k])@ == (if orig[k].group_id == group_id { apply_intra(orig[k], x@) } else { orig[k] }),
                    forall|k: int| j <= k < groups@.len() ==> (#[trigger] groups@[k])@ == orig[k],
                decreases groups@.len() - j,
            {
                if groups[j].group_id == group_id {
                    apply_intra_level_delta(&mut groups[j], x);
                }
                j += 1;
            }
            assert(groups_view(groups@) =~= apply_group_delta(orig, group_id, d@));
        },
        GroupDelta::GroupConstruct { max_level } => {
            if find_group(groups, group_id).is_none() {
                groups.push(new_group_levels(group_id, *max_level));
                assert(groups_view(groups@) =~= orig.push(new_group(group_id, *max_level)));
            }
        },
        GroupDelta::GroupDestroy => {
            match find_group(groups, group_id) {
                Some(j) => {
                    proof {
                        let c = choose|c: int| is_first_group(orig, group_id, c);
                        assert(is_first_group(orig, group_id, j as int));
                        if c < j {
                            assert(orig[c].group_id != group_id);
                        }
                        if j < c {
                            assert(orig[j as int].group_id != group_id);
                        }
                        assert(c == j);
                    }
                    groups.remove(j);
                    assert(groups_view(groups@) =~= orig.remove(j as int));
                },
                None => {},
            }
        },
    }
}

fn apply_group_deltas(groups: &mut Vec<GroupLevels>, gds: &GroupDeltas)
    ensures
        groups_view(final(groups)@) == apply_group_delta_list(
            groups_view(old(groups)@),
            gds@.group_id,
            gds@.deltas,
        ),
{
    let ghost orig = groups_view(groups@);
    let ghost ds = gds@.deltas;
    let mut k: usize = 0;
    while k < gds.group_deltas.len()
        invariant
            k <= gds.group_deltas@.len(),
            ds == gds@.deltas,
            groups_view(groups@) == apply_group_delta_list(orig, gds.group_id, ds.subrange(0, k as int)),
        decreases gds.group_deltas@.len() - k,
    {
        apply_one_group_delta(groups, gds.group_id, &gds.group_deltas[k]);
        assert(ds.subrange(0, k + 1).drop_last() =~= ds.subrange(0, k as int));
        k += 1;
    }
    assert(ds.subrange(0, ds.len() as int) =~= ds);
}

fn apply_all(groups: &mut Vec<GroupLevels>, gds: &Vec<GroupDeltas>)
    ensures
        groups_view(final(groups)@) == apply_all_group_deltas(
            groups_view(old(groups)@),
            gds@.map_values(|g: GroupDeltas| g@),
        ),
{
    let ghost orig = groups_view(groups@);
    let ghost all = gds@.map_values(|g: GroupDeltas| g@);
    let mut k: usize = 0;
    while k < gds.len()
        invariant
            k <= gds@.len(),
            all == gds@.map_values(|g: GroupDeltas| g@),
            groups_view(groups@) == apply_all_group_deltas(orig, all.subrange(0, k as int)),
        decreases gds@.len() - k,
    {
        apply_group_deltas(groups, &gds[k]);
        assert(all.subrange(0, k + 1).drop_last() =~= all.subrange(0, k as int));
        k += 1;
    }
    assert(all.subrange(0, all.len() as int) =~= all);
}

fn upsert_watermark_exec(ws: &mut Vec<TableWatermark>, w: TableWatermark)
    ensures
        final(ws)@ == upsert_watermark(old(ws)@, w),
{
    let ghost orig = ws@;
    let mut found = false;
    let mut j: usize = 0;
    while j < ws.len()
        invariant
            j <= ws@.len(),
            ws@.len() == orig.len(),
            found == exists|k: int| 0 <= k < j && (#[trigger] orig[k]).table_id == w.table_id,
            forall|k: int| 0 <= k < j ==> (#[trigger] ws@[k]) == (if orig[k].table_id == w.table_id { w } else { orig[k] }),
            forall|k: int| j <= k < ws@.len() ==> (#[trigger] ws@[k]) == orig[k],
        decreases ws@.len() - j,
    {
        if ws[j].table_id == w.table_id {
            ws.set(j, w);
            found = true;
        }
        j += 1;
    }
    if !found {
        ws.push(w);
    }
    assert(ws@ =~= upsert_watermark(orig, w));
}

fn upsert_state_info_exec(ss: &mut Vec<StateTableInfo>, s: StateTableInfo)
    ensures
        final(ss)@ == upsert_state_info(old(ss)@, s),
{
    let ghost orig = ss@;
    let mut found = false;
    let mut j: usize = 0;
    while j < ss.len()
        invariant
            j <= ss@.len(),
            ss@.len() == orig.len(),
            found == exists|k: int| 0 <= k < j && (#[trigger] orig[k]).table_id == s.table_id,
            forall|k: int| 0 <= k < j ==> (#[trigger] ss@[k]) == (if orig[k].table_id == s.table_id { s } else { orig[k] }),
            forall|k: int| j <= k < ss@.len() ==> (#[trigger] ss@[k]) == orig[k],
        decreases ss@.len() - j,
    {
        if ss[j].table_id == s.table_id {
            ss.set(j, s);
            found = true;
        }
        j += 1;
    }
    if !found {
        ss.push(s);
    }
    assert(ss@ =~= upsert_state_info(orig, s));
}

fn kept_watermarks(ws: &Vec<TableWatermark>, removed: &Vec<u32>) -> (r: Vec<TableWatermark>)
    ensures
        r@ == ws@.filter(watermark_kept(removed@)),
{
    let mut r: Vec<TableWatermark> = Vec::new();
    let mut i: usize = 0;
    while i < ws.len()
        invariant
            i <= ws@.len(),
            r@ == ws@.subrange(0, i as int).filter(watermark_kept(removed@)),
        decreases ws@.len() - i,
    {
        proof {
            lemma_filter_step(ws@, watermark_kept(removed@), i as int);
        }
        if !contains_table(removed, ws[i].table_id) {
            r.push(ws[i]);
        }
        i += 1;
    }
    assert(ws@.subrange(0, ws@.len() as int) =~= ws@);
    r
}

fn kept_state_infos(ss: &Vec<StateTableInfo>, removed: &Vec<u32>) -> (r: Vec<StateTableInfo>)
    ensures
        r@ == ss@.filter(state_kept(removed@)),
{
    let mut r: Vec<StateTableInfo> = Vec::new();
    let mut i: usize = 0;
    while i < ss.len()
        invariant
            i <= ss@.len(),
            r@ == ss@.subrange(0, i as int).filter(state_kept(removed@)),
        decreases ss@.len() - i,
    {
        proof {
            lemma_filter_step(ss@, state_kept(removed@), i as int);
        }
        if !contains_table(removed, ss[i].table_id) {
            r.push(ss[i]);
        }
        i += 1;
    }
    assert(ss@.subrange(0, ss@.len() as int) =~= ss@);
    r
}

fn copy_entry(e: &ChangeLogEntry) -> (r: ChangeLogEntry)
    ensures
        r@ == e@,
{
    let mut epochs: Vec<u64> = Vec::new();
    let mut i: usize = 0;
    while i < e.epochs.len()
        invariant
            i <= e.epochs@.len(),
            epochs@ == e.epochs@.subrange(0, i as int),
        decreases e.epochs@.len() - i,
    {
        epochs.push(e.epochs[i]);
        i += 1;
    }
    assert(epochs@ =~= e.epochs@);
    ChangeLogEntry { old_value: copy_files(&e.old_value), new_value: copy_files(&e.new_value), epochs }
}

fn is_entry_live(e: &ChangeLogEntry, epoch: u64) -> (r: bool)
    ensures
        r == entry_live(e@, epoch),
{
    let mut i: usize = 0;
    while i < e.epochs.len()
        invariant
            i <= e.epochs@.len(),
            forall|k: int| 0 <= k < i ==> (#[trigger] e.epochs@[k]) < epoch,
        decreases e.epochs@.len() - i,
    {
        if e.epochs[i] >= epoch {
            assert(e@.epochs[i as int] >= epoch);
            return true;
        }
        i += 1;
    }
    false
}

fn update_table_change_log(t: &mut TableChangeLog, c: &ChangeLogDelta)
    ensures
        final(t)@ == update_log(old(t)@, c@),
{
    let ghost orig = t@;
    match &c.new_log {
        Some(e) => {
            t.entries.push(copy_entry(e));
        },
        None => {},
    }
    let ghost appended = entries_view(t.entries@);
    assert(appended =~= (match c@.new_log {
        Some(e) => orig.entries.push(e),
        None => orig.entries,
    }));
    let mut kept: Vec<ChangeLogEntry> = Vec::new();
    let mut i: usize = 0;
    while i < t.entries.len()
        invariant
            i <= t.entries@.len(),
            appended == entries_view(t.entries@),
            entries_view(kept@) == appended.subrange(0, i as int).filter(live_at(c.truncate_epoch)),
        decreases t.entries@.len() - i,
    {
        proof {
            lemma_filter_step(appended, live_at(c.truncate_epoch), i as int);
        }
        if is_entry_live(&t.entries[i], c.truncate_epoch) {
            let ghost before = kept@;
            kept.push(copy_entry(&t.entries[i]));
            assert(entries_view(kept@) =~= entries_view(before).push(appended[i as int]));
        }
        i += 1;
    }
    assert(appended.subrange(0, appended.len() as int) =~= appended);
    t.entries = kept;
}

fn apply_change_log_delta(logs: &mut Vec<TableChangeLog>, c: &ChangeLogDelta)
    ensures
        logs_view(final(logs)@) == apply_log_delta(logs_view(old(logs)@), c@),
{
    let ghost orig = logs_view(logs@);
    let mut present = false;
    let mut j: usize = 0;
    while j < logs.len()
        invariant
            j <= logs@.len(),
            orig == logs_view(logs@),
            present == exists|k: int| 0 <= k < j && (#[trigger] orig[k]).table_id == c.table_id,
        decreases logs@.len() - j,
    {
        assert(orig[j as int].table_id == logs@[j as int].table_id);
        if logs[j].table_id == c.table_id {
            present = true;
        }
        j += 1;
    }
    if !present && c.new_log.is_some() {
        let fresh = TableChangeLog { table_id: c.table_id, entries: Vec::new() };
        assert(fresh@.entries =~= Seq::<ChangeLogModel>::empty());
        logs.push(fresh);
        assert(logs_view(logs@) =~= orig.push(TableLogModel { table_id: c.table_id, entries: Seq::empty() }));
    }
    let ghost with_table = logs_view(logs@);
    let mut j: usize = 0;
    while j < logs.len()
        invariant
            j <= logs@.len(),
            logs@.len() == with_table.len(),
            forall|k: int| 0 <= k < j ==> (#[trigger] logs@[k])@ == (if with_table[k].table_id == c.table_id { update_log(with_table[k], c@) } else { with_table[k] }),
            forall|k: int| j <= k < logs@.len() ==> (#[trigger] logs@[k])@ == with_table[k],
        decreases logs@.len() - j,
    {
        if logs[j].table_id == c.table_id {
            update_table_change_log(&mut logs[j], c);
        }
        j += 1;
    }
    assert(logs_view(logs@) =~= apply_log_delta(orig, c@));
}

pub(crate) fn copy_table_log(t: &TableChangeLog) -> (r: TableChangeLog)
    ensures
        r@ == t@,
{
    let mut entries: Vec<ChangeLogEntry> = Vec::new();
    let mut i: usize = 0;
    while i < t.entries.len()
        invariant
            i <= t.entries@.len(),
            entries_view(entries@) == entries_view(t.entries@).subrange(0, i as int),
        decreases t.entries@.len() - i,
    {
        let ghost before = entries@;
        entries.push(copy_entry(&t.entries[i]));
        assert(entries_view(entries@) =~= entries_view(before).push(t.entries@[i as int]@));
        assert(entries_view(t.entries@).subrange(0, i + 1) =~= entries_view(t.entries@).subrange(0, i as int).push(t.entries@[i as int]@));
        i += 1;
    }
    assert(entries_view(t.entries@).subrange(0, t.entries@.len() as int) =~= entries_view(t.entries@));
    TableChangeLog { table_id: t.table_id, entries }
}

fn kept_logs(logs: &Vec<TableChangeLog>, removed: &Vec<u32>) -> (r: Vec<TableChangeLog>)
    ensures
        logs_view(r@) == logs_view(logs@).filter(log_kept(removed@)),
{
    let ghost s = logs_view(logs@);
    let mut r: Vec<TableChangeLog> = Vec::new();
    let mut i: usize = 0;
    while i < logs.len()
        invariant
            i <= logs@.len(),
            s == logs_view(logs@),
            logs_view(r@) == s.subrange(0, i as int).filter(log_kept(removed@)),
        decreases logs@.len() - i,
    {
        proof {
            lemma_filter_step(s, log_kept(removed@), i as int);
        }
        if !contains_table(removed, logs[i].table_id) {
            let ghost before = r@;
            r.push(copy_table_log(&logs[i]));
            assert(logs_view(r@) =~= logs_view(before).push(s[i as int]));
        }
        i += 1;
    }
    assert(s.subrange(0, s.len() as int) =~= s);
    r
}

/// Applies `delta` to `version`: its group changes in order, then its watermarks, change
/// logs and table states, and last the removal of dropped tables.
pub fn apply_version_delta(version: &mut Version, delta: &VersionDelta)
    ensures
        final(version)@ == apply_delta(old(version)@, delta@),
{
    let ghost orig = version@;
    apply_all(&mut version.groups, &delta.group_deltas);

    let ghost news = delta.new_table_watermarks@;
    assert(news.subrange(0, 0) =~= Seq::<TableWatermark>::empty());
    let mut k: usize = 0;
    while k < delta.new_table_watermarks.len()
        invariant
            k <= news.len(),
            news == delta.new_table_watermarks@,
            version.table_watermarks@ == upsert_watermarks(orig.table_watermarks, news.subrange(0, k as int)),
            groups_view(version.groups@) == apply_all_group_deltas(orig.groups, delta@.group_deltas),
            version.state_table_info@ == orig.state_table_info,
            logs_view(version.table_change_log@) == orig.table_change_log,
        decreases news.len() - k,
    {
        upsert_watermark_exec(&mut version.table_watermarks, delta.new_table_watermarks[k]);
        assert(news.subrange(0, k + 1).drop_last() =~= news.subrange(0, k as int));
        k += 1;
    }
    assert(news.subrange(0, news.len() as int) =~= news);

    let ghost infos = delta.state_table_info_delta@;
    assert(infos.subrange(0, 0) =~= Seq::<StateTableInfo>::empty());
    let mut k: usize = 0;
    while k < delta.state_table_info_delta.len()
        invariant
            k <= infos.len(),
            infos == delta.state_table_info_delta@,
            version.state_table_info@ == upsert_state_infos(orig.state_table_info, infos.subrange(0, k as int)),
            version.table_watermarks@ == upsert_watermarks(orig.table_watermarks, delta.new_table_watermarks@),
            groups_view(version.groups@) == apply_all_group_deltas(orig.groups, delta@.group_deltas),
            logs_view(version.table_change_log@) == orig.table_change_log,
        decreases infos.len() - k,
    {
        upsert_state_info_exec(&mut version.state_table_info, delta.state_table_info_delta[k]);
        assert(infos.subrange(0, k + 1).drop_last() =~= infos.subrange(0, k as int));
        k += 1;
    }
    assert(infos.subrange(0, infos.len() as int) =~= infos);

    let ghost cs = delta@.change_log_delta;
    assert(cs.subrange(0, 0) =~= Seq::<ChangeLogDeltaModel>::empty());
    let mut k: usize = 0;
    while k < delta.change_log_delta.len()
        invariant
            k <= cs.len(),
            cs == delta@.change_log_delta,
            logs_view(version.table_change_log@) == apply_log_deltas(orig.table_change_log, cs.subrange(0, k as int)),
            version.state_table_info@ == upsert_state_infos(orig.state_table_info, delta.state_table_info_delta@),
            version.table_watermarks@ == upsert_watermarks(orig.table_watermarks, delta.new_table_watermarks@),
            groups_view(version.groups@) == apply_all_group_deltas(orig.groups, delta@.group_deltas),
        decreases cs.len() - k,
    {
        apply_change_log_delta(&mut version.table_change_log, &delta.change_log_delta[k]);
        assert(cs.subrange(0, k + 1).drop_last() =~= cs.subrange(0, k as int));
        k += 1;
    }
    assert(cs.subrange(0, cs.len() as int) =~= cs);

    version.table_watermarks = kept_watermarks(&version.table_watermarks, &delta.removed_table_ids);
    version.state_table_info = kept_state_infos(&version.state_table_info, &delta.removed_table_ids);
    version.table_change_log = kept_logs(&version.table_change_log, &delta.removed_table_ids);
    version.id = delta.id;
    version.max_committed_epoch = delta.max_committed_epoch;
    version.safe_epoch = delta.safe_epoch;
}

fn copy_level_list(ls: &Vec<Level>) -> (r: Vec<Level>)
    ensures
        levels_view(r@) == levels_view(ls@),
{
    let mut r: Vec<Level> = Vec::new();
    let mut i: usize = 0;
    while i < ls.len()
        invariant
            i <= ls@.len(),
            r@.len() == i,
            forall|k: int| 0 <= k < i ==> (#[trigger] r@[k])@ == ls@[k]@,
        decreases ls@.len() - i,
    {
        let l = &ls[i];
        r.push(Level { level_idx: l.level_idx, sub_level_id: l.sub_level_id, table_infos: copy_files(&l.table_infos) });
        i += 1;
    }
    assert(levels_view(r@) =~= levels_view(ls@));
    r
}

/// A deep copy of `v`.
pub fn copy_version(v: &Version) -> (r: Version)
    ensures
        r@ == v@,
{
    let mut groups: Vec<GroupLevels> = Vec::new();
    let mut i: usize = 0;
    while i < v.groups.len()
        invariant
            i <= v.groups@.len(),
            groups@.len() == i,
            forall|k: int| 0 <= k < i ==> (#[trigger] groups@[k])@ == v.groups@[k]@,
        decreases v.groups@.len() - i,
    {
        let g = &v.groups[i];
        groups.push(GroupLevels { group_id: g.group_id, l0: copy_level_list(&g.l0), levels: copy_level_list(&g.levels) });
        i += 1;
    }
    let mut logs: Vec<TableChangeLog> = Vec::new();
    let mut i: usize = 0;
    while i < v.table_change_log.len()
        invariant
            i <= v.table_change_log@.len(),
            logs@.len() == i,
            forall|k: int| 0 <= k < i ==> (#[trigger] logs@[k])@ == v.table_change_log@[k]@,
        decreases v.table_change_log@.len() - i,
    {
        logs.push(copy_table_log(&v.table_change_log[i]));
        i += 1;
    }
    let mut ws: Vec<TableWatermark> = Vec::new();
    let mut i: usize = 0;
    while i < v.table_watermarks.len()
        invariant
            i <= v.table_watermarks@.len(),
            ws@ == v.table_watermarks@.subrange(0, i as int),
        decreases v.table_watermarks@.len() - i,
    {
        ws.push(v.table_watermarks[i]);
        i += 1;
    }
    let mut ss: Vec<StateTableInfo> = Vec::new();
    let mut i: usize = 0;
    while i < v.state_table_info.len()
        invariant
            i <= v.state_table_info@.len(),
            ss@ == v.state_table_info@.subrange(0, i as int),
        decreases v.state_table_info@.len() - i,
    {
        ss.push(v.state_table_info[i]);
        i += 1;
    }
    let r = Version {
        id: v.id,
        groups,
        max_committed_epoch: v.max_committed_epoch,
        safe_epoch: v.safe_epoch,
        table_watermarks: ws,
        table_change_log: logs,
        state_table_info: ss,
    };
    assert(r@.groups =~= v@.groups);
    assert(r@.table_change_log =~= v@.table_change_log);
    assert(r@.table_watermarks =~= v@.table_watermarks);
    assert(r@.state_table_info =~= v@.state_table_info);
    r
}

} // verus!
