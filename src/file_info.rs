use vstd::prelude::*;

verus! {

/// Full metadata of one table file, identified by `sst_id`.
#[derive(Debug, PartialEq, Eq)]
pub struct FileInfo {
    pub sst_id: u64,
    pub object_id: u64,
    pub file_size: u64,
    pub key_range_left: Vec<u8>,
    pub key_range_right: Vec<u8>,
    pub table_ids: Vec<u32>,
    pub min_epoch: u64,
    pub max_epoch: u64,
}

/// Mathematical value of a `FileInfo`.
pub ghost struct FileModel {
    pub sst_id: u64,
    pub object_id: u64,
    pub file_size: u64,
    pub key_range_left: Seq<u8>,
    pub key_range_right: Seq<u8>,
    pub table_ids: Seq<u32>,
    pub min_epoch: u64,
    pub max_epoch: u64,
}

impl View for FileInfo {
    type V = FileModel;

    open spec fn view(&self) -> FileModel {
        FileModel {
            sst_id: self.sst_id,
            object_id: self.object_id,
            file_size: self.file_size,
            key_range_left: self.key_range_left@,
            key_range_right: self.key_range_right@,
            table_ids: self.table_ids@,
            min_epoch: self.min_epoch,
            max_epoch: self.max_epoch,
        }
    }
}

/// Views of a list of files.
pub open spec fn files_view(v: Seq<FileInfo>) -> Seq<FileModel> {
    v.map_values(|f: FileInfo| f@)
}

/// The placeholder kept in persisted history: the id, every other field at its default.
pub open spec fn strip_file(f: FileModel) -> FileModel {
    FileModel {
        sst_id: f.sst_id,
        object_id: 0,
        file_size: 0,
        key_range_left: Seq::empty(),
        key_range_right: Seq::empty(),
        table_ids: Seq::empty(),
        min_epoch: 0,
        max_epoch: 0,
    }
}

/// Ids of a sequence of files, as a set.
pub open spec fn ids_of_files(fs: Seq<FileModel>) -> Set<u64> {
    Set::new(|id: u64| exists|i: int| 0 <= i < fs.len() && (#[trigger] fs[i]).sst_id == id)
}

pub open spec fn strip_files(fs: Seq<FileModel>) -> Seq<FileModel> {
    fs.map_values(|f: FileModel| strip_file(f))
}

/// Every file of `fs` is recorded, with the same content, in `reg`.
pub open spec fn files_recorded(fs: Seq<FileModel>, reg: Map<u64, FileModel>) -> bool {
    forall|i: int|
        0 <= i < fs.len() ==> reg.contains_key((#[trigger] fs[i]).sst_id) && reg[fs[i].sst_id]
            == fs[i]
}

/// Every placeholder of `fs` has its id in `reg`.
pub open spec fn ids_present(fs: Seq<FileModel>, reg: Map<u64, FileModel>) -> bool {
    forall|i: int| 0 <= i < fs.len() ==> reg.contains_key((#[trigger] fs[i]).sst_id)
}

/// Each file replaced by the record that `reg` holds under its id.
pub open spec fn refill_files(fs: Seq<FileModel>, reg: Map<u64, FileModel>) -> Seq<FileModel> {
    fs.map_values(|f: FileModel| reg[f.sst_id])
}

fn copy_bytes(v: &Vec<u8>) -> (r: Vec<u8>)
    ensures
        r@ == v@,
{
    let mut r: Vec<u8> = Vec::new();
    let mut i: usize = 0;
    while i < v.len()
        invariant
            i <= v@.len(),
            r@ == v@.subrange(0, i as int),
        decreases v@.len() - i,
    {
        r.push(v[i]);
        i += 1;
    }
    assert(r@ =~= v@);
    r
}

pub(crate) fn copy_table_ids(v: &Vec<u32>) -> (r: Vec<u32>)
    ensures
        r@ == v@,
{
    let mut r: Vec<u32> = Vec::new();
    let mut i: usize = 0;
    while i < v.len()
        invariant
            i <= v@.len(),
            r@ == v@.subrange(0, i as int),
        decreases v@.len() - i,
    {
        r.push(v[i]);
        i += 1;
    }
    assert(r@ =~= v@);
    r
}

impl FileInfo {
    /// A field-by-field copy.
    pub fn duplicate(&self) -> (r: FileInfo)
        ensures
            r@ == self@,
    {
        FileInfo {
            sst_id: self.sst_id,
            object_id: self.object_id,
            file_size: self.file_size,
            key_range_left: copy_bytes(&self.key_range_left),
            key_range_right: copy_bytes(&self.key_range_right),
            table_ids: copy_table_ids(&self.table_ids),
            min_epoch: self.min_epoch,
            max_epoch: self.max_epoch,
        }
    }
}

/// The placeholder for `origin`: its id kept, everything else defaulted.
pub fn stripped_sstable_info(origin: &FileInfo) -> (r: FileInfo)
    ensures
        r@ == strip_file(origin@),
{
    let r = FileInfo {
        sst_id: origin.sst_id,
        object_id: 0,
        file_size: 0,
        key_range_left: Vec::new(),
        key_range_right: Vec::new(),
        table_ids: Vec::new(),
        min_epoch: 0,
        max_epoch: 0,
    };
    assert(r@.key_range_left =~= Seq::<u8>::empty());
    r
}

/// Strips every file of a list.
pub fn stripped_files(origin: &Vec<FileInfo>) -> (r: Vec<FileInfo>)
    ensures
        files_view(r@) == strip_files(files_view(origin@)),
{
    let mut r: Vec<FileInfo> = Vec::new();
    let mut i: usize = 0;
    while i < origin.len()
        invariant
            i <= origin@.len(),
            r@.len() == i,
            forall|j: int| 0 <= j < i ==> (#[trigger] r@[j])@ == strip_file(origin@[j]@),
        decreases origin@.len() - i,
    {
        r.push(stripped_sstable_info(&origin[i]));
        i += 1;
    }
    assert(files_view(r@) =~= strip_files(files_view(origin@)));
    r
}

} // verus!
