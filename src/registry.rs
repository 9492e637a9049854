use vstd::prelude::*;

use std::collections::HashMap;

use crate::file_info::{FileInfo, FileModel, files_view, ids_of_files};
use crate::refill::registry_view;

verus! {

broadcast use vstd::std_specs::hash::group_hash_axioms;

/// The registry after inserting `f` if its id is absent: a present id keeps its record.
pub open spec fn registry_insert(reg: Map<u64, FileModel>, f: FileModel) -> Map<u64, FileModel> {
    if reg.contains_key(f.sst_id) {
        reg
    } else {
        reg.insert(f.sst_id, f)
    }
}

/// The number of batches that `n` ids take, `size` at most in each.
pub open spec fn batch_count(n: nat, size: nat) -> nat
    recommends
        size > 0,
{
    if n == 0 {
        0
    } else {
        ((n - 1) as nat / size + 1) as nat
    }
}

/// Concatenation of a list of batches.
pub open spec fn flatten_ids(bs: Seq<Seq<u64>>) -> Seq<u64>
    decreases bs.len(),
{
    if bs.len() == 0 {
        Seq::empty()
    } else {
        flatten_ids(bs.drop_last()) + bs.last()
    }
}

/// Splits `ids` into consecutive batches of `batch_size` ids, the last one possibly shorter.
pub fn fetch_batches(ids: &Vec<u64>, batch_size: usize) -> (r: Vec<Vec<u64>>)
    requires
        batch_size > 0,
    ensures
        r@.len() == batch_count(ids@.len(), batch_size as nat),
        flatten_ids(r@.map_values(|b: Vec<u64>| b@)) == ids@,
        forall|i: int| 0 <= i < r@.len() ==> 0 < (#[trigger] r@[i])@.len() <= batch_size,
{
    let mut r: Vec<Vec<u64>> = Vec::new();
    let mut start: usize = 0;
    while start < ids.len()
        invariant
            start <= ids@.len(),
            batch_size > 0,
            start == ids@.len() || start % batch_size == 0,
            r@.len() == batch_count(start as nat, batch_size as nat),
            flatten_ids(r@.map_values(|b: Vec<u64>| b@)) == ids@.subrange(0, start as int),
            forall|i: int| 0 <= i < r@.len() ==> 0 < (#[trigger] r@[i])@.len() <= batch_size,
        decreases ids@.len() - start,
    {
        let end: usize = if ids.len() - start > batch_size {
            start + batch_size
        } else {
            ids.len()
        };
        let mut batch: Vec<u64> = Vec::new();
        let mut i: usize = start;
        while i < end
            invariant
                start <= i <= end,
                end <= ids@.len(),
                batch@ == ids@.subrange(start as int, i as int),
            decreases end - i,
        {
            batch.push(ids[i]);
            i += 1;
        }
        let ghost before = r@;
        r.push(batch);
        proof {
            let bv = r@.map_values(|b: Vec<u64>| b@);
            assert(bv.drop_last() =~= before.map_values(|b: Vec<u64>| b@));
            assert(ids@.subrange(0, end as int) =~= ids@.subrange(0, start as int) + ids@.subrange(
                start as int,
                end as int,
            ));
            let s = start as nat;
            let b = batch_size as nat;
            if start > 0 {
                assert(s % b == 0);
                assert((s - 1) as nat / b + 1 == s / b) by (nonlinear_arith)
                    requires
                        s % b == 0,
                        s > 0,
                        b > 0,
                ;
            }
            if end < ids.len() {
                assert(end == start + batch_size);
                assert((s + b) % b == 0) by (nonlinear_arith)
                    requires
                        s % b == 0,
                        b > 0,
                ;
                assert(((s + b - 1) as nat) / b + 1 == s / b + 1) by (nonlinear_arith)
                    requires
                        s % b == 0,
                        b > 0,
                ;
            } else {
                let e = end as nat;
                assert(e - s <= b);
                assert(e > s);
                assert(((e - 1) as nat) / b + 1 == s / b + 1) by (nonlinear_arith)
                    requires
                        s % b == 0,
                        b > 0,
                        e > s,
                        e - s <= b,
                ;
            }
        }
        start = end;
    }
    r
}

proof fn lemma_concat_contains(a: Seq<u64>, b: Seq<u64>, x: u64)
    ensures
        (a + b).contains(x) <==> a.contains(x) || b.contains(x),
{
    if (a + b).contains(x) {
        let i = choose|i: int| 0 <= i < (a + b).len() && (#[trigger] (a + b)[i]) == x;
        if i >= a.len() {
            assert(b[i - a.len()] == x);
        }
    }
    if a.contains(x) {
        let i = choose|i: int| 0 <= i < a.len() && (#[trigger] a[i]) == x;
        assert((a + b)[i] == x);
    }
    if b.contains(x) {
        let i = choose|i: int| 0 <= i < b.len() && (#[trigger] b[i]) == x;
        assert((a + b)[i + a.len()] == x);
    }
}

/// Full file records keyed by file id; a record, once in, never changes. `order` lists the
/// ids held, once each, in the order they came.
pub struct SstableRegistry {
    infos: HashMap<u64, FileInfo>,
    order: Vec<u64>,
}

impl View for SstableRegistry {
    type V = Map<u64, FileModel>;

    closed spec fn view(&self) -> Map<u64, FileModel> {
        registry_view(self.infos)
    }
}

impl SstableRegistry {
    #[verifier::type_invariant]
    closed spec fn inv(self) -> bool {
        &&& self.order@.no_duplicates()
        &&& forall|id: u64| #[trigger] self.order@.contains(id) <==> self.infos@.contains_key(id)
    }

    pub fn new() -> (r: SstableRegistry)
        ensures
            r@ == Map::<u64, FileModel>::empty(),
    {
        let r = SstableRegistry { infos: HashMap::new(), order: Vec::new() };
        proof {
            assert(r@ =~= Map::<u64, FileModel>::empty());
        }
        r
    }

    /// Inserts `info` unless a record with its id is already present.
    pub fn insert(&mut self, info: &FileInfo)
        ensures
            final(self)@ == registry_insert(old(self)@, info@),
    {
        proof {
            use_type_invariant(&*self);
        }
        if !self.infos.contains_key(&info.sst_id) {
            let mut taken = SstableRegistry::new();
            std::mem::swap(self, &mut taken);
            proof {
                use_type_invariant(&taken);
            }
            let SstableRegistry { mut infos, mut order } = taken;
            let ghost before = order@;
            let ghost old_infos = infos@;
            assert(forall|id: u64| #[trigger] before.contains(id) <==> old_infos.contains_key(id));
            infos.insert(info.sst_id, info.duplicate());
            order.push(info.sst_id);
            proof {
                assert forall|id: u64| #[trigger] order@.contains(id) <==> infos@.contains_key(id) by {
                    if order@.contains(id) && id != info.sst_id {
                        let q = choose|q: int| 0 <= q < order@.len() && order@[q] == id;
                        assert(before[q] == id);
                        assert(before.contains(id));
                        assert(old_infos.contains_key(id));
                    }
                    if id == info.sst_id {
                        assert(order@[before.len() as int] == id);
                    } else if infos@.contains_key(id) {
                        assert(old_infos.contains_key(id));
                        assert(before.contains(id));
                        let q = choose|q: int| 0 <= q < before.len() && before[q] == id;
                        assert(order@[q] == id);
                    }
                }
                assert(order@.no_duplicates()) by {
                    assert forall|a: int, b: int| 0 <= a < b < order@.len() implies order@[a] != order@[b] by {
                        if b == before.len() {
                            assert(before.contains(order@[a]));
                        }
                    }
                }
            }
            *self = SstableRegistry { infos, order };
            proof {
                assert(self@ =~= old(self)@.insert(info.sst_id, info@));
            }
        }
    }

    pub fn contains(&self, id: u64) -> (r: bool)
        ensures
            r == self@.contains_key(id),
    {
        self.infos.contains_key(&id)
    }

    /// The object ids of all records held.
    pub fn object_ids(&self) -> (r: Vec<u64>)
        ensures
            r@.len() == self@.dom().len(),
            forall|o: u64|
                #[trigger] r@.contains(o) <==> exists|id: u64| #[trigger] self@.contains_key(id)
                    && self@[id].object_id == o,
    {
        proof {
            use_type_invariant(self);
        }
        let mut r: Vec<u64> = Vec::new();
        let mut i: usize = 0;
        while i < self.order.len()
            invariant
                i <= self.order@.len(),
                r@.len() == i,
                self.order@.no_duplicates(),
                forall|id: u64| #[trigger] self.order@.contains(id) <==> self.infos@.contains_key(id),
                forall|q: int| 0 <= q < i ==> r@[q] == (#[trigger] self@[self.order@[q]]).object_id,
            decreases self.order@.len() - i,
        {
            let id = self.order[i];
            assert(self.order@.contains(id));
            match self.infos.get(&id) {
                Some(info) => {
                    r.push(info.object_id);
                },
                None => {
                    r.push(0);
                },
            }
            i += 1;
        }
        proof {
            assert(self.order@.to_set() =~= self@.dom());
            self.order@.unique_seq_to_set();
            assert forall|o: u64| #[trigger] r@.contains(o) <==> exists|id: u64| #[trigger] self@.contains_key(id)
                && self@[id].object_id == o by {
                if r@.contains(o) {
                    let q = choose|q: int| 0 <= q < r@.len() && r@[q] == o;
                    assert(self.order@.contains(self.order@[q]));
                    assert(self@.contains_key(self.order@[q]));
                }
                if exists|id: u64| #[trigger] self@.contains_key(id) && self@[id].object_id == o {
                    let id = choose|id: u64| #[trigger] self@.contains_key(id) && self@[id].object_id == o;
                    assert(self.order@.contains(id));
                    let q = choose|q: int| 0 <= q < self.order@.len() && self.order@[q] == id;
                    assert(r@[q] == o);
                }
            }
        }
        r
    }

    /// Looks up the ids of one batch.
    fn fetch_batch(&self, batch: &Vec<u64>, out: &mut HashMap<u64, FileInfo>)
        requires
            forall|id: u64|
                #[trigger] registry_view(*old(out)).contains_key(id) ==> self@.contains_key(id)
                    && registry_view(*old(out))[id] == self@[id],
        ensures
            forall|id: u64|
                #[trigger] registry_view(*final(out)).contains_key(id) <==> registry_view(
                    *old(out),
                ).contains_key(id) || (batch@.contains(id) && self@.contains_key(id)),
            forall|id: u64|
                #[trigger] registry_view(*final(out)).contains_key(id) ==> self@.contains_key(id)
                    && registry_view(*final(out))[id] == self@[id],
    {
        let ghost start = registry_view(*out);
        let mut i: usize = 0;
        while i < batch.len()
            invariant
                i <= batch@.len(),
                forall|id: u64|
                    #[trigger] registry_view(*out).contains_key(id) <==> start.contains_key(id) || (
                    exists|k: int| 0 <= k < i && (#[trigger] batch@[k]) == id) && self@.contains_key(id),
                forall|id: u64|
                    #[trigger] registry_view(*out).contains_key(id) ==> self@.contains_key(id)
                        && registry_view(*out)[id] == self@[id],
            decreases batch@.len() - i,
        {
            let id = batch[i];
            let ghost before = registry_view(*out);
            match self.infos.get(&id) {
                Some(info) => {
                    out.insert(id, info.duplicate());
                    assert(registry_view(*out) =~= before.insert(id, self@[id]));
                },
                None => {
                    assert(!self@.contains_key(id));
                },
            }
            i += 1;
            assert forall|x: u64| #[trigger] registry_view(*out).contains_key(x) <==> start.contains_key(x) || (
                exists|k: int| 0 <= k < i && (#[trigger] batch@[k]) == x) && self@.contains_key(x) by {
                if x == id {
                    assert(batch@[i - 1] == x);
                }
            }
        }
        assert forall|x: u64| #[trigger] registry_view(*out).contains_key(x) <==> start.contains_key(x) || (
            batch@.contains(x) && self@.contains_key(x)) by {
            if batch@.contains(x) {
                let k = choose|k: int| 0 <= k < batch@.len() && (#[trigger] batch@[k]) == x;
            }
        }
    }

    /// The records of `ids` that are present, fetched `batch_size` ids at a time.
    pub fn get_many(&self, ids: &Vec<u64>, batch_size: usize) -> (r: HashMap<u64, FileInfo>)
        requires
            batch_size > 0,
        ensures
            forall|id: u64|
                #[trigger] registry_view(r).contains_key(id) <==> ids@.contains(id)
                    && self@.contains_key(id),
            forall|id: u64|
                #[trigger] registry_view(r).contains_key(id) ==> registry_view(r)[id] == self@[id],
    {
        let batches = fetch_batches(ids, batch_size);
        let ghost bv = batches@.map_values(|b: Vec<u64>| b@);
        let mut out: HashMap<u64, FileInfo> = HashMap::new();
        let mut k: usize = 0;
        while k < batches.len()
            invariant
                k <= batches@.len(),
                bv == batches@.map_values(|b: Vec<u64>| b@),
                flatten_ids(bv) == ids@,
                forall|id: u64|
                    #[trigger] registry_view(out).contains_key(id) <==> flatten_ids(
                        bv.subrange(0, k as int),
                    ).contains(id) && self@.contains_key(id),
                forall|id: u64|
                    #[trigger] registry_view(out).contains_key(id) ==> self@.contains_key(id)
                        && registry_view(out)[id] == self@[id],
            decreases batches@.len() - k,
        {
            let ghost before = registry_view(out);
            self.fetch_batch(&batches[k], &mut out);
            proof {
                assert(bv.subrange(0, k + 1).drop_last() =~= bv.subrange(0, k as int));
                assert(flatten_ids(bv.subrange(0, k + 1)) == flatten_ids(bv.subrange(0, k as int))
                    + bv[k as int]);
                assert(bv[k as int] == batches@[k as int]@);
                assert forall|x: u64| #[trigger] registry_view(out).contains_key(x) <==> flatten_ids(
                        bv.subrange(0, k + 1),
                    ).contains(x) && self@.contains_key(x) by {
                    assert(before.contains_key(x) <==> flatten_ids(bv.subrange(0, k as int)).contains(x) && self@.contains_key(x));
                    lemma_concat_contains(flatten_ids(bv.subrange(0, k as int)), bv[k as int], x);
                }
            }
            k += 1;
        }
        assert(bv.subrange(0, bv.len() as int) =~= bv);
        out
    }

    /// Removes the records of `ids`; absent ids are ignored.
    pub fn delete_many(&mut self, ids: &Vec<u64>)
        ensures
            final(self)@ == old(self)@.remove_keys(ids@.to_set()),
    {
        proof {
            use_type_invariant(&*self);
        }
        let mut taken = SstableRegistry::new();
        std::mem::swap(self, &mut taken);
        proof {
            use_type_invariant(&taken);
        }
        let SstableRegistry { mut infos, order } = taken;
        let ghost start = registry_view(infos);
        let mut i: usize = 0;
        while i < ids.len()
            invariant
                i <= ids@.len(),
                registry_view(infos) == start.remove_keys(ids@.subrange(0, i as int).to_set()),
            decreases ids@.len() - i,
        {
            let ghost before = registry_view(infos);
            infos.remove(&ids[i]);
            proof {
                assert(registry_view(infos) =~= before.remove(ids@[i as int]));
                assert(ids@.subrange(0, i + 1).to_set() =~= ids@.subrange(0, i as int).to_set().insert(
                    ids@[i as int],
                )) by {
                    assert forall|x: u64| ids@.subrange(0, i + 1).to_set().contains(x) implies ids@.subrange(0, i as int).to_set().insert(ids@[i as int]).contains(x) by {
                        let k = choose|k: int| 0 <= k < i + 1 && (#[trigger] ids@.subrange(0, i + 1)[k]) == x;
                        if k < i {
                            assert(ids@.subrange(0, i as int)[k] == x);
                        }
                    }
                    assert forall|x: u64| ids@.subrange(0, i as int).to_set().insert(ids@[i as int]).contains(x) implies ids@.subrange(0, i + 1).to_set().contains(x) by {
                        if x == ids@[i as int] {
                            assert(ids@.subrange(0, i + 1)[i as int] == x);
                        } else {
                            let k = choose|k: int| 0 <= k < i && (#[trigger] ids@.subrange(0, i as int)[k]) == x;
                            assert(ids@.subrange(0, i + 1)[k] == x);
                        }
                    }
                }
                assert(registry_view(infos) =~= start.remove_keys(ids@.subrange(0, i + 1).to_set()));
            }
            i += 1;
        }
        assert(ids@.subrange(0, ids@.len() as int) =~= ids@);
        let mut kept: Vec<u64> = Vec::new();
        let mut j: usize = 0;
        while j < order.len()
            invariant
                j <= order@.len(),
                order@.no_duplicates(),
                forall|id: u64| #[trigger] order@.contains(id) <==> start.contains_key(id),
                registry_view(infos) == start.remove_keys(ids@.to_set()),
                kept@.no_duplicates(),
                forall|id: u64|
                    #[trigger] kept@.contains(id) <==> (exists|q: int| 0 <= q < j && order@[q] == id)
                        && registry_view(infos).contains_key(id),
            decreases order@.len() - j,
        {
            let id = order[j];
            if infos.contains_key(&id) {
                let ghost before = kept@;
                assert(!before.contains(id)) by {
                    if before.contains(id) {
                        let q = choose|q: int| 0 <= q < j && order@[q] == id;
                        assert(order@[q] == order@[j as int]);
                    }
                }
                kept.push(id);
                assert forall|x: u64| #[trigger] kept@.contains(x) <==> before.contains(x) || x == id by {
                    if kept@.contains(x) {
                        let q = choose|q: int| 0 <= q < kept@.len() && kept@[q] == x;
                        if q < before.len() {
                            assert(before[q] == x);
                        }
                    }
                    if before.contains(x) {
                        let q = choose|q: int| 0 <= q < before.len() && before[q] == x;
                        assert(kept@[q] == x);
                    }
                    if x == id {
                        assert(kept@[before.len() as int] == x);
                    }
                }
                assert(kept@.no_duplicates()) by {
                    assert forall|a: int, b: int| 0 <= a < b < kept@.len() implies kept@[a] != kept@[b] by {
                        if b == before.len() {
                            assert(before.contains(kept@[a]));
                        }
                    }
                }
            }
            j += 1;
            assert forall|x: u64|
                #[trigger] kept@.contains(x) <==> (exists|q: int| 0 <= q < j && order@[q] == x)
                    && registry_view(infos).contains_key(x) by {
                if x == id {
                    assert(order@[j - 1] == x);
                }
            }
        }
        proof {
            assert forall|id: u64| #[trigger] kept@.contains(id) <==> infos@.contains_key(id) by {
                if infos@.contains_key(id) {
                    assert(registry_view(infos).contains_key(id));
                    assert(start.contains_key(id));
                    assert(order@.contains(id));
                    let q = choose|q: int| 0 <= q < order@.len() && order@[q] == id;
                }
            }
        }
        *self = SstableRegistry { infos, order: kept };
    }
}

/// Inserting the same record twice leaves the registry as inserting it once.
pub proof fn lemma_insert_idempotent(reg: Map<u64, FileModel>, f: FileModel)
    ensures
        registry_insert(registry_insert(reg, f), f) == registry_insert(reg, f),
{
}

/// `new` is `old` with records added for exactly the ids of `ids` it lacked, each filed
/// under its own id; records already present are kept.
pub open spec fn grows_by(old: Map<u64, FileModel>, new: Map<u64, FileModel>, ids: Set<u64>) -> bool {
    &&& new.dom() == old.dom().union(ids)
    &&& forall|id: u64| #[trigger] old.contains_key(id) ==> new[id] == old[id]
    &&& forall|id: u64|
        #[trigger] new.contains_key(id) && !old.contains_key(id) ==> new[id].sst_id == id
}

pub proof fn lemma_grows_trans(
    a: Map<u64, FileModel>,
    b: Map<u64, FileModel>,
    c: Map<u64, FileModel>,
    s: Set<u64>,
    t: Set<u64>,
)
    requires
        grows_by(a, b, s),
        grows_by(b, c, t),
    ensures
        grows_by(a, c, s.union(t)),
{
    assert(c.dom() =~= a.dom().union(s.union(t)));
    assert forall|id: u64| #[trigger] a.contains_key(id) implies c[id] == a[id] by {
        assert(b.dom().contains(id));
    }
    assert forall|id: u64| #[trigger] c.contains_key(id) && !a.contains_key(id) implies c[id].sst_id == id by {
        if b.contains_key(id) {
            assert(c[id] == b[id]);
        }
    }
}

/// Every record that `new` holds and `old` lacks is one of `srcs`.
pub open spec fn fresh_from(old: Map<u64, FileModel>, new: Map<u64, FileModel>, srcs: Set<FileModel>) -> bool {
    forall|id: u64| #[trigger] new.contains_key(id) && !old.contains_key(id) ==> srcs.contains(new[id])
}

pub proof fn lemma_fresh_trans(
    a: Map<u64, FileModel>,
    b: Map<u64, FileModel>,
    c: Map<u64, FileModel>,
    s: Set<FileModel>,
    t: Set<FileModel>,
    ids: Set<u64>,
)
    requires
        fresh_from(a, b, s),
        fresh_from(b, c, t),
        grows_by(b, c, ids),
    ensures
        fresh_from(a, c, s.union(t)),
{
    assert forall|id: u64| #[trigger] c.contains_key(id) && !a.contains_key(id) implies s.union(t).contains(c[id]) by {
        if b.contains_key(id) {
            assert(c[id] == b[id]);
        }
    }
}

impl SstableRegistry {
    /// Inserts every file of `files` whose id is absent.
    pub fn register_files(&mut self, files: &Vec<FileInfo>)
        ensures
            grows_by(old(self)@, final(self)@, ids_of_files(files_view(files@))),
            fresh_from(old(self)@, final(self)@, files_view(files@).to_set()),
    {
        let ghost start = self@;
        let ghost fs = files_view(files@);
        let mut i: usize = 0;
        proof {
            let s0 = Set::new(|id: u64| exists|q: int| 0 <= q < 0 && (#[trigger] fs[q]).sst_id == id);
            assert(s0 =~= Set::<u64>::empty());
            assert(self@.dom() =~= start.dom().union(s0));
        }
        while i < files.len()
            invariant
                i <= files@.len(),
                fs == files_view(files@),
                grows_by(start, self@, Set::new(|id: u64| exists|q: int| 0 <= q < i && (#[trigger] fs[q]).sst_id == id)),
                fresh_from(start, self@, fs.to_set()),
            decreases files@.len() - i,
        {
            let ghost before = self@;
            self.insert(&files[i]);
            proof {
                assert(fs.to_set().contains(fs[i as int]));
                assert(fs[i as int] == files@[i as int]@);
            }
            i += 1;
            proof {
                let s_new = Set::new(|id: u64| exists|q: int| 0 <= q < i && (#[trigger] fs[q]).sst_id == id);
                let s_old = Set::new(|id: u64| exists|q: int| 0 <= q < i - 1 && (#[trigger] fs[q]).sst_id == id);
                assert(s_new =~= s_old.insert(fs[i - 1].sst_id)) by {
                    assert forall|id: u64| s_new.contains(id) implies s_old.insert(fs[i - 1].sst_id).contains(id) by {
                        let q = choose|q: int| 0 <= q < i && (#[trigger] fs[q]).sst_id == id;
                        if q < i - 1 {
                            assert(s_old.contains(id));
                        }
                    }
                    assert(fs[i - 1].sst_id == files@[i - 1].sst_id);
                }
                assert(self@.dom() =~= start.dom().union(s_new));
            }
        }
        proof {
            let s_all = Set::new(|id: u64| exists|q: int| 0 <= q < files@.len() && (#[trigger] fs[q]).sst_id == id);
            assert(s_all =~= ids_of_files(fs));
        }
    }
}

} // verus!
