use vstd::prelude::*;

use crate::archive::{
    ArchiveModel, anchor_at, archive_wf, delta_kept, epoch_kept, in_span, keyframe_kept, latest_at,
    latest_below, lemma_anchor_unique, lemma_sorted_filter_suffix, lemma_latest_unique, lemma_refill_agree, reclaimed,
    reconstruct, replay, resolve_spec, truncate_spec,
};
use crate::reach::lemma_replay_ids;
use crate::version::{DeltaModel, VersionModel};
use crate::ids::delta_ids;
use crate::strip::version_ids;

verus! {

/// For two consecutive rows of the index, every epoch from the first up to, but not
/// including, the second resolves as the first one does.
pub proof fn lemma_epoch_monotonic(a: ArchiveModel, i: int, e: u64)
    requires
        archive_wf(a),
        0 <= i && i + 1 < a.epoch_index.len(),
        a.epoch_index[i].epoch <= e < a.epoch_index[i + 1].epoch,
    ensures
        resolve_spec(a, e) is Ok <==> resolve_spec(a, a.epoch_index[i].epoch) is Ok,
        resolve_spec(a, e) is Ok ==> resolve_spec(a, e) == resolve_spec(a, a.epoch_index[i].epoch),
{
    let e1 = a.epoch_index[i].epoch;
    assert(latest_at(a.epoch_index, e, i)) by {
        assert forall|k: int| i < k < a.epoch_index.len() implies (#[trigger] a.epoch_index[k]).epoch > e by {
            if k > i + 1 {
                assert(a.epoch_index[i + 1].epoch < a.epoch_index[k].epoch);
            }
        }
    }
    assert(latest_at(a.epoch_index, e1, i)) by {
        assert forall|k: int| i < k < a.epoch_index.len() implies (#[trigger] a.epoch_index[k]).epoch > e1 by {
            assert(a.epoch_index[i].epoch < a.epoch_index[k].epoch);
        }
    }
    let j1 = choose|j: int| latest_at(a.epoch_index, e, j);
    let j2 = choose|j: int| latest_at(a.epoch_index, e1, j);
    assert(j1 == i) by {
        if j1 < i {
            assert(a.epoch_index[i].epoch > e);
        }
        if j1 > i {
            assert(a.epoch_index[j1].epoch > e);
        }
    }
    assert(j2 == i) by {
        if j2 < i {
            assert(a.epoch_index[i].epoch > e1);
        }
        if j2 > i {
            assert(a.epoch_index[j2].epoch > e1);
        }
    }
}

/// Every file in the registry is referenced by a keyframe or a delta of the archive.
pub open spec fn registry_referenced(a: ArchiveModel) -> bool {
    forall|id: u64|
        #[trigger] a.registry.contains_key(id) ==> (exists|i: int|
            0 <= i < a.keyframes.len() && version_ids(#[trigger] a.keyframes[i]).contains(id)) || (
        exists|i: int| 0 <= i < a.deltas.len() && delta_ids(#[trigger] a.deltas[i]).contains(id))
}

/// The version of the last index row below `w`.
pub open spec fn watermark_version(a: ArchiveModel, w: u64) -> u64 {
    a.epoch_index[choose|j: int| latest_below(a.epoch_index, w, j)].version_id
}

/// Truncation below `w` finds an anchor keyframe to reclaim against.
pub open spec fn truncation_anchored(a: ArchiveModel, w: u64) -> bool {
    (exists|j: int| latest_below(a.epoch_index, w, j)) && (exists|k: int|
        #[trigger] anchor_at(a.keyframes, watermark_version(a, w), k))
}

proof fn lemma_chain_to_anchor(a: ArchiveModel, k: int, i: int, id: u64)
    requires
        0 <= i <= k < a.keyframes.len(),
        version_ids(a.keyframes[i]).contains(id),
        !reclaimed(a, k).contains(id),
    ensures
        version_ids(a.keyframes[k]).contains(id),
    decreases k - i,
{
    if i < k {
        if !version_ids(a.keyframes[i + 1]).contains(id) {
            assert(reclaimed(a, k).contains(id));
        }
        lemma_chain_to_anchor(a, k, i + 1, id);
    }
}

/// After truncation every remaining keyframe and delta is at or above the retained anchor
/// keyframe, and, where every registered file was referenced before, every file left in the
/// registry is referenced by what remains.
pub proof fn lemma_truncate_complete(a: ArchiveModel, w: u64)
    requires
        archive_wf(a),
        registry_referenced(a),
    ensures
        registry_referenced(truncate_spec(a, w)),
        truncation_anchored(a, w) ==> {
            let b = truncate_spec(a, w);
            &&& b.keyframes.len() > 0
            &&& forall|i: int| 0 <= i < b.keyframes.len() ==> (#[trigger] b.keyframes[i]).id >= b.keyframes[0].id
            &&& forall|i: int| 0 <= i < b.deltas.len() ==> (#[trigger] b.deltas[i]).id >= b.keyframes[0].id
        },
{
    let b = truncate_spec(a, w);
    if truncation_anchored(a, w) {
        let j = choose|j: int| latest_below(a.epoch_index, w, j);
        let v = a.epoch_index[j].version_id;
        let k = choose|k: int| anchor_at(a.keyframes, v, k);
        let anchor = a.keyframes[k].id;
        lemma_sorted_filter_suffix(a.keyframes, keyframe_kept(anchor), k);
        assert(b.keyframes == a.keyframes.subrange(k, a.keyframes.len() as int));
        assert(b.keyframes[0] == a.keyframes[k]);
        assert forall|i: int| 0 <= i < b.deltas.len() implies (#[trigger] b.deltas[i]).id >= b.keyframes[0].id by {
            reveal(Seq::filter);
            a.deltas.lemma_filter_pred(delta_kept(anchor), i);
        }
        assert forall|id: u64| #[trigger] b.registry.contains_key(id) implies (exists|i: int|
            0 <= i < b.keyframes.len() && version_ids(#[trigger] b.keyframes[i]).contains(id)) || (
            exists|i: int| 0 <= i < b.deltas.len() && delta_ids(#[trigger] b.deltas[i]).contains(id)) by {
            assert(a.registry.contains_key(id));
            assert(!reclaimed(a, k).contains(id));
            if exists|i: int| 0 <= i < a.keyframes.len() && version_ids(#[trigger] a.keyframes[i]).contains(id) {
                let i = choose|i: int| 0 <= i < a.keyframes.len() && version_ids(#[trigger] a.keyframes[i]).contains(id);
                if i < k {
                    lemma_chain_to_anchor(a, k, i, id);
                    assert(version_ids(b.keyframes[0]).contains(id));
                } else {
                    assert(b.keyframes[i - k] == a.keyframes[i]);
                }
            } else {
                let i = choose|i: int| 0 <= i < a.deltas.len() && delta_ids(#[trigger] a.deltas[i]).contains(id);
                if a.deltas[i].id < anchor {
                    assert(version_ids(a.keyframes[k]).contains(id));
                    assert(version_ids(b.keyframes[0]).contains(id));
                } else {
                    assert(delta_kept(anchor)(a.deltas[i]));
                    a.deltas.lemma_filter_contains(delta_kept(anchor), i);
                    let q = choose|q: int| 0 <= q < b.deltas.len() && b.deltas[q] == a.deltas[i];
                    assert(delta_ids(b.deltas[q]).contains(id));
                }
            }
        }
    } else {
        if exists|j: int| latest_below(a.epoch_index, w, j) {
            let j = choose|j: int| latest_below(a.epoch_index, w, j);
            let v = a.epoch_index[j].version_id;
            assert(v == watermark_version(a, w));
            assert forall|k: int| !anchor_at(a.keyframes, v, k) by {
                if anchor_at(a.keyframes, v, k) {
                    assert(anchor_at(a.keyframes, watermark_version(a, w), k));
                }
            }
            assert(b.registry == a.registry);
            assert(b.keyframes == a.keyframes);
            assert(b.deltas == a.deltas);
        }
    }
}

/// What the commit pipeline guarantees of file ids, which are assigned once: a file that
/// a delta adds appears in no earlier keyframe and was added by no earlier delta; and a
/// file, once no longer referenced, is never referenced again, so a file that two keyframes
/// (or a delta and a later keyframe) share is in every keyframe between them.
pub open spec fn history_ok(a: ArchiveModel) -> bool {
    &&& forall|x: int, i: int, id: u64|
        0 <= x < a.deltas.len() && 0 <= i < a.keyframes.len() && a.keyframes[i].id < a.deltas[x].id
            && #[trigger] delta_ids(a.deltas[x]).contains(id) ==> !#[trigger] version_ids(a.keyframes[i]).contains(id)
    &&& forall|x: int, y: int, id: u64|
        0 <= y < x < a.deltas.len() && #[trigger] delta_ids(a.deltas[x]).contains(id)
            ==> !#[trigger] delta_ids(a.deltas[y]).contains(id)
    &&& forall|i: int, m: int, n: int, id: u64|
        0 <= i < m < n < a.keyframes.len() && #[trigger] version_ids(a.keyframes[i]).contains(id)
            && #[trigger] version_ids(a.keyframes[n]).contains(id) ==> #[trigger] version_ids(
            a.keyframes[m],
        ).contains(id)
    &&& forall|x: int, m: int, n: int, id: u64|
        0 <= x < a.deltas.len() && 0 <= m < n < a.keyframes.len() && a.deltas[x].id < a.keyframes[m].id
            && #[trigger] delta_ids(a.deltas[x]).contains(id) && #[trigger] version_ids(
            a.keyframes[n],
        ).contains(id) ==> #[trigger] version_ids(a.keyframes[m]).contains(id)
}

proof fn lemma_filter_weaker<A>(s: Seq<A>, p: spec_fn(A) -> bool, q: spec_fn(A) -> bool)
    requires
        forall|x: A| #[trigger] q(x) ==> p(x),
    ensures
        s.filter(p).filter(q) == s.filter(q),
    decreases s.len(),
{
    reveal(Seq::filter);
    if s.len() > 0 {
        lemma_filter_weaker(s.drop_last(), p, q);
        let t = s.drop_last().filter(p);
        if p(s.last()) {
            assert(t.push(s.last()).drop_last() =~= t);
        }
    }
}

proof fn lemma_filter_member<A>(s: Seq<A>, p: spec_fn(A) -> bool, i: int) -> (j: int)
    requires
        0 <= i < s.filter(p).len(),
    ensures
        0 <= j < s.len(),
        s[j] == s.filter(p)[i],
        p(s[j]),
{
    s.lemma_filter_pred(p, i);
    assert(s.filter(p).contains(s.filter(p)[i]));
    s.lemma_filter_contains_rev(p, s.filter(p)[i]);
    choose|j: int| 0 <= j < s.len() && s[j] == s.filter(p)[i]
}

/// Reclaiming history below `w` leaves unchanged what any epoch `e >= w` resolves to, when
/// it resolved before and an index row at or above `w` and at or below `e` remains to
/// resolve it; this holds of an archive whose files obey the pipeline's id discipline.
pub proof fn lemma_truncate_keeps_resolve(a: ArchiveModel, w: u64, e: u64)
    requires
        archive_wf(a),
        history_ok(a),
        w <= e,
        exists|r: int| 0 <= r < a.epoch_index.len() && w <= (#[trigger] a.epoch_index[r]).epoch <= e,
        resolve_spec(a, e) is Ok,
    ensures
        resolve_spec(truncate_spec(a, w), e) == resolve_spec(a, e),
{
    let b = truncate_spec(a, w);
    let idx = a.epoch_index;
    let j = choose|j: int| latest_at(idx, e, j);
    let t = idx[j].version_id;
    let r = choose|r: int| 0 <= r < idx.len() && w <= (#[trigger] idx[r]).epoch <= e;
    assert(idx[j].epoch >= w) by {
        if j < r {
            assert(idx[r].epoch > e);
        } else if j > r {
            assert(idx[r].epoch < idx[j].epoch);
        }
    }
    if !(exists|jb: int| latest_below(idx, w, jb)) {
        assert(b == a);
    } else {
        let jb = choose|jb: int| latest_below(idx, w, jb);
        let v = idx[jb].version_id;
        assert(jb < j) by {
            if j <= jb {
                if j < jb {
                    assert(idx[j].epoch < idx[jb].epoch);
                }
            }
        }
        assert(v <= t);
        let m = jb + 1;
        assert forall|i: int| 0 <= i < idx.len() implies (epoch_kept(w)(#[trigger] idx[i]) <==> i >= m) by {
            if i < jb {
                assert(idx[i].epoch < idx[jb].epoch);
            }
        }
        lemma_sorted_filter_suffix(idx, epoch_kept(w), m);
        let idx2 = b.epoch_index;
        assert(idx2 == idx.subrange(m, idx.len() as int));
        assert(latest_at(idx2, e, j - m)) by {
            assert forall|q: int| j - m < q < idx2.len() implies (#[trigger] idx2[q]).epoch > e by {
                assert(idx2[q] == idx[q + m]);
            }
        }
        let jb2 = choose|q: int| latest_at(idx2, e, q);
        lemma_latest_unique(idx2, e, jb2, j - m);
        assert(idx2[j - m].version_id == t);
        let ka = choose|k: int| anchor_at(a.keyframes, t, k);
        if !(exists|k: int| anchor_at(a.keyframes, v, k)) {
            assert(b.keyframes == a.keyframes);
            assert(b.deltas == a.deltas);
            assert(b.registry == a.registry);
        } else {
            let k = choose|k: int| anchor_at(a.keyframes, v, k);
            let anchor = a.keyframes[k].id;
            let kfs = a.keyframes;
            let ds = a.deltas;
            assert(k <= ka) by {
                if ka < k {
                    assert(kfs[k].id > t);
                }
            }
            lemma_sorted_filter_suffix(kfs, keyframe_kept(anchor), k);
            assert(b.keyframes == kfs.subrange(k, kfs.len() as int));
            assert(anchor_at(b.keyframes, t, ka - k)) by {
                assert forall|q: int| ka - k < q < b.keyframes.len() implies (#[trigger] b.keyframes[q]).id > t by {
                    assert(b.keyframes[q] == kfs[q + k]);
                }
            }
            let kb = choose|q: int| anchor_at(b.keyframes, t, q);
            lemma_anchor_unique(b.keyframes, t, kb, ka - k);
            let kf = kfs[ka];
            assert(b.keyframes[ka - k] == kf);
            let span = in_span(kf.id, t);
            assert forall|d: DeltaModel| #[trigger] span(d) implies delta_kept(anchor)(d) by {
                assert(kfs[k].id <= kfs[ka].id) by {
                    if k < ka {
                        assert(kfs[k].id < kfs[ka].id);
                    }
                }
            }
            lemma_filter_weaker(ds, delta_kept(anchor), span);
            assert(b.deltas.filter(span) == ds.filter(span));
            assert(reconstruct(b, t, ka - k) == reconstruct(a, t, ka));
            let rv = replay(kf, ds.filter(span))->Some_0;
            let vv = VersionModel { id: t, ..rv };
            assert(reconstruct(a, t, ka) == Some(vv));
            assert(version_ids(vv) == version_ids(rv));
            assert(version_ids(vv).subset_of(a.registry.dom()));
            assert forall|id: u64| #[trigger] version_ids(vv).contains(id) implies !reclaimed(a, k).contains(id) by {
                lemma_replay_ids(kf, ds.filter(span), id);
                if reclaimed(a, k).contains(id) {
                    if version_ids(kf).contains(id) {
                        if exists|i0: int|
                            0 <= i0 < ds.len() && (#[trigger] ds[i0]).id < anchor && delta_ids(ds[i0]).contains(id)
                                && !version_ids(kfs[k]).contains(id) {
                            let i0 = choose|i0: int|
                                0 <= i0 < ds.len() && (#[trigger] ds[i0]).id < anchor && delta_ids(ds[i0]).contains(id)
                                    && !version_ids(kfs[k]).contains(id);
                            if ka > k {
                                assert(version_ids(kfs[k]).contains(id));
                            }
                        } else {
                            let i = choose|i: int|
                                0 <= i < k && version_ids(#[trigger] kfs[i]).contains(id) && !version_ids(
                                    kfs[i + 1],
                                ).contains(id);
                            if i + 1 < ka {
                                assert(version_ids(kfs[i + 1]).contains(id));
                            }
                        }
                    } else {
                        let fs = ds.filter(span);
                        let x = choose|x: int| 0 <= x < fs.len() && delta_ids(#[trigger] fs[x]).contains(id);
                        let y = lemma_filter_member(ds, span, x);
                        assert(delta_ids(ds[y]).contains(id));
                        assert(ds[y].id > anchor) by {
                            assert(kfs[k].id <= kfs[ka].id) by {
                                if k < ka {
                                    assert(kfs[k].id < kfs[ka].id);
                                }
                            }
                        }
                        if exists|i0: int|
                            0 <= i0 < ds.len() && (#[trigger] ds[i0]).id < anchor && delta_ids(ds[i0]).contains(id)
                                && !version_ids(kfs[k]).contains(id) {
                            let i0 = choose|i0: int|
                                0 <= i0 < ds.len() && (#[trigger] ds[i0]).id < anchor && delta_ids(ds[i0]).contains(id)
                                    && !version_ids(kfs[k]).contains(id);
                            assert(i0 < y) by {
                                if i0 > y {
                                    assert(ds[y].id < ds[i0].id);
                                }
                            }
                            assert(!delta_ids(ds[i0]).contains(id));
                        } else {
                            let i = choose|i: int|
                                0 <= i < k && version_ids(#[trigger] kfs[i]).contains(id) && !version_ids(
                                    kfs[i + 1],
                                ).contains(id);
                            assert(kfs[i].id < kfs[k].id);
                            assert(!version_ids(kfs[i]).contains(id));
                        }
                    }
                }
            }
            assert forall|id: u64| #[trigger] version_ids(vv).contains(id) implies b.registry[id] == a.registry[id] by {
                assert(!reclaimed(a, k).contains(id));
            }
            lemma_refill_agree(vv, b.registry, a.registry);
            assert(version_ids(vv).subset_of(b.registry.dom()));
        }
    }
}

} // verus!
