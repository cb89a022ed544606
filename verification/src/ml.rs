//! Which previews the embedding and quality models still have to see.
use vstd::prelude::*;

verus! {

/// Summary of an ML run.
pub struct MlReport {
    pub embedded: u64,
    pub iqa_scored: u64,
    pub errored: u64,
}

impl Default for MlReport {
    fn default() -> (r: Self)
        ensures
            r.embedded == 0 && r.iqa_scored == 0 && r.errored == 0,
    {
        MlReport { embedded: 0, iqa_scored: 0, errored: 0 }
    }
}

/// A file the catalog lists as needing a model's result: its id, path and
/// content hash.
pub struct NeedsMl {
    pub file_id: i64,
    pub path: String,
    pub content_hash: u128,
}

/// One file to load once and run the wanted models on.
pub struct MlWork {
    pub file_id: i64,
    pub path: String,
    pub content_hash: u128,
    pub want_embedding: bool,
    pub want_iqa: bool,
}

pub open spec fn ids_of(v: Seq<NeedsMl>) -> Seq<i64> {
    v.map_values(|n: NeedsMl| n.file_id)
}

/// The first listing of each file in `v`.
pub open spec fn first_listing(v: Seq<NeedsMl>, i: int) -> bool {
    !ids_of(v.take(i)).contains(v[i].file_id)
}

/// `(file_id, path, hash, want_embedding, want_iqa)` of a work item.
pub open spec fn work_view(w: MlWork) -> (i64, Seq<char>, u128, bool, bool) {
    (w.file_id, w.path@, w.content_hash, w.want_embedding, w.want_iqa)
}

/// The work items for the files of `v` from index `i` on that `keep` admits,
/// each taken from its first listing.
pub open spec fn work_from(
    v: Seq<NeedsMl>,
    n: int,
    emb_part: bool,
    emb: Seq<NeedsMl>,
    iqa: Seq<NeedsMl>,
) -> Seq<(i64, Seq<char>, u128, bool, bool)>
    decreases n,
{
    if n <= 0 || n > v.len() {
        Seq::empty()
    } else {
        let i = n - 1;
        let x = v[i];
        let prev = work_from(v, i, emb_part, emb, iqa);
        if !first_listing(v, i) {
            prev
        } else if emb_part {
            prev.push((x.file_id, x.path@, x.content_hash, true, ids_of(iqa).contains(x.file_id)))
        } else if ids_of(emb).contains(x.file_id) {
            prev
        } else {
            prev.push((x.file_id, x.path@, x.content_hash, false, true))
        }
    }
}

/// The union work list: every file that needs an embedding (marked with
/// whether it needs a quality score too), then every file that needs only a
/// quality score; one item per file, with the path and hash of its first
/// listing.
pub open spec fn work_list_spec(emb: Seq<NeedsMl>, iqa: Seq<NeedsMl>) -> Seq<(i64, Seq<char>, u128, bool, bool)> {
    work_from(emb, emb.len() as int, true, emb, iqa) + work_from(iqa, iqa.len() as int, false, emb, iqa)
}

fn lists_id(v: &[NeedsMl], end: usize, id: i64) -> (r: bool)
    requires
        end <= v@.len(),
    ensures
        r == ids_of(v@.take(end as int)).contains(id),
{
    for j in 0..end
        invariant
            end <= v@.len(),
            forall|k: int| 0 <= k < j ==> v@[k].file_id != id,
    {
        if v[j].file_id == id {
            proof {
                assert(ids_of(v@.take(end as int))[j as int] == id);
            }
            return true;
        }
    }
    proof {
        if ids_of(v@.take(end as int)).contains(id) {
            let k = choose|k: int| 0 <= k < ids_of(v@.take(end as int)).len() && ids_of(v@.take(end as int))[k] == id;
            assert(v@[k].file_id == id);
        }
    }
    false
}

fn work_part(v: &[NeedsMl], emb_part: bool, emb: &[NeedsMl], iqa: &[NeedsMl], out: &mut Vec<MlWork>)
    ensures
        final(out)@.map_values(|w: MlWork| work_view(w)) == old(out)@.map_values(|w: MlWork| work_view(w))
            + work_from(v@, v@.len() as int, emb_part, emb@, iqa@),
{
    let ghost start = out@.map_values(|w: MlWork| work_view(w));
    for i in 0..v.len()
        invariant
            out@.map_values(|w: MlWork| work_view(w)) == start + work_from(v@, i as int, emb_part, emb@, iqa@),
    {
        let x = &v[i];
        let ghost before = out@.map_values(|w: MlWork| work_view(w));
        proof {
            assert(ids_of(v@.take(i as int)) == ids_of(v@).take(i as int));
        }
        if !lists_id(v, i, x.file_id) {
            if emb_part {
                let want_iqa = lists_id(iqa, iqa.len(), x.file_id);
                proof {
                    assert(iqa@.take(iqa@.len() as int) =~= iqa@);
                }
                out.push(MlWork {
                    file_id: x.file_id,
                    path: x.path.clone(),
                    content_hash: x.content_hash,
                    want_embedding: true,
                    want_iqa,
                });
                proof {
                    assert(out@.map_values(|w: MlWork| work_view(w)) =~= before.push(work_view(out@.last())));
                }
            } else if !lists_id(emb, emb.len(), x.file_id) {
                proof {
                    assert(emb@.take(emb@.len() as int) =~= emb@);
                }
                out.push(MlWork {
                    file_id: x.file_id,
                    path: x.path.clone(),
                    content_hash: x.content_hash,
                    want_embedding: false,
                    want_iqa: true,
                });
                proof {
                    assert(out@.map_values(|w: MlWork| work_view(w)) =~= before.push(work_view(out@.last())));
                }
            } else {
                proof {
                    assert(emb@.take(emb@.len() as int) =~= emb@);
                }
            }
        }
    }
}

/// Merge the files needing an embedding and those needing a quality score
/// into one work list, so each preview is loaded once and both models run in
/// the same pass.
pub fn ml_work_list(emb: &[NeedsMl], iqa: &[NeedsMl]) -> (r: Vec<MlWork>)
    ensures
        r@.map_values(|w: MlWork| work_view(w)) == work_list_spec(emb@, iqa@),
{
    let mut out: Vec<MlWork> = Vec::new();
    proof {
        assert(out@.map_values(|w: MlWork| work_view(w)) =~= Seq::<(i64, Seq<char>, u128, bool, bool)>::empty());
    }
    work_part(emb, true, emb, iqa, &mut out);
    work_part(iqa, false, emb, iqa, &mut out);
    proof {
        assert(out@.map_values(|w: MlWork| work_view(w)) =~= work_list_spec(emb@, iqa@));
    }
    out
}

proof fn lemma_work_from(v: Seq<NeedsMl>, n: int, emb_part: bool, emb: Seq<NeedsMl>, iqa: Seq<NeedsMl>)
    requires
        0 <= n <= v.len(),
    ensures
        ({
            let w = work_from(v, n, emb_part, emb, iqa);
            &&& forall|i: int, j: int| 0 <= i < j < w.len() ==> (#[trigger] w[i]).0 != (#[trigger] w[j]).0
            &&& forall|i: int|
                0 <= i < w.len() ==> {
                    &&& ids_of(v.take(n)).contains((#[trigger] w[i]).0)
                    &&& emb_part ==> w[i].3 && w[i].4 == ids_of(iqa).contains(w[i].0)
                    &&& !emb_part ==> !ids_of(emb).contains(w[i].0) && !w[i].3 && w[i].4
                }
            &&& forall|id: i64|
                #[trigger] ids_of(v.take(n)).contains(id) && (emb_part || !ids_of(emb).contains(id)) ==> exists|
                    i: int,
                | 0 <= i < w.len() && (#[trigger] w[i]).0 == id
        }),
    decreases n,
{
    let w = work_from(v, n, emb_part, emb, iqa);
    if n == 0 {
        assert(ids_of(v.take(0)) =~= Seq::<i64>::empty());
    } else {
        let i = n - 1;
        lemma_work_from(v, i, emb_part, emb, iqa);
        let prev = work_from(v, i, emb_part, emb, iqa);
        let x = v[i];
        assert(ids_of(v.take(n)) =~= ids_of(v.take(i)).push(x.file_id));
        assert(ids_of(v.take(i)) == ids_of(v).take(i)) by {
            assert(ids_of(v.take(i)) =~= ids_of(v).take(i));
        }
        assert forall|id: i64|
            #[trigger] ids_of(v.take(n)).contains(id) && (emb_part || !ids_of(emb).contains(id)) implies exists|
                k: int,
            | 0 <= k < w.len() && (#[trigger] w[k]).0 == id by {
            if ids_of(v.take(i)).contains(id) {
                let k = choose|k: int| 0 <= k < prev.len() && (#[trigger] prev[k]).0 == id;
                assert(w[k] == prev[k]);
            } else {
                assert(id == x.file_id);
                assert(first_listing(v, i));
                assert(w[prev.len() as int].0 == id);
            }
        }
        assert forall|a: int| 0 <= a < w.len() implies ids_of(v.take(n)).contains((#[trigger] w[a]).0) by {
            if a < prev.len() {
                assert(w[a] == prev[a]);
                let k = choose|k: int| 0 <= k < ids_of(v.take(i)).len() && ids_of(v.take(i))[k] == prev[a].0;
                assert(ids_of(v.take(n))[k] == prev[a].0);
            } else {
                assert(ids_of(v.take(n))[i] == x.file_id);
            }
        }
        assert forall|a: int, b: int| 0 <= a < b < w.len() implies (#[trigger] w[a]).0 != (#[trigger] w[b]).0 by {
            if b < prev.len() {
                assert(w[a] == prev[a] && w[b] == prev[b]);
            } else {
                assert(w[a] == prev[a]);
                assert(first_listing(v, i));
                assert(ids_of(v.take(i)).contains(prev[a].0));
            }
        }
    }
}

/// Each file that needs any model's result is in the work list exactly once,
/// marked for exactly the models it needs, so its preview is loaded once.
pub proof fn lemma_ml_work_once(emb: Seq<NeedsMl>, iqa: Seq<NeedsMl>)
    ensures
        ({
            let w = work_list_spec(emb, iqa);
            &&& forall|i: int, j: int| 0 <= i < j < w.len() ==> (#[trigger] w[i]).0 != (#[trigger] w[j]).0
            &&& forall|i: int|
                0 <= i < w.len() ==> (#[trigger] w[i]).3 == ids_of(emb).contains(w[i].0) && w[i].4 == ids_of(
                    iqa,
                ).contains(w[i].0) && (ids_of(emb).contains(w[i].0) || ids_of(iqa).contains(w[i].0))
            &&& forall|id: i64|
                ids_of(emb).contains(id) || ids_of(iqa).contains(id) ==> exists|i: int|
                    0 <= i < w.len() && (#[trigger] w[i]).0 == id
        }),
{
    lemma_work_from(emb, emb.len() as int, true, emb, iqa);
    lemma_work_from(iqa, iqa.len() as int, false, emb, iqa);
    assert(emb.take(emb.len() as int) =~= emb);
    assert(iqa.take(iqa.len() as int) =~= iqa);
    let e = work_from(emb, emb.len() as int, true, emb, iqa);
    let q = work_from(iqa, iqa.len() as int, false, emb, iqa);
    let w = work_list_spec(emb, iqa);
    assert forall|i: int, j: int| 0 <= i < j < w.len() implies (#[trigger] w[i]).0 != (#[trigger] w[j]).0 by {
        if j < e.len() {
            assert(w[i] == e[i] && w[j] == e[j]);
        } else if i >= e.len() {
            assert(w[i] == q[i - e.len()] && w[j] == q[j - e.len()]);
        } else {
            assert(w[i] == e[i] && w[j] == q[j - e.len()]);
        }
    }
    assert forall|i: int| 0 <= i < w.len() implies (#[trigger] w[i]).3 == ids_of(emb).contains(w[i].0) && w[i].4
        == ids_of(iqa).contains(w[i].0) && (ids_of(emb).contains(w[i].0) || ids_of(iqa).contains(w[i].0)) by {
        if i < e.len() {
            assert(w[i] == e[i]);
        } else {
            assert(w[i] == q[i - e.len()]);
        }
    }
    assert forall|id: i64| ids_of(emb).contains(id) || ids_of(iqa).contains(id) implies exists|i: int|
        0 <= i < w.len() && (#[trigger] w[i]).0 == id by {
        if ids_of(emb).contains(id) {
            assert(ids_of(emb.take(emb.len() as int)).contains(id));
            let k = choose|k: int| 0 <= k < e.len() && (#[trigger] e[k]).0 == id;
            assert(w[k] == e[k]);
        } else {
            assert(ids_of(iqa.take(iqa.len() as int)).contains(id));
            let k = choose|k: int| 0 <= k < q.len() && (#[trigger] q[k]).0 == id;
            assert(w[e.len() + k] == q[k]);
        }
    }
}

} // verus!
