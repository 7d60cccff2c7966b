//! External-facing assembly: build a whole network from raw activity
//! records, validating identifiers, referential integrity and acyclicity.

use vstd::prelude::*;
use crate::graph::{Graph, SchedulingError};
use crate::model::{
    clear_model, has_id, idx_of, lemma_add_edge_props, lemma_clear_model_props, new_edge_model,
    valid_idx,
};

verus! {

/// One raw activity definition: identifier, duration, and the identifiers of
/// the activities that must finish before it starts.
pub struct ActivityRecord {
    pub id: u64,
    pub duration: usize,
    pub predecessor_ids: Vec<u64>,
}

/// Sum of the durations of the first `k` records.
pub open spec fn rec_dur_to(rs: Seq<ActivityRecord>, k: int) -> int
    decreases k,
{
    if k <= 0 {
        0
    } else {
        rec_dur_to(rs, k - 1) + rs[k - 1].duration as int
    }
}

pub open spec fn rec_dur(rs: Seq<ActivityRecord>) -> int {
    rec_dur_to(rs, rs.len() as int)
}

pub open spec fn rec_ids_unique(rs: Seq<ActivityRecord>) -> bool {
    forall|i: int, j: int|
        0 <= i < j < rs.len() ==> (#[trigger] rs[i].id) != (#[trigger] rs[j].id)
}

pub open spec fn rec_has_id(rs: Seq<ActivityRecord>, id: u64) -> bool {
    exists|j: int| 0 <= j < rs.len() && (#[trigger] rs[j].id) == id
}

/// Every predecessor identifier names some record.
pub open spec fn rec_preds_present(rs: Seq<ActivityRecord>) -> bool {
    forall|i: int, k: int|
        0 <= i < rs.len() && 0 <= k < rs[i].predecessor_ids@.len() ==> rec_has_id(
            rs,
            #[trigger] rs[i].predecessor_ids@[k],
        )
}

/// Record `i` lists the identifier `pid` among its predecessors.
pub open spec fn rec_lists_pred(rs: Seq<ActivityRecord>, i: int, pid: int) -> bool {
    exists|k: int|
        0 <= k < rs[i].predecessor_ids@.len() && (#[trigger] rs[i].predecessor_ids@[k]) as int
            == pid
}

/// A topological numbering of the records themselves: whenever record `i`
/// lists the identifier of record `j` as a predecessor, `j` is numbered
/// strictly below `i`. One exists exactly when the recorded predecessor
/// relation is acyclic.
pub open spec fn rec_rank_ok(rs: Seq<ActivityRecord>, rank: Seq<int>) -> bool {
    &&& rank.len() == rs.len()
    &&& forall|i: int| 0 <= i < rs.len() ==> 0 <= #[trigger] rank[i] < rs.len()
    &&& forall|i: int, k: int, j: int|
        0 <= i < rs.len() && 0 <= k < rs[i].predecessor_ids@.len() && 0 <= j < rs.len() && (
        #[trigger] rs[j].id) == (#[trigger] rs[i].predecessor_ids@[k]) ==> rank[j] < rank[i]
}

pub open spec fn records_acyclic(rs: Seq<ActivityRecord>) -> bool {
    exists|rank: Seq<int>| rec_rank_ok(rs, rank)
}

/// Record `i` lists `pid` strictly before the cursor (`hi`, `hk`): among a
/// record before `hi`, or at an index below `hk` of record `hi` itself.
pub open spec fn rec_lists_pred_before(
    rs: Seq<ActivityRecord>,
    i: int,
    pid: int,
    hi: int,
    hk: int,
) -> bool {
    exists|k: int|
        0 <= k < rs[i].predecessor_ids@.len() && (i < hi || (i == hi && k < hk)) && (
        #[trigger] rs[i].predecessor_ids@[k]) as int == pid
}

proof fn lemma_rec_dur_mono(rs: Seq<ActivityRecord>, k: int)
    requires
        0 <= k <= rs.len(),
    ensures
        rec_dur_to(rs, k) <= rec_dur(rs),
        rec_dur_to(rs, k) >= 0,
    decreases rs.len() - k,
{
    if k < rs.len() {
        lemma_rec_dur_mono(rs, k + 1);
    }
    if k > 0 {
        lemma_rec_dur_nonneg(rs, k);
    }
}

proof fn lemma_rec_dur_nonneg(rs: Seq<ActivityRecord>, k: int)
    ensures
        rec_dur_to(rs, k) >= 0,
    decreases k,
{
    if k > 0 {
        lemma_rec_dur_nonneg(rs, k - 1);
    }
}


/// One wiring step: after linking the predecessor named `pid` before record
/// `i` (a no-op when the edge already existed), exactly the record entries
/// strictly before cursor (`i`, `k + 1`) are realised as edges, and every
/// edge still ascends the record numbering.
proof fn lemma_wire_step(
    rs: Seq<ActivityRecord>,
    g1: Seq<crate::model::EdgeModel>,
    g2: Seq<crate::model::EdgeModel>,
    rrank: Seq<int>,
    ar: bool,
    pid: u64,
    i: int,
    k: int,
)
    requires
        crate::model::wf(g1),
        g1.len() == rs.len(),
        0 <= i < rs.len(),
        0 <= k < rs[i].predecessor_ids@.len(),
        rs[i].predecessor_ids@[k] == pid,
        has_id(g1, pid as int),
        forall|j: int| 0 <= j < g1.len() ==> (#[trigger] g1[j].id) == rs[j].id as int,
        forall|i2: int, p: int|
            valid_idx(g1, i2) && valid_idx(g1, p) ==> ((#[trigger] g1[i2].prev.contains(p))
                <==> rec_lists_pred_before(rs, i2, g1[p].id, i, k)),
        ar ==> rec_rank_ok(rs, rrank),
        ar ==> (forall|p: int, q: int|
            valid_idx(g1, p) && valid_idx(g1, q) && #[trigger] g1[p].next.contains(q) ==> rrank[p]
                < rrank[q]),
        ({
            let f = idx_of(g1, pid as int);
            let t = i;
            &&& (g1[f].next.contains(t) ==> g2 == g1)
            &&& (!g1[f].next.contains(t) ==> !crate::model::reaches(g1, t, f) && g2
                == crate::model::link_model(g1, f, t))
        }),
    ensures
        g2.len() == g1.len(),
        forall|j: int|
            0 <= j < g2.len() ==> (#[trigger] g2[j].id) == g1[j].id && g2[j].cost == g1[j].cost,
        forall|i2: int, p: int|
            valid_idx(g2, i2) && valid_idx(g2, p) ==> ((#[trigger] g2[i2].prev.contains(p))
                <==> rec_lists_pred_before(rs, i2, g2[p].id, i, k + 1)),
        ar ==> (forall|p: int, q: int|
            valid_idx(g2, p) && valid_idx(g2, q) && #[trigger] g2[p].next.contains(q) ==> rrank[p]
                < rrank[q]),
{
    let f = idx_of(g1, pid as int);
    let t = i;
    assert(valid_idx(g1, f) && g1[f].id == pid as int);
    assert(rs[f].id == pid);
    if g1[f].next.contains(t) {
        assert(g2 == g1);
        assert(g1[t].prev.contains(f));
    } else {
        if f == t {
            crate::model::lemma_reach_refl(g1, t);
            assert(false);
        }
        lemma_clear_model_props(g1);
        let c = clear_model(g1);
        assert(!c[f].next.contains(t));
        lemma_add_edge_props(c, f, t);
        assert(g2 == crate::model::add_edge_model(c, f, t));
    }
    if ar {
        assert forall|p: int, q: int|
            valid_idx(g2, p) && valid_idx(g2, q) && #[trigger] g2[p].next.contains(q) implies
            rrank[p] < rrank[q] by {
            if g1[f].next.contains(t) {
                assert(g2 == g1);
            } else {
                if p == f {
                    if q == t {
                        assert(rs[i].predecessor_ids@[k] == pid);
                    } else {
                        crate::model::lemma_push_contains(g1[p].next, t, q);
                        assert(g1[p].next.contains(q));
                    }
                } else {
                    assert(g2[p].next == g1[p].next);
                    assert(g1[p].next.contains(q));
                }
            }
        }
    }
    assert forall|i2: int, p: int|
        valid_idx(g2, i2) && valid_idx(g2, p) implies ((#[trigger] g2[i2].prev.contains(p))
            <==> rec_lists_pred_before(rs, i2, g2[p].id, i, k + 1)) by {
        assert(g2[p].id == g1[p].id);
        assert(g2[i2].prev == (if i2 == t && !g1[f].next.contains(t) {
            g1[i2].prev.push(f)
        } else {
            g1[i2].prev
        }));
        if g2[i2].prev.contains(p) {
            if i2 == t && !g1[f].next.contains(t) && p == f {
                assert(rec_lists_pred_before(rs, i2, g2[p].id, i, k + 1)) by {
                    assert(rs[i].predecessor_ids@[k] as int == g2[p].id);
                }
            } else {
                if i2 == t && !g1[f].next.contains(t) {
                    crate::model::lemma_push_contains(g1[i2].prev, f, p);
                }
                assert(g1[i2].prev.contains(p));
                assert(rec_lists_pred_before(rs, i2, g1[p].id, i, k));
            }
        }
        if rec_lists_pred_before(rs, i2, g2[p].id, i, k + 1) {
            let k2 = choose|k2: int|
                0 <= k2 < rs[i2].predecessor_ids@.len() && (i2 < i || (i2 == i && k2 < k + 1))
                    && (#[trigger] rs[i2].predecessor_ids@[k2]) as int == g2[p].id;
            if i2 < i || (i2 == i && k2 < k) {
                assert(rec_lists_pred_before(rs, i2, g1[p].id, i, k));
                assert(g1[i2].prev.contains(p));
                if i2 == t && !g1[f].next.contains(t) {
                    let mm = choose|mm: int| 0 <= mm < g1[i2].prev.len() && g1[i2].prev[mm] == p;
                    assert(g2[i2].prev[mm] == p);
                }
                assert(g2[i2].prev.contains(p));
            } else {
                // the cursor entry itself names `pid`, so `p` is the linked
                // predecessor
                assert(i2 == i && k2 == k);
                assert(g2[p].id == pid as int);
                assert(p == f) by {
                    assert(g1[p].id == pid as int);
                    assert(g1[f].id == pid as int);
                }
                if g1[f].next.contains(t) {
                    assert(g1[t].prev.contains(f));
                } else {
                    assert(g2[t].prev.last() == f);
                }
                assert(g2[i2].prev.contains(p));
            }
        }
    }
}


/// No path leads from record `i` back to the predecessor it lists at `k`
/// when the recorded relation carries a topological numbering: the refused
/// link of an acyclic record set cannot happen.
proof fn lemma_no_back_reach(
    rs: Seq<ActivityRecord>,
    g1: Seq<crate::model::EdgeModel>,
    rrank: Seq<int>,
    pid: u64,
    i: int,
    k: int,
)
    requires
        crate::model::wf(g1),
        g1.len() == rs.len(),
        0 <= i < rs.len(),
        0 <= k < rs[i].predecessor_ids@.len(),
        rs[i].predecessor_ids@[k] == pid,
        has_id(g1, pid as int),
        forall|j: int| 0 <= j < g1.len() ==> (#[trigger] g1[j].id) == rs[j].id as int,
        rec_rank_ok(rs, rrank),
        forall|p: int, q: int|
            valid_idx(g1, p) && valid_idx(g1, q) && #[trigger] g1[p].next.contains(q) ==> rrank[p]
                < rrank[q],
    ensures
        !crate::model::reaches(g1, i, idx_of(g1, pid as int)),
{
    let f = idx_of(g1, pid as int);
    assert(valid_idx(g1, f) && g1[f].id == pid as int);
    assert(rs[f].id == pid);
    assert(rrank[f] < rrank[i]) by {
        assert(rs[i].predecessor_ids@[k] == pid);
    }
    if crate::model::reaches(g1, i, f) {
        let pth = choose|pth: Seq<int>|
            crate::model::is_path(g1, pth) && pth.first() == i && pth.last() == f;
        assert(crate::model::valid_rank(g1, rrank)) by {
            assert forall|p: int, q: int|
                valid_idx(g1, p) && 0 <= q < g1[p].next.len() implies rrank[p] < rrank[
            #[trigger] g1[p].next[q]] by {
                assert(g1[p].next.contains(g1[p].next[q]));
                assert(crate::model::wf_edge(g1, p));
                assert(valid_idx(g1, g1[p].next[q]));
            }
        }
        crate::model::lemma_path_rank(g1, rrank, pth);
        assert(false);
    }
}

/// Assemble a network from raw records: create every activity first, then
/// check that every predecessor identifier is known, then wire all links.
/// Duplicate identifiers are rejected with `DuplicateId`, a predecessor
/// identifier naming no record with `UnknownActivity`, and a predecessor
/// relation that closes a cycle with `CycleDetected`. On success the graph
/// holds exactly the recorded activities, with an edge from `p` to `i`
/// exactly when record `i` lists the identifier of `p` as a predecessor.
#[verifier::rlimit(30)]
pub fn build_graph(records: &Vec<ActivityRecord>) -> (r: Result<Graph, SchedulingError>)
    requires
        rec_dur(records@) <= usize::MAX,
    ensures
        (match r {
            Ok(g) => {
                &&& g.inv()
                &&& !g.spec_forward_done()
                &&& !g.spec_backward_done()
                &&& g@.len() == records@.len()
                &&& rec_ids_unique(records@)
                &&& rec_preds_present(records@)
                &&& forall|i: int|
                    0 <= i < records@.len() ==> (#[trigger] g@[i].id) == records@[i].id as int
                        && g@[i].cost == Some(records@[i].duration as int)
                &&& forall|i: int, p: int|
                    valid_idx(g@, i) && valid_idx(g@, p) ==> ((#[trigger] g@[i].prev.contains(p))
                        <==> rec_lists_pred(records@, i, g@[p].id))
            },
            Err(e) => {
                &&& (!rec_ids_unique(records@) ==> e == SchedulingError::DuplicateId)
                &&& (rec_ids_unique(records@) && !rec_preds_present(records@) ==> e
                    == SchedulingError::UnknownActivity)
                &&& (rec_ids_unique(records@) && rec_preds_present(records@) ==> e
                    == SchedulingError::CycleDetected)
                &&& !(rec_ids_unique(records@) && rec_preds_present(records@) && records_acyclic(
                    records@,
                ))
            },
        }),
{
    let n = records.len();
    let mut g = Graph::new();
    // create the activities
    let mut i: usize = 0;
    while i < n
        invariant
            rec_dur(records@) <= usize::MAX,
            n == records@.len(),
            g.inv(),
            !g.spec_forward_done(),
            !g.spec_backward_done(),
            g@.len() == i,
            i <= n,
            crate::model::sum_dur(g@) == rec_dur_to(records@, i as int),
            forall|j: int|
                0 <= j < i ==> (#[trigger] g@[j]) == new_edge_model(
                    records@[j].id as int,
                    records@[j].duration as int,
                ),
        decreases n - i,
    {
        proof {
            lemma_rec_dur_mono(records@, i as int + 1);
            g.lemma_inv_facts();
        }
        let ghost g0 = g@;
        match g.add_activity(records[i].id, records[i].duration) {
            Ok(_) => {
                proof {
                    lemma_clear_model_props(g0);
                    assert(clear_model(g0) =~= g0) by {
                        assert forall|j: int| 0 <= j < g0.len() implies clear_model(g0)[j] == g0[j] by {
                            assert(clear_model(g0)[j] == crate::model::clear_edge(g0[j]));
                            assert(g0[j] == new_edge_model(
                                records@[j].id as int,
                                records@[j].duration as int,
                            ));
                            assert(clear_model(g0)[j] =~= g0[j]);
                        }
                    }
                    assert(g@ == g0.push(
                        new_edge_model(records@[i as int].id as int, records@[i as int].duration as int),
                    ));
                    crate::model::lemma_sum_dur_congruence(g@, g0, i as int);
                    assert(crate::model::sum_dur_to(g@, i as int + 1)
                        == crate::model::sum_dur_to(g@, i as int) + crate::model::dur_of(
                        g@,
                        i as int,
                    ));
                }
            },
            Err(e) => {
                proof {
                    // the identifier repeats one of an earlier record
                    assert(has_id(g0, records@[i as int].id as int));
                    let j = choose|j: int|
                        valid_idx(g0, j) && #[trigger] g0[j].id == records@[i as int].id as int;
                    assert(records@[j].id == records@[i as int].id);
                    assert(!rec_ids_unique(records@));
                }
                return Err(e);
            },
        }
        i += 1;
    }
    proof {
        // unique arena identifiers mean unique record identifiers
        assert forall|i1: int, j1: int|
            0 <= i1 < j1 < records@.len() implies (#[trigger] records@[i1].id) != (
        #[trigger] records@[j1].id) by {
            g.lemma_inv_facts();
            assert(g@[i1].id == records@[i1].id as int);
            assert(g@[j1].id == records@[j1].id as int);
            assert(g@[i1].id != g@[j1].id);
        }
    }
    // check referential integrity before wiring anything
    let mut i: usize = 0;
    while i < n
        invariant
            n == records@.len(),
            g.inv(),
            g@.len() == n,
            i <= n,
            rec_ids_unique(records@),
            forall|j: int|
                0 <= j < n ==> (#[trigger] g@[j].id) == records@[j].id as int,
            forall|i2: int, k: int|
                0 <= i2 < i && 0 <= k < records@[i2].predecessor_ids@.len() ==> rec_has_id(
                    records@,
                    #[trigger] records@[i2].predecessor_ids@[k],
                ),
        decreases n - i,
    {
        let m = records[i].predecessor_ids.len();
        let mut k: usize = 0;
        while k < m
            invariant
                n == records@.len(),
                g.inv(),
                g@.len() == n,
                i < n,
                k <= m,
                m == records@[i as int].predecessor_ids@.len(),
                rec_ids_unique(records@),
                forall|j: int|
                    0 <= j < n ==> (#[trigger] g@[j].id) == records@[j].id as int,
                forall|k2: int|
                    0 <= k2 < k ==> rec_has_id(
                        records@,
                        #[trigger] records@[i as int].predecessor_ids@[k2],
                    ),
            decreases m - k,
        {
            let pid = records[i].predecessor_ids[k];
            match g.find_index(pid) {
                Some(j) => {
                    proof {
                        assert(g@[j as int].id == pid as int);
                        assert(records@[j as int].id == pid);
                        assert(rec_has_id(records@, pid));
                    }
                },
                None => {
                    proof {
                        assert forall|j: int| 0 <= j < records@.len() implies (
                        #[trigger] records@[j].id) != pid by {
                            assert(g@[j].id == records@[j].id as int);
                            assert(g@[j].id != pid as int);
                        }
                        assert(!rec_has_id(records@, pid));
                        assert(!rec_preds_present(records@));
                    }
                    return Err(SchedulingError::UnknownActivity);
                },
            }
            k += 1;
        }
        i += 1;
    }
    proof {
        assert(rec_preds_present(records@));
    }
    // wire the links; when the recorded relation is acyclic, a topological
    // numbering of the records witnesses that no link can be refused
    let ghost ar = records_acyclic(records@);
    let ghost rrank: Seq<int> = choose|rk: Seq<int>| #[trigger] rec_rank_ok(records@, rk);
    let mut i: usize = 0;
    while i < n
        invariant
            n == records@.len(),
            g.inv(),
            !g.spec_forward_done(),
            !g.spec_backward_done(),
            g@.len() == n,
            i <= n,
            rec_ids_unique(records@),
            rec_preds_present(records@),
            forall|j: int|
                0 <= j < n ==> (#[trigger] g@[j].id) == records@[j].id as int && g@[j].cost
                    == Some(records@[j].duration as int),
            forall|i2: int, p: int|
                valid_idx(g@, i2) && valid_idx(g@, p) ==> ((#[trigger] g@[i2].prev.contains(p))
                    <==> rec_lists_pred_before(records@, i2, g@[p].id, i as int, 0)),
            ar == records_acyclic(records@),
            ar ==> rec_rank_ok(records@, rrank),
            ar ==> (forall|p: int, q: int|
                valid_idx(g@, p) && valid_idx(g@, q) && #[trigger] g@[p].next.contains(q)
                    ==> rrank[p] < rrank[q]),
        decreases n - i,
    {
        let to_id = records[i].id;
        let m = records[i].predecessor_ids.len();
        let mut k: usize = 0;
        while k < m
            invariant
                n == records@.len(),
                g.inv(),
                !g.spec_forward_done(),
                !g.spec_backward_done(),
                g@.len() == n,
                i < n,
                k <= m,
                m == records@[i as int].predecessor_ids@.len(),
                to_id == records@[i as int].id,
                rec_ids_unique(records@),
                rec_preds_present(records@),
                forall|j: int|
                    0 <= j < n ==> (#[trigger] g@[j].id) == records@[j].id as int && g@[j].cost
                        == Some(records@[j].duration as int),
                forall|i2: int, p: int|
                    valid_idx(g@, i2) && valid_idx(g@, p) ==> ((#[trigger] g@[i2].prev.contains(p))
                        <==> rec_lists_pred_before(records@, i2, g@[p].id, i as int, k as int)),
                ar == records_acyclic(records@),
                ar ==> rec_rank_ok(records@, rrank),
                ar ==> (forall|p: int, q: int|
                    valid_idx(g@, p) && valid_idx(g@, q) && #[trigger] g@[p].next.contains(q)
                        ==> rrank[p] < rrank[q]),
            decreases m - k,
        {
            let pid = records[i].predecessor_ids[k];
            proof {
                // both identifiers name activities of the arena
                assert(rec_has_id(records@, pid));
                let j = choose|j: int|
                    0 <= j < records@.len() && (#[trigger] records@[j].id) == pid;
                assert(g@[j].id == pid as int);
                assert(has_id(g@, pid as int));
                assert(g@[i as int].id == to_id as int);
                assert(has_id(g@, to_id as int));
            }
            proof {
                g.lemma_inv_facts();
            }
            let ghost g1 = g@;
            let res = g.link(pid, to_id);
            proof {
                let f = idx_of(g1, pid as int);
                let t = idx_of(g1, to_id as int);
                assert(valid_idx(g1, f) && g1[f].id == pid as int);
                assert(valid_idx(g1, t) && g1[t].id == to_id as int);
                assert(crate::model::wf(g1));
                assert(t == i as int) by {
                    assert(g1[i as int].id == to_id as int);
                }
            }
            match res {
                Ok(_) => {},
                Err(e) => {
                    proof {
                        assert(e == SchedulingError::CycleDetected);
                        if ar {
                            lemma_no_back_reach(records@, g1, rrank, pid, i as int, k as int);
                        }
                    }
                    return Err(SchedulingError::CycleDetected);
                },
            }
            proof {
                let f = idx_of(g1, pid as int);
                let t = i as int;
                assert(g1[f].next.contains(t) ==> g@ == g1);
                assert(!g1[f].next.contains(t) ==> !crate::model::reaches(g1, t, f) && g@
                    == crate::model::link_model(g1, f, t));
                lemma_wire_step(records@, g1, g@, rrank, ar, pid, i as int, k as int);
            }
            k += 1;
        }
        proof {
            assert forall|i2: int, p: int|
                valid_idx(g@, i2) && valid_idx(g@, p) implies ((#[trigger] g@[i2].prev.contains(
                p,
            )) <==> rec_lists_pred_before(records@, i2, g@[p].id, i as int + 1, 0)) by {
                assert(g@[i2].prev.contains(p) <==> rec_lists_pred_before(
                    records@,
                    i2,
                    g@[p].id,
                    i as int,
                    m as int,
                ));
            }
        }
        i += 1;
    }
    proof {
        assert forall|i2: int, p: int|
            valid_idx(g@, i2) && valid_idx(g@, p) implies ((#[trigger] g@[i2].prev.contains(p))
                <==> rec_lists_pred(records@, i2, g@[p].id)) by {
            assert(g@[i2].prev.contains(p) <==> rec_lists_pred_before(
                records@,
                i2,
                g@[p].id,
                n as int,
                0,
            ));
        }
    }
    Ok(g)
}

} // verus!
