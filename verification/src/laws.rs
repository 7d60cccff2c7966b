//! The laws a completed schedule obeys, stated over the model and proved
//! from the pass equations alone.

use vstd::prelude::*;
use crate::model::{
    EdgeModel, backward_sched, bwd_at, bwd_lf, default_finish, dur_of, ef_of, es_of, ff_of,
    forward_sched, fwd_at, fwd_vals_at, is_path, is_sink, is_source, lemma_max_ef_attained,
    lemma_max_ef_congruence, lemma_max_ef_nonneg, lemma_min_es_congruence,
    lemma_min_ls_congruence, lemma_min_ls_le, lemma_min_pointwise, lemma_sink_max_single,
    lemma_succ_es_bound, lf_of, ls_of, max_ef, min_es, min_ls, same_structure_at, tf_of,
    valid_idx, valid_rank, wf, wf_edge,
};

verus! {

/// The backward-pass results agree at `i`.
pub open spec fn bwd_vals_at(g1: Seq<EdgeModel>, g2: Seq<EdgeModel>, i: int) -> bool {
    &&& g1[i].ls == g2[i].ls
    &&& g1[i].lf == g2[i].lf
    &&& g1[i].tf == g2[i].tf
    &&& g1[i].ff == g2[i].ff
}

/// Derived-field law: after both passes, the earliest finish exceeds the
/// earliest start by exactly the duration, and likewise the latest pair.
pub proof fn lemma_derived_fields(g: Seq<EdgeModel>, f: int, i: int)
    requires
        wf(g),
        forward_sched(g),
        backward_sched(g, f),
        valid_idx(g, i),
    ensures
        g[i].es is Some && g[i].ef is Some && g[i].ls is Some && g[i].lf is Some,
        ef_of(g, i) - es_of(g, i) == dur_of(g, i),
        lf_of(g, i) - ls_of(g, i) == dur_of(g, i),
{
    assert(fwd_at(g, i));
    assert(bwd_at(g, f, i));
}

/// Float law: after both passes, every activity has
/// `0 <= free float <= total float`.
pub proof fn lemma_float_bounds(g: Seq<EdgeModel>, f: int, i: int)
    requires
        wf(g),
        forward_sched(g),
        backward_sched(g, f),
        valid_idx(g, i),
    ensures
        g[i].tf is Some && g[i].ff is Some,
        0 <= ff_of(g, i) <= tf_of(g, i),
{
    assert(fwd_at(g, i));
    assert(bwd_at(g, f, i));
    assert(tf_of(g, i) == ls_of(g, i) - es_of(g, i));
    assert(ef_of(g, i) == es_of(g, i) + dur_of(g, i));
    assert(ls_of(g, i) == bwd_lf(g, f, i) - dur_of(g, i));
    if is_sink(g, i) {
        // for a sink both floats measure against the project finish
        assert(bwd_lf(g, f, i) == f);
        assert(ff_of(g, i) == f - ef_of(g, i));
        assert(tf_of(g, i) == f - dur_of(g, i) - es_of(g, i));
    } else {
        lemma_succ_es_bound(g, i);
        assert(ff_of(g, i) >= 0);
        assert forall|k: int| 0 <= k < g[i].next.len() implies ls_of(g, #[trigger] g[i].next[k])
            >= es_of(g, g[i].next[k]) by {
            let s = g[i].next[k];
            assert(wf_edge(g, i));
            assert(valid_idx(g, s));
            assert(bwd_at(g, f, s));
        }
        lemma_min_pointwise(g, g[i].next);
        assert(min_ls(g, g[i].next) >= min_es(g, g[i].next));
    }
}

/// Single-sink law: on a network with a single source and a single sink,
/// scheduled against the default project finish, the sink has zero total
/// float — the finishing activity is always critical.
pub proof fn lemma_single_sink_critical(g: Seq<EdgeModel>, s0: int, s1: int)
    requires
        wf(g),
        forward_sched(g),
        backward_sched(g, default_finish(g)),
        valid_idx(g, s0),
        is_source(g, s0),
        forall|j: int| valid_idx(g, j) && #[trigger] is_source(g, j) ==> j == s0,
        valid_idx(g, s1),
        is_sink(g, s1),
        forall|j: int| valid_idx(g, j) && #[trigger] is_sink(g, j) ==> j == s1,
    ensures
        g[s1].tf == Some(0int),
{
    let f = default_finish(g);
    assert(fwd_at(g, s1));
    assert(bwd_at(g, f, s1));
    assert(wf_edge(g, s1));
    lemma_max_ef_nonneg(g, g[s1].prev);
    assert(ef_of(g, s1) >= 0);
    lemma_sink_max_single(g, s1, g.len() as int);
    assert(f == ef_of(g, s1));
    assert(bwd_lf(g, f, s1) == f);
    assert(ls_of(g, s1) == f - dur_of(g, s1));
    assert(ef_of(g, s1) == es_of(g, s1) + dur_of(g, s1));
    assert(tf_of(g, s1) == 0);
}

proof fn lemma_bwd_unique_at(
    g1: Seq<EdgeModel>,
    g2: Seq<EdgeModel>,
    f: int,
    rank: Seq<int>,
    i: int,
)
    requires
        wf(g1),
        g1.len() == g2.len(),
        forall|j: int| valid_idx(g1, j) ==> #[trigger] same_structure_at(g1, g2, j),
        forall|j: int| valid_idx(g1, j) ==> #[trigger] fwd_vals_at(g1, g2, j),
        valid_rank(g1, rank),
        backward_sched(g1, f),
        backward_sched(g2, f),
        valid_idx(g1, i),
    ensures
        bwd_vals_at(g1, g2, i),
    decreases g1.len() - rank[i],
{
    assert(bwd_at(g1, f, i));
    assert(bwd_at(g2, f, i));
    assert(same_structure_at(g1, g2, i));
    assert(fwd_vals_at(g1, g2, i));
    assert(g2[i].next == g1[i].next);
    if !is_sink(g1, i) {
        assert forall|k: int| 0 <= k < g1[i].next.len() implies g1[#[trigger] g1[i].next[k]].ls
            == g2[g1[i].next[k]].ls by {
            let s = g1[i].next[k];
            assert(wf_edge(g1, i));
            assert(valid_idx(g1, s));
            assert(rank[i] < rank[s]);
            lemma_bwd_unique_at(g1, g2, f, rank, s);
        }
        lemma_min_ls_congruence(g1, g2, g1[i].next);
        assert forall|k: int| 0 <= k < g1[i].next.len() implies g1[#[trigger] g1[i].next[k]].es
            == g2[g1[i].next[k]].es by {
            let s = g1[i].next[k];
            assert(wf_edge(g1, i));
            assert(valid_idx(g1, s));
            assert(fwd_vals_at(g1, g2, s));
        }
        lemma_min_es_congruence(g1, g2, g1[i].next);
    }
}

/// Idempotence law: the backward equations have exactly one solution over
/// given forward results and project finish. Two networks that agree in
/// structure, durations and forward results, and both satisfy the backward
/// equations for the same finish, carry identical latest starts, latest
/// finishes, total floats and free floats — so re-running the backward pass
/// with the same finish reproduces every value.
pub proof fn lemma_backward_deterministic(
    g1: Seq<EdgeModel>,
    g2: Seq<EdgeModel>,
    f: int,
    rank: Seq<int>,
)
    requires
        wf(g1),
        g1.len() == g2.len(),
        forall|j: int| valid_idx(g1, j) ==> #[trigger] same_structure_at(g1, g2, j),
        forall|j: int| valid_idx(g1, j) ==> #[trigger] fwd_vals_at(g1, g2, j),
        valid_rank(g1, rank),
        backward_sched(g1, f),
        backward_sched(g2, f),
    ensures
        forall|i: int| valid_idx(g1, i) ==> #[trigger] bwd_vals_at(g1, g2, i),
{
    assert forall|i: int| valid_idx(g1, i) implies #[trigger] bwd_vals_at(g1, g2, i) by {
        lemma_bwd_unique_at(g1, g2, f, rank, i);
    }
}

proof fn lemma_fwd_unique_at(g1: Seq<EdgeModel>, g2: Seq<EdgeModel>, rank: Seq<int>, i: int)
    requires
        wf(g1),
        g1.len() == g2.len(),
        forall|j: int| valid_idx(g1, j) ==> #[trigger] same_structure_at(g1, g2, j),
        valid_rank(g1, rank),
        forward_sched(g1),
        forward_sched(g2),
        valid_idx(g1, i),
    ensures
        fwd_vals_at(g1, g2, i),
    decreases rank[i],
{
    assert(fwd_at(g1, i));
    assert(fwd_at(g2, i));
    assert(same_structure_at(g1, g2, i));
    assert(g2[i].prev == g1[i].prev);
    assert forall|k: int| 0 <= k < g1[i].prev.len() implies g1[#[trigger] g1[i].prev[k]].ef
        == g2[g1[i].prev[k]].ef by {
        let q = g1[i].prev[k];
        assert(wf_edge(g1, i));
        assert(valid_idx(g1, q));
        assert(g1[i].prev.contains(q));
        assert(g1[q].next.contains(i));
        let k2 = choose|k2: int| 0 <= k2 < g1[q].next.len() && g1[q].next[k2] == i;
        assert(rank[q] < rank[g1[q].next[k2]]);
        lemma_fwd_unique_at(g1, g2, rank, q);
        assert(fwd_vals_at(g1, g2, q));
    }
    lemma_max_ef_congruence(g1, g2, g1[i].prev);
}

/// Confluence law: the forward equations have exactly one solution on an
/// acyclic network. Two networks of the same structure and durations that
/// both satisfy them carry identical earliest starts and finishes — so the
/// computed values do not depend on the order in which independent
/// activities were processed.
pub proof fn lemma_forward_deterministic(g1: Seq<EdgeModel>, g2: Seq<EdgeModel>, rank: Seq<int>)
    requires
        wf(g1),
        g1.len() == g2.len(),
        forall|j: int| valid_idx(g1, j) ==> #[trigger] same_structure_at(g1, g2, j),
        valid_rank(g1, rank),
        forward_sched(g1),
        forward_sched(g2),
    ensures
        forall|i: int| valid_idx(g1, i) ==> #[trigger] fwd_vals_at(g1, g2, i),
{
    assert forall|i: int| valid_idx(g1, i) implies #[trigger] fwd_vals_at(g1, g2, i) by {
        lemma_fwd_unique_at(g1, g2, rank, i);
    }
}

proof fn build_critical_path_back(
    g: Seq<EdgeModel>,
    f: int,
    rank: Seq<int>,
    i: int,
) -> (p: Seq<int>)
    requires
        wf(g),
        forward_sched(g),
        backward_sched(g, f),
        valid_rank(g, rank),
        valid_idx(g, i),
        g[i].tf == Some(0int),
    ensures
        is_path(g, p),
        p.last() == i,
        is_source(g, p.first()),
        forall|k: int| 0 <= k < p.len() ==> g[#[trigger] p[k]].tf == Some(0int),
    decreases rank[i],
{
    assert(fwd_at(g, i));
    assert(bwd_at(g, f, i));
    assert(wf_edge(g, i));
    if g[i].prev.len() == 0 {
        let p = seq![i];
        assert(is_path(g, p));
        p
    } else {
        // a predecessor attaining the maximum finishes exactly when `i`
        // starts at the earliest; it is critical too
        assert forall|k: int| 0 <= k < g[i].prev.len() implies ef_of(g, #[trigger] g[i].prev[k])
            >= 0 by {
            let q = g[i].prev[k];
            assert(valid_idx(g, q));
            assert(fwd_at(g, q));
            assert(wf_edge(g, q));
            lemma_max_ef_nonneg(g, g[q].prev);
        }
        lemma_max_ef_attained(g, g[i].prev);
        let k = choose|k: int|
            0 <= k < g[i].prev.len() && ef_of(g, #[trigger] g[i].prev[k]) == max_ef(g, g[i].prev);
        let q = g[i].prev[k];
        assert(valid_idx(g, q));
        assert(fwd_at(g, q));
        assert(bwd_at(g, f, q));
        assert(g[i].prev.contains(q));
        assert(g[q].next.contains(i));
        let k2 = choose|k2: int| 0 <= k2 < g[q].next.len() && g[q].next[k2] == i;
        assert(rank[q] < rank[g[q].next[k2]]);
        // total float zero at `i` forces it at `q`
        assert(ls_of(g, i) == es_of(g, i));
        assert(es_of(g, i) == max_ef(g, g[i].prev));
        assert(ef_of(g, q) == es_of(g, i));
        assert(!is_sink(g, q));
        lemma_min_ls_le(g, g[q].next, k2);
        assert(bwd_lf(g, f, q) <= ls_of(g, i));
        assert(ls_of(g, q) == bwd_lf(g, f, q) - dur_of(g, q));
        assert(ef_of(g, q) == es_of(g, q) + dur_of(g, q));
        assert(ls_of(g, q) - es_of(g, q) <= 0);
        assert(es_of(g, q) <= ls_of(g, q));
        assert(g[q].tf == Some(ls_of(g, q) - es_of(g, q)));
        assert(g[q].tf == Some(0int));
        let p0 = build_critical_path_back(g, f, rank, q);
        let p = p0.push(i);
        assert forall|m: int| 0 < m < p.len() implies g[p[m - 1]].next.contains(
            #[trigger] p[m],
        ) by {
            if m < p0.len() {
                assert(p[m] == p0[m]);
                assert(p[m - 1] == p0[m - 1]);
            } else {
                assert(p[m] == i);
                assert(p[m - 1] == p0[p0.len() - 1]);
                assert(p0.last() == q);
            }
        }
        assert(is_path(g, p));
        assert(p.first() == p0.first());
        p
    }
}

/// Critical-path existence law: on a network with a single source and a
/// single sink, scheduled against the default project finish, some path from
/// the source to the sink consists entirely of activities with zero total
/// float.
pub proof fn lemma_critical_path_exists(
    g: Seq<EdgeModel>,
    rank: Seq<int>,
    s0: int,
    s1: int,
) -> (p: Seq<int>)
    requires
        wf(g),
        forward_sched(g),
        backward_sched(g, default_finish(g)),
        valid_rank(g, rank),
        valid_idx(g, s0),
        is_source(g, s0),
        forall|j: int| valid_idx(g, j) && #[trigger] is_source(g, j) ==> j == s0,
        valid_idx(g, s1),
        is_sink(g, s1),
        forall|j: int| valid_idx(g, j) && #[trigger] is_sink(g, j) ==> j == s1,
    ensures
        is_path(g, p),
        p.first() == s0,
        p.last() == s1,
        forall|k: int| 0 <= k < p.len() ==> g[#[trigger] p[k]].tf == Some(0int),
{
    lemma_single_sink_critical(g, s0, s1);
    let p = build_critical_path_back(g, default_finish(g), rank, s1);
    assert(is_source(g, p.first()));
    assert(p.first() == s0);
    p
}

} // verus!
