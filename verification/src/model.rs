//! Mathematical model of an activity-on-arrow network.
//!
//! Activities are edges of the diagram; the model of a network is a sequence
//! of `EdgeModel` records, one per activity, with adjacency given as index
//! sequences into that same sequence.

use vstd::prelude::*;

verus! {

/// Ghost record of one activity: identity, duration, the six schedule
/// quantities (each `None` until the pass that computes it has run), and
/// successor/predecessor adjacency as indices into the owning sequence.
#[verifier::ext_equal]
pub struct EdgeModel {
    pub id: int,
    pub cost: Option<int>,
    pub es: Option<int>,
    pub ef: Option<int>,
    pub ls: Option<int>,
    pub lf: Option<int>,
    pub tf: Option<int>,
    pub ff: Option<int>,
    pub next: Seq<int>,
    pub prev: Seq<int>,
}

pub open spec fn valid_idx(g: Seq<EdgeModel>, i: int) -> bool {
    0 <= i < g.len()
}

pub open spec fn dur_of(g: Seq<EdgeModel>, i: int) -> int {
    g[i].cost->0
}

pub open spec fn es_of(g: Seq<EdgeModel>, i: int) -> int {
    g[i].es->0
}

pub open spec fn ef_of(g: Seq<EdgeModel>, i: int) -> int {
    g[i].ef->0
}

pub open spec fn ls_of(g: Seq<EdgeModel>, i: int) -> int {
    g[i].ls->0
}

pub open spec fn lf_of(g: Seq<EdgeModel>, i: int) -> int {
    g[i].lf->0
}

pub open spec fn tf_of(g: Seq<EdgeModel>, i: int) -> int {
    g[i].tf->0
}

pub open spec fn ff_of(g: Seq<EdgeModel>, i: int) -> int {
    g[i].ff->0
}

/// An activity with no successors: its finish bounds the project finish.
pub open spec fn is_sink(g: Seq<EdgeModel>, i: int) -> bool {
    g[i].next.len() == 0
}

/// An activity with no predecessors: it may start at the project start.
pub open spec fn is_source(g: Seq<EdgeModel>, i: int) -> bool {
    g[i].prev.len() == 0
}

/// Local well-formedness of one activity: a known non-negative duration and
/// duplicate-free, in-range adjacency lists.
pub open spec fn wf_edge(g: Seq<EdgeModel>, i: int) -> bool {
    &&& g[i].cost is Some
    &&& 0 <= dur_of(g, i)
    &&& g[i].next.no_duplicates()
    &&& g[i].prev.no_duplicates()
    &&& forall|k: int| 0 <= k < g[i].next.len() ==> valid_idx(g, #[trigger] g[i].next[k])
    &&& forall|k: int| 0 <= k < g[i].prev.len() ==> valid_idx(g, #[trigger] g[i].prev[k])
}

/// Well-formedness of the whole network: every activity well formed, the
/// successor and predecessor relations mutually inverse, and identifiers
/// unique.
pub open spec fn wf(g: Seq<EdgeModel>) -> bool {
    &&& forall|i: int| valid_idx(g, i) ==> #[trigger] wf_edge(g, i)
    &&& forall|i: int, j: int|
        valid_idx(g, i) && valid_idx(g, j) ==> (#[trigger] g[i].next.contains(j)
            <==> #[trigger] g[j].prev.contains(i))
    &&& forall|i: int, j: int|
        valid_idx(g, i) && valid_idx(g, j) && i != j ==> #[trigger] g[i].id != #[trigger] g[j].id
}

pub open spec fn has_id(g: Seq<EdgeModel>, id: int) -> bool {
    exists|i: int| valid_idx(g, i) && #[trigger] g[i].id == id
}

pub open spec fn idx_of(g: Seq<EdgeModel>, id: int) -> int {
    choose|i: int| valid_idx(g, i) && #[trigger] g[i].id == id
}

// ---------------------------------------------------------------------------
// Aggregation over adjacency lists
// ---------------------------------------------------------------------------

/// Maximum earliest finish over the listed activities; 0 when the list is
/// empty, so that a source activity starts at the project start.
pub open spec fn max_ef(g: Seq<EdgeModel>, ids: Seq<int>) -> int
    decreases ids.len(),
{
    if ids.len() == 0 {
        0
    } else {
        let rest = max_ef(g, ids.drop_last());
        let e = ef_of(g, ids.last());
        if e > rest {
            e
        } else {
            rest
        }
    }
}

/// Minimum latest start over the listed activities; meaningful only for a
/// non-empty list.
pub open spec fn min_ls(g: Seq<EdgeModel>, ids: Seq<int>) -> int
    decreases ids.len(),
{
    if ids.len() <= 1 {
        ls_of(g, ids[0])
    } else {
        let rest = min_ls(g, ids.drop_last());
        let e = ls_of(g, ids.last());
        if e < rest {
            e
        } else {
            rest
        }
    }
}

/// Minimum earliest start over the listed activities; meaningful only for a
/// non-empty list.
pub open spec fn min_es(g: Seq<EdgeModel>, ids: Seq<int>) -> int
    decreases ids.len(),
{
    if ids.len() <= 1 {
        es_of(g, ids[0])
    } else {
        let rest = min_es(g, ids.drop_last());
        let e = es_of(g, ids.last());
        if e < rest {
            e
        } else {
            rest
        }
    }
}

// ---------------------------------------------------------------------------
// The schedule equations
// ---------------------------------------------------------------------------

/// The earliest start the forward pass owes activity `i`.
pub open spec fn fwd_es(g: Seq<EdgeModel>, i: int) -> int {
    max_ef(g, g[i].prev)
}

/// Forward-pass equations at activity `i`: the earliest start is the maximum
/// earliest finish over the predecessors (0 for a source), and the earliest
/// finish is start plus duration.
pub open spec fn fwd_at(g: Seq<EdgeModel>, i: int) -> bool {
    &&& g[i].es == Some(fwd_es(g, i))
    &&& g[i].ef == Some(fwd_es(g, i) + dur_of(g, i))
}

pub open spec fn forward_sched(g: Seq<EdgeModel>) -> bool {
    forall|i: int| valid_idx(g, i) ==> #[trigger] fwd_at(g, i)
}

/// The latest finish the backward pass owes activity `i`, for project finish
/// `f`.
pub open spec fn bwd_lf(g: Seq<EdgeModel>, f: int, i: int) -> int {
    if is_sink(g, i) {
        f
    } else {
        min_ls(g, g[i].next)
    }
}

/// The earliest moment some successor of `i` starts (the project finish for a
/// sink): the bound that free float is measured against.
pub open spec fn succ_start(g: Seq<EdgeModel>, f: int, i: int) -> int {
    if is_sink(g, i) {
        f
    } else {
        min_es(g, g[i].next)
    }
}

/// Backward-pass equations at activity `i`: the latest finish is the minimum
/// latest start over the successors (the project finish for a sink), the
/// latest start is finish minus duration, and the two floats are derived.
pub open spec fn bwd_at(g: Seq<EdgeModel>, f: int, i: int) -> bool {
    &&& g[i].lf == Some(bwd_lf(g, f, i))
    &&& g[i].ls == Some(bwd_lf(g, f, i) - dur_of(g, i))
    &&& es_of(g, i) <= ls_of(g, i)
    &&& g[i].tf == Some(ls_of(g, i) - es_of(g, i))
    &&& g[i].ff == Some(succ_start(g, f, i) - ef_of(g, i))
}

pub open spec fn backward_sched(g: Seq<EdgeModel>, f: int) -> bool {
    forall|i: int| valid_idx(g, i) ==> #[trigger] bwd_at(g, f, i)
}

/// Maximum earliest finish over the sinks among the first `k` activities.
pub open spec fn sink_max_to(g: Seq<EdgeModel>, k: int) -> int
    decreases k,
{
    if k <= 0 {
        0
    } else {
        let rest = sink_max_to(g, k - 1);
        if is_sink(g, k - 1) && ef_of(g, k - 1) > rest {
            ef_of(g, k - 1)
        } else {
            rest
        }
    }
}

/// The project finish the backward pass uses when none is supplied: the
/// maximum earliest finish over the sink activities.
pub open spec fn default_finish(g: Seq<EdgeModel>) -> int {
    sink_max_to(g, g.len() as int)
}

// ---------------------------------------------------------------------------
// Acyclicity via ranks, and paths
// ---------------------------------------------------------------------------

/// A rank assignment that strictly increases along every successor edge: a
/// topological numbering. One exists exactly when the network is acyclic.
pub open spec fn valid_rank(g: Seq<EdgeModel>, rank: Seq<int>) -> bool {
    &&& rank.len() == g.len()
    &&& forall|i: int| valid_idx(g, i) ==> 0 <= #[trigger] rank[i] < g.len()
    &&& forall|i: int, k: int|
        valid_idx(g, i) && 0 <= k < g[i].next.len() ==> rank[i] < rank[#[trigger] g[i].next[k]]
}

pub open spec fn acyclic(g: Seq<EdgeModel>) -> bool {
    exists|rank: Seq<int>| valid_rank(g, rank)
}

/// A walk along successor edges, given as the sequence of visited activities.
pub open spec fn is_path(g: Seq<EdgeModel>, p: Seq<int>) -> bool {
    &&& p.len() >= 1
    &&& forall|k: int| 0 <= k < p.len() ==> valid_idx(g, #[trigger] p[k])
    &&& forall|k: int| 0 < k < p.len() ==> g[p[k - 1]].next.contains(#[trigger] p[k])
}

/// `to` can be reached from `from` along successor edges (in zero or more
/// steps).
pub open spec fn reaches(g: Seq<EdgeModel>, from: int, to: int) -> bool {
    exists|p: Seq<int>| is_path(g, p) && p.first() == from && p.last() == to
}

// ---------------------------------------------------------------------------
// Sums and counts, for overflow bounds and termination
// ---------------------------------------------------------------------------

/// Sum of the durations of the first `k` activities.
pub open spec fn sum_dur_to(g: Seq<EdgeModel>, k: int) -> int
    decreases k,
{
    if k <= 0 {
        0
    } else {
        sum_dur_to(g, k - 1) + dur_of(g, k - 1)
    }
}

pub open spec fn sum_dur(g: Seq<EdgeModel>) -> int {
    sum_dur_to(g, g.len() as int)
}

/// Sum of the durations of those of the first `k` activities whose earliest
/// start is still unknown.
pub open spec fn pending_to(g: Seq<EdgeModel>, k: int) -> int
    decreases k,
{
    if k <= 0 {
        0
    } else {
        pending_to(g, k - 1) + if g[k - 1].es is None {
            dur_of(g, k - 1)
        } else {
            0
        }
    }
}

pub open spec fn pending(g: Seq<EdgeModel>) -> int {
    pending_to(g, g.len() as int)
}

/// How many of the first `k` activities have no earliest start yet.
pub open spec fn unknown_count_to(g: Seq<EdgeModel>, k: int) -> int
    decreases k,
{
    if k <= 0 {
        0
    } else {
        unknown_count_to(g, k - 1) + if g[k - 1].es is None {
            1int
        } else {
            0int
        }
    }
}

pub open spec fn unknown_count(g: Seq<EdgeModel>) -> int {
    unknown_count_to(g, g.len() as int)
}

// ---------------------------------------------------------------------------
// Relating two networks
// ---------------------------------------------------------------------------

/// Identity, duration and adjacency agree at `i`; the schedule fields may
/// differ.
pub open spec fn same_structure_at(g1: Seq<EdgeModel>, g2: Seq<EdgeModel>, i: int) -> bool {
    &&& g1[i].id == g2[i].id
    &&& g1[i].cost == g2[i].cost
    &&& g1[i].next == g2[i].next
    &&& g1[i].prev == g2[i].prev
}

pub open spec fn same_structure(g1: Seq<EdgeModel>, g2: Seq<EdgeModel>) -> bool {
    &&& g1.len() == g2.len()
    &&& forall|i: int| valid_idx(g1, i) ==> #[trigger] same_structure_at(g1, g2, i)
}

/// The forward-pass results agree at `i`.
pub open spec fn fwd_vals_at(g1: Seq<EdgeModel>, g2: Seq<EdgeModel>, i: int) -> bool {
    g1[i].es == g2[i].es && g1[i].ef == g2[i].ef
}

/// Structure and the forward-pass results agree at every activity.
pub open spec fn same_forward(g1: Seq<EdgeModel>, g2: Seq<EdgeModel>) -> bool {
    &&& same_structure(g1, g2)
    &&& forall|i: int| valid_idx(g1, i) ==> #[trigger] fwd_vals_at(g1, g2, i)
}

/// `e` with all six schedule quantities forgotten.
pub open spec fn clear_edge(e: EdgeModel) -> EdgeModel {
    EdgeModel {
        id: e.id,
        cost: e.cost,
        es: None,
        ef: None,
        ls: None,
        lf: None,
        tf: None,
        ff: None,
        next: e.next,
        prev: e.prev,
    }
}

pub open spec fn clear_model(g: Seq<EdgeModel>) -> Seq<EdgeModel> {
    g.map_values(|e: EdgeModel| clear_edge(e))
}

/// `e` with `t` appended to its successors.
pub open spec fn with_next(e: EdgeModel, t: int) -> EdgeModel {
    EdgeModel {
        id: e.id,
        cost: e.cost,
        es: e.es,
        ef: e.ef,
        ls: e.ls,
        lf: e.lf,
        tf: e.tf,
        ff: e.ff,
        next: e.next.push(t),
        prev: e.prev,
    }
}

/// `e` with `f` appended to its predecessors.
pub open spec fn with_prev(e: EdgeModel, f: int) -> EdgeModel {
    EdgeModel {
        id: e.id,
        cost: e.cost,
        es: e.es,
        ef: e.ef,
        ls: e.ls,
        lf: e.lf,
        tf: e.tf,
        ff: e.ff,
        next: e.next,
        prev: e.prev.push(f),
    }
}

/// `t` appended to the successors of `f` and `f` to the predecessors of `t`,
/// in one atomic step (for distinct `f` and `t`).
pub open spec fn add_edge_model(g: Seq<EdgeModel>, f: int, t: int) -> Seq<EdgeModel> {
    g.update(f, with_next(g[f], t)).update(t, with_prev(g[t], f))
}

/// The network after the atomic link of `f` before `t` (for distinct `f` and
/// `t`): the edge added and the schedule forgotten.
pub open spec fn link_model(g: Seq<EdgeModel>, f: int, t: int) -> Seq<EdgeModel> {
    add_edge_model(clear_model(g), f, t)
}

/// The schedule fields a fresh or freshly relinked activity must not carry.
pub open spec fn fwd_clear_at(g: Seq<EdgeModel>, i: int) -> bool {
    g[i].es is None && g[i].ef is None
}

pub open spec fn bwd_clear_at(g: Seq<EdgeModel>, i: int) -> bool {
    g[i].ls is None && g[i].lf is None && g[i].tf is None && g[i].ff is None
}

pub open spec fn fwd_cleared(g: Seq<EdgeModel>) -> bool {
    forall|i: int| valid_idx(g, i) ==> #[trigger] fwd_clear_at(g, i)
}

pub open spec fn bwd_cleared(g: Seq<EdgeModel>) -> bool {
    forall|i: int| valid_idx(g, i) ==> #[trigger] bwd_clear_at(g, i)
}

/// A brand-new activity: known duration, no adjacency, no schedule.
pub open spec fn new_edge_model(id: int, dur: int) -> EdgeModel {
    EdgeModel {
        id: id,
        cost: Some(dur),
        es: None,
        ef: None,
        ls: None,
        lf: None,
        tf: None,
        ff: None,
        next: Seq::empty(),
        prev: Seq::empty(),
    }
}

/// A topological order `topo` with its position map `rank`: mutually inverse,
/// and `rank` strictly increases along successor edges.
pub open spec fn topo_ok(g: Seq<EdgeModel>, topo: Seq<usize>, rank: Seq<int>) -> bool {
    &&& valid_rank(g, rank)
    &&& topo.len() == g.len()
    &&& forall|k: int|
        0 <= k < topo.len() ==> valid_idx(g, #[trigger] topo[k] as int) && rank[topo[k] as int]
            == k
    &&& forall|i: int| valid_idx(g, i) ==> topo[#[trigger] rank[i]] as int == i
}

/// The visited set of a traversal is closed under successor edges.
pub open spec fn closed_under_next(g: Seq<EdgeModel>, vis: Seq<bool>) -> bool {
    forall|i: int, k: int|
        valid_idx(g, i) && vis[i] && 0 <= k < g[i].next.len() ==> vis[#[trigger] g[i].next[k]]
}

/// How many entries of a traversal's visited set are set.
pub open spec fn count_true(s: Seq<bool>) -> int
    decreases s.len(),
{
    if s.len() == 0 {
        0
    } else {
        count_true(s.drop_last()) + if s.last() {
            1int
        } else {
            0int
        }
    }
}

// ---------------------------------------------------------------------------
// Lemmas about the aggregations
// ---------------------------------------------------------------------------

pub proof fn lemma_max_ef_nonneg(g: Seq<EdgeModel>, ids: Seq<int>)
    ensures
        max_ef(g, ids) >= 0,
    decreases ids.len(),
{
    if ids.len() > 0 {
        lemma_max_ef_nonneg(g, ids.drop_last());
    }
}

pub proof fn lemma_max_ef_ge(g: Seq<EdgeModel>, ids: Seq<int>, k: int)
    requires
        0 <= k < ids.len(),
    ensures
        max_ef(g, ids) >= ef_of(g, ids[k]),
    decreases ids.len(),
{
    if k < ids.len() - 1 {
        lemma_max_ef_ge(g, ids.drop_last(), k);
        assert(ids.drop_last()[k] == ids[k]);
    }
}

pub proof fn lemma_max_ef_le(g: Seq<EdgeModel>, ids: Seq<int>, b: int)
    requires
        b >= 0,
        forall|k: int| 0 <= k < ids.len() ==> ef_of(g, #[trigger] ids[k]) <= b,
    ensures
        max_ef(g, ids) <= b,
    decreases ids.len(),
{
    if ids.len() > 0 {
        assert forall|k: int| 0 <= k < ids.drop_last().len() implies ef_of(
            g,
            #[trigger] ids.drop_last()[k],
        ) <= b by {
            assert(ids.drop_last()[k] == ids[k]);
        }
        lemma_max_ef_le(g, ids.drop_last(), b);
    }
}

pub proof fn lemma_max_ef_attained(g: Seq<EdgeModel>, ids: Seq<int>)
    requires
        ids.len() > 0,
        forall|k: int| 0 <= k < ids.len() ==> ef_of(g, #[trigger] ids[k]) >= 0,
    ensures
        exists|k: int| 0 <= k < ids.len() && ef_of(g, #[trigger] ids[k]) == max_ef(g, ids),
    decreases ids.len(),
{
    if ids.len() == 1 {
        assert(ids.drop_last().len() == 0);
        assert(max_ef(g, ids.drop_last()) == 0);
        assert(ef_of(g, ids[0]) == max_ef(g, ids));
    } else {
        let rest = max_ef(g, ids.drop_last());
        let e = ef_of(g, ids.last());
        if e > rest {
            assert(ef_of(g, ids[ids.len() - 1]) == max_ef(g, ids));
        } else {
            assert forall|k: int| 0 <= k < ids.drop_last().len() implies ef_of(
                g,
                #[trigger] ids.drop_last()[k],
            ) >= 0 by {
                assert(ids.drop_last()[k] == ids[k]);
            }
            lemma_max_ef_attained(g, ids.drop_last());
            let k = choose|k: int|
                0 <= k < ids.drop_last().len() && ef_of(g, #[trigger] ids.drop_last()[k]) == rest;
            assert(ids.drop_last()[k] == ids[k]);
            assert(ef_of(g, ids[k]) == max_ef(g, ids));
        }
    }
}

pub proof fn lemma_max_ef_congruence(g1: Seq<EdgeModel>, g2: Seq<EdgeModel>, ids: Seq<int>)
    requires
        forall|k: int| 0 <= k < ids.len() ==> g1[#[trigger] ids[k]].ef == g2[ids[k]].ef,
    ensures
        max_ef(g1, ids) == max_ef(g2, ids),
    decreases ids.len(),
{
    if ids.len() > 0 {
        assert forall|k: int| 0 <= k < ids.drop_last().len() implies g1[#[trigger] ids.drop_last()[k]].ef
            == g2[ids.drop_last()[k]].ef by {
            assert(ids.drop_last()[k] == ids[k]);
        }
        lemma_max_ef_congruence(g1, g2, ids.drop_last());
    }
}

pub proof fn lemma_min_ls_le(g: Seq<EdgeModel>, ids: Seq<int>, k: int)
    requires
        0 <= k < ids.len(),
    ensures
        min_ls(g, ids) <= ls_of(g, ids[k]),
    decreases ids.len(),
{
    if k < ids.len() - 1 {
        lemma_min_ls_le(g, ids.drop_last(), k);
        assert(ids.drop_last()[k] == ids[k]);
    }
}

pub proof fn lemma_min_ls_ge(g: Seq<EdgeModel>, ids: Seq<int>, b: int)
    requires
        ids.len() > 0,
        forall|k: int| 0 <= k < ids.len() ==> ls_of(g, #[trigger] ids[k]) >= b,
    ensures
        min_ls(g, ids) >= b,
    decreases ids.len(),
{
    if ids.len() > 1 {
        assert forall|k: int| 0 <= k < ids.drop_last().len() implies ls_of(
            g,
            #[trigger] ids.drop_last()[k],
        ) >= b by {
            assert(ids.drop_last()[k] == ids[k]);
        }
        lemma_min_ls_ge(g, ids.drop_last(), b);
    }
}

pub proof fn lemma_min_ls_congruence(g1: Seq<EdgeModel>, g2: Seq<EdgeModel>, ids: Seq<int>)
    requires
        ids.len() > 0,
        forall|k: int| 0 <= k < ids.len() ==> g1[#[trigger] ids[k]].ls == g2[ids[k]].ls,
    ensures
        min_ls(g1, ids) == min_ls(g2, ids),
    decreases ids.len(),
{
    if ids.len() == 1 {
        assert(g1[ids[0]].ls == g2[ids[0]].ls);
    } else {
        assert forall|k: int| 0 <= k < ids.drop_last().len() implies g1[#[trigger] ids.drop_last()[k]].ls
            == g2[ids.drop_last()[k]].ls by {
            assert(ids.drop_last()[k] == ids[k]);
        }
        lemma_min_ls_congruence(g1, g2, ids.drop_last());
        assert(g1[ids[ids.len() - 1]].ls == g2[ids[ids.len() - 1]].ls);
    }
}

pub proof fn lemma_min_es_le(g: Seq<EdgeModel>, ids: Seq<int>, k: int)
    requires
        0 <= k < ids.len(),
    ensures
        min_es(g, ids) <= es_of(g, ids[k]),
    decreases ids.len(),
{
    if k < ids.len() - 1 {
        lemma_min_es_le(g, ids.drop_last(), k);
        assert(ids.drop_last()[k] == ids[k]);
    }
}

pub proof fn lemma_min_es_ge(g: Seq<EdgeModel>, ids: Seq<int>, b: int)
    requires
        ids.len() > 0,
        forall|k: int| 0 <= k < ids.len() ==> es_of(g, #[trigger] ids[k]) >= b,
    ensures
        min_es(g, ids) >= b,
    decreases ids.len(),
{
    if ids.len() > 1 {
        assert forall|k: int| 0 <= k < ids.drop_last().len() implies es_of(
            g,
            #[trigger] ids.drop_last()[k],
        ) >= b by {
            assert(ids.drop_last()[k] == ids[k]);
        }
        lemma_min_es_ge(g, ids.drop_last(), b);
    }
}

pub proof fn lemma_min_es_congruence(g1: Seq<EdgeModel>, g2: Seq<EdgeModel>, ids: Seq<int>)
    requires
        ids.len() > 0,
        forall|k: int| 0 <= k < ids.len() ==> g1[#[trigger] ids[k]].es == g2[ids[k]].es,
    ensures
        min_es(g1, ids) == min_es(g2, ids),
    decreases ids.len(),
{
    if ids.len() == 1 {
        assert(g1[ids[0]].es == g2[ids[0]].es);
    } else {
        assert forall|k: int| 0 <= k < ids.drop_last().len() implies g1[#[trigger] ids.drop_last()[k]].es
            == g2[ids.drop_last()[k]].es by {
            assert(ids.drop_last()[k] == ids[k]);
        }
        lemma_min_es_congruence(g1, g2, ids.drop_last());
        assert(g1[ids[ids.len() - 1]].es == g2[ids[ids.len() - 1]].es);
    }
}

/// The minimum latest start dominates the minimum earliest start when it does
/// so member by member.
pub proof fn lemma_min_pointwise(g: Seq<EdgeModel>, ids: Seq<int>)
    requires
        ids.len() > 0,
        forall|k: int| 0 <= k < ids.len() ==> ls_of(g, #[trigger] ids[k]) >= es_of(g, ids[k]),
    ensures
        min_ls(g, ids) >= min_es(g, ids),
    decreases ids.len(),
{
    if ids.len() > 1 {
        assert forall|k: int| 0 <= k < ids.drop_last().len() implies ls_of(
            g,
            #[trigger] ids.drop_last()[k],
        ) >= es_of(g, ids.drop_last()[k]) by {
            assert(ids.drop_last()[k] == ids[k]);
        }
        lemma_min_pointwise(g, ids.drop_last());
        lemma_min_es_le(g, ids, ids.len() - 1);
    }
}

// ---------------------------------------------------------------------------
// Lemmas about the sink maximum
// ---------------------------------------------------------------------------

pub proof fn lemma_sink_max_nonneg(g: Seq<EdgeModel>, k: int)
    ensures
        sink_max_to(g, k) >= 0,
    decreases k,
{
    if k > 0 {
        lemma_sink_max_nonneg(g, k - 1);
    }
}

pub proof fn lemma_sink_max_ge(g: Seq<EdgeModel>, i: int, k: int)
    requires
        0 <= i < k,
        is_sink(g, i),
    ensures
        sink_max_to(g, k) >= ef_of(g, i),
    decreases k,
{
    if i < k - 1 {
        lemma_sink_max_ge(g, i, k - 1);
    }
}

pub proof fn lemma_sink_max_le(g: Seq<EdgeModel>, k: int, b: int)
    requires
        b >= 0,
        forall|i: int| 0 <= i < k && #[trigger] is_sink(g, i) ==> ef_of(g, i) <= b,
    ensures
        sink_max_to(g, k) <= b,
    decreases k,
{
    if k > 0 {
        lemma_sink_max_le(g, k - 1, b);
    }
}

/// When `s` is the only sink, the default project finish is its earliest
/// finish.
pub proof fn lemma_sink_max_single(g: Seq<EdgeModel>, s: int, k: int)
    requires
        valid_idx(g, s),
        is_sink(g, s),
        ef_of(g, s) >= 0,
        forall|j: int| valid_idx(g, j) && #[trigger] is_sink(g, j) ==> j == s,
        0 <= k <= g.len(),
    ensures
        sink_max_to(g, k) == if s < k {
            ef_of(g, s)
        } else {
            0
        },
    decreases k,
{
    if k > 0 {
        lemma_sink_max_single(g, s, k - 1);
    }
}

// ---------------------------------------------------------------------------
// Lemmas about sums and counts
// ---------------------------------------------------------------------------

pub proof fn lemma_sum_dur_congruence(g1: Seq<EdgeModel>, g2: Seq<EdgeModel>, k: int)
    requires
        forall|i: int| 0 <= i < k ==> g1[i].cost == #[trigger] g2[i].cost,
    ensures
        sum_dur_to(g1, k) == sum_dur_to(g2, k),
    decreases k,
{
    if k > 0 {
        lemma_sum_dur_congruence(g1, g2, k - 1);
    }
}

pub proof fn lemma_pending_le_sum(g: Seq<EdgeModel>, k: int)
    requires
        forall|i: int| 0 <= i < k ==> #[trigger] dur_of(g, i) >= 0,
    ensures
        0 <= pending_to(g, k) <= sum_dur_to(g, k),
    decreases k,
{
    if k > 0 {
        lemma_pending_le_sum(g, k - 1);
    }
}

pub proof fn lemma_pending_ge_dur(g: Seq<EdgeModel>, k: int, j: int)
    requires
        0 <= j < k,
        g[j].es is None,
        forall|i: int| 0 <= i < k ==> #[trigger] dur_of(g, i) >= 0,
    ensures
        pending_to(g, k) >= dur_of(g, j),
    decreases k,
{
    if j < k - 1 {
        lemma_pending_ge_dur(g, k - 1, j);
    } else {
        lemma_pending_le_sum(g, k - 1);
    }
}

/// Setting the earliest start of the one pending activity `j` lowers the
/// pending duration by `j`'s duration and the pending count by one.
pub proof fn lemma_pending_update(g1: Seq<EdgeModel>, g2: Seq<EdgeModel>, j: int, k: int)
    requires
        0 <= j < g1.len(),
        g1.len() == g2.len(),
        g1[j].es is None,
        g2[j].es is Some,
        g2[j].cost == g1[j].cost,
        forall|i: int|
            0 <= i < g1.len() && i != j ==> g1[i].cost == #[trigger] g2[i].cost && (g1[i].es
                is None <==> g2[i].es is None),
        0 <= k <= g1.len(),
    ensures
        pending_to(g2, k) == pending_to(g1, k) - if j < k {
            dur_of(g1, j)
        } else {
            0
        },
        unknown_count_to(g2, k) == unknown_count_to(g1, k) - if j < k {
            1int
        } else {
            0int
        },
    decreases k,
{
    if k > 0 {
        lemma_pending_update(g1, g2, j, k - 1);
        if k - 1 != j {
            assert(g1[k - 1].cost == g2[k - 1].cost && (g1[k - 1].es is None <==> g2[k - 1].es
                is None));
        }
    }
}

pub proof fn lemma_unknown_count_nonneg(g: Seq<EdgeModel>, k: int)
    ensures
        unknown_count_to(g, k) >= 0,
    decreases k,
{
    if k > 0 {
        lemma_unknown_count_nonneg(g, k - 1);
    }
}

/// When every one of the first `k` activities has a known earliest start,
/// none is pending.
pub proof fn lemma_unknown_count_zero(g: Seq<EdgeModel>, k: int)
    requires
        forall|i: int| 0 <= i < k ==> !(#[trigger] g[i].es is None),
    ensures
        unknown_count_to(g, k) == 0,
    decreases k,
{
    if k > 0 {
        lemma_unknown_count_zero(g, k - 1);
    }
}

/// When none of the first `k` activities has an earliest start, all are
/// pending.
pub proof fn lemma_unknown_count_full(g: Seq<EdgeModel>, k: int)
    requires
        0 <= k,
        forall|i: int| 0 <= i < k ==> (#[trigger] g[i].es) is None,
    ensures
        unknown_count_to(g, k) == k,
    decreases k,
{
    if k > 0 {
        lemma_unknown_count_full(g, k - 1);
    }
}

pub proof fn lemma_count_true_bounds(s: Seq<bool>)
    ensures
        0 <= count_true(s) <= s.len(),
    decreases s.len(),
{
    if s.len() > 0 {
        lemma_count_true_bounds(s.drop_last());
    }
}

pub proof fn lemma_count_true_update(s: Seq<bool>, j: int)
    requires
        0 <= j < s.len(),
        !s[j],
    ensures
        count_true(s.update(j, true)) == count_true(s) + 1,
    decreases s.len(),
{
    if j == s.len() - 1 {
        assert(s.update(j, true).drop_last() =~= s.drop_last());
    } else {
        assert(s.update(j, true).drop_last() =~= s.drop_last().update(j, true));
        lemma_count_true_update(s.drop_last(), j);
    }
}

// ---------------------------------------------------------------------------
// Lemmas about paths, ranks and reachability
// ---------------------------------------------------------------------------

pub proof fn lemma_reach_refl(g: Seq<EdgeModel>, a: int)
    requires
        valid_idx(g, a),
    ensures
        reaches(g, a, a),
{
    let p = seq![a];
    assert(is_path(g, p));
    assert(p.first() == a && p.last() == a);
}

pub proof fn lemma_reach_step(g: Seq<EdgeModel>, a: int, b: int, c: int)
    requires
        reaches(g, a, b),
        valid_idx(g, c),
        g[b].next.contains(c),
    ensures
        reaches(g, a, c),
{
    let p = choose|p: Seq<int>| is_path(g, p) && p.first() == a && p.last() == b;
    let q = p.push(c);
    assert forall|k: int| 0 < k < q.len() implies g[q[k - 1]].next.contains(#[trigger] q[k]) by {
        if k < p.len() {
            assert(q[k] == p[k]);
            assert(q[k - 1] == p[k - 1]);
        } else {
            assert(q[k] == c);
            assert(q[k - 1] == p[p.len() - 1]);
        }
    }
    assert(is_path(g, q));
    assert(q.first() == a && q.last() == c);
}

/// Along any path a topological numbering never decreases, and strictly
/// increases over at least one edge.
pub proof fn lemma_path_rank(g: Seq<EdgeModel>, rank: Seq<int>, p: Seq<int>)
    requires
        valid_rank(g, rank),
        is_path(g, p),
    ensures
        rank[p.first()] <= rank[p.last()],
        p.len() >= 2 ==> rank[p.first()] < rank[p.last()],
    decreases p.len(),
{
    if p.len() >= 2 {
        assert(g[p[0]].next.contains(p[1]));
        let k = choose|k: int| 0 <= k < g[p[0]].next.len() && g[p[0]].next[k] == p[1];
        assert(rank[p[0]] < rank[g[p[0]].next[k]]);
        let q = p.drop_first();
        assert(is_path(g, q)) by {
            assert(forall|m: int| 0 <= m < q.len() ==> q[m] == #[trigger] p[m + 1]);
        }
        lemma_path_rank(g, rank, q);
        assert(q.first() == p[1] && q.last() == p.last());
    }
}

/// All predecessors of `i` have a computed earliest finish: `i` is eligible
/// for the forward pass.
pub open spec fn preds_known(g: Seq<EdgeModel>, i: int) -> bool {
    forall|k: int| 0 <= k < g[i].prev.len() ==> g[#[trigger] g[i].prev[k]].ef is Some
}

/// All successors of `i` have a computed latest start: `i` is eligible for
/// the backward pass.
pub open spec fn succs_known(g: Seq<EdgeModel>, i: int) -> bool {
    forall|k: int| 0 <= k < g[i].next.len() ==> g[#[trigger] g[i].next[k]].ls is Some
}

// ---------------------------------------------------------------------------
// Lemmas about ranks and the stuck forward pass
// ---------------------------------------------------------------------------

/// A topological numbering only depends on the adjacency structure.
pub proof fn lemma_valid_rank_congruence(g1: Seq<EdgeModel>, g2: Seq<EdgeModel>, rank: Seq<int>)
    requires
        same_structure(g1, g2),
        valid_rank(g1, rank),
    ensures
        valid_rank(g2, rank),
{
    assert forall|i: int, k: int|
        valid_idx(g2, i) && 0 <= k < g2[i].next.len() implies
        rank[i] < rank[#[trigger] g2[i].next[k]] by {
        assert(same_structure_at(g1, g2, i));
        assert(rank[i] < rank[g1[i].next[k]]);
    }
}

pub proof fn lemma_acyclic_congruence(g1: Seq<EdgeModel>, g2: Seq<EdgeModel>)
    requires
        same_structure(g1, g2),
        acyclic(g1),
    ensures
        acyclic(g2),
{
    let rank = choose|rank: Seq<int>| valid_rank(g1, rank);
    lemma_valid_rank_congruence(g1, g2, rank);
}

/// Among the first `k` activities with an unknown earliest start, one of
/// minimal rank.
proof fn argmin_rank_unknown(g: Seq<EdgeModel>, rank: Seq<int>, k: int) -> (i0: int)
    requires
        0 < k <= g.len(),
        exists|i: int| 0 <= i < k && #[trigger] g[i].es is None,
    ensures
        0 <= i0 < k,
        g[i0].es is None,
        forall|j: int| 0 <= j < k && #[trigger] g[j].es is None ==> rank[i0] <= rank[j],
    decreases k,
{
    if g[k - 1].es is None {
        if exists|i: int| 0 <= i < k - 1 && #[trigger] g[i].es is None {
            let i1 = argmin_rank_unknown(g, rank, k - 1);
            if rank[k - 1] < rank[i1] {
                k - 1
            } else {
                i1
            }
        } else {
            k - 1
        }
    } else {
        let i1 = argmin_rank_unknown(g, rank, k - 1);
        i1
    }
}

/// When every activity still lacking an earliest start has a predecessor that
/// also lacks one, the network holds a cycle.
pub proof fn lemma_stuck_not_acyclic(g: Seq<EdgeModel>)
    requires
        wf(g),
        exists|i: int| valid_idx(g, i) && #[trigger] g[i].es is None,
        forall|i: int|
            valid_idx(g, i) && #[trigger] g[i].es is None ==> exists|k: int|
                0 <= k < g[i].prev.len() && g[#[trigger] g[i].prev[k]].es is None,
    ensures
        !acyclic(g),
{
    if acyclic(g) {
        let rank = choose|rank: Seq<int>| valid_rank(g, rank);
        let i0 = argmin_rank_unknown(g, rank, g.len() as int);
        let k = choose|k: int| 0 <= k < g[i0].prev.len() && g[#[trigger] g[i0].prev[k]].es is None;
        let p = g[i0].prev[k];
        assert(wf_edge(g, i0));
        assert(valid_idx(g, p));
        // symmetry turns the predecessor entry into a successor entry of `p`
        assert(g[i0].prev.contains(p));
        assert(g[p].next.contains(i0));
        let k2 = choose|k2: int| 0 <= k2 < g[p].next.len() && g[p].next[k2] == i0;
        assert(rank[p] < rank[g[p].next[k2]]);
        assert(rank[i0] <= rank[p]);
        assert(false);
    }
}

/// The forward-pass loop invariant over the whole arena: computed activities
/// satisfy their equations, earliest starts and finishes are computed in
/// pairs, and every computed finish leaves room for the pending durations.
pub open spec fn fwd_partial(g: Seq<EdgeModel>) -> bool {
    &&& forall|j: int| valid_idx(g, j) ==> ((#[trigger] g[j].es) is Some <==> g[j].ef is Some)
    &&& forall|j: int|
        valid_idx(g, j) && (#[trigger] g[j].es) is Some ==> fwd_at(g, j) && preds_known(g, j)
            && ef_of(g, j) <= sum_dur(g) - pending(g)
}

/// One step of the forward pass: activity `i`, eligible and still unknown,
/// receives its earliest start and finish; everything established before is
/// preserved, and the pending sums shrink by `i`'s share.
pub proof fn lemma_forward_step(pre: Seq<EdgeModel>, post: Seq<EdgeModel>, i: int, v: int)
    requires
        wf(pre),
        bwd_cleared(pre),
        fwd_partial(pre),
        valid_idx(pre, i),
        pre[i].es is None,
        preds_known(pre, i),
        v == max_ef(pre, pre[i].prev),
        post.len() == pre.len(),
        post[i].es == Some(v),
        post[i].ef == Some(v + dur_of(pre, i)),
        post[i].id == pre[i].id,
        post[i].cost == pre[i].cost,
        post[i].ls == pre[i].ls,
        post[i].lf == pre[i].lf,
        post[i].tf == pre[i].tf,
        post[i].ff == pre[i].ff,
        post[i].next == pre[i].next,
        post[i].prev == pre[i].prev,
        forall|j: int| valid_idx(pre, j) && j != i ==> #[trigger] post[j] == pre[j],
    ensures
        wf(post),
        bwd_cleared(post),
        fwd_partial(post),
        same_structure(pre, post),
        sum_dur(post) == sum_dur(pre),
        pending(post) == pending(pre) - dur_of(pre, i),
        unknown_count(post) == unknown_count(pre) - 1,
        v >= 0,
        v + dur_of(pre, i) <= sum_dur(pre),
        forall|j: int| valid_idx(post, j) && (#[trigger] post[j].es) is None ==> pre[j].es is None,
{
    let n = pre.len() as int;
    let s = sum_dur(pre);
    let p = pending(pre);
    let d = dur_of(pre, i);
    assert forall|j: int| 0 <= j < n implies #[trigger] dur_of(pre, j) >= 0 by {
        assert(wf_edge(pre, j));
    }
    lemma_pending_le_sum(pre, n);
    lemma_pending_ge_dur(pre, n, i);
    // i is no predecessor of itself nor of any computed activity: its finish
    // was still unknown
    assert forall|j: int, k: int|
        valid_idx(pre, j) && preds_known(pre, j) && 0 <= k < pre[j].prev.len() implies #[trigger] pre[j].prev[k] != i by {
        if pre[j].prev[k] == i {
            assert(pre[i].ef is Some);
            assert(pre[i].es is Some);
        }
    }
    // the earliest starts bound
    assert forall|k: int| 0 <= k < pre[i].prev.len() implies ef_of(
        pre,
        #[trigger] pre[i].prev[k],
    ) <= s - p by {
        assert(wf_edge(pre, i));
        assert(valid_idx(pre, pre[i].prev[k]));
        assert(pre[pre[i].prev[k]].ef is Some);
        assert(pre[pre[i].prev[k]].es is Some);
    }
    lemma_max_ef_le(pre, pre[i].prev, s - p);
    lemma_max_ef_nonneg(pre, pre[i].prev);
    // counting
    lemma_pending_update(pre, post, i, n);
    lemma_sum_dur_congruence(post, pre, n);
    // well-formedness and structure carry over index by index
    assert forall|j: int| valid_idx(post, j) implies #[trigger] wf_edge(post, j) by {
        assert(wf_edge(pre, j));
        assert(post[j].next == pre[j].next && post[j].prev == pre[j].prev && post[j].cost == pre[j].cost);
    }
    assert forall|j: int, j2: int| valid_idx(post, j) && valid_idx(post, j2) implies (
    #[trigger] post[j].next.contains(j2) <==> #[trigger] post[j2].prev.contains(j)) by {
        assert(post[j].next == pre[j].next && post[j2].prev == pre[j2].prev);
        assert(pre[j].next.contains(j2) <==> pre[j2].prev.contains(j));
    }
    assert forall|j: int, j2: int|
        valid_idx(post, j) && valid_idx(post, j2) && j != j2 implies #[trigger] post[j].id
        != #[trigger] post[j2].id by {
        assert(pre[j].id != pre[j2].id);
    }
    assert forall|j: int| valid_idx(post, j) implies #[trigger] bwd_clear_at(post, j) by {
        assert(bwd_clear_at(pre, j));
    }
    // the equations at every computed activity, old and new
    assert forall|j: int| valid_idx(post, j) && (#[trigger] post[j].es) is Some implies fwd_at(
        post,
        j,
    ) && preds_known(post, j) && ef_of(post, j) <= sum_dur(post) - pending(post) by {
        if j == i {
            assert forall|k: int| 0 <= k < post[i].prev.len() implies pre[#[trigger] post[i].prev[k]].ef == post[post[i].prev[k]].ef by {
                assert(post[i].prev == pre[i].prev);
                let q = pre[i].prev[k];
                assert(wf_edge(pre, i));
                assert(valid_idx(pre, q));
                assert(q != i);
                assert(post[q] == pre[q]);
            }
            lemma_max_ef_congruence(pre, post, pre[i].prev);
            assert(fwd_es(post, i) == v);
        } else {
            assert(pre[j].es is Some);
            assert(fwd_at(pre, j));
            assert(preds_known(pre, j));
            assert forall|k: int| 0 <= k < post[j].prev.len() implies pre[#[trigger] post[j].prev[k]].ef == post[post[j].prev[k]].ef by {
                assert(post[j].prev == pre[j].prev);
                let q = pre[j].prev[k];
                assert(wf_edge(pre, j));
                assert(valid_idx(pre, q));
                assert(q != i);
                assert(post[q] == pre[q]);
            }
            lemma_max_ef_congruence(pre, post, pre[j].prev);
            assert(fwd_es(post, j) == fwd_es(pre, j));
        }
    }
}

// ---------------------------------------------------------------------------
// The backward pass, step by step
// ---------------------------------------------------------------------------

/// The backward-pass loop invariant: every activity of rank at least `k`
/// satisfies its backward equations; every other one is still untouched.
pub open spec fn bwd_partial(g: Seq<EdgeModel>, f: int, rank: Seq<int>, k: int) -> bool {
    &&& forall|j: int| valid_idx(g, j) && rank[j] >= k ==> #[trigger] bwd_at(g, f, j)
    &&& forall|j: int| valid_idx(g, j) && rank[j] < k ==> #[trigger] bwd_clear_at(g, j)
}

/// Well-formedness only depends on the structure.
pub proof fn lemma_wf_congruence(g1: Seq<EdgeModel>, g2: Seq<EdgeModel>)
    requires
        wf(g1),
        same_structure(g1, g2),
    ensures
        wf(g2),
{
    assert forall|i: int| valid_idx(g2, i) implies #[trigger] wf_edge(g2, i) by {
        assert(same_structure_at(g1, g2, i));
        assert(wf_edge(g1, i));
    }
    assert forall|i: int, j: int| valid_idx(g2, i) && valid_idx(g2, j) implies (
    #[trigger] g2[i].next.contains(j) <==> #[trigger] g2[j].prev.contains(i)) by {
        assert(same_structure_at(g1, g2, i));
        assert(same_structure_at(g1, g2, j));
        assert(g1[i].next.contains(j) <==> g1[j].prev.contains(i));
    }
    assert forall|i: int, j: int|
        valid_idx(g2, i) && valid_idx(g2, j) && i != j implies #[trigger] g2[i].id
        != #[trigger] g2[j].id by {
        assert(same_structure_at(g1, g2, i));
        assert(same_structure_at(g1, g2, j));
        assert(g1[i].id != g1[j].id);
    }
}

/// The forward equations only depend on structure, earliest starts and
/// finishes.
pub proof fn lemma_forward_sched_congruence(g1: Seq<EdgeModel>, g2: Seq<EdgeModel>)
    requires
        wf(g1),
        forward_sched(g1),
        same_forward(g1, g2),
    ensures
        forward_sched(g2),
{
    assert forall|i: int| valid_idx(g2, i) implies #[trigger] fwd_at(g2, i) by {
        assert(same_structure_at(g1, g2, i));
        assert(fwd_vals_at(g1, g2, i));
        assert(fwd_at(g1, i));
        assert(wf_edge(g1, i));
        assert forall|k: int| 0 <= k < g1[i].prev.len() implies g1[#[trigger] g1[i].prev[k]].ef
            == g2[g1[i].prev[k]].ef by {
            let q = g1[i].prev[k];
            assert(valid_idx(g1, q));
            assert(fwd_vals_at(g1, g2, q));
        }
        lemma_max_ef_congruence(g1, g2, g1[i].prev);
    }
}

/// The default project finish only depends on structure and earliest
/// finishes.
pub proof fn lemma_sink_max_congruence(g1: Seq<EdgeModel>, g2: Seq<EdgeModel>, k: int)
    requires
        forall|i: int|
            0 <= i < k ==> (#[trigger] g1[i].next).len() == g2[i].next.len() && g1[i].ef == g2[i].ef,
    ensures
        sink_max_to(g1, k) == sink_max_to(g2, k),
    decreases k,
{
    if k > 0 {
        lemma_sink_max_congruence(g1, g2, k - 1);
    }
}

/// Every successor of `i` starts no earlier than `i` finishes.
pub proof fn lemma_succ_es_bound(g: Seq<EdgeModel>, i: int)
    requires
        wf(g),
        forward_sched(g),
        valid_idx(g, i),
        !is_sink(g, i),
    ensures
        min_es(g, g[i].next) >= ef_of(g, i),
{
    assert forall|k: int| 0 <= k < g[i].next.len() implies es_of(g, #[trigger] g[i].next[k])
        >= ef_of(g, i) by {
        let s = g[i].next[k];
        assert(wf_edge(g, i));
        assert(valid_idx(g, s));
        assert(g[i].next.contains(s));
        assert(g[s].prev.contains(i));
        let k2 = choose|k2: int| 0 <= k2 < g[s].prev.len() && g[s].prev[k2] == i;
        assert(fwd_at(g, s));
        lemma_max_ef_ge(g, g[s].prev, k2);
    }
    lemma_min_es_ge(g, g[i].next, ef_of(g, i));
}

/// At a non-sink whose successors already carry their backward values, the
/// latest finish cannot undercut the earliest finish: a negative float can
/// only arise at a sink, from a too-small supplied project finish.
pub proof fn lemma_nonsink_lf_bound(
    g: Seq<EdgeModel>,
    f: int,
    rank: Seq<int>,
    i: int,
    k: int,
)
    requires
        wf(g),
        forward_sched(g),
        valid_rank(g, rank),
        valid_idx(g, i),
        rank[i] == k,
        !is_sink(g, i),
        forall|j: int| valid_idx(g, j) && rank[j] > k ==> #[trigger] bwd_at(g, f, j),
    ensures
        min_ls(g, g[i].next) >= ef_of(g, i),
{
    assert forall|k2: int| 0 <= k2 < g[i].next.len() implies ls_of(g, #[trigger] g[i].next[k2])
        >= ef_of(g, i) by {
        let s = g[i].next[k2];
        assert(wf_edge(g, i));
        assert(valid_idx(g, s));
        assert(rank[i] < rank[s]);
        assert(bwd_at(g, f, s));
        assert(g[i].next.contains(s));
        assert(g[s].prev.contains(i));
        let k3 = choose|k3: int| 0 <= k3 < g[s].prev.len() && g[s].prev[k3] == i;
        assert(fwd_at(g, s));
        lemma_max_ef_ge(g, g[s].prev, k3);
        assert(es_of(g, s) >= ef_of(g, i));
        assert(ls_of(g, s) >= es_of(g, s));
    }
    lemma_min_ls_ge(g, g[i].next, ef_of(g, i));
}

/// One step of the backward pass: activity `i` of rank `k`, whose successors
/// all carry their backward values, receives its own; everything already
/// established is preserved.
pub proof fn lemma_backward_step(
    pre: Seq<EdgeModel>,
    post: Seq<EdgeModel>,
    f: int,
    rank: Seq<int>,
    i: int,
    k: int,
)
    requires
        wf(pre),
        forward_sched(pre),
        valid_rank(pre, rank),
        bwd_partial(pre, f, rank, k + 1),
        valid_idx(pre, i),
        rank[i] == k,
        forall|j: int| valid_idx(pre, j) && #[trigger] rank[j] == k ==> j == i,
        bwd_lf(pre, f, i) >= ef_of(pre, i),
        post.len() == pre.len(),
        post[i].lf == Some(bwd_lf(pre, f, i)),
        post[i].ls == Some(bwd_lf(pre, f, i) - dur_of(pre, i)),
        post[i].tf == Some(bwd_lf(pre, f, i) - dur_of(pre, i) - es_of(pre, i)),
        post[i].ff == Some(succ_start(pre, f, i) - ef_of(pre, i)),
        post[i].id == pre[i].id,
        post[i].cost == pre[i].cost,
        post[i].es == pre[i].es,
        post[i].ef == pre[i].ef,
        post[i].next == pre[i].next,
        post[i].prev == pre[i].prev,
        forall|j: int| valid_idx(pre, j) && j != i ==> #[trigger] post[j] == pre[j],
    ensures
        wf(post),
        forward_sched(post),
        valid_rank(post, rank),
        same_forward(pre, post),
        bwd_partial(post, f, rank, k),
        sum_dur(post) == sum_dur(pre),
{
    let n = pre.len() as int;
    assert forall|j: int| valid_idx(pre, j) implies #[trigger] same_structure_at(pre, post, j)
        && #[trigger] fwd_vals_at(pre, post, j) by {
        if j != i {
            assert(post[j] == pre[j]);
        }
    }
    lemma_wf_congruence(pre, post);
    lemma_forward_sched_congruence(pre, post);
    lemma_valid_rank_congruence(pre, post, rank);
    lemma_sum_dur_congruence(post, pre, n);
    // no successor of a processed activity is `i`: ranks only grow along
    // edges
    assert forall|j: int| valid_idx(post, j) && rank[j] >= k implies #[trigger] bwd_at(
        post,
        f,
        j,
    ) by {
        assert(wf_edge(pre, j));
        assert forall|k2: int| 0 <= k2 < pre[j].next.len() implies pre[#[trigger] pre[j].next[k2]].ls
            == post[pre[j].next[k2]].ls && pre[pre[j].next[k2]].es == post[pre[j].next[k2]].es by {
            let s = pre[j].next[k2];
            assert(valid_idx(pre, s));
            assert(rank[j] < rank[s]);
            assert(s != i);
            assert(post[s] == pre[s]);
        }
        if pre[j].next.len() > 0 {
            lemma_min_ls_congruence(pre, post, pre[j].next);
            lemma_min_es_congruence(pre, post, pre[j].next);
        }
        if j == i {
            assert(post[i].lf == Some(bwd_lf(post, f, i)));
            assert(fwd_at(pre, i));
            assert(ef_of(pre, i) == es_of(pre, i) + dur_of(pre, i));
            assert(es_of(post, i) <= ls_of(post, i));
        } else {
            assert(rank[j] >= k + 1);
            assert(bwd_at(pre, f, j));
        }
    }
    assert forall|j: int| valid_idx(post, j) && rank[j] < k implies #[trigger] bwd_clear_at(
        post,
        j,
    ) by {
        assert(j != i);
        assert(post[j] == pre[j]);
        assert(bwd_clear_at(pre, j));
    }
}

// ---------------------------------------------------------------------------
// Lemmas about the construction steps
// ---------------------------------------------------------------------------

/// Forgetting the schedule keeps the structure, well-formedness and the total
/// duration.
pub proof fn lemma_clear_model_props(g: Seq<EdgeModel>)
    requires
        wf(g),
    ensures
        clear_model(g).len() == g.len(),
        forall|i: int| valid_idx(g, i) ==> #[trigger] clear_model(g)[i] == clear_edge(g[i]),
        wf(clear_model(g)),
        same_structure(g, clear_model(g)),
        fwd_cleared(clear_model(g)),
        bwd_cleared(clear_model(g)),
        sum_dur(clear_model(g)) == sum_dur(g),
{
    let c = clear_model(g);
    assert forall|i: int| valid_idx(c, i) implies #[trigger] wf_edge(c, i) by {
        assert(wf_edge(g, i));
        assert(c[i].next == g[i].next && c[i].prev == g[i].prev);
    }
    assert forall|i: int, j: int| valid_idx(c, i) && valid_idx(c, j) implies (
    #[trigger] c[i].next.contains(j) <==> #[trigger] c[j].prev.contains(i)) by {
        assert(c[i].next == g[i].next && c[j].prev == g[j].prev);
        assert(g[i].next.contains(j) <==> g[j].prev.contains(i));
    }
    assert forall|i: int, j: int|
        valid_idx(c, i) && valid_idx(c, j) && i != j implies #[trigger] c[i].id
        != #[trigger] c[j].id by {
        assert(g[i].id != g[j].id);
    }
    lemma_sum_dur_congruence(c, g, g.len() as int);
}

/// Appending a fresh activity keeps well-formedness; the total duration grows
/// by its duration.
pub proof fn lemma_push_fresh(g: Seq<EdgeModel>, id: int, dur: int)
    requires
        wf(g),
        fwd_cleared(g),
        bwd_cleared(g),
        dur >= 0,
        !has_id(g, id),
    ensures
        wf(g.push(new_edge_model(id, dur))),
        fwd_cleared(g.push(new_edge_model(id, dur))),
        bwd_cleared(g.push(new_edge_model(id, dur))),
        sum_dur(g.push(new_edge_model(id, dur))) == sum_dur(g) + dur,
{
    let n = g.len() as int;
    let g2 = g.push(new_edge_model(id, dur));
    assert forall|i: int| valid_idx(g2, i) implies #[trigger] wf_edge(g2, i) by {
        if i < n {
            assert(wf_edge(g, i));
            assert(g2[i] == g[i]);
        } else {
            assert(g2[i] == new_edge_model(id, dur));
        }
    }
    assert forall|i: int, j: int| valid_idx(g2, i) && valid_idx(g2, j) implies (
    #[trigger] g2[i].next.contains(j) <==> #[trigger] g2[j].prev.contains(i)) by {
        if i < n && j < n {
            assert(g2[i] == g[i] && g2[j] == g[j]);
            assert(g[i].next.contains(j) <==> g[j].prev.contains(i));
        } else {
            if i < n {
                // j is the new activity: no old adjacency list mentions it
                assert(g2[i] == g[i]);
                if g2[i].next.contains(j) {
                    let k = choose|k: int| 0 <= k < g[i].next.len() && g[i].next[k] == j;
                    assert(wf_edge(g, i));
                    assert(valid_idx(g, g[i].next[k]));
                }
                assert(g2[j].prev.len() == 0);
            } else if j < n {
                assert(g2[j] == g[j]);
                if g2[j].prev.contains(i) {
                    let k = choose|k: int| 0 <= k < g[j].prev.len() && g[j].prev[k] == i;
                    assert(wf_edge(g, j));
                    assert(valid_idx(g, g[j].prev[k]));
                }
                assert(g2[i].next.len() == 0);
            } else {
                assert(g2[i].next.len() == 0 && g2[j].prev.len() == 0);
            }
        }
    }
    assert forall|i: int, j: int|
        valid_idx(g2, i) && valid_idx(g2, j) && i != j implies #[trigger] g2[i].id
        != #[trigger] g2[j].id by {
        if i < n && j < n {
            assert(g[i].id != g[j].id);
        } else if i < n {
            assert(g2[j].id == id);
            assert(g[i].id != id);
        } else if j < n {
            assert(g2[i].id == id);
            assert(g[j].id != id);
        }
    }
    assert forall|i: int| valid_idx(g2, i) implies #[trigger] fwd_clear_at(g2, i) by {
        if i < n {
            assert(fwd_clear_at(g, i));
            assert(g2[i] == g[i]);
        }
    }
    assert forall|i: int| valid_idx(g2, i) implies #[trigger] bwd_clear_at(g2, i) by {
        if i < n {
            assert(bwd_clear_at(g, i));
            assert(g2[i] == g[i]);
        }
    }
    lemma_sum_dur_congruence(g2, g, n);
    assert(sum_dur_to(g2, n + 1) == sum_dur_to(g2, n) + dur_of(g2, n));
}

/// Adding the edge `f` before `t` keeps well-formedness when `t` was not a
/// successor of `f` yet; identities and durations are untouched.
pub proof fn lemma_add_edge_props(g: Seq<EdgeModel>, f: int, t: int)
    requires
        wf(g),
        fwd_cleared(g),
        bwd_cleared(g),
        valid_idx(g, f),
        valid_idx(g, t),
        f != t,
        !g[f].next.contains(t),
    ensures
        add_edge_model(g, f, t).len() == g.len(),
        wf(add_edge_model(g, f, t)),
        fwd_cleared(add_edge_model(g, f, t)),
        bwd_cleared(add_edge_model(g, f, t)),
        sum_dur(add_edge_model(g, f, t)) == sum_dur(g),
        forall|i: int|
            valid_idx(g, i) ==> #[trigger] add_edge_model(g, f, t)[i].id == g[i].id
                && add_edge_model(g, f, t)[i].cost == g[i].cost,
        forall|i: int|
            valid_idx(g, i) ==> #[trigger] add_edge_model(g, f, t)[i].next == (if i == f {
                g[i].next.push(t)
            } else {
                g[i].next
            }),
        forall|i: int|
            valid_idx(g, i) ==> #[trigger] add_edge_model(g, f, t)[i].prev == (if i == t {
                g[i].prev.push(f)
            } else {
                g[i].prev
            }),
{
    let g2 = add_edge_model(g, f, t);
    // symmetry of the old relation rules out a stale reverse entry
    assert(g[f].next.contains(t) <==> g[t].prev.contains(f));
    assert forall|i: int| valid_idx(g2, i) implies #[trigger] wf_edge(g2, i) by {
        assert(wf_edge(g, i));
        if i == f {
            assert(g2[i].next =~= g[f].next.push(t));
            assert forall|k1: int, k2: int|
                0 <= k1 < g2[i].next.len() && 0 <= k2 < g2[i].next.len() && k1 != k2 implies
                g2[i].next[k1] != g2[i].next[k2] by {
                if k1 < g[f].next.len() && k2 < g[f].next.len() {
                    assert(g[f].next[k1] != g[f].next[k2]);
                } else if k1 < g[f].next.len() {
                    assert(g2[i].next[k2] == t);
                    if g[f].next[k1] == t {
                        assert(g[f].next.contains(t));
                    }
                } else if k2 < g[f].next.len() {
                    assert(g2[i].next[k1] == t);
                    if g[f].next[k2] == t {
                        assert(g[f].next.contains(t));
                    }
                }
            }
        }
        if i == t {
            assert(g2[i].prev =~= g[t].prev.push(f));
            assert forall|k1: int, k2: int|
                0 <= k1 < g2[i].prev.len() && 0 <= k2 < g2[i].prev.len() && k1 != k2 implies
                g2[i].prev[k1] != g2[i].prev[k2] by {
                if k1 < g[t].prev.len() && k2 < g[t].prev.len() {
                    assert(g[t].prev[k1] != g[t].prev[k2]);
                } else if k1 < g[t].prev.len() {
                    assert(g2[i].prev[k2] == f);
                    if g[t].prev[k1] == f {
                        assert(g[t].prev.contains(f));
                    }
                } else if k2 < g[t].prev.len() {
                    assert(g2[i].prev[k1] == f);
                    if g[t].prev[k2] == f {
                        assert(g[t].prev.contains(f));
                    }
                }
            }
        }
    }
    assert forall|i: int, j: int| valid_idx(g2, i) && valid_idx(g2, j) implies (
    #[trigger] g2[i].next.contains(j) <==> #[trigger] g2[j].prev.contains(i)) by {
        let old_iff = g[i].next.contains(j) <==> g[j].prev.contains(i);
        assert(old_iff);
        if i == f && j == t {
            assert(g2[i].next.last() == t);
            assert(g2[i].next.contains(j));
            assert(g2[j].prev.last() == f);
            assert(g2[j].prev.contains(i));
        } else {
            if i == f {
                // j != t: membership in a pushed list of something else is unchanged
                assert(g2[i].next.contains(j) <==> g[i].next.contains(j)) by {
                    lemma_push_contains(g[i].next, t, j);
                }
            } else {
                assert(g2[i].next == g[i].next);
            }
            if j == t {
                assert(g2[j].prev.contains(i) <==> g[j].prev.contains(i)) by {
                    lemma_push_contains(g[j].prev, f, i);
                }
            } else {
                assert(g2[j].prev == g[j].prev);
            }
        }
    }
    assert forall|i: int, j: int|
        valid_idx(g2, i) && valid_idx(g2, j) && i != j implies #[trigger] g2[i].id
        != #[trigger] g2[j].id by {
        assert(g[i].id != g[j].id);
    }
    assert forall|i: int| valid_idx(g2, i) implies #[trigger] fwd_clear_at(g2, i) by {
        assert(fwd_clear_at(g, i));
    }
    assert forall|i: int| valid_idx(g2, i) implies #[trigger] bwd_clear_at(g2, i) by {
        assert(bwd_clear_at(g, i));
    }
    lemma_sum_dur_congruence(g2, g, g.len() as int);
}

/// Membership in a pushed sequence, for an element other than the pushed one.
pub proof fn lemma_push_contains(s: Seq<int>, x: int, y: int)
    requires
        y != x,
    ensures
        s.push(x).contains(y) <==> s.contains(y),
{
    if s.contains(y) {
        let k = choose|k: int| 0 <= k < s.len() && s[k] == y;
        assert(s.push(x)[k] == y);
    }
    if s.push(x).contains(y) {
        let k = choose|k: int| 0 <= k < s.push(x).len() && s.push(x)[k] == y;
        assert(k < s.len());
        assert(s[k] == y);
    }
}

/// A visited set that holds the start of a path and is closed under successor
/// edges holds the end of the path too.
pub proof fn lemma_closed_reach(g: Seq<EdgeModel>, vis: Seq<bool>, p: Seq<int>)
    requires
        is_path(g, p),
        vis.len() == g.len(),
        vis[p.first()],
        closed_under_next(g, vis),
    ensures
        vis[p.last()],
    decreases p.len(),
{
    if p.len() >= 2 {
        assert(g[p[0]].next.contains(p[1]));
        let k = choose|k: int| 0 <= k < g[p[0]].next.len() && g[p[0]].next[k] == p[1];
        assert(vis[g[p[0]].next[k]]);
        let q = p.drop_first();
        assert(is_path(g, q)) by {
            assert(forall|m: int| 0 <= m < q.len() ==> q[m] == #[trigger] p[m + 1]);
        }
        lemma_closed_reach(g, vis, q);
    }
}

} // verus!
