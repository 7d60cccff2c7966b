//! The activity graph: an arena of activities addressed by stable indices,
//! with successor/predecessor adjacency kept symmetric by construction.

use vstd::prelude::*;
use crate::edge::{Cost, Edge, Moment, moment_view};
use crate::model::{
    EdgeModel, acyclic, add_edge_model, backward_sched, bwd_at, bwd_clear_at, bwd_cleared,
    bwd_lf, bwd_partial, clear_edge, clear_model, closed_under_next, count_true, default_finish,
    dur_of, ef_of, es_of, forward_sched, fwd_at, fwd_cleared, fwd_partial, has_id,
    idx_of, is_path, is_sink, lemma_acyclic_congruence, lemma_add_edge_props,
    lemma_backward_step, lemma_clear_model_props, lemma_closed_reach, lemma_count_true_bounds,
    lemma_count_true_update, lemma_forward_step, lemma_forward_sched_congruence,
    lemma_nonsink_lf_bound, lemma_push_fresh, lemma_reach_refl, lemma_reach_step,
    lemma_sink_max_congruence, lemma_sink_max_ge, lemma_sink_max_le,
    lemma_stuck_not_acyclic, lemma_succ_es_bound, lemma_unknown_count_zero,
    lemma_valid_rank_congruence, lemma_wf_congruence, link_model, ls_of, max_ef, min_es, min_ls,
    lf_of, tf_of, ff_of, new_edge_model, preds_known, reaches, same_forward,
    same_structure,
    same_structure_at, sink_max_to, succ_start, sum_dur, topo_ok, unknown_count, valid_idx,
    valid_rank, wf, wf_edge, with_next,
};

verus! {

/// Everything that can go wrong while building or scheduling a network.
#[derive(Debug, Clone, Copy, PartialEq, Eq, Structural)]
pub enum SchedulingError {
    DuplicateId,
    UnknownActivity,
    CycleDetected,
    GraphMutatedDuringPass,
    ForwardPassNotRun,
    NegativeFloat,
    InconsistentSchedule,
}

/// One row of the schedule report: every computed quantity of one activity,
/// and whether it is critical (zero total float).
#[derive(Debug, Clone, Copy, PartialEq, Eq, Structural)]
pub struct ScheduleEntry {
    pub id: u64,
    pub es: usize,
    pub ef: usize,
    pub ls: usize,
    pub lf: usize,
    pub tf: usize,
    pub ff: usize,
    pub is_critical: bool,
}

/// `pos` lists, in strictly rank-ascending order, exactly the critical
/// activities of `g`, and `ids` carries their identifiers.
pub open spec fn critical_listing(
    g: Seq<EdgeModel>,
    rank: Seq<int>,
    pos: Seq<int>,
    ids: Seq<u64>,
) -> bool {
    &&& pos.len() == ids.len()
    &&& forall|k: int|
        0 <= k < pos.len() ==> valid_idx(g, #[trigger] pos[k]) && g[pos[k]].tf == Some(0int)
            && ids[k] as int == g[pos[k]].id
    &&& forall|k1: int, k2: int| 0 <= k1 < k2 < pos.len() ==> rank[pos[k1]] < rank[pos[k2]]
    &&& forall|i: int| valid_idx(g, i) && (#[trigger] g[i].tf) == Some(0int) ==> pos.contains(i)
}

/// The project network: owns every activity; adjacency is by index into the
/// arena, so references never dangle and never alias.
pub struct Graph {
    pub(crate) edges: Vec<Edge>,
    pub(crate) total_duration: usize,
    pub(crate) forward_done: bool,
    pub(crate) backward_done: bool,
    pub(crate) project_finish: Moment,
    pub(crate) topo: Vec<usize>,
    pub(crate) rank: Ghost<Seq<int>>,
}

impl View for Graph {
    type V = Seq<EdgeModel>;

    closed spec fn view(&self) -> Seq<EdgeModel> {
        Seq::new(self.edges@.len(), |i: int| self.edges@[i]@)
    }
}

impl Graph {
    pub closed spec fn spec_forward_done(&self) -> bool {
        self.forward_done
    }

    pub closed spec fn spec_backward_done(&self) -> bool {
        self.backward_done
    }

    /// The project finish the backward pass last committed to.
    pub closed spec fn spec_finish(&self) -> Option<int> {
        moment_view(self.project_finish)
    }

    /// The topological numbering the forward pass established.
    pub closed spec fn spec_rank(&self) -> Seq<int> {
        self.rank@
    }

    pub closed spec fn spec_total_duration(&self) -> int {
        self.total_duration as int
    }

    /// The internal invariant: a well-formed arena whose flags honestly
    /// describe which schedule quantities have been computed.
    pub closed spec fn inv(&self) -> bool {
        let g = self.view();
        &&& wf(g)
        &&& self.total_duration as int == sum_dur(g)
        &&& (self.forward_done ==> forward_sched(g) && topo_ok(g, self.topo@, self.rank@))
        &&& (!self.forward_done ==> fwd_cleared(g))
        &&& (self.backward_done ==> self.forward_done && moment_view(self.project_finish) is Some
            && backward_sched(g, moment_view(self.project_finish)->0))
        &&& (!self.backward_done ==> bwd_cleared(g) && moment_view(self.project_finish) is None)
    }

    /// What the invariant guarantees, for callers outside this module.
    pub proof fn lemma_inv_facts(&self)
        requires
            self.inv(),
        ensures
            wf(self@),
            self.spec_total_duration() == sum_dur(self@),
            !self.spec_forward_done() ==> fwd_cleared(self@),
            self.spec_forward_done() ==> forward_sched(self@) && valid_rank(
                self@,
                self.spec_rank(),
            ),
            self.spec_backward_done() ==> self.spec_forward_done() && self.spec_finish() is Some
                && backward_sched(self@, self.spec_finish()->0),
    {
    }

    /// An empty network, ready for assembly.
    pub fn new() -> (g: Graph)
        ensures
            g.inv(),
            g@.len() == 0,
            g.spec_total_duration() == 0,
            !g.spec_forward_done(),
            !g.spec_backward_done(),
    {
        let g = Graph {
            edges: Vec::new(),
            total_duration: 0,
            forward_done: false,
            backward_done: false,
            project_finish: Moment::Unknown,
            topo: Vec::new(),
            rank: Ghost(Seq::empty()),
        };
        proof {
            assert(g@.len() == 0);
            assert(sum_dur(g@) == 0);
        }
        g
    }

    pub fn len(&self) -> (n: usize)
        ensures
            n == self@.len(),
    {
        self.edges.len()
    }

    /// Read access to one activity of the arena.
    pub fn activity(&self, i: usize) -> (e: &Edge)
        requires
            i < self@.len(),
        ensures
            e@ == self@[i as int],
    {
        &self.edges[i]
    }

    pub fn is_forward_done(&self) -> (b: bool)
        ensures
            b == self.spec_forward_done(),
    {
        self.forward_done
    }

    pub fn is_backward_done(&self) -> (b: bool)
        ensures
            b == self.spec_backward_done(),
    {
        self.backward_done
    }

    /// The arena index of the activity with the given identifier, if any.
    pub fn find_index(&self, id: u64) -> (r: Option<usize>)
        requires
            self.inv(),
        ensures
            (match r {
                Some(i) => valid_idx(self@, i as int) && self@[i as int].id == id as int && (forall|
                    j: int,
                |
                    valid_idx(self@, j) && #[trigger] self@[j].id == id as int ==> j == i as int),
                None => !has_id(self@, id as int),
            }),
    {
        let n = self.edges.len();
        let mut i: usize = 0;
        while i < n
            invariant
                n == self@.len(),
                i <= n,
                self.inv(),
                forall|j: int| 0 <= j < i ==> #[trigger] self@[j].id != id as int,
            decreases n - i,
        {
            if self.edges[i].id == id {
                proof {
                    assert(self@[i as int].id == id as int);
                }
                return Some(i);
            }
            i += 1;
        }
        None
    }

    /// Whether `t` is already listed as a successor of `f`.
    pub(crate) fn contains_next(&self, f: usize, t: usize) -> (b: bool)
        requires
            f < self@.len(),
        ensures
            b == self@[f as int].next.contains(t as int),
    {
        let m = self.edges[f].next.len();
        let mut k: usize = 0;
        while k < m
            invariant
                f < self@.len(),
                m == self@[f as int].next.len(),
                k <= m,
                forall|j: int| 0 <= j < k ==> #[trigger] self@[f as int].next[j] != t as int,
            decreases m - k,
        {
            if self.edges[f].next[k] == t {
                proof {
                    assert(self@[f as int].next[k as int] == t as int);
                }
                return true;
            }
            k += 1;
        }
        false
    }

    /// Whether `target` can be reached from `start` along successor edges: the
    /// test `link` uses to reject an edge that would close a cycle.
    pub(crate) fn reachable(&self, start: usize, target: usize) -> (b: bool)
        requires
            self.inv(),
            start < self@.len(),
            target < self@.len(),
        ensures
            b == reaches(self@, start as int, target as int),
    {
        let g: Ghost<Seq<EdgeModel>> = Ghost(self@);
        let n = self.edges.len();
        let mut visited: Vec<bool> = vec![false; n];
        visited[start] = true;
        proof {
            lemma_reach_refl(g@, start as int);
            lemma_count_true_bounds(visited@);
        }
        let mut closed = false;
        while !closed
            invariant
                self.inv(),
                g@ == self@,
                n == g@.len(),
                visited@.len() == n,
                start < n,
                target < n,
                visited@[start as int],
                count_true(visited@) <= n,
                forall|i: int| 0 <= i < n && #[trigger] visited@[i] ==> reaches(g@, start as int, i),
                closed ==> closed_under_next(g@, visited@),
            decreases n - count_true(visited@), 1int - (if closed { 1int } else { 0int }),
        {
            let mut changed = false;
            let ghost c0 = count_true(visited@);
            let mut i: usize = 0;
            while i < n
                invariant
                    self.inv(),
                    g@ == self@,
                    n == g@.len(),
                    visited@.len() == n,
                    start < n,
                    i <= n,
                    visited@[start as int],
                    forall|i2: int|
                        0 <= i2 < n && #[trigger] visited@[i2] ==> reaches(g@, start as int, i2),
                    changed ==> count_true(visited@) >= c0 + 1,
                    !changed ==> count_true(visited@) == c0,
                    !changed ==> (forall|i2: int, k2: int|
                        0 <= i2 < i && visited@[i2] && 0 <= k2 < g@[i2].next.len() ==> visited@[
                            #[trigger] g@[i2].next[k2]]),
                decreases n - i,
            {
                if visited[i] {
                    let m = self.edges[i].next.len();
                    let mut k: usize = 0;
                    while k < m
                        invariant
                            self.inv(),
                            g@ == self@,
                            n == g@.len(),
                            visited@.len() == n,
                            start < n,
                            i < n,
                            k <= m,
                            m == g@[i as int].next.len(),
                            visited@[start as int],
                            visited@[i as int],
                            forall|i2: int|
                                0 <= i2 < n && #[trigger] visited@[i2] ==> reaches(
                                    g@,
                                    start as int,
                                    i2,
                                ),
                            changed ==> count_true(visited@) >= c0 + 1,
                            !changed ==> count_true(visited@) == c0,
                            !changed ==> (forall|i2: int, k2: int|
                                0 <= i2 < i && visited@[i2] && 0 <= k2 < g@[i2].next.len()
                                    ==> visited@[#[trigger] g@[i2].next[k2]]),
                            !changed ==> (forall|k2: int|
                                0 <= k2 < k ==> visited@[#[trigger] g@[i as int].next[k2]]),
                        decreases m - k,
                    {
                        let s = self.edges[i].next[k];
                        proof {
                            assert(wf_edge(g@, i as int));
                            assert(g@[i as int].next[k as int] == s as int);
                            assert(valid_idx(g@, s as int));
                        }
                        if !visited[s] {
                            proof {
                                lemma_count_true_update(visited@, s as int);
                                lemma_reach_step(g@, start as int, i as int, s as int);
                            }
                            visited[s] = true;
                            changed = true;
                        }
                        k += 1;
                    }
                }
                i += 1;
            }
            proof {
                lemma_count_true_bounds(visited@);
            }
            if !changed {
                closed = true;
            }
        }
        let b = visited[target];
        proof {
            if !b && reaches(g@, start as int, target as int) {
                let p = choose|p: Seq<int>|
                    is_path(g@, p) && p.first() == start as int && p.last() == target as int;
                lemma_closed_reach(g@, visited@, p);
            }
        }
        b
    }

    /// Forget every computed schedule quantity: any mutation of the network
    /// invalidates the passes, and a partial schedule is never left behind.
    pub(crate) fn reset_schedule(&mut self)
        requires
            wf(old(self)@),
            old(self).total_duration as int == sum_dur(old(self)@),
        ensures
            final(self).inv(),
            final(self)@ == clear_model(old(self)@),
            !final(self).spec_forward_done(),
            !final(self).spec_backward_done(),
            final(self).spec_total_duration() == old(self).spec_total_duration(),
    {
        proof {
            lemma_clear_model_props(old(self)@);
        }
        self.forward_done = false;
        self.backward_done = false;
        self.project_finish = Moment::Unknown;
        let n = self.edges.len();
        let mut i: usize = 0;
        while i < n
            invariant
                n == self.edges@.len(),
                self.edges@.len() == old(self).edges@.len(),
                i <= n,
                self.total_duration == old(self).total_duration,
                !self.forward_done,
                !self.backward_done,
                self.project_finish == Moment::Unknown,
                forall|j: int| 0 <= j < i ==> #[trigger] self@[j] == clear_edge(old(self)@[j]),
                forall|j: int| i <= j < n ==> #[trigger] self@[j] == old(self)@[j],
            decreases n - i,
        {
            let ghost pre = self@;
            let e = &mut self.edges[i];
            e.es = Moment::Unknown;
            e.ef = Moment::Unknown;
            e.ls = Moment::Unknown;
            e.lf = Moment::Unknown;
            e.tf = Moment::Unknown;
            e.ff = Moment::Unknown;
            proof {
                assert forall|j: int| 0 <= j < n implies #[trigger] self@[j] == (if j == i as int {
                    clear_edge(pre[j])
                } else {
                    pre[j]
                }) by {
                    if j == i as int {
                        assert(self@[j] =~= clear_edge(pre[j]));
                    }
                }
            }
            i += 1;
        }
        proof {
            assert(self@.len() == clear_model(old(self)@).len());
            assert forall|j: int| 0 <= j < n implies self@[j] == clear_model(old(self)@)[j] by {
                assert(self@[j] == clear_edge(old(self)@[j]));
            }
            assert(self@ =~= clear_model(old(self)@));
        }
    }

    /// Create one activity with the given identifier and duration and hand
    /// back its arena index; an identifier already in use is rejected. Any
    /// previously computed schedule is forgotten.
    pub fn add_activity(&mut self, id: u64, duration: usize) -> (r: Result<
        usize,
        SchedulingError,
    >)
        requires
            old(self).inv(),
            old(self).spec_total_duration() + duration <= usize::MAX,
        ensures
            final(self).inv(),
            (if has_id(old(self)@, id as int) {
                r == Err::<usize, SchedulingError>(SchedulingError::DuplicateId) && *final(self)
                    == *old(self)
            } else {
                &&& r == Ok::<usize, SchedulingError>(old(self)@.len() as usize)
                &&& final(self)@ == clear_model(old(self)@).push(
                    new_edge_model(id as int, duration as int),
                )
                &&& final(self).spec_total_duration() == old(self).spec_total_duration()
                    + duration
                &&& !final(self).spec_forward_done()
                &&& !final(self).spec_backward_done()
            }),
    {
        match self.find_index(id) {
            Some(_) => Err(SchedulingError::DuplicateId),
            None => {
                self.reset_schedule();
                proof {
                    lemma_push_fresh(self@, id as int, duration as int);
                }
                let mut e = Edge::new(duration);
                e.id = id;
                let idx = self.edges.len();
                let ghost before = self@;
                self.edges.push(e);
                self.total_duration = self.total_duration + duration;
                proof {
                    assert(self@ =~= before.push(new_edge_model(id as int, duration as int)));
                }
                Ok(idx)
            },
        }
    }

    /// Establish `from_id` as a predecessor of `to_id` in one atomic step:
    /// the successor entry and the mirroring predecessor entry appear
    /// together, never one without the other.
    ///
    /// An absent identifier is rejected; an edge that would close a cycle is
    /// rejected with the graph untouched; an edge already present is a no-op.
    /// On an actual change any previously computed schedule is forgotten.
    pub fn link(&mut self, from_id: u64, to_id: u64) -> (r: Result<(), SchedulingError>)
        requires
            old(self).inv(),
        ensures
            final(self).inv(),
            ({
                let g0 = old(self)@;
                let f = idx_of(g0, from_id as int);
                let t = idx_of(g0, to_id as int);
                if !has_id(g0, from_id as int) || !has_id(g0, to_id as int) {
                    r == Err::<(), SchedulingError>(SchedulingError::UnknownActivity) && *final(self)
                        == *old(self)
                } else if g0[f].next.contains(t) {
                    r == Ok::<(), SchedulingError>(()) && *final(self) == *old(self)
                } else if reaches(g0, t, f) {
                    r == Err::<(), SchedulingError>(SchedulingError::CycleDetected) && *final(self)
                        == *old(self)
                } else {
                    &&& r == Ok::<(), SchedulingError>(())
                    &&& final(self)@ == link_model(g0, f, t)
                    &&& final(self).spec_total_duration() == old(self).spec_total_duration()
                    &&& !final(self).spec_forward_done()
                    &&& !final(self).spec_backward_done()
                }
            }),
    {
        let from = match self.find_index(from_id) {
            Some(i) => i,
            None => { return Err(SchedulingError::UnknownActivity) },
        };
        let to = match self.find_index(to_id) {
            Some(i) => i,
            None => { return Err(SchedulingError::UnknownActivity) },
        };
        proof {
            assert(idx_of(self@, from_id as int) == from as int);
            assert(idx_of(self@, to_id as int) == to as int);
        }
        if self.contains_next(from, to) {
            return Ok(());
        }
        if self.reachable(to, from) {
            return Err(SchedulingError::CycleDetected);
        }
        proof {
            // a self-loop would have been caught: any activity reaches itself
            if from == to {
                lemma_reach_refl(self@, to as int);
            }
        }
        self.reset_schedule();
        proof {
            lemma_add_edge_props(self@, from as int, to as int);
        }
        let ghost before = self@;
        let e = &mut self.edges[from];
        e.next.push(to);
        let ghost mid = self@;
        proof {
            assert(mid =~= before.update(from as int, with_next(before[from as int], to as int)))
                by {
                assert(mid[from as int].next =~= before[from as int].next.push(to as int));
            }
        }
        let e2 = &mut self.edges[to];
        e2.prev.push(from);
        proof {
            assert(self@ =~= add_edge_model(before, from as int, to as int)) by {
                assert(self@[to as int].prev =~= mid[to as int].prev.push(from as int));
                assert(before[to as int].prev == mid[to as int].prev);
            }
        }
        Ok(())
    }

    /// The maximum earliest finish over the predecessors of `i`, when they
    /// are all computed; 0 for a source. `None` when `i` is not yet eligible.
    fn max_pred_ef(&self, i: usize) -> (r: Option<usize>)
        requires
            wf(self@),
            i < self@.len(),
        ensures
            (match r {
                Some(v) => preds_known(self@, i as int) && v as int == max_ef(
                    self@,
                    self@[i as int].prev,
                ),
                None => !preds_known(self@, i as int),
            }),
    {
        let m = self.edges[i].prev.len();
        let mut best: usize = 0;
        let mut k: usize = 0;
        proof {
            assert(self@[i as int].prev.take(0) =~= Seq::<int>::empty());
        }
        while k < m
            invariant
                wf(self@),
                i < self@.len(),
                k <= m,
                m == self@[i as int].prev.len(),
                forall|k2: int|
                    0 <= k2 < k ==> self@[#[trigger] self@[i as int].prev[k2]].ef is Some,
                best as int == max_ef(self@, self@[i as int].prev.take(k as int)),
            decreases m - k,
        {
            let p = self.edges[i].prev[k];
            proof {
                assert(wf_edge(self@, i as int));
                assert(self@[i as int].prev[k as int] == p as int);
                assert(valid_idx(self@, p as int));
            }
            match self.edges[p].ef {
                Moment::Moment(v) => {
                    proof {
                        let pr = self@[i as int].prev;
                        assert(pr.take(k as int + 1).drop_last() =~= pr.take(k as int));
                        assert(pr.take(k as int + 1).last() == pr[k as int]);
                        assert(ef_of(self@, p as int) == v as int);
                    }
                    if v > best {
                        best = v;
                    }
                },
                Moment::Unknown => {
                    proof {
                        assert(self@[p as int].ef is None);
                    }
                    return None;
                },
            }
            k += 1;
        }
        proof {
            assert(self@[i as int].prev.take(m as int) =~= self@[i as int].prev);
        }
        Some(best)
    }

    /// Forward pass: in topological order, give every activity its earliest
    /// start (the project start, 0, for a source; otherwise the maximum
    /// earliest finish over its predecessors) and its earliest finish (start
    /// plus duration). Succeeds exactly on acyclic networks; on a cyclic one
    /// nothing is computed and `CycleDetected` comes back.
    pub fn run_forward(&mut self) -> (r: Result<(), SchedulingError>)
        requires
            old(self).inv(),
        ensures
            final(self).inv(),
            same_structure(old(self)@, final(self)@),
            final(self).spec_total_duration() == old(self).spec_total_duration(),
            (r matches Ok(_) <==> acyclic(old(self)@)),
            (r matches Ok(_) ==> forward_sched(final(self)@) && final(self).spec_forward_done()
                && !final(self).spec_backward_done() && valid_rank(
                final(self)@,
                final(self).spec_rank(),
            )),
            (r matches Err(e) ==> e == SchedulingError::CycleDetected && final(self)@
                == clear_model(old(self)@) && !final(self).spec_forward_done()
                && !final(self).spec_backward_done()),
    {
        proof {
            lemma_clear_model_props(old(self)@);
        }
        self.reset_schedule();
        let ghost gc = self@;
        let n = self.edges.len();
        let mut order: Vec<usize> = Vec::new();
        let ghost mut rk: Seq<int> = Seq::new(n as nat, |x: int| 0int);
        proof {
            crate::model::lemma_unknown_count_full(self@, n as int);
        }
        loop
            invariant
                n == self@.len(),
                self.edges@.len() == n,
                wf(self@),
                same_structure(gc, self@),
                gc == clear_model(old(self)@),
                gc.len() == n,
                self.total_duration == old(self).total_duration,
                self.total_duration as int == sum_dur(self@),
                !self.forward_done,
                !self.backward_done,
                self.project_finish == Moment::Unknown,
                bwd_cleared(self@),
                fwd_partial(self@),
                rk.len() == n,
                order@.len() + unknown_count(self@) == n,
                forall|m: int|
                    0 <= m < order@.len() ==> (#[trigger] order@[m]) < n && self@[order@[m] as int].es
                        is Some && rk[order@[m] as int] == m,
                forall|i: int|
                    0 <= i < n && (#[trigger] self@[i].es) is Some ==> 0 <= rk[i] < order@.len()
                        && order@[rk[i]] as int == i,
                forall|i: int, k: int|
                    0 <= i < n && self@[i].es is Some && 0 <= k < self@[i].prev.len() ==> rk[
                        #[trigger] self@[i].prev[k]] < rk[i],
            decreases unknown_count(self@),
        {
            let ghost u0 = unknown_count(self@);
            proof {
                crate::model::lemma_unknown_count_nonneg(self@, n as int);
            }
            let mut progressed = false;
            let mut any_unknown = false;
            let mut i: usize = 0;
            while i < n
                invariant
                    n == self@.len(),
                    self.edges@.len() == n,
                    i <= n,
                    wf(self@),
                    same_structure(gc, self@),
                    gc == clear_model(old(self)@),
                    gc.len() == n,
                    self.total_duration == old(self).total_duration,
                    self.total_duration as int == sum_dur(self@),
                    !self.forward_done,
                    !self.backward_done,
                    self.project_finish == Moment::Unknown,
                    bwd_cleared(self@),
                    fwd_partial(self@),
                    rk.len() == n,
                    order@.len() + unknown_count(self@) == n,
                    forall|m: int|
                        0 <= m < order@.len() ==> (#[trigger] order@[m]) < n && self@[order@[m] as int].es
                            is Some && rk[order@[m] as int] == m,
                    forall|i2: int|
                        0 <= i2 < n && (#[trigger] self@[i2].es) is Some ==> 0 <= rk[i2]
                            < order@.len() && order@[rk[i2]] as int == i2,
                    forall|i2: int, k: int|
                        0 <= i2 < n && self@[i2].es is Some && 0 <= k < self@[i2].prev.len() ==> rk[
                            #[trigger] self@[i2].prev[k]] < rk[i2],
                    unknown_count(self@) <= u0,
                    progressed ==> unknown_count(self@) < u0,
                    !progressed ==> unknown_count(self@) == u0,
                    !progressed ==> (forall|i2: int|
                        0 <= i2 < i && (#[trigger] self@[i2].es) is None ==> !preds_known(
                            self@,
                            i2,
                        )),
                    !any_unknown ==> !progressed,
                    !any_unknown ==> (forall|i2: int|
                        0 <= i2 < i ==> (#[trigger] self@[i2].es) is Some),
                    any_unknown && !progressed ==> (exists|i2: int|
                        0 <= i2 < n && (#[trigger] self@[i2].es) is None),
                decreases n - i,
            {
                let is_unknown = match self.edges[i].es {
                    Moment::Moment(_) => false,
                    Moment::Unknown => true,
                };
                if is_unknown {
                    any_unknown = true;
                    match self.max_pred_ef(i) {
                        None => {},
                        Some(v) => {
                            let ghost pre = self@;
                            let dur = match self.edges[i].cost {
                                Cost::Duration(d) => d,
                                Cost::Unknown => {
                                    proof {
                                        assert(wf_edge(self@, i as int));
                                        assert(false);
                                    }
                                    0
                                },
                            };
                            proof {
                                lemma_forward_step(
                                    pre,
                                    pre.update(
                                        i as int,
                                        EdgeModel {
                                            es: Some(v as int),
                                            ef: Some(v as int + dur as int),
                                            ..pre[i as int]
                                        },
                                    ),
                                    i as int,
                                    v as int,
                                );
                            }
                            let e = &mut self.edges[i];
                            e.es = Moment::Moment(v);
                            e.ef = Moment::Moment(v + dur);
                            proof {
                                assert(self@ =~= pre.update(
                                    i as int,
                                    EdgeModel {
                                        es: Some(v as int),
                                        ef: Some(v as int + dur as int),
                                        ..pre[i as int]
                                    },
                                )) by {
                                    assert forall|j: int| 0 <= j < n implies self@[j] == (if j
                                        == i as int {
                                        EdgeModel {
                                            es: Some(v as int),
                                            ef: Some(v as int + dur as int),
                                            ..pre[i as int]
                                        }
                                    } else {
                                        pre[j]
                                    }) by {
                                        if j == i as int {
                                            assert(self@[j] =~= (EdgeModel {
                                                es: Some(v as int),
                                                ef: Some(v as int + dur as int),
                                                ..pre[i as int]
                                            }));
                                        }
                                    }
                                }
                                // structure facts carry through the update
                                assert forall|j: int| valid_idx(gc, j) implies #[trigger] same_structure_at(
                                    gc,
                                    self@,
                                    j,
                                ) by {
                                    assert(same_structure_at(gc, pre, j));
                                    assert(same_structure_at(pre, self@, j));
                                }
                            }
                            let ghost rk_old = rk;
                            let ghost o0 = order@;
                            proof {
                                rk = rk.update(i as int, o0.len() as int);
                            }
                            order.push(i);
                            progressed = true;
                            proof {
                                let g = self@;
                                let ii = i as int;
                                let ll = o0.len() as int;
                                assert(rk[ii] == ll);
                                assert forall|m: int| 0 <= m < order@.len() implies (
                                #[trigger] order@[m]) < n && g[order@[m] as int].es is Some && rk[order@[m] as int]
                                    == m by {
                                    if m < ll {
                                        assert(order@[m] == o0[m]);
                                        assert(pre[o0[m] as int].es is Some);
                                        assert(o0[m] as int != ii);
                                    } else {
                                        assert(order@[m] == i);
                                    }
                                }
                                assert forall|i2: int|
                                    0 <= i2 < n && (#[trigger] g[i2].es) is Some implies 0 <= rk[i2]
                                    < order@.len() && order@[rk[i2]] as int == i2 by {
                                    if i2 != ii {
                                        assert(g[i2].es == pre[i2].es);
                                        assert(rk[i2] == rk_old[i2]);
                                        assert(0 <= rk_old[i2] < ll);
                                        assert(order@[rk[i2]] == o0[rk[i2]]);
                                    } else {
                                        assert(order@[ll] == i);
                                    }
                                }
                                assert forall|i2: int, k2: int|
                                    0 <= i2 < n && g[i2].es is Some && 0 <= k2 < g[i2].prev.len() implies rk[
                                #[trigger] g[i2].prev[k2]] < rk[i2] by {
                                    let q = g[i2].prev[k2];
                                    assert(wf_edge(g, i2));
                                    assert(valid_idx(g, q));
                                    if i2 == ii {
                                        assert(g[ii].prev == pre[ii].prev);
                                        assert(preds_known(pre, ii));
                                        assert(pre[ii].prev[k2] == q);
                                        assert(pre[q].ef is Some);
                                        assert(pre[q].es is Some);
                                        assert(q != ii);
                                        assert(rk[q] == rk_old[q]);
                                        assert(0 <= rk_old[q] < ll);
                                    } else {
                                        assert(g[i2].es == pre[i2].es);
                                        assert(g[i2].prev == pre[i2].prev);
                                        assert(pre[i2].es is Some);
                                        assert(preds_known(pre, i2));
                                        assert(pre[i2].prev[k2] == q);
                                        assert(pre[q].ef is Some);
                                        assert(pre[q].es is Some);
                                        assert(q != ii);
                                        assert(rk_old[q] < rk_old[i2]);
                                        assert(rk[q] == rk_old[q] && rk[i2] == rk_old[i2]);
                                    }
                                }
                            }
                        },
                    }
                }
                i += 1;
            }
            if !any_unknown {
                let ghost g = self@;
                let ghost ord = order@;
                proof {
                    lemma_unknown_count_zero(g, n as int);
                    assert(ord.len() == n);
                    assert forall|i2: int| valid_idx(g, i2) implies (#[trigger] g[i2].es) is Some by {
                    }
                    assert forall|i2: int| valid_idx(g, i2) implies #[trigger] fwd_at(g, i2) by {
                        assert(g[i2].es is Some);
                    }
                    assert forall|i2: int| valid_idx(g, i2) implies 0 <= #[trigger] rk[i2]
                        < g.len() by {
                        assert(g[i2].es is Some);
                    }
                    assert forall|i2: int, k: int|
                        valid_idx(g, i2) && 0 <= k < g[i2].next.len() implies rk[i2] < rk[
                        #[trigger] g[i2].next[k]] by {
                        let s = g[i2].next[k];
                        assert(wf_edge(g, i2));
                        assert(valid_idx(g, s));
                        assert(g[i2].next.contains(s));
                        assert(g[s].prev.contains(i2));
                        let k2 = choose|k2: int| 0 <= k2 < g[s].prev.len() && g[s].prev[k2] == i2;
                        assert(g[s].es is Some);
                        assert(rk[g[s].prev[k2]] < rk[s]);
                    }
                    assert(valid_rank(g, rk));
                    assert forall|k: int|
                        0 <= k < ord.len() implies valid_idx(g, #[trigger] ord[k] as int) && rk[ord[k] as int]
                        == k by {
                    }
                    assert forall|i2: int| valid_idx(g, i2) implies ord[#[trigger] rk[i2]] as int
                        == i2 by {
                        assert(g[i2].es is Some);
                    }
                    assert(topo_ok(g, ord, rk));
                }
                self.topo = order;
                self.rank = Ghost(rk);
                self.forward_done = true;
                proof {
                    assert(self@ =~= g) by {
                        assert forall|j: int| 0 <= j < n implies self@[j] == g[j] by {
                            assert(self@[j] == self.edges@[j]@);
                        }
                    }
                    assert(self.topo@ == ord);
                    // the witness numbering carries back to the caller's network
                    assert forall|j: int| valid_idx(g, j) implies #[trigger] same_structure_at(
                        g,
                        old(self)@,
                        j,
                    ) by {
                        assert(same_structure_at(gc, g, j));
                        assert(clear_model(old(self)@)[j] == clear_edge(old(self)@[j]));
                    }
                    lemma_valid_rank_congruence(g, old(self)@, rk);
                    assert(acyclic(old(self)@));
                    assert forall|j: int| valid_idx(old(self)@, j) implies #[trigger] same_structure_at(
                        old(self)@,
                        g,
                        j,
                    ) by {
                        assert(same_structure_at(g, old(self)@, j));
                    }
                }
                return Ok(());
            }
            if !progressed {
                proof {
                    // every still-unknown activity waits on an unknown
                    // predecessor: the network holds a cycle
                    assert forall|i2: int|
                        valid_idx(self@, i2) && (#[trigger] self@[i2].es) is None implies exists|
                        k: int,
                    |
                        0 <= k < self@[i2].prev.len() && self@[#[trigger] self@[i2].prev[k]].es
                            is None by {
                        assert(!preds_known(self@, i2));
                        let k = choose|k: int|
                            0 <= k < self@[i2].prev.len() && !(self@[#[trigger] self@[i2].prev[k]].ef
                                is Some);
                        assert(wf_edge(self@, i2));
                        assert(valid_idx(self@, self@[i2].prev[k]));
                        assert(self@[self@[i2].prev[k]].es is None);
                    }
                    lemma_stuck_not_acyclic(self@);
                    if acyclic(old(self)@) {
                        assert forall|j: int| valid_idx(old(self)@, j) implies #[trigger] same_structure_at(
                            old(self)@,
                            self@,
                            j,
                        ) by {
                            assert(same_structure_at(gc, self@, j));
                            assert(clear_model(old(self)@)[j] == clear_edge(old(self)@[j]));
                        }
                        lemma_acyclic_congruence(old(self)@, self@);
                    }
                }
                let ghost partial = self@;
                self.reset_schedule();
                proof {
                    lemma_clear_model_props(partial);
                    assert(self@ =~= clear_model(old(self)@)) by {
                        assert forall|j: int| 0 <= j < n implies self@[j] == clear_model(
                            old(self)@,
                        )[j] by {
                            assert(self@[j] == clear_edge(partial[j]));
                            assert(same_structure_at(gc, partial, j));
                            assert(clear_model(old(self)@)[j] == clear_edge(old(self)@[j]));
                            assert(gc[j] == clear_edge(old(self)@[j]));
                            assert(self@[j] =~= clear_model(old(self)@)[j]);
                        }
                    }
                }
                return Err(SchedulingError::CycleDetected);
            }
            proof {
                crate::model::lemma_unknown_count_nonneg(self@, n as int);
            }
        }
    }

    /// Forget only the backward-pass results, keeping the forward ones.
    fn bwd_reset(&mut self)
        requires
            wf(old(self)@),
        ensures
            final(self)@.len() == old(self)@.len(),
            same_forward(old(self)@, final(self)@),
            bwd_cleared(final(self)@),
            !final(self).spec_backward_done(),
            final(self).spec_finish() is None,
            final(self).forward_done == old(self).forward_done,
            final(self).topo@ == old(self).topo@,
            final(self).rank@ == old(self).rank@,
            final(self).total_duration == old(self).total_duration,
    {
        self.backward_done = false;
        self.project_finish = Moment::Unknown;
        let n = self.edges.len();
        let mut i: usize = 0;
        while i < n
            invariant
                n == self.edges@.len(),
                self.edges@.len() == old(self).edges@.len(),
                i <= n,
                self.total_duration == old(self).total_duration,
                self.forward_done == old(self).forward_done,
                !self.backward_done,
                self.project_finish == Moment::Unknown,
                self.topo@ == old(self).topo@,
                self.rank@ == old(self).rank@,
                forall|j: int|
                    0 <= j < i ==> #[trigger] self@[j] == (EdgeModel {
                        ls: None,
                        lf: None,
                        tf: None,
                        ff: None,
                        ..old(self)@[j]
                    }),
                forall|j: int| i <= j < n ==> #[trigger] self@[j] == old(self)@[j],
            decreases n - i,
        {
            let ghost pre = self@;
            let e = &mut self.edges[i];
            e.ls = Moment::Unknown;
            e.lf = Moment::Unknown;
            e.tf = Moment::Unknown;
            e.ff = Moment::Unknown;
            proof {
                assert forall|j: int| 0 <= j < n implies #[trigger] self@[j] == (if j == i as int {
                    EdgeModel { ls: None, lf: None, tf: None, ff: None, ..pre[j] }
                } else {
                    pre[j]
                }) by {
                    if j == i as int {
                        assert(self@[j] =~= (EdgeModel {
                            ls: None,
                            lf: None,
                            tf: None,
                            ff: None,
                            ..pre[j]
                        }));
                    }
                }
            }
            i += 1;
        }
        proof {
            assert forall|j: int| valid_idx(old(self)@, j) implies #[trigger] same_structure_at(
                old(self)@,
                self@,
                j,
            ) && #[trigger] crate::model::fwd_vals_at(old(self)@, self@, j) by {}
            assert forall|j: int| valid_idx(self@, j) implies #[trigger] bwd_clear_at(
                self@,
                j,
            ) by {}
        }
    }

    /// The maximum earliest finish over the sink activities: the default
    /// project finish.
    fn max_sink_finish(&self) -> (v: usize)
        requires
            wf(self@),
            forward_sched(self@),
        ensures
            v as int == default_finish(self@),
    {
        let n = self.edges.len();
        let mut v: usize = 0;
        let mut i: usize = 0;
        while i < n
            invariant
                n == self@.len(),
                i <= n,
                wf(self@),
                forward_sched(self@),
                v as int == sink_max_to(self@, i as int),
            decreases n - i,
        {
            if self.edges[i].next.len() == 0 {
                proof {
                    assert(is_sink(self@, i as int));
                    assert(fwd_at(self@, i as int));
                }
                let e = match self.edges[i].ef {
                    Moment::Moment(x) => x,
                    Moment::Unknown => {
                        proof {
                            assert(false);
                        }
                        0
                    },
                };
                if e > v {
                    v = e;
                }
            } else {
                proof {
                    assert(!is_sink(self@, i as int));
                }
            }
            i += 1;
        }
        v
    }

    /// The minimum latest start over the successors of `i`, all of which
    /// already carry one.
    fn min_succ_ls(&self, i: usize) -> (v: usize)
        requires
            wf(self@),
            i < self@.len(),
            self@[i as int].next.len() > 0,
            forall|k: int|
                0 <= k < self@[i as int].next.len() ==> self@[#[trigger] self@[i as int].next[k]].ls
                    is Some,
        ensures
            v as int == min_ls(self@, self@[i as int].next),
    {
        let m = self.edges[i].next.len();
        let s0 = self.edges[i].next[0];
        proof {
            assert(wf_edge(self@, i as int));
            assert(self@[i as int].next[0] == s0 as int);
            assert(valid_idx(self@, s0 as int));
        }
        let mut v: usize = match self.edges[s0].ls {
            Moment::Moment(x) => x,
            Moment::Unknown => {
                proof {
                    assert(false);
                }
                0
            },
        };
        let mut k: usize = 1;
        proof {
            assert(self@[i as int].next.take(1).len() == 1);
            assert(self@[i as int].next.take(1)[0] == s0 as int);
            assert(min_ls(self@, self@[i as int].next.take(1)) == ls_of(self@, s0 as int));
        }
        while k < m
            invariant
                wf(self@),
                i < self@.len(),
                1 <= k <= m,
                m == self@[i as int].next.len(),
                forall|k2: int|
                    0 <= k2 < m ==> self@[#[trigger] self@[i as int].next[k2]].ls is Some,
                v as int == min_ls(self@, self@[i as int].next.take(k as int)),
            decreases m - k,
        {
            let s = self.edges[i].next[k];
            proof {
                assert(wf_edge(self@, i as int));
                assert(self@[i as int].next[k as int] == s as int);
                assert(valid_idx(self@, s as int));
                let nx = self@[i as int].next;
                assert(nx.take(k as int + 1).drop_last() =~= nx.take(k as int));
                assert(nx.take(k as int + 1).last() == nx[k as int]);
            }
            let x = match self.edges[s].ls {
                Moment::Moment(x) => x,
                Moment::Unknown => {
                    proof {
                        assert(false);
                    }
                    0
                },
            };
            if x < v {
                v = x;
            }
            k += 1;
        }
        proof {
            assert(self@[i as int].next.take(m as int) =~= self@[i as int].next);
        }
        v
    }

    /// The minimum earliest start over the successors of `i`.
    fn min_succ_es(&self, i: usize) -> (v: usize)
        requires
            wf(self@),
            forward_sched(self@),
            i < self@.len(),
            self@[i as int].next.len() > 0,
        ensures
            v as int == min_es(self@, self@[i as int].next),
    {
        let m = self.edges[i].next.len();
        let s0 = self.edges[i].next[0];
        proof {
            assert(wf_edge(self@, i as int));
            assert(self@[i as int].next[0] == s0 as int);
            assert(valid_idx(self@, s0 as int));
            assert(fwd_at(self@, s0 as int));
        }
        let mut v: usize = match self.edges[s0].es {
            Moment::Moment(x) => x,
            Moment::Unknown => {
                proof {
                    assert(false);
                }
                0
            },
        };
        let mut k: usize = 1;
        proof {
            assert(self@[i as int].next.take(1).len() == 1);
            assert(self@[i as int].next.take(1)[0] == s0 as int);
            assert(min_es(self@, self@[i as int].next.take(1)) == es_of(self@, s0 as int));
        }
        while k < m
            invariant
                wf(self@),
                forward_sched(self@),
                i < self@.len(),
                1 <= k <= m,
                m == self@[i as int].next.len(),
                v as int == min_es(self@, self@[i as int].next.take(k as int)),
            decreases m - k,
        {
            let s = self.edges[i].next[k];
            proof {
                assert(wf_edge(self@, i as int));
                assert(self@[i as int].next[k as int] == s as int);
                assert(valid_idx(self@, s as int));
                assert(fwd_at(self@, s as int));
                let nx = self@[i as int].next;
                assert(nx.take(k as int + 1).drop_last() =~= nx.take(k as int));
                assert(nx.take(k as int + 1).last() == nx[k as int]);
            }
            let x = match self.edges[s].es {
                Moment::Moment(x) => x,
                Moment::Unknown => {
                    proof {
                        assert(false);
                    }
                    0
                },
            };
            if x < v {
                v = x;
            }
            k += 1;
        }
        proof {
            assert(self@[i as int].next.take(m as int) =~= self@[i as int].next);
        }
        v
    }

    /// Backward pass: in reverse topological order, give every activity its
    /// latest finish (the project finish for a sink; otherwise the minimum
    /// latest start over its successors), its latest start (finish minus
    /// duration), and the two floats: total float, latest minus earliest
    /// start, and free float, the earliest successor start minus the earliest
    /// finish.
    ///
    /// Requires the forward pass to have run, else `ForwardPassNotRun`. When
    /// no project finish is supplied, the maximum earliest finish over the
    /// sinks is used and the pass always succeeds; a supplied finish succeeds
    /// exactly when it is no smaller than that default, and fails with
    /// `NegativeFloat` otherwise, leaving no backward values behind.
    pub fn run_backward(&mut self, project_finish: Option<usize>) -> (r: Result<
        (),
        SchedulingError,
    >)
        requires
            old(self).inv(),
        ensures
            final(self).inv(),
            (if !old(self).spec_forward_done() {
                r == Err::<(), SchedulingError>(SchedulingError::ForwardPassNotRun) && *final(self)
                    == *old(self)
            } else {
                let f = (match project_finish {
                    Some(x) => x as int,
                    None => default_finish(old(self)@),
                });
                &&& same_forward(old(self)@, final(self)@)
                &&& final(self).spec_forward_done()
                &&& forward_sched(final(self)@)
                &&& final(self).spec_rank() == old(self).spec_rank()
                &&& (r matches Ok(_) <==> f >= default_finish(old(self)@))
                &&& (r matches Ok(_) ==> backward_sched(final(self)@, f)
                    && final(self).spec_backward_done() && final(self).spec_finish() == Some(f))
                &&& (r matches Err(e) ==> e == SchedulingError::NegativeFloat
                    && !final(self).spec_backward_done() && bwd_cleared(final(self)@))
            }),
    {
        if !self.forward_done {
            return Err(SchedulingError::ForwardPassNotRun);
        }
        self.bwd_reset();
        proof {
            lemma_wf_congruence(old(self)@, self@);
            lemma_forward_sched_congruence(old(self)@, self@);
            lemma_valid_rank_congruence(old(self)@, self@, self.rank@);
            assert forall|j: int| 0 <= j < self@.len() implies (#[trigger] old(self)@[j].next).len()
                == self@[j].next.len() && old(self)@[j].ef == self@[j].ef by {
                assert(same_structure_at(old(self)@, self@, j));
                assert(crate::model::fwd_vals_at(old(self)@, self@, j));
            }
            lemma_sink_max_congruence(old(self)@, self@, self@.len() as int);
            assert forall|j: int| 0 <= j < self@.len() implies self@[j].cost == #[trigger] old(self)@[j].cost by {
                assert(same_structure_at(old(self)@, self@, j));
            }
            crate::model::lemma_sum_dur_congruence(self@, old(self)@, self@.len() as int);
        }
        let f = match project_finish {
            Some(x) => x,
            None => self.max_sink_finish(),
        };
        let n = self.edges.len();
        let ghost rkv = self.rank@;
        let mut k: usize = n;
        while k > 0
            invariant
                old(self).inv(),
                old(self).spec_forward_done(),
                n == self@.len(),
                old(self)@.len() == n,
                self.edges@.len() == n,
                k <= n,
                wf(self@),
                forward_sched(self@),
                same_forward(old(self)@, self@),
                valid_rank(self@, rkv),
                topo_ok(self@, self.topo@, rkv),
                self.rank@ == rkv,
                rkv == old(self).rank@,
                self.topo@ == old(self).topo@,
                self.forward_done,
                !self.backward_done,
                self.project_finish == Moment::Unknown,
                self.total_duration == old(self).total_duration,
                self.total_duration as int == sum_dur(self@),
                f as int >= (match project_finish {
                    Some(x) => x as int,
                    None => default_finish(old(self)@),
                }),
                f as int <= (match project_finish {
                    Some(x) => x as int,
                    None => default_finish(old(self)@),
                }),
                bwd_partial(self@, f as int, rkv, k as int),
            decreases k,
        {
            k -= 1;
            let i = self.topo[k];
            proof {
                assert(self.topo@[k as int] == i);
                assert(valid_idx(self@, i as int));
                assert(rkv[i as int] == k as int);
                assert(fwd_at(self@, i as int));
                // every successor already carries its backward values
                assert forall|k2: int| 0 <= k2 < self@[i as int].next.len() implies self@[
                    #[trigger] self@[i as int].next[k2]].ls is Some by {
                    let s = self@[i as int].next[k2];
                    assert(wf_edge(self@, i as int));
                    assert(valid_idx(self@, s));
                    assert(rkv[i as int] < rkv[s]);
                    assert(bwd_at(self@, f as int, s));
                }
            }
            let lf_v = if self.edges[i].next.len() == 0 {
                proof {
                    assert(is_sink(self@, i as int));
                }
                f
            } else {
                proof {
                    assert(!is_sink(self@, i as int));
                }
                self.min_succ_ls(i)
            };
            proof {
                assert(lf_v as int == bwd_lf(self@, f as int, i as int));
            }
            let es_v = match self.edges[i].es {
                Moment::Moment(x) => x,
                Moment::Unknown => {
                    proof {
                        assert(false);
                    }
                    0
                },
            };
            let ef_v = match self.edges[i].ef {
                Moment::Moment(x) => x,
                Moment::Unknown => {
                    proof {
                        assert(false);
                    }
                    0
                },
            };
            let dur_v = match self.edges[i].cost {
                Cost::Duration(d) => d,
                Cost::Unknown => {
                    proof {
                        assert(wf_edge(self@, i as int));
                        assert(false);
                    }
                    0
                },
            };
            if lf_v < ef_v {
                // a latest finish below the earliest finish: only a sink fed
                // with a too-small project finish can get here
                proof {
                    if !is_sink(self@, i as int) {
                        lemma_nonsink_lf_bound(
                            self@,
                            f as int,
                            rkv,
                            i as int,
                            k as int,
                        );
                        assert(false);
                    }
                    lemma_sink_max_ge(self@, i as int, n as int);
                    assert forall|j: int| 0 <= j < n implies (#[trigger] old(self)@[j].next).len()
                        == self@[j].next.len() && old(self)@[j].ef == self@[j].ef by {
                        assert(same_structure_at(old(self)@, self@, j));
                        assert(crate::model::fwd_vals_at(old(self)@, self@, j));
                    }
                    lemma_sink_max_congruence(old(self)@, self@, n as int);
                    assert((f as int) < default_finish(old(self)@));
                }
                let ghost partial = self@;
                self.bwd_reset();
                proof {
                    lemma_wf_congruence(partial, self@);
                    lemma_forward_sched_congruence(partial, self@);
                    lemma_valid_rank_congruence(partial, self@, rkv);
                    assert(topo_ok(self@, self.topo@, rkv)) by {
                        assert forall|m: int|
                            0 <= m < self.topo@.len() implies valid_idx(
                            self@,
                            #[trigger] self.topo@[m] as int,
                        ) && rkv[self.topo@[m] as int] == m by {}
                        assert forall|j: int| valid_idx(self@, j) implies self.topo@[
                        #[trigger] rkv[j]] as int == j by {}
                    }
                    assert(same_forward(old(self)@, self@)) by {
                        assert forall|j: int| valid_idx(old(self)@, j) implies #[trigger] same_structure_at(
                            old(self)@,
                            self@,
                            j,
                        ) by {
                            assert(same_structure_at(old(self)@, partial, j));
                            assert(same_structure_at(partial, self@, j));
                        }
                        assert forall|j: int| valid_idx(old(self)@, j) implies #[trigger] crate::model::fwd_vals_at(
                            old(self)@,
                            self@,
                            j,
                        ) by {
                            assert(crate::model::fwd_vals_at(old(self)@, partial, j));
                            assert(crate::model::fwd_vals_at(partial, self@, j));
                        }
                    }
                    assert forall|j: int| 0 <= j < n implies self@[j].cost == #[trigger] old(self)@[j].cost by {
                        assert(same_structure_at(old(self)@, self@, j));
                    }
                    crate::model::lemma_sum_dur_congruence(self@, old(self)@, n as int);
                    assert(self@.len() == n);
                    assert(old(self).total_duration as int == sum_dur(old(self)@));
                    assert((f as int) < default_finish(old(self)@));
                }
                return Err(SchedulingError::NegativeFloat);
            }
            proof {
                assert(ef_of(self@, i as int) == es_of(self@, i as int) + dur_of(
                    self@,
                    i as int,
                ));
                if !is_sink(self@, i as int) {
                    lemma_succ_es_bound(self@, i as int);
                }
            }
            let ss_v = if self.edges[i].next.len() == 0 {
                f
            } else {
                self.min_succ_es(i)
            };
            proof {
                assert(ss_v as int == succ_start(self@, f as int, i as int));
                assert(ss_v >= ef_v);
            }
            let ls_v = lf_v - dur_v;
            let tf_a = ls_v - es_v;
            let tf_b = lf_v - ef_v;
            if tf_a != tf_b {
                // the two readings of total float must agree; a disagreement
                // would be a defect of the engine itself
                proof {
                    assert(false);
                }
                return Err(SchedulingError::InconsistentSchedule);
            }
            let ff_v = ss_v - ef_v;
            let ghost pre = self@;
            proof {
                lemma_backward_step(
                    pre,
                    pre.update(
                        i as int,
                        EdgeModel {
                            lf: Some(lf_v as int),
                            ls: Some(ls_v as int),
                            tf: Some(tf_a as int),
                            ff: Some(ff_v as int),
                            ..pre[i as int]
                        },
                    ),
                    f as int,
                    rkv,
                    i as int,
                    k as int,
                );
            }
            let e = &mut self.edges[i];
            e.lf = Moment::Moment(lf_v);
            e.ls = Moment::Moment(ls_v);
            e.tf = Moment::Moment(tf_a);
            e.ff = Moment::Moment(ff_v);
            proof {
                assert(self@ =~= pre.update(
                    i as int,
                    EdgeModel {
                        lf: Some(lf_v as int),
                        ls: Some(ls_v as int),
                        tf: Some(tf_a as int),
                        ff: Some(ff_v as int),
                        ..pre[i as int]
                    },
                )) by {
                    assert forall|j: int| 0 <= j < n implies self@[j] == (if j == i as int {
                        EdgeModel {
                            lf: Some(lf_v as int),
                            ls: Some(ls_v as int),
                            tf: Some(tf_a as int),
                            ff: Some(ff_v as int),
                            ..pre[i as int]
                        }
                    } else {
                        pre[j]
                    }) by {
                        if j == i as int {
                            assert(self@[j] =~= (EdgeModel {
                                lf: Some(lf_v as int),
                                ls: Some(ls_v as int),
                                tf: Some(tf_a as int),
                                ff: Some(ff_v as int),
                                ..pre[i as int]
                            }));
                        }
                    }
                }
                assert forall|m: int|
                    0 <= m < self.topo@.len() implies valid_idx(
                    self@,
                    #[trigger] self.topo@[m] as int,
                ) && rkv[self.topo@[m] as int] == m by {}
                assert forall|j: int| valid_idx(self@, j) implies self.topo@[#[trigger] rkv[j]] as int
                    == j by {}
                assert(same_forward(old(self)@, self@)) by {
                    assert forall|j: int| valid_idx(old(self)@, j) implies #[trigger] same_structure_at(
                        old(self)@,
                        self@,
                        j,
                    ) by {
                        assert(same_structure_at(old(self)@, pre, j));
                        assert(same_structure_at(pre, self@, j));
                    }
                    assert forall|j: int| valid_idx(old(self)@, j) implies #[trigger] crate::model::fwd_vals_at(
                        old(self)@,
                        self@,
                        j,
                    ) by {
                        assert(crate::model::fwd_vals_at(old(self)@, pre, j));
                        assert(crate::model::fwd_vals_at(pre, self@, j));
                    }
                }
                assert forall|j: int| 0 <= j < n implies self@[j].cost == #[trigger] old(self)@[j].cost by {
                    assert(same_structure_at(old(self)@, self@, j));
                }
                crate::model::lemma_sum_dur_congruence(self@, old(self)@, n as int);
            }
        }
        let ghost gdone = self@;
        self.project_finish = Moment::Moment(f);
        self.backward_done = true;
        proof {
            assert(self@ =~= gdone) by {
                assert forall|j: int| 0 <= j < n implies self@[j] == gdone[j] by {
                    assert(self@[j] == self.edges@[j]@);
                }
            }
            assert forall|j: int| valid_idx(self@, j) implies #[trigger] bwd_at(
                self@,
                f as int,
                j,
            ) by {
                assert(rkv[j] >= 0);
            }
            // every sink finishes by `f`: the supplied finish covers the
            // default one
            assert forall|j: int|
                0 <= j < n && #[trigger] is_sink(self@, j) implies ef_of(self@, j)
                <= f as int by {
                assert(bwd_at(self@, f as int, j));
                assert(fwd_at(self@, j));
            }
            lemma_sink_max_le(self@, n as int, f as int);
            assert(default_finish(self@) <= f as int);
            assert forall|j: int| 0 <= j < n implies (#[trigger] old(self)@[j].next).len()
                == self@[j].next.len() && old(self)@[j].ef == self@[j].ef by {
                assert(same_structure_at(old(self)@, self@, j));
                assert(crate::model::fwd_vals_at(old(self)@, self@, j));
            }
            lemma_sink_max_congruence(old(self)@, self@, n as int);
            assert(default_finish(old(self)@) <= f as int);
        }
        Ok(())
    }

    /// Total and free float of activity `i`, both passes done.
    pub fn floats(&self, i: usize) -> (r: (usize, usize))
        requires
            self.inv(),
            self.spec_backward_done(),
            i < self@.len(),
        ensures
            r.0 as int == tf_of(self@, i as int),
            r.1 as int == ff_of(self@, i as int),
    {
        proof {
            assert(bwd_at(self@, self.spec_finish()->0, i as int));
        }
        let t = match self.edges[i].tf {
            Moment::Moment(x) => x,
            Moment::Unknown => {
                proof {
                    assert(false);
                }
                0
            },
        };
        let ffv = match self.edges[i].ff {
            Moment::Moment(x) => x,
            Moment::Unknown => {
                proof {
                    assert(false);
                }
                0
            },
        };
        (t, ffv)
    }

    /// Whether activity `i` is critical: zero total float.
    pub fn is_critical(&self, i: usize) -> (b: bool)
        requires
            self.inv(),
            self.spec_backward_done(),
            i < self@.len(),
        ensures
            b <==> self@[i as int].tf == Some(0int),
    {
        proof {
            assert(bwd_at(self@, self.spec_finish()->0, i as int));
        }
        match self.edges[i].tf {
            Moment::Moment(x) => x == 0,
            Moment::Unknown => {
                proof {
                    assert(false);
                }
                false
            },
        }
    }

    /// The committed project finish instant: the overall project duration.
    pub fn project_duration(&self) -> (d: usize)
        requires
            self.inv(),
            self.spec_backward_done(),
        ensures
            Some(d as int) == self.spec_finish(),
    {
        match self.project_finish {
            Moment::Moment(x) => x,
            Moment::Unknown => {
                proof {
                    assert(false);
                }
                0
            },
        }
    }

    /// The full schedule report, one entry per activity in arena order.
    pub fn schedule(&self) -> (r: Vec<ScheduleEntry>)
        requires
            self.inv(),
            self.spec_backward_done(),
        ensures
            r@.len() == self@.len(),
            forall|i: int|
                0 <= i < r@.len() ==> (#[trigger] r@[i]).id as int == self@[i].id && r@[i].es as int
                    == es_of(self@, i) && r@[i].ef as int == ef_of(self@, i) && r@[i].ls as int
                    == ls_of(self@, i) && r@[i].lf as int == lf_of(self@, i) && r@[i].tf as int
                    == tf_of(self@, i) && r@[i].ff as int == ff_of(self@, i) && (r@[i].is_critical
                    <==> self@[i].tf == Some(0int)),
    {
        let n = self.edges.len();
        let mut r: Vec<ScheduleEntry> = Vec::new();
        let mut i: usize = 0;
        while i < n
            invariant
                self.inv(),
                self.spec_backward_done(),
                n == self@.len(),
                i <= n,
                r@.len() == i,
                forall|j: int|
                    0 <= j < i ==> (#[trigger] r@[j]).id as int == self@[j].id && r@[j].es as int
                        == es_of(self@, j) && r@[j].ef as int == ef_of(self@, j) && r@[j].ls as int
                        == ls_of(self@, j) && r@[j].lf as int == lf_of(self@, j) && r@[j].tf as int
                        == tf_of(self@, j) && r@[j].ff as int == ff_of(self@, j)
                        && (r@[j].is_critical <==> self@[j].tf == Some(0int)),
            decreases n - i,
        {
            proof {
                assert(fwd_at(self@, i as int));
                assert(bwd_at(self@, self.spec_finish()->0, i as int));
            }
            let e = self.activity(i);
            let id = e.id;
            let es_v = match e.es {
                Moment::Moment(x) => x,
                Moment::Unknown => {
                    proof {
                        assert(false);
                    }
                    0
                },
            };
            let ef_v = match e.ef {
                Moment::Moment(x) => x,
                Moment::Unknown => {
                    proof {
                        assert(false);
                    }
                    0
                },
            };
            let ls_v = match e.ls {
                Moment::Moment(x) => x,
                Moment::Unknown => {
                    proof {
                        assert(false);
                    }
                    0
                },
            };
            let lf_v = match e.lf {
                Moment::Moment(x) => x,
                Moment::Unknown => {
                    proof {
                        assert(false);
                    }
                    0
                },
            };
            let tf_v = match e.tf {
                Moment::Moment(x) => x,
                Moment::Unknown => {
                    proof {
                        assert(false);
                    }
                    0
                },
            };
            let ff_v = match e.ff {
                Moment::Moment(x) => x,
                Moment::Unknown => {
                    proof {
                        assert(false);
                    }
                    0
                },
            };
            r.push(
                ScheduleEntry {
                    id,
                    es: es_v,
                    ef: ef_v,
                    ls: ls_v,
                    lf: lf_v,
                    tf: tf_v,
                    ff: ff_v,
                    is_critical: tf_v == 0,
                },
            );
            i += 1;
        }
        r
    }

    /// The identifiers of the critical activities, in dependency order: the
    /// order of the topological numbering the forward pass established, so a
    /// critical predecessor always appears before its critical successors.
    pub fn critical_path_ids(&self) -> (r: Vec<u64>)
        requires
            self.inv(),
            self.spec_backward_done(),
        ensures
            exists|pos: Seq<int>|
                #[trigger] critical_listing(self@, self.spec_rank(), pos, r@),
    {
        let n = self.edges.len();
        let mut r: Vec<u64> = Vec::new();
        let ghost mut pos: Seq<int> = Seq::empty();
        let mut k: usize = 0;
        while k < n
            invariant
                self.inv(),
                self.spec_backward_done(),
                self.spec_forward_done(),
                n == self@.len(),
                self.topo@.len() == n,
                k <= n,
                pos.len() == r@.len(),
                forall|m: int|
                    0 <= m < pos.len() ==> valid_idx(self@, #[trigger] pos[m]) && self@[pos[m]].tf
                        == Some(0int) && r@[m] as int == self@[pos[m]].id,
                forall|m1: int, m2: int|
                    0 <= m1 < m2 < pos.len() ==> self.spec_rank()[pos[m1]]
                        < self.spec_rank()[pos[m2]],
                forall|m: int| 0 <= m < pos.len() ==> 0 <= self.spec_rank()[#[trigger] pos[m]] < k,
                forall|i: int|
                    valid_idx(self@, i) && (#[trigger] self@[i].tf) == Some(0int)
                        && self.spec_rank()[i] < k ==> pos.contains(i),
            decreases n - k,
        {
            let i = self.topo[k];
            proof {
                assert(self.topo@[k as int] == i);
                assert(valid_idx(self@, i as int));
                assert(self.spec_rank()[i as int] == k as int);
                assert(bwd_at(self@, self.spec_finish()->0, i as int));
            }
            let tf_v = match self.edges[i].tf {
                Moment::Moment(x) => x,
                Moment::Unknown => {
                    proof {
                        assert(false);
                    }
                    0
                },
            };
            let ghost pos0 = pos;
            if tf_v == 0 {
                let idv = self.edges[i].id;
                r.push(idv);
                proof {
                    pos = pos.push(i as int);
                }
            }
            proof {
                assert forall|i2: int|
                    valid_idx(self@, i2) && (#[trigger] self@[i2].tf) == Some(0int)
                        && self.spec_rank()[i2] < k + 1 implies pos.contains(i2) by {
                    if self.spec_rank()[i2] < k {
                        assert(pos0.contains(i2));
                        let m = choose|m: int| 0 <= m < pos0.len() && pos0[m] == i2;
                        assert(pos[m] == i2);
                    } else {
                        assert(self.spec_rank()[i2] == k as int);
                        assert(self.topo@[self.spec_rank()[i2]] as int == i2);
                        assert(i2 == i as int);
                        assert(pos[pos.len() - 1] == i2);
                    }
                }
            }
            k += 1;
        }
        proof {
            assert forall|i: int|
                valid_idx(self@, i) && (#[trigger] self@[i].tf) == Some(0int) implies pos.contains(
                i,
            ) by {
                assert(0 <= self.spec_rank()[i] < n);
            }
            assert(critical_listing(self@, self.spec_rank(), pos, r@));
        }
        r
    }
}

} // verus!
