//! Value types and the activity record of the arrow diagram.

use vstd::prelude::*;
use crate::model::EdgeModel;

verus! {

/// A point in project time: a known offset from the project start, or not yet
/// computed. Keeping "unknown" apart from 0 makes "has this pass run yet"
/// visible in the value itself.
#[derive(Debug, Clone, Copy, PartialEq, Eq, Structural)]
pub enum Moment {
    Moment(usize),
    Unknown,
}

/// The duration of an activity: a known non-negative length, or not yet
/// supplied.
#[derive(Debug, Clone, Copy, PartialEq, Eq, Structural)]
pub enum Cost {
    Duration(usize),
    Unknown,
}

pub open spec fn moment_view(m: Moment) -> Option<int> {
    match m {
        Moment::Moment(v) => Some(v as int),
        Moment::Unknown => None,
    }
}

pub open spec fn cost_view(c: Cost) -> Option<int> {
    match c {
        Cost::Duration(d) => Some(d as int),
        Cost::Unknown => None,
    }
}

/// One activity of the network: an edge of the arrow diagram, carrying its
/// duration, the six schedule quantities, and adjacency as indices into the
/// owning graph's arena.
#[derive(Debug)]
pub struct Edge {
    pub id: u64,
    pub next: Vec<usize>,
    pub prev: Vec<usize>,
    pub cost: Cost,
    pub es: Moment,
    pub ef: Moment,
    pub ls: Moment,
    pub lf: Moment,
    pub tf: Moment,
    pub ff: Moment,
}

impl View for Edge {
    type V = EdgeModel;

    open spec fn view(&self) -> EdgeModel {
        EdgeModel {
            id: self.id as int,
            cost: cost_view(self.cost),
            es: moment_view(self.es),
            ef: moment_view(self.ef),
            ls: moment_view(self.ls),
            lf: moment_view(self.lf),
            tf: moment_view(self.tf),
            ff: moment_view(self.ff),
            next: self.next@.map(|_k: int, v: usize| v as int),
            prev: self.prev@.map(|_k: int, v: usize| v as int),
        }
    }
}

impl Edge {
    /// A fresh activity with the given duration, no adjacency, and no
    /// schedule values yet.
    pub fn new(cost: usize) -> (e: Self)
        ensures
            e@.id == 0,
            e@.cost == Some(cost as int),
            e@.es is None,
            e@.ef is None,
            e@.ls is None,
            e@.lf is None,
            e@.tf is None,
            e@.ff is None,
            e@.next == Seq::<int>::empty(),
            e@.prev == Seq::<int>::empty(),
    {
        let e = Edge {
            id: 0,
            next: Vec::new(),
            prev: Vec::new(),
            cost: Cost::Duration(cost),
            es: Moment::Unknown,
            ef: Moment::Unknown,
            ls: Moment::Unknown,
            lf: Moment::Unknown,
            tf: Moment::Unknown,
            ff: Moment::Unknown,
        };
        proof {
            assert(e@.next =~= Seq::<int>::empty());
            assert(e@.prev =~= Seq::<int>::empty());
        }
        e
    }

    /// Record the earliest start; when the duration is known, the earliest
    /// finish is derived from it at once, never set independently.
    pub fn set_es(&mut self, num: usize)
        requires
            (old(self).cost matches Cost::Duration(d) ==> num + d <= usize::MAX),
        ensures
            final(self).es == Moment::Moment(num),
            final(self).ef == (match old(self).cost {
                Cost::Duration(d) => Moment::Moment((num + d) as usize),
                Cost::Unknown => old(self).ef,
            }),
            final(self).id == old(self).id,
            final(self).cost == old(self).cost,
            final(self).ls == old(self).ls,
            final(self).lf == old(self).lf,
            final(self).tf == old(self).tf,
            final(self).ff == old(self).ff,
            final(self).next@ == old(self).next@,
            final(self).prev@ == old(self).prev@,
    {
        self.es = Moment::Moment(num);
        if let Cost::Duration(dur) = self.cost {
            self.ef = Moment::Moment(num + dur);
        }
    }

    /// Record the latest finish; when the duration is known, the latest start
    /// is derived from it at once, never set independently.
    pub fn set_lf(&mut self, num: usize)
        requires
            (old(self).cost matches Cost::Duration(d) ==> d <= num),
        ensures
            final(self).lf == Moment::Moment(num),
            final(self).ls == (match old(self).cost {
                Cost::Duration(d) => Moment::Moment((num - d) as usize),
                Cost::Unknown => old(self).ls,
            }),
            final(self).id == old(self).id,
            final(self).cost == old(self).cost,
            final(self).es == old(self).es,
            final(self).ef == old(self).ef,
            final(self).tf == old(self).tf,
            final(self).ff == old(self).ff,
            final(self).next@ == old(self).next@,
            final(self).prev@ == old(self).prev@,
    {
        self.lf = Moment::Moment(num);
        if let Cost::Duration(dur) = self.cost {
            self.ls = Moment::Moment(num - dur);
        }
    }
}

} // verus!
