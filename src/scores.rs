//! The score table of a search: for each reached node, its tied routes and
//! their cost.
use vstd::prelude::*;

use crate::entities::{Node, NodeView, Paths, PathsView};

verus! {

/// A table from nodes to the routes found to them, one entry per node.
pub struct ScoreMap {
    nodes: Vec<Node>,
    scores: Vec<Paths>,
    table: Ghost<Map<NodeView, PathsView>>,
}

impl View for ScoreMap {
    type V = Map<NodeView, PathsView>;

    closed spec fn view(&self) -> Map<NodeView, PathsView> {
        self.table@
    }
}

impl ScoreMap {
    /// The table's entries are consistent: one per node, each matching the view.
    pub closed spec fn wf(&self) -> bool {
        &&& self.nodes@.len() == self.scores@.len()
        &&& forall|i: int, j: int|
            0 <= i < j < self.nodes@.len() ==> self.nodes@[i]@ != self.nodes@[j]@
        &&& forall|i: int|
            0 <= i < self.nodes@.len() ==> #[trigger] self.table@.contains_key(self.nodes@[i]@)
                && self.table@[self.nodes@[i]@] == self.scores@[i]@
        &&& forall|k: NodeView|
            #[trigger] self.table@.contains_key(k) ==> exists|i: int|
                0 <= i < self.nodes@.len() && self.nodes@[i]@ == k
    }

    pub closed spec fn len(&self) -> nat {
        self.nodes@.len()
    }

    /// The node of entry `i`.
    pub closed spec fn key(&self, i: int) -> NodeView {
        self.nodes@[i]@
    }

    /// A table with the single entry `node -> paths`.
    pub fn new(node: Node, paths: Paths) -> (r: ScoreMap)
        ensures
            r.wf(),
            r@ == Map::<NodeView, PathsView>::empty().insert(node@, paths@),
    {
        let ghost table = Map::<NodeView, PathsView>::empty().insert(node@, paths@);
        let mut nodes: Vec<Node> = Vec::new();
        let mut scores: Vec<Paths> = Vec::new();
        nodes.push(node);
        scores.push(paths);
        let r = ScoreMap { nodes, scores, table: Ghost(table) };
        assert forall|k: NodeView| #[trigger] r.table@.contains_key(k) implies exists|i: int|
            0 <= i < r.nodes@.len() && r.nodes@[i]@ == k by {
            assert(r.nodes@[0]@ == k);
        }
        r
    }

    /// The index of the entry of `node`, if there is one.
    pub fn find(&self, node: &Node) -> (r: Option<usize>)
        requires
            self.wf(),
        ensures
            match r {
                Some(i) => i < self.len() && self.key(i as int) == node@ && self@.contains_key(node@),
                None => !self@.contains_key(node@),
            },
    {
        let mut i: usize = 0;
        while i < self.nodes.len()
            invariant
                self.wf(),
                0 <= i <= self.nodes@.len(),
                forall|j: int| 0 <= j < i ==> self.nodes@[j]@ != node@,
            decreases self.nodes@.len() - i,
        {
            if self.nodes[i].same(node) {
                assert(self.table@.contains_key(self.nodes@[i as int]@));
                return Some(i);
            }
            i = i + 1;
        }
        proof {
            if self@.contains_key(node@) {
                let j = choose|j: int| 0 <= j < self.nodes@.len() && self.nodes@[j]@ == node@;
                assert(false);
            }
        }
        None
    }

    /// The routes of entry `i`.
    pub fn paths_at(&self, i: usize) -> (r: &Paths)
        requires
            self.wf(),
            i < self.len(),
        ensures
            self@.contains_key(self.key(i as int)),
            r@ == self@[self.key(i as int)],
    {
        assert(self.table@.contains_key(self.nodes@[i as int]@));
        &self.scores[i]
    }

    /// The routes recorded for `node`, if it was reached.
    pub fn get(&self, node: &Node) -> (r: Option<&Paths>)
        requires
            self.wf(),
        ensures
            match r {
                Some(p) => self@.contains_key(node@) && p@ == self@[node@],
                None => !self@.contains_key(node@),
            },
    {
        match self.find(node) {
            Some(i) => Some(self.paths_at(i)),
            None => None,
        }
    }

    /// Replaces the routes of entry `i`.
    pub fn set(&mut self, i: usize, paths: Paths)
        requires
            old(self).wf(),
            i < old(self).len(),
        ensures
            final(self).wf(),
            final(self).len() == old(self).len(),
            forall|j: int| 0 <= j < old(self).len() ==> final(self).key(j) == old(self).key(j),
            final(self)@ == old(self)@.insert(old(self).key(i as int), paths@),
    {
        let ghost k = self.nodes@[i as int]@;
        let ghost pv = paths@;
        self.scores[i] = paths;
        self.table = Ghost(self.table@.insert(k, pv));
        assert forall|j: int|
            0 <= j < self.nodes@.len() implies #[trigger] self.table@.contains_key(self.nodes@[j]@)
                && self.table@[self.nodes@[j]@] == self.scores@[j]@ by {
            if j != i {
                assert(old(self).table@.contains_key(old(self).nodes@[j]@));
            }
        }
        assert forall|kk: NodeView| #[trigger] self.table@.contains_key(kk) implies exists|j: int|
            0 <= j < self.nodes@.len() && self.nodes@[j]@ == kk by {
            if kk != k {
                assert(old(self).table@.contains_key(kk));
                let j = choose|j: int| 0 <= j < old(self).nodes@.len() && old(self).nodes@[j]@ == kk;
                assert(self.nodes@[j]@ == kk);
            } else {
                assert(self.nodes@[i as int]@ == kk);
            }
        }
    }

    /// Adds an entry for a node that has none.
    pub fn insert(&mut self, node: Node, paths: Paths)
        requires
            old(self).wf(),
            !old(self)@.contains_key(node@),
        ensures
            final(self).wf(),
            final(self)@ == old(self)@.insert(node@, paths@),
    {
        let ghost k = node@;
        let ghost pv = paths@;
        let ghost n = self.nodes@.len();
        let ghost nd = node;
        self.nodes.push(node);
        self.scores.push(paths);
        self.table = Ghost(self.table@.insert(k, pv));
        assert forall|i: int, j: int|
            0 <= i < j < self.nodes@.len() implies self.nodes@[i]@ != self.nodes@[j]@ by {
            assert(self.nodes@[i] == old(self).nodes@[i]);
            if j == n {
                assert(old(self).table@.contains_key(old(self).nodes@[i]@));
            } else {
                assert(self.nodes@[j] == old(self).nodes@[j]);
            }
        }
        assert forall|j: int|
            0 <= j < self.nodes@.len() implies #[trigger] self.table@.contains_key(self.nodes@[j]@)
                && self.table@[self.nodes@[j]@] == self.scores@[j]@ by {
            if j < n {
                assert(self.nodes@[j] == old(self).nodes@[j]);
                assert(self.scores@[j] == old(self).scores@[j]);
                assert(old(self).table@.contains_key(old(self).nodes@[j]@));
                assert(old(self).nodes@[j]@ != k);
            } else {
                assert(self.nodes@[j] == nd);
            }
        }
        assert forall|kk: NodeView| #[trigger] self.table@.contains_key(kk) implies exists|j: int|
            0 <= j < self.nodes@.len() && self.nodes@[j]@ == kk by {
            if kk != k {
                assert(old(self).table@.contains_key(kk));
                let j = choose|j: int| 0 <= j < old(self).nodes@.len() && old(self).nodes@[j]@ == kk;
                assert(self.nodes@[j]@ == kk);
            } else {
                assert(self.nodes@[n as int]@ == kk);
            }
        }
    }
}

} // verus!
