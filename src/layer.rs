//! The nodes of a decision diagram and its layers, indexed by state with
//! metrohash's hash map.

use vstd::prelude::*;
use metrohash::MetroHashMap;
use crate::common::Decision;

verus! {

#[verifier::external_type_specification]
#[verifier::external_body]
#[verifier::reject_recursive_types(H)]
pub struct ExBuildHasherDefault<H>(std::hash::BuildHasherDefault<H>);

#[verifier::external_type_specification]
#[verifier::external_body]
pub struct ExMetroHash64(metrohash::MetroHash64);

/// `x`, brought into the range of `isize`.
pub open spec fn clamp(x: int) -> isize {
    if x > isize::MAX {
        isize::MAX
    } else if x < isize::MIN {
        isize::MIN
    } else {
        x as isize
    }
}

/// A node of a decision diagram.
#[derive(Debug)]
pub struct Node {
    /// The state this node stands for.
    pub state: usize,
    /// The value of the longest path from the root to this node.
    pub value: isize,
    /// An upper bound on what can still be gained from `state`.
    pub estimate: isize,
    /// Whether the value is only a bound: a relaxed node, or a value that
    /// was saturated, lies on some path from the root to this one.
    pub relaxed: bool,
    /// The decisions of the longest path from the root to this node, in the
    /// order they were taken (for a relaxed node, from the relaxed node on).
    pub path: Vec<Decision>,
}

impl Node {
    /// The upper bound on any complete path through this node.
    pub open spec fn spec_ub(&self) -> int {
        self.value + self.estimate
    }

    /// The upper bound on any complete path through this node, saturated to
    /// the range of `isize`.
    pub fn ub(&self) -> (r: isize)
        ensures
            r == clamp(self.spec_ub()),
    {
        if self.estimate > 0 && self.value > isize::MAX - self.estimate {
            isize::MAX
        } else if self.estimate < 0 && self.value < isize::MIN - self.estimate {
            isize::MIN
        } else {
            self.value + self.estimate
        }
    }
}

/// Relies on `HashMap::get` over metrohash's hasher, which is the same for
/// every map: the value that `k` maps to, if any.
#[verifier::external_body]
fn map_get(m: &MetroHashMap<usize, usize>, k: usize) -> (r: Option<usize>)
    ensures
        match r {
            Some(v) => m@.contains_key(k) && m@[k] == v,
            None => !m@.contains_key(k),
        },
{
    m.get(&k).copied()
}

/// Relies on `HashMap::insert` over metrohash's hasher: `k` now maps to `v`.
#[verifier::external_body]
fn map_insert(m: &mut MetroHashMap<usize, usize>, k: usize, v: usize)
    ensures
        final(m)@ == old(m)@.insert(k, v),
{
    m.insert(k, v);
}

/// One layer of a decision diagram: its nodes, at most one per state, and
/// an index from each state to the position of its node.
pub struct Layer {
    index: MetroHashMap<usize, usize>,
    nodes: Vec<Node>,
}

impl Layer {
    /// The nodes of this layer.
    pub closed spec fn spec_nodes(&self) -> Seq<Node> {
        self.nodes@
    }

    /// The index agrees with the nodes, so that no two nodes share a state.
    pub closed spec fn wf(&self) -> bool {
        &&& forall|s: usize| #[trigger] self.index@.contains_key(s) ==> {
            &&& self.index@[s] < self.nodes@.len()
            &&& self.nodes@[self.index@[s] as int].state == s
        }
        &&& forall|i: int| 0 <= i < self.nodes@.len() ==> {
            &&& #[trigger] self.index@.contains_key(self.nodes@[i].state)
            &&& self.index@[self.nodes@[i].state] == i
        }
    }

    /// In a well-formed layer, `i` is the only position of its state.
    pub proof fn lemma_unique_state(&self, i: int)
        requires
            self.wf(),
            0 <= i < self.spec_nodes().len(),
        ensures
            forall|j: int| 0 <= j < self.spec_nodes().len() && #[trigger] self.spec_nodes()[j].state == self.spec_nodes()[i].state
                ==> j == i,
    {
        assert forall|j: int| 0 <= j < self.spec_nodes().len() && #[trigger] self.spec_nodes()[j].state == self.spec_nodes()[i].state
            implies j == i by {
            assert(self.index@.contains_key(self.nodes@[i].state));
            assert(self.index@.contains_key(self.nodes@[j].state));
        }
    }

    /// An empty layer.
    pub fn new() -> (r: Layer)
        ensures
            r.wf(),
            r.spec_nodes().len() == 0,
    {
        Layer { index: MetroHashMap::default(), nodes: Vec::new() }
    }

    /// Removes every node.
    pub fn clear(&mut self)
        ensures
            final(self).wf(),
            final(self).spec_nodes().len() == 0,
    {
        self.index.clear();
        self.nodes.clear();
    }

    /// The number of nodes.
    pub fn len(&self) -> (r: usize)
        ensures
            r == self.spec_nodes().len(),
    {
        self.nodes.len()
    }

    /// The nodes of this layer.
    pub fn nodes(&self) -> (r: &Vec<Node>)
        ensures
            r@ == self.spec_nodes(),
    {
        &self.nodes
    }

    /// The node at position `i`.
    pub fn get(&self, i: usize) -> (r: &Node)
        requires
            i < self.spec_nodes().len(),
        ensures
            *r == self.spec_nodes()[i as int],
    {
        &self.nodes[i]
    }

    /// The position of the node of `state`, if there is one.
    pub fn find(&self, state: usize) -> (r: Option<usize>)
        requires
            self.wf(),
        ensures
            match r {
                Some(i) => i < self.spec_nodes().len() && self.spec_nodes()[i as int].state == state,
                None => forall|i: int| 0 <= i < self.spec_nodes().len() ==> self.spec_nodes()[i].state != state,
            },
    {
        map_get(&self.index, state)
    }

    /// Adds `node`, whose state has no node yet.
    pub fn push(&mut self, node: Node)
        requires
            old(self).wf(),
            forall|i: int| 0 <= i < old(self).spec_nodes().len() ==> old(self).spec_nodes()[i].state != node.state,
        ensures
            final(self).wf(),
            final(self).spec_nodes() == old(self).spec_nodes().push(node),
    {
        let ghost s = node.state;
        let pos = self.nodes.len();
        map_insert(&mut self.index, node.state, pos);
        self.nodes.push(node);
        assert forall|t: usize| #[trigger] self.index@.contains_key(t) implies {
            &&& self.index@[t] < self.nodes@.len()
            &&& self.nodes@[self.index@[t] as int].state == t
        } by {
            if t != s {
                assert(old(self).index@.contains_key(t));
            }
        }
        assert forall|i: int| 0 <= i < self.nodes@.len() implies {
            &&& #[trigger] self.index@.contains_key(self.nodes@[i].state)
            &&& self.index@[self.nodes@[i].state] == i
        } by {
            if i < pos {
                assert(old(self).nodes@[i] == self.nodes@[i]);
                assert(old(self).spec_nodes()[i].state != s);
                assert(old(self).index@.contains_key(old(self).nodes@[i].state));
                assert(self.index@[self.nodes@[i].state] == old(self).index@[old(self).nodes@[i].state]);
            } else {
                assert(self.nodes@[i].state == s);
            }
        }
    }

    /// Puts `node` in place of the node at position `i`, which has the same
    /// state.
    pub fn replace(&mut self, i: usize, node: Node)
        requires
            old(self).wf(),
            i < old(self).spec_nodes().len(),
            old(self).spec_nodes()[i as int].state == node.state,
        ensures
            final(self).wf(),
            final(self).spec_nodes() == old(self).spec_nodes().update(i as int, node),
    {
        self.nodes.set(i, node);
        assert forall|j: int| 0 <= j < self.nodes@.len() implies {
            &&& #[trigger] self.index@.contains_key(self.nodes@[j].state)
            &&& self.index@[self.nodes@[j].state] == j
        } by {
            assert(old(self).index@.contains_key(old(self).nodes@[j].state));
        }
    }
}

} // verus!
