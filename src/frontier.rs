//! The frontier: the open subproblems of a branch-and-bound search.

use vstd::prelude::*;
use crate::common::{Decision, FrontierNode};

verus! {

/// The values a frontier node holds: state, longest path length, upper bound
/// and path.
pub type NodeView = (usize, isize, isize, Seq<Decision>);

pub open spec fn node_view(n: &FrontierNode) -> NodeView {
    (n.state, n.lp_len, n.ub, n.path@)
}

/// `a` comes out of the frontier before `b`: a larger upper bound first,
/// then a longer path.
pub open spec fn before(a: NodeView, b: NodeView) -> bool {
    a.2 > b.2 || (a.2 == b.2 && a.1 >= b.1)
}

/// The entry that results from merging `n` into `o`, which share a state:
/// the largest length with its path, and the largest bound.
pub open spec fn merged(o: NodeView, n: NodeView) -> NodeView {
    (o.0, if n.1 > o.1 { n.1 } else { o.1 }, if n.2 > o.2 { n.2 } else { o.2 }, if n.1 > o.1 { n.3 } else { o.3 })
}

/// The entries after pushing `n` on `s`, where `lb` is the best known
/// lower bound.
pub open spec fn pushed(s: Seq<NodeView>, lb: isize, n: NodeView) -> Seq<NodeView> {
    if n.2 <= lb {
        s
    } else if exists|i: int| 0 <= i < s.len() && s[i].0 == n.0 {
        let i = choose|i: int| 0 <= i < s.len() && s[i].0 == n.0;
        s.update(i, merged(s[i], n))
    } else {
        s.push(n)
    }
}

/// A frontier that holds at most one entry per state: two subproblems that
/// share a state are merged.
pub struct NoDupFrontier {
    nodes: Vec<FrontierNode>,
    best_lb: isize,
}

impl View for NoDupFrontier {
    type V = Seq<NodeView>;

    closed spec fn view(&self) -> Seq<NodeView> {
        Seq::new(self.nodes@.len(), |i: int| node_view(&self.nodes@[i]))
    }
}

impl NoDupFrontier {
    /// The best known lower bound: no entry has an upper bound below or at it.
    pub closed spec fn spec_best_lb(&self) -> isize {
        self.best_lb
    }

    /// No entry is dominated by the best known lower bound, and no two
    /// entries share a state.
    pub open spec fn wf(&self) -> bool {
        &&& forall|i: int| 0 <= i < self@.len() ==> #[trigger] self@[i].2 > self.spec_best_lb()
        &&& forall|i: int, j: int| 0 <= i < self@.len() && 0 <= j < self@.len() && i != j ==> self@[i].0 != self@[j].0
    }

    /// An empty frontier that knows no lower bound.
    pub fn new() -> (r: NoDupFrontier)
        ensures
            r.wf(),
            r@ == Seq::<NodeView>::empty(),
            r.spec_best_lb() == isize::MIN,
    {
        let r = NoDupFrontier { nodes: Vec::new(), best_lb: isize::MIN };
        assert(r@ =~= Seq::<NodeView>::empty());
        r
    }

    /// The number of entries.
    pub fn len(&self) -> (r: usize)
        ensures
            r == self@.len(),
    {
        self.nodes.len()
    }

    /// Whether the frontier holds no entry.
    pub fn is_empty(&self) -> (r: bool)
        ensures
            r == (self@.len() == 0),
    {
        self.nodes.len() == 0
    }

    /// The best known lower bound.
    pub fn best_lb(&self) -> (r: isize)
        ensures
            r == self.spec_best_lb(),
    {
        self.best_lb
    }

    /// Removes every entry.
    pub fn clear(&mut self)
        ensures
            final(self).wf(),
            final(self)@ == Seq::<NodeView>::empty(),
            final(self).spec_best_lb() == old(self).spec_best_lb(),
    {
        self.nodes.clear();
        assert(self@ =~= Seq::<NodeView>::empty());
    }

    /// Adds the subproblem `node`, unless its bound does not beat the best
    /// known lower bound; a subproblem of a state already present is merged
    /// with it.
    pub fn push(&mut self, node: FrontierNode)
        requires
            old(self).wf(),
        ensures
            final(self).wf(),
            final(self)@ == pushed(old(self)@, old(self).spec_best_lb(), node_view(&node)),
            final(self).spec_best_lb() == old(self).spec_best_lb(),
    {
        let ghost n = node_view(&node);
        if node.ub <= self.best_lb {
            return;
        }
        let mut i: usize = 0;
        while i < self.nodes.len()
            invariant
                i <= self.nodes@.len(),
                *self == *old(self),
                self.wf(),
                node.ub > self.best_lb,
                n == node_view(&node),
                forall|k: int| 0 <= k < i ==> self@[k].0 != node.state,
            decreases self.nodes@.len() - i,
        {
            if self.nodes[i].state == node.state {
                let ghost s = old(self)@;
                assert(s[i as int] == node_view(&self.nodes@[i as int]));
                assert(s[i as int].0 == n.0);
                proof {
                    assert forall|k: int| 0 <= k < s.len() && s[k].0 == n.0 implies k == i by {}
                    assert(exists|k: int| 0 <= k < s.len() && s[k].0 == n.0);
                    let c = choose|k: int| 0 <= k < s.len() && s[k].0 == n.0;
                    assert(c == i);
                }
                let o = &self.nodes[i];
                let longer = node.lp_len > o.lp_len;
                let lp_len = if longer { node.lp_len } else { o.lp_len };
                let ub = if node.ub > o.ub { node.ub } else { o.ub };
                let path = if longer {
                    node.path
                } else {
                    let p = o.path.clone();
                    assert(p@ =~= o.path@);
                    p
                };
                let m = FrontierNode { state: o.state, lp_len, ub, path };
                self.nodes.set(i, m);
                assert(self@ =~= s.update(i as int, merged(s[i as int], n)));
                assert forall|k: int| 0 <= k < self@.len() implies #[trigger] self@[k].2 > self.best_lb by {
                    if k != i {
                        assert(self@[k] == s[k]);
                    }
                }
                assert forall|a: int, b: int| 0 <= a < self@.len() && 0 <= b < self@.len() && a != b implies self@[a].0 != self@[b].0 by {
                    assert(self@[a].0 == s[a].0);
                    assert(self@[b].0 == s[b].0);
                }
                return;
            }
            i = i + 1;
        }
        self.nodes.push(node);
        assert(self@ =~= old(self)@.push(n));
    }

    /// Removes and returns the entry that comes first: the largest upper
    /// bound, then the longest path.
    pub fn pop(&mut self) -> (r: Option<FrontierNode>)
        requires
            old(self).wf(),
        ensures
            final(self).wf(),
            final(self).spec_best_lb() == old(self).spec_best_lb(),
            r is None <==> old(self)@.len() == 0,
            r is None ==> final(self)@ == old(self)@,
            r matches Some(n) ==> exists|k: int| {
                &&& 0 <= k < old(self)@.len()
                &&& old(self)@[k] == node_view(&n)
                &&& final(self)@ == old(self)@.remove(k)
                &&& forall|j: int| 0 <= j < old(self)@.len() ==> before(node_view(&n), #[trigger] old(self)@[j])
            },
    {
        if self.nodes.len() == 0 {
            return None;
        }
        let mut best: usize = 0;
        let mut i: usize = 1;
        while i < self.nodes.len()
            invariant
                1 <= i <= self.nodes@.len(),
                best < i,
                *self == *old(self),
                forall|j: int| 0 <= j < i ==> before(self@[best as int], #[trigger] self@[j]),
            decreases self.nodes@.len() - i,
        {
            let b = &self.nodes[best];
            let c = &self.nodes[i];
            if c.ub > b.ub || (c.ub == b.ub && c.lp_len > b.lp_len) {
                best = i;
            }
            i = i + 1;
        }
        let ghost s = old(self)@;
        let n = self.nodes.remove(best);
        assert(self@ =~= s.remove(best as int));
        assert(s[best as int] == node_view(&n));
        Some(n)
    }

    /// Records `lb` as the best known lower bound and drops the entries it
    /// dominates; the others keep their order.
    pub fn set_best_lb(&mut self, lb: isize)
        requires
            old(self).wf(),
        ensures
            final(self).wf(),
            final(self).spec_best_lb() == lb,
            forall|a: int| 0 <= a < final(self)@.len() ==> old(self)@.contains(#[trigger] final(self)@[a]),
            forall|j: int| 0 <= j < old(self)@.len() && #[trigger] old(self)@[j].2 > lb ==> final(self)@.contains(old(self)@[j]),
    {
        let ghost s = old(self)@;
        let ghost mut idx: Seq<int> = Seq::empty();
        let mut kept: Vec<FrontierNode> = Vec::new();
        let mut i: usize = 0;
        while i < self.nodes.len()
            invariant
                i <= self.nodes@.len(),
                *self == *old(self),
                s == self@,
                idx.len() == kept@.len(),
                forall|a: int| 0 <= a < idx.len() ==> 0 <= #[trigger] idx[a] < i,
                forall|a: int| 0 <= a < idx.len() ==> node_view(&#[trigger] kept@[a]) == s[idx[a]],
                forall|a: int| 0 <= a < idx.len() ==> s[#[trigger] idx[a]].2 > lb,
                forall|a: int, b: int| 0 <= a < b < idx.len() ==> idx[a] < idx[b],
                forall|j: int| 0 <= j < i && #[trigger] s[j].2 > lb ==> exists|a: int| 0 <= a < idx.len() && idx[a] == j,
            decreases self.nodes@.len() - i,
        {
            if self.nodes[i].ub > lb {
                let p = self.nodes[i].path.clone();
                assert(p@ =~= self.nodes@[i as int].path@);
                kept.push(FrontierNode { state: self.nodes[i].state, lp_len: self.nodes[i].lp_len, ub: self.nodes[i].ub, path: p });
                proof {
                    let old_idx = idx;
                    idx = idx.push(i as int);
                    assert(idx[idx.len() - 1] == i);
                    assert forall|j: int| 0 <= j < i + 1 && #[trigger] s[j].2 > lb implies exists|a: int| 0 <= a < idx.len() && idx[a] == j by {
                        if j < i {
                            let a = choose|a: int| 0 <= a < old_idx.len() && old_idx[a] == j;
                            assert(idx[a] == j);
                        } else {
                            assert(idx[idx.len() - 1] == j);
                        }
                    }
                }
            }
            i = i + 1;
        }
        self.nodes = kept;
        self.best_lb = lb;
        proof {
            assert forall|a: int| 0 <= a < self@.len() implies s.contains(#[trigger] self@[a]) by {
                assert(self@[a] == node_view(&self.nodes@[a]));
                assert(self@[a] == s[idx[a]]);
                assert(0 <= idx[a] < s.len());
            }
            assert forall|j: int| 0 <= j < s.len() && #[trigger] s[j].2 > lb implies self@.contains(s[j]) by {
                let a = choose|a: int| 0 <= a < idx.len() && idx[a] == j;
                assert(self@[a] == s[idx[a]]);
            }
            assert forall|a: int| 0 <= a < self@.len() implies #[trigger] self@[a].2 > self.best_lb by {
                assert(self@[a] == s[idx[a]]);
            }
            assert forall|a: int, b: int| 0 <= a < self@.len() && 0 <= b < self@.len() && a != b implies self@[a].0 != self@[b].0 by {
                assert(self@[a] == s[idx[a]]);
                assert(self@[b] == s[idx[b]]);
                if a < b {
                    assert(idx[a] < idx[b]);
                } else {
                    assert(idx[b] < idx[a]);
                }
            }
        }
    }
}

/// A frontier never holds an entry whose upper bound does not beat its best
/// known lower bound: pushing filters, and raising the bound drops the
/// entries it dominates.
pub proof fn lemma_frontier_not_dominated(f: &NoDupFrontier)
    requires
        f.wf(),
    ensures
        forall|i: int| 0 <= i < f@.len() ==> #[trigger] f@[i].2 > f.spec_best_lb(),
{
}

/// Two pushes of subproblems that share a state, on a frontier that holds
/// none of that state, leave one entry for it, with the larger length (and
/// its path) and the larger bound.
pub proof fn lemma_push_same_state_merges(s: Seq<NodeView>, lb: isize, a: NodeView, b: NodeView)
    requires
        a.0 == b.0,
        a.2 > lb,
        b.2 > lb,
        forall|i: int| 0 <= i < s.len() ==> #[trigger] s[i].0 != a.0,
    ensures
        pushed(pushed(s, lb, a), lb, b) == s.push(merged(a, b)),
        merged(a, b).1 == if a.1 >= b.1 { a.1 } else { b.1 },
        merged(a, b).2 == if a.2 >= b.2 { a.2 } else { b.2 },
{
    let t = s.push(a);
    assert(pushed(s, lb, a) == t);
    assert(t[s.len() as int].0 == b.0);
    let c = choose|i: int| 0 <= i < t.len() && t[i].0 == b.0;
    assert(c == s.len()) by {
        if c < s.len() {
            assert(t[c] == s[c]);
        }
    }
    assert(t.update(s.len() as int, merged(a, b)) =~= s.push(merged(a, b)));
}


/// Pushing keeps the state of every entry at its position, and leaves an
/// entry of the pushed state when its bound beats `lb`.
pub proof fn lemma_pushed_keeps_states(s: Seq<NodeView>, lb: isize, n: NodeView)
    ensures
        pushed(s, lb, n).len() >= s.len(),
        forall|j: int| 0 <= j < s.len() ==> #[trigger] pushed(s, lb, n)[j].0 == s[j].0,
        n.2 > lb ==> exists|j: int| 0 <= j < pushed(s, lb, n).len() && pushed(s, lb, n)[j].0 == n.0,
{
    if n.2 > lb {
        if exists|i: int| 0 <= i < s.len() && s[i].0 == n.0 {
            let i = choose|i: int| 0 <= i < s.len() && s[i].0 == n.0;
            assert(pushed(s, lb, n)[i].0 == n.0);
        } else {
            assert(pushed(s, lb, n)[s.len() as int].0 == n.0);
        }
    }
}


} // verus!
