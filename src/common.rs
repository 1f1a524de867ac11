//! The data a search manipulates: variables, decisions, sets of free
//! variables, subproblems, outcomes and solutions.

use vstd::prelude::*;

verus! {

use vstd::std_specs::iter::IteratorSpec;

/// A decision variable, identified by its index in `[0, n)`.
#[derive(Clone, Copy, Debug, PartialEq, Eq, Hash, Structural)]
pub struct Variable(pub usize);

impl Variable {
    /// The index of this variable.
    pub fn id(&self) -> (r: usize)
        ensures
            r == self.0,
    {
        self.0
    }
}

/// The assignment of `value` to `variable`.
#[derive(Clone, Copy, Debug, PartialEq, Eq, Hash, Structural)]
pub struct Decision {
    pub variable: Variable,
    pub value: isize,
}

/// The set of the variables that are still free, backed by one flag per
/// variable of the problem.
#[derive(Clone, Debug)]
pub struct VarSet {
    bits: Vec<bool>,
}

impl View for VarSet {
    type V = Set<nat>;

    closed spec fn view(&self) -> Set<nat> {
        Set::new(|i: nat| i < self.bits@.len() && self.bits@[i as int])
    }
}

impl VarSet {
    /// The number of variables this set can hold.
    pub closed spec fn capacity(&self) -> nat {
        self.bits@.len()
    }

    /// The set holding every variable of `[0, n)`.
    pub fn all(n: usize) -> (r: VarSet)
        ensures
            r@ == Set::new(|i: nat| i < n),
            r.capacity() == n,
    {
        let mut bits: Vec<bool> = Vec::new();
        let mut i: usize = 0;
        while i < n
            invariant
                i <= n,
                bits@.len() == i,
                forall|k: int| 0 <= k < i ==> bits@[k],
            decreases n - i,
        {
            bits.push(true);
            i = i + 1;
        }
        let r = VarSet { bits };
        assert(r@ =~= Set::new(|i: nat| i < n));
        r
    }

    /// The empty set over `[0, n)`.
    pub fn empty(n: usize) -> (r: VarSet)
        ensures
            r@ == Set::<nat>::empty(),
            r.capacity() == n,
    {
        let mut bits: Vec<bool> = Vec::new();
        let mut i: usize = 0;
        while i < n
            invariant
                i <= n,
                bits@.len() == i,
                forall|k: int| 0 <= k < i ==> !bits@[k],
            decreases n - i,
        {
            bits.push(false);
            i = i + 1;
        }
        let r = VarSet { bits };
        assert(r@ =~= Set::<nat>::empty());
        r
    }

    /// A set of variables is finite and no larger than its capacity.
    pub proof fn lemma_finite(&self)
        ensures
            self@.finite(),
            self@.len() <= self.capacity(),
    {
        lemma_bounded_finite(self@, self.capacity());
    }

    /// The number of variables this set can hold.
    pub fn capacity_exec(&self) -> (r: usize)
        ensures
            r == self.capacity(),
    {
        self.bits.len()
    }

    /// Tells whether `v` belongs to the set.
    pub fn contains(&self, v: Variable) -> (r: bool)
        ensures
            r == self@.contains(v.0 as nat),
    {
        v.0 < self.bits.len() && self.bits[v.0]
    }

    /// Removes `v` from the set.
    pub fn remove(&mut self, v: Variable)
        ensures
            final(self).capacity() == old(self).capacity(),
            final(self)@ == old(self)@.remove(v.0 as nat),
    {
        if v.0 < self.bits.len() {
            self.bits.set(v.0, false);
        }
        assert(self@ =~= old(self)@.remove(v.0 as nat));
    }

    /// The number of variables in the set.
    pub fn len(&self) -> (r: usize)
        ensures
            r == self@.len(),
    {
        let mut count: usize = 0;
        let mut i: usize = 0;
        assert(Set::new(|k: nat| k < 0 && self.bits@[k as int]) =~= Set::<nat>::empty());
        while i < self.bits.len()
            invariant
                i <= self.bits@.len(),
                count <= i,
                count == Set::new(|k: nat| k < i && self.bits@[k as int]).len(),
            decreases self.bits@.len() - i,
        {
            proof {
                let before = Set::new(|k: nat| k < i && self.bits@[k as int]);
                let after = Set::new(|k: nat| k < i + 1 && self.bits@[k as int]);
                lemma_bounded_finite(before, i as nat);
                if self.bits@[i as int] {
                    assert(after =~= before.insert(i as nat));
                } else {
                    assert(after =~= before);
                }
            }
            if self.bits[i] {
                count = count + 1;
            }
            i = i + 1;
        }
        assert(self@ =~= Set::new(|k: nat| k < i && self.bits@[k as int]));
        count
    }

    /// Tells whether the set holds no variable.
    pub fn is_empty(&self) -> (r: bool)
        ensures
            r == (self@ == Set::<nat>::empty()),
    {
        match self.first() {
            Some(v) => {
                assert(self@.contains(v.0 as nat));
                false
            },
            None => {
                assert(self@ =~= Set::<nat>::empty());
                true
            },
        }
    }

    /// The smallest variable of the set, if any.
    pub fn first(&self) -> (r: Option<Variable>)
        ensures
            r is None <==> self@ == Set::<nat>::empty(),
            r matches Some(v) ==> self@.contains(v.0 as nat) && forall|k: nat|
                self@.contains(k) ==> v.0 <= k,
    {
        let mut i: usize = 0;
        while i < self.bits.len()
            invariant
                i <= self.bits@.len(),
                forall|k: int| 0 <= k < i ==> !self.bits@[k],
            decreases self.bits@.len() - i,
        {
            if self.bits[i] {
                assert(self@.contains(i as nat));
                return Some(Variable(i));
            }
            i = i + 1;
        }
        assert(self@ =~= Set::<nat>::empty());
        None
    }

    /// The variables of the set, in increasing order.
    pub fn to_vec(&self) -> (r: Vec<Variable>)
        ensures
            forall|k: int| 0 <= k < r@.len() ==> self@.contains(#[trigger] r@[k].0 as nat),
            forall|x: nat| self@.contains(x) ==> exists|k: int| 0 <= k < r@.len() && #[trigger] r@[k].0 == x,
            forall|a: int, b: int| 0 <= a < b < r@.len() ==> r@[a].0 < r@[b].0,
    {
        let mut r: Vec<Variable> = Vec::new();
        let mut i: usize = 0;
        while i < self.bits.len()
            invariant
                i <= self.bits@.len(),
                forall|k: int| 0 <= k < r@.len() ==> self@.contains(#[trigger] r@[k].0 as nat),
                forall|k: int| 0 <= k < r@.len() ==> #[trigger] r@[k].0 < i,
                forall|x: nat| x < i && self@.contains(x) ==> exists|k: int| 0 <= k < r@.len() && #[trigger] r@[k].0 == x,
                forall|a: int, b: int| 0 <= a < b < r@.len() ==> r@[a].0 < r@[b].0,
            decreases self.bits@.len() - i,
        {
            let ghost before = r@;
            if self.bits[i] {
                r.push(Variable(i));
                assert(r@[r@.len() - 1].0 == i);
            }
            assert forall|x: nat| x < i + 1 && self@.contains(x) implies exists|k: int|
                0 <= k < r@.len() && #[trigger] r@[k].0 == x by {
                if x == i {
                    assert(r@[r@.len() - 1].0 == x);
                } else {
                    let k = choose|k: int| 0 <= k < before.len() && #[trigger] before[k].0 == x;
                    assert(r@[k] == before[k]);
                }
            }
            i = i + 1;
        }
        r
    }
}

/// A set of naturals below `b` is finite and has at most `b` elements.
proof fn lemma_bounded_finite(s: Set<nat>, b: nat)
    requires
        forall|k: nat| s.contains(k) ==> k < b,
    ensures
        s.finite(),
        s.len() <= b,
{
    let full = Set::new(|k: nat| k < b);
    assert(full =~= Set::<int>::new(|k: int| 0 <= k < b).map(|k: int| k as nat)) by {
        assert forall|k: nat| full.contains(k) implies Set::<int>::new(|k: int| 0 <= k < b).map(|k: int| k as nat).contains(k) by {
            assert(Set::<int>::new(|k: int| 0 <= k < b).contains(k as int));
        }
    }
    vstd::set_lib::lemma_int_range(0, b as int);
    lemma_nat_range(b);
    vstd::set_lib::lemma_len_subset(s, full);
}

proof fn lemma_nat_range(b: nat)
    ensures
        Set::new(|k: nat| k < b).finite(),
        Set::new(|k: nat| k < b).len() == b,
    decreases b,
{
    if b == 0 {
        assert(Set::new(|k: nat| k < b) =~= Set::<nat>::empty());
    } else {
        lemma_nat_range((b - 1) as nat);
        assert(Set::new(|k: nat| k < b) =~= Set::new(|k: nat| k < (b - 1) as nat).insert((b - 1) as nat));
    }
}

/// A subproblem waiting in the frontier: the state it starts from, the value
/// of the longest path that leads to it, an upper bound on the best value
/// reachable through it, and the decisions of that path in the order they
/// were taken.
#[derive(Clone, Debug)]
pub struct FrontierNode {
    pub state: usize,
    pub lp_len: isize,
    pub ub: isize,
    pub path: Vec<Decision>,
}

impl FrontierNode {
    /// A copy of this node.
    pub fn clone_node(&self) -> (r: FrontierNode)
        ensures
            r.state == self.state,
            r.lp_len == self.lp_len,
            r.ub == self.ub,
            r.path@ == self.path@,
    {
        let path = self.path.clone();
        assert(path@ =~= self.path@);
        FrontierNode { state: self.state, lp_len: self.lp_len, ub: self.ub, path }
    }
}

/// The outcome of one compilation.
#[derive(Clone, Copy, Debug, PartialEq, Eq, Structural)]
pub struct Completion {
    /// Whether the diagram is exact, so that `best_value` is the optimum.
    pub is_exact: bool,
    /// The value of the best terminal node, if any node was kept.
    pub best_value: Option<isize>,
}

/// Why a compilation stopped before its end.
#[derive(Clone, Copy, Debug, PartialEq, Eq, Structural)]
pub enum Reason {
    /// The configured cutoff asked to stop.
    CutoffOccurred,
}

/// A complete assignment: the decisions along a path of a diagram, the
/// latest decision first.
#[derive(Clone, Debug)]
pub struct Solution {
    decisions: Vec<Decision>,
}

impl View for Solution {
    type V = Seq<Decision>;

    closed spec fn view(&self) -> Seq<Decision> {
        self.decisions@
    }
}

impl Solution {
    /// The solution made of `path` (decisions in the order they were taken),
    /// listed from the latest decision to the first one.
    pub fn new(path: &Vec<Decision>) -> (r: Solution)
        ensures
            r@ == path@.reverse(),
    {
        let mut decisions: Vec<Decision> = Vec::new();
        let mut i: usize = path.len();
        while i > 0
            invariant
                i <= path@.len(),
                decisions@ == path@.subrange(i as int, path@.len() as int).reverse(),
            decreases i,
        {
            i = i - 1;
            decisions.push(path[i]);
            assert(decisions@ =~= path@.subrange(i as int, path@.len() as int).reverse());
        }
        assert(path@.subrange(0, path@.len() as int) =~= path@);
        Solution { decisions }
    }

    /// The decisions of this solution, the latest first.
    pub fn decisions(&self) -> (r: Vec<Decision>)
        ensures
            r@ == self@,
    {
        let r = self.decisions.clone();
        assert(r@ =~= self@);
        r
    }

    /// The decisions of this solution, the latest first.
    pub fn iter(&self) -> (r: std::vec::IntoIter<Decision>)
        ensures
            r.remaining() == self@,
    {
        self.decisions().into_iter()
    }
}

} // verus!
