//! The strategies that steer a compilation: the width of a layer, the next
//! variable to branch on, and when to stop.

use vstd::prelude::*;
use crate::common::{VarSet, Variable};
use crate::layer::Node;

verus! {

/// Chooses the maximum width of the layers of a bounded diagram.
pub trait WidthHeuristic {
    /// The width to use when `free` holds the free variables.
    fn max_width(&self, free: &VarSet) -> usize;
}

/// A width that never changes.
#[derive(Clone, Copy, Debug)]
pub struct FixedWidth(pub usize);

impl WidthHeuristic for FixedWidth {
    fn max_width(&self, _free: &VarSet) -> (r: usize)
        ensures
            r == self.0,
    {
        self.0
    }
}

/// A width equal to the number of free variables.
#[derive(Clone, Copy, Debug)]
pub struct NbUnassignedWidth;

impl WidthHeuristic for NbUnassignedWidth {
    fn max_width(&self, free: &VarSet) -> (r: usize)
        ensures
            r == free@.len(),
    {
        free.len()
    }
}

/// Chooses the variable that the next layer of a diagram assigns.
/// `spec_picks(free, x)` holds when the heuristic may choose `x` among the
/// free variables `free`; an implementation verified with Verus defines it,
/// one that is not leaves the default, of which nothing is known.
pub trait VariableHeuristic {
    closed spec fn spec_picks(&self, free: Set<nat>, x: nat) -> bool {
        arbitrary()
    }

    /// A variable of `free`, or `None` when `free` is empty. `current` and
    /// `next` are the nodes of the last two layers.
    fn next_var(&self, free: &VarSet, current: &Vec<Node>, next: &Vec<Node>) -> (r: Option<Variable>)
        ensures
            r is None <==> free@ == Set::<nat>::empty(),
            r matches Some(v) ==> free@.contains(v.0 as nat) && self.spec_picks(free@, v.0 as nat),
    ;
}

/// Branches on the free variables in increasing order of their index.
#[derive(Clone, Copy, Debug)]
pub struct NaturalOrder;

impl NaturalOrder {
    pub fn new() -> (r: NaturalOrder) {
        NaturalOrder {  }
    }
}

impl VariableHeuristic for NaturalOrder {
    open spec fn spec_picks(&self, free: Set<nat>, x: nat) -> bool {
        free.contains(x) && forall|k: nat| free.contains(k) ==> x <= k
    }

    fn next_var(&self, free: &VarSet, _current: &Vec<Node>, _next: &Vec<Node>) -> (r: Option<Variable>)
        ensures
            r is None <==> free@ == Set::<nat>::empty(),
            r matches Some(v) ==> free@.contains(v.0 as nat) && forall|k: nat|
                free@.contains(k) ==> v.0 <= k,
    {
        free.first()
    }
}

/// Decides whether a compilation must stop before its end: a predicate of
/// the two bounds it is given, named by `spec_stops`. An implementation
/// verified with Verus defines it, one that is not leaves the default, of
/// which nothing is known.
pub trait Cutoff {
    closed spec fn spec_stops(&self, best_lb: isize, ub: isize) -> bool {
        arbitrary()
    }

    /// Whether to stop, given the best known lower bound and the upper bound
    /// of the subproblem under compilation.
    fn must_stop(&self, best_lb: isize, ub: isize) -> (r: bool)
        ensures
            r == self.spec_stops(best_lb, ub),
    ;
}

/// Never stops a compilation.
#[derive(Clone, Copy, Debug)]
pub struct NoCutoff;

impl Cutoff for NoCutoff {
    open spec fn spec_stops(&self, best_lb: isize, ub: isize) -> bool {
        false
    }

    fn must_stop(&self, _best_lb: isize, _ub: isize) -> (r: bool)
        ensures
            !r,
    {
        false
    }
}

} // verus!
