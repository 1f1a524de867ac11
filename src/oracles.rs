//! What a problem and its relaxation provide, and what following a path
//! of decisions means.

use vstd::prelude::*;
use crate::common::{Decision, VarSet, Variable};

verus! {

/// A dynamic programme to maximise. States are integer codes chosen by the
/// problem. Every method is a pure function of its arguments: each one is
/// described by the spec function it names. An implementation verified with
/// Verus defines these spec functions; one that is not leaves the defaults,
/// of which nothing is known.
pub trait Problem {
    closed spec fn spec_nb_vars(&self) -> nat {
        arbitrary()
    }

    closed spec fn spec_initial_state(&self) -> usize {
        arbitrary()
    }

    closed spec fn spec_initial_value(&self) -> int {
        arbitrary()
    }

    closed spec fn spec_domain(&self, state: usize, var: nat) -> Seq<isize> {
        arbitrary()
    }

    closed spec fn spec_transition(&self, state: usize, free: Set<nat>, d: Decision) -> usize {
        arbitrary()
    }

    closed spec fn spec_cost(&self, state: usize, free: Set<nat>, d: Decision) -> int {
        arbitrary()
    }

    /// The number of variables of the problem.
    fn nb_vars(&self) -> (r: usize)
        ensures
            r == self.spec_nb_vars(),
    ;

    /// The state of the root of the problem.
    fn initial_state(&self) -> (r: usize)
        ensures
            r == self.spec_initial_state(),
    ;

    /// The value of the root of the problem.
    fn initial_value(&self) -> (r: isize)
        ensures
            r == self.spec_initial_value(),
    ;

    /// The values `var` may take in `state`.
    fn domain_of(&self, state: &usize, var: Variable) -> (r: Vec<isize>)
        ensures
            r@ == self.spec_domain(*state, var.0 as nat),
    ;

    /// The state reached from `state` by `d`; `free` holds the variables
    /// that remain free once `d` is taken.
    fn transition(&self, state: &usize, free: &VarSet, d: Decision) -> (r: usize)
        ensures
            r == self.spec_transition(*state, free@, d),
    ;

    /// The cost (to maximise) of taking `d` in `state`.
    fn transition_cost(&self, state: &usize, free: &VarSet, d: Decision) -> (r: isize)
        ensures
            r == self.spec_cost(*state, free@, d),
    ;
}

/// The relaxation of a problem: an upper bound on what a state can still
/// gain, and the state that stands for every state a diagram left aside.
/// As for `Problem`, each method is described by the spec function it names.
pub trait Relaxation {
    closed spec fn spec_estimate(&self, state: usize) -> int {
        arbitrary()
    }

    closed spec fn spec_default_relaxed_state(&self) -> usize {
        arbitrary()
    }

    /// An upper bound on the best value that can still be gained from `state`.
    fn estimate(&self, state: &usize) -> (r: isize)
        ensures
            r == self.spec_estimate(*state),
    ;

    /// The state of the node that absorbs the nodes a relaxed diagram does
    /// not develop.
    fn default_relaxed_state(&self) -> (r: usize)
        ensures
            r == self.spec_default_relaxed_state(),
    ;
}

/// Follows `path` from `state`, where `free` holds the free variables. Each
/// decision must bind a free variable to a value of its domain. The result
/// is the state reached, the variables left free and the summed cost, or
/// `None` when some decision is not allowed.
pub open spec fn run<P: Problem>(pb: &P, state: usize, free: Set<nat>, path: Seq<Decision>) -> Option<(usize, Set<nat>, int)>
    decreases path.len(),
{
    if path.len() == 0 {
        Some((state, free, 0))
    } else {
        match run(pb, state, free, path.drop_last()) {
            None => None,
            Some((s, f, v)) => {
                let d = path.last();
                let x = d.variable.0 as nat;
                let rest = f.remove(x);
                if f.contains(x) && pb.spec_domain(s, x).contains(d.value) {
                    Some((pb.spec_transition(s, rest, d), rest, v + pb.spec_cost(s, rest, d)))
                } else {
                    None
                }
            },
        }
    }
}

/// `path` is a complete assignment of the variables in `free`, allowed from
/// `state`, and gains `value`.
pub open spec fn completes<P: Problem>(pb: &P, state: usize, free: Set<nat>, path: Seq<Decision>, value: int) -> bool {
    match run(pb, state, free, path) {
        Some((_, f, v)) => f == Set::<nat>::empty() && v == value,
        None => false,
    }
}

/// The variables of a problem with `n` variables.
pub open spec fn below(n: nat) -> Set<nat> {
    Set::new(|i: nat| i < n)
}

/// The relaxation never underestimates: from every state, whatever
/// variables of the problem are free, no complete assignment gains more than
/// the estimate.
pub open spec fn admissible<P: Problem, R: Relaxation>(pb: &P, rlx: &R) -> bool {
    forall|s: usize, free: Set<nat>, path: Seq<Decision>, v: int|
        free.subset_of(below(pb.spec_nb_vars())) && #[trigger] completes(pb, s, free, path, v) ==> v <= rlx.spec_estimate(s)
}

/// Following a path only binds free variables: those left free are some of
/// those free at the start.
pub proof fn lemma_run_subset<P: Problem>(pb: &P, s: usize, free: Set<nat>, p: Seq<Decision>)
    ensures
        run(pb, s, free, p) matches Some((_, f, _)) ==> f.subset_of(free),
    decreases p.len(),
{
    if p.len() > 0 {
        lemma_run_subset(pb, s, free, p.drop_last());
    }
}

/// `path` binds the variables of `order`, one by one and in that order.
pub open spec fn follows(path: Seq<Decision>, order: Seq<nat>) -> bool {
    &&& path.len() == order.len()
    &&& forall|j: int| 0 <= j < path.len() ==> #[trigger] path[j].variable.0 == order[j]
}

/// The variables of `order`.
pub open spec fn order_set(order: Seq<nat>) -> Set<nat> {
    Set::new(|x: nat| order.contains(x))
}

/// Following `p` then `c` is following `p`, then `c` from where `p` ends.
pub proof fn lemma_run_concat<P: Problem>(pb: &P, s: usize, free: Set<nat>, p: Seq<Decision>, c: Seq<Decision>)
    ensures
        run(pb, s, free, p + c) == match run(pb, s, free, p) {
            Some((s1, f1, v1)) => match run(pb, s1, f1, c) {
                Some((s2, f2, v2)) => Some((s2, f2, v1 + v2)),
                None => None,
            },
            None => None,
        },
    decreases c.len(),
{
    if c.len() == 0 {
        assert(p + c =~= p);
    } else {
        lemma_run_concat(pb, s, free, p, c.drop_last());
        assert((p + c).drop_last() =~= p + c.drop_last());
        assert((p + c).last() == c.last());
    }
}

/// A path that follows `order` leaves free the variables not in `order`.
pub proof fn lemma_run_free<P: Problem>(pb: &P, s: usize, free: Set<nat>, p: Seq<Decision>, order: Seq<nat>)
    requires
        follows(p, order),
    ensures
        run(pb, s, free, p) matches Some((_, f, _)) ==> f == free.difference(order_set(order)),
    decreases p.len(),
{
    if p.len() == 0 {
        assert(free.difference(order_set(order)) =~= free);
    } else {
        let q = p.drop_last();
        let o = order.drop_last();
        assert(follows(q, o)) by {
            assert forall|j: int| 0 <= j < q.len() implies #[trigger] q[j].variable.0 == o[j] by {
                assert(p[j].variable.0 == order[j]);
            }
        }
        lemma_run_free(pb, s, free, q, o);
        assert(p[p.len() - 1].variable.0 == order[order.len() - 1]);
        if let Some((_, f, _)) = run(pb, s, free, q) {
            let x = p.last().variable.0 as nat;
            assert(order_set(order) =~= order_set(o).insert(x)) by {
                assert forall|y: nat| order_set(order).contains(y) implies order_set(o).insert(y).contains(y) by {}
                assert forall|y: nat| #[trigger] order_set(o).insert(x).contains(y) implies order.contains(y) by {
                    if y == x {
                        assert(order[order.len() - 1] == y);
                    } else {
                        let k = choose|k: int| 0 <= k < o.len() && o[k] == y;
                        assert(order[k] == y);
                    }
                }
                assert forall|y: nat| order.contains(y) implies #[trigger] order_set(o).insert(x).contains(y) by {
                    let k = choose|k: int| 0 <= k < order.len() && order[k] == y;
                    if k < order.len() - 1 {
                        assert(o[k] == y);
                    }
                }
            }
            assert(f.remove(x) =~= free.difference(order_set(order)));
        }
    }
}

/// A path that can be followed binds, first, a free variable to a value of
/// its domain in the starting state.
pub proof fn lemma_run_first<P: Problem>(pb: &P, s: usize, free: Set<nat>, p: Seq<Decision>)
    requires
        p.len() > 0,
        run(pb, s, free, p) is Some,
    ensures
        free.contains(p[0].variable.0 as nat),
        pb.spec_domain(s, p[0].variable.0 as nat).contains(p[0].value),
    decreases p.len(),
{
    if p.len() == 1 {
        assert(p.drop_last() =~= Seq::<Decision>::empty());
    } else {
        lemma_run_first(pb, s, free, p.drop_last());
        assert(p.drop_last()[0] == p[0]);
    }
}

} // verus!
