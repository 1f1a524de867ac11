//! One step of the branch-and-bound search: the work a worker does on the
//! subproblem it popped from the frontier.

use vstd::prelude::*;
use crate::common::{FrontierNode, Reason, Solution};
use crate::frontier::{before, lemma_pushed_keeps_states, node_view, NoDupFrontier, NodeView};
use crate::heuristics::{Cutoff, VariableHeuristic, WidthHeuristic};
use crate::layer::{clamp, Node};
use crate::mdd::{AggressivelyBoundedMDD, MDDType};
use crate::oracles::{Problem, Relaxation};

verus! {

/// The best solution known so far and its value.
pub struct Incumbent {
    /// The value of `solution`, or `isize::MIN` when none is known.
    pub best_lb: isize,
    pub solution: Option<Solution>,
}

impl Incumbent {
    /// No solution known yet.
    pub fn new() -> (r: Incumbent)
        ensures
            r.best_lb == isize::MIN,
            r.solution is None,
    {
        Incumbent { best_lb: isize::MIN, solution: None }
    }
}

/// The bound a relaxed cutset gives the subproblem of node `n` when the
/// diagram's best value is `v`.
pub open spec fn cut_ub(n: Node, v: isize) -> isize {
    if clamp(n.spec_ub()) < v {
        clamp(n.spec_ub())
    } else {
        v
    }
}

/// When the last diagram is relaxed, inexact, and its best value beats the
/// lower bound it was compiled with, every node of its last exact layer
/// whose cutset bound beats `lb` has an entry of its state in `fr`.
pub open spec fn reopens<P: Problem, R: Relaxation, W: WidthHeuristic, V: VariableHeuristic, C: Cutoff>(
    mdd: &AggressivelyBoundedMDD<P, R, W, V, C>,
    fr: Seq<NodeView>,
    lb: isize,
) -> bool {
    (mdd.spec_type() == MDDType::Relaxed && !mdd.spec_is_exact() && mdd.spec_best_value() is Some
        && mdd.spec_best_value()->0 > mdd.spec_best_lb()) ==> forall|k: int|
        #![trigger mdd.spec_lel()[k]]
        0 <= k < mdd.spec_lel().len() && cut_ub(mdd.spec_lel()[k], mdd.spec_best_value()->0) > lb ==> exists|j: int|
            #![trigger fr[j]]
            0 <= j < fr.len() && fr[j].0 == mdd.spec_lel()[k].state
}

/// Explores the subproblem `node`: it is dropped when its bound does not
/// beat the incumbent; otherwise a restricted diagram may improve the
/// incumbent and, unless it was exact, a relaxed diagram either closes the
/// subproblem (exact, improving the incumbent if it can) or reopens its
/// cutset in the frontier when its bound beats the incumbent. A cutoff
/// during either compilation is returned as it is. Afterwards `mdd` holds
/// the last diagram compiled.
pub fn explore<P: Problem, R: Relaxation, W: WidthHeuristic, V: VariableHeuristic, C: Cutoff>(
    mdd: &mut AggressivelyBoundedMDD<P, R, W, V, C>,
    frontier: &mut NoDupFrontier,
    best: &mut Incumbent,
    node: &FrontierNode,
) -> (r: Result<(), Reason>)
    requires
        old(mdd).wf(),
        old(frontier).wf(),
        old(frontier).spec_best_lb() == old(best).best_lb,
    ensures
        final(mdd).wf(),
        final(mdd).spec_config() == old(mdd).spec_config(),
        final(frontier).wf(),
        final(frontier).spec_best_lb() == final(best).best_lb,
        final(best).best_lb >= old(best).best_lb,
        final(best).best_lb > old(best).best_lb ==> final(best).solution is Some,
        node.ub <= old(best).best_lb ==> {
            &&& final(best).best_lb == old(best).best_lb
            &&& final(frontier)@ == old(frontier)@
            &&& r is Ok
        },
        r is Err ==> node.ub > old(best).best_lb && (old(mdd).spec_config().cutoff.spec_stops(old(best).best_lb, node.ub)
            || old(mdd).spec_config().cutoff.spec_stops(final(best).best_lb, node.ub)),
        (r is Ok && node.ub > old(best).best_lb) ==> {
            &&& final(mdd).compiled(node, final(mdd).spec_best_lb(), final(mdd).spec_type())
            &&& final(mdd).spec_type() != MDDType::Exact
            &&& old(best).best_lb <= final(mdd).spec_best_lb() <= final(best).best_lb
            &&& final(mdd).spec_type() == MDDType::Restricted ==> final(mdd).spec_is_exact()
            &&& final(mdd).spec_is_exact() ==> (final(mdd).spec_best_value() matches Some(v) ==> v <= final(best).best_lb)
        },
        (r is Ok && node.ub > old(best).best_lb) ==> reopens(&*final(mdd), final(frontier)@, final(best).best_lb),
{
    if node.ub <= best.best_lb {
        return Ok(());
    }
    let restricted = mdd.restricted(node, best.best_lb, node.ub)?;
    improve(mdd, frontier, best, restricted.best_value);
    if restricted.is_exact {
        return Ok(());
    }
    let relaxed = mdd.relaxed(node, best.best_lb, node.ub)?;
    if relaxed.is_exact {
        improve(mdd, frontier, best, relaxed.best_value);
    } else if let Some(ub) = relaxed.best_value {
        if ub > best.best_lb {
            let cutset = mdd.cutset();
            assert(cutset@.len() == mdd.spec_lel().len());
            assert(forall|k: int| 0 <= k < cutset@.len() ==> (#[trigger] cutset@[k]).state == mdd.spec_lel()[k].state
                && cutset@[k].ub == cut_ub(mdd.spec_lel()[k], ub));
            let mut i: usize = 0;
            while i < cutset.len()
                invariant
                    cutset@.len() == mdd.spec_lel().len(),
                    forall|k: int| 0 <= k < cutset@.len() ==> (#[trigger] cutset@[k]).state == mdd.spec_lel()[k].state
                        && cutset@[k].ub == cut_ub(mdd.spec_lel()[k], ub),
                    frontier.wf(),
                    frontier.spec_best_lb() == best.best_lb,
                    i <= cutset@.len(),
                    forall|k: int| 0 <= k < i && #[trigger] cutset@[k].ub > best.best_lb ==> exists|j: int|
                        0 <= j < frontier@.len() && frontier@[j].0 == cutset@[k].state,
                decreases cutset@.len() - i,
            {
                let ghost before = frontier@;
                let n = cutset[i].clone_node();
                assert(node_view(&n) == node_view(&cutset@[i as int]));
                proof {
                    lemma_pushed_keeps_states(before, best.best_lb, node_view(&n));
                }
                frontier.push(n);
                proof {
                    assert forall|k: int| 0 <= k < i + 1 && #[trigger] cutset@[k].ub > best.best_lb implies exists|j: int|
                        0 <= j < frontier@.len() && frontier@[j].0 == cutset@[k].state by {
                        if k < i {
                            let j = choose|j: int| 0 <= j < before.len() && before[j].0 == cutset@[k].state;
                            assert(frontier@[j].0 == before[j].0);
                        }
                    }
                }
                i = i + 1;
            }
            proof {
                let m = &*mdd;
                let fr = frontier@;
                assert(m.spec_best_value() == Some(ub));
                assert forall|k: int|
                    #![trigger m.spec_lel()[k]]
                    0 <= k < m.spec_lel().len() && cut_ub(m.spec_lel()[k], m.spec_best_value()->0) > best.best_lb
                    implies exists|j: int| #![trigger fr[j]] 0 <= j < fr.len() && fr[j].0 == m.spec_lel()[k].state by {
                    assert(cutset@[k].ub > best.best_lb);
                    let j = choose|j: int| 0 <= j < fr.len() && fr[j].0 == cutset@[k].state;
                    assert(fr[j].0 == m.spec_lel()[k].state);
                }
                assert(reopens(m, fr, best.best_lb));
            }
        }
    }
    Ok(())
}

/// Makes the best solution of the last diagram the incumbent when its
/// value `value` beats the incumbent's.
fn improve<P: Problem, R: Relaxation, W: WidthHeuristic, V: VariableHeuristic, C: Cutoff>(
    mdd: &AggressivelyBoundedMDD<P, R, W, V, C>,
    frontier: &mut NoDupFrontier,
    best: &mut Incumbent,
    value: Option<isize>,
)
    requires
        mdd.wf(),
        value == mdd.spec_best_value(),
        old(frontier).wf(),
        old(frontier).spec_best_lb() == old(best).best_lb,
    ensures
        final(frontier).wf(),
        final(frontier).spec_best_lb() == final(best).best_lb,
        final(best).best_lb >= old(best).best_lb,
        final(best).best_lb > old(best).best_lb ==> final(best).solution is Some,
        final(best).best_lb == old(best).best_lb ==> *final(best) == *old(best) && final(frontier)@ == old(frontier)@,
        value matches Some(v) ==> final(best).best_lb == if v > old(best).best_lb { v } else { old(best).best_lb },
{
    if let Some(v) = value {
        if v > best.best_lb {
            best.best_lb = v;
            best.solution = mdd.best_solution();
            frontier.set_best_lb(v);
        }
    }
}

/// Pops from `frontier` the first subproblem whose bound beats `best_lb`,
/// dropping the dominated ones popped before it; `None` once the frontier
/// is empty.
pub fn next_subproblem(frontier: &mut NoDupFrontier, best_lb: isize) -> (r: Option<FrontierNode>)
    requires
        old(frontier).wf(),
    ensures
        final(frontier).wf(),
        final(frontier).spec_best_lb() == old(frontier).spec_best_lb(),
        final(frontier)@.len() <= old(frontier)@.len(),
        r is None ==> final(frontier)@.len() == 0,
        r matches Some(n) ==> n.ub > best_lb && old(frontier)@.contains(node_view(&n)),
{
    let ghost start = frontier@;
    loop
        invariant
            frontier.wf(),
            frontier.spec_best_lb() == old(frontier).spec_best_lb(),
            frontier@.len() <= start.len(),
            start == old(frontier)@,
            forall|k: int| 0 <= k < frontier@.len() ==> start.contains(#[trigger] frontier@[k]),
        decreases frontier@.len(),
    {
        let ghost prior = frontier@;
        match frontier.pop() {
            None => {
                return None;
            },
            Some(n) => {
                proof {
                    let k = choose|k: int| {
                        &&& 0 <= k < prior.len()
                        &&& prior[k] == node_view(&n)
                        &&& frontier@ == prior.remove(k)
                        &&& forall|j: int| 0 <= j < prior.len() ==> before(node_view(&n), #[trigger] prior[j])
                    };
                    assert(start.contains(prior[k]));
                    assert forall|m: int| 0 <= m < frontier@.len() implies start.contains(#[trigger] frontier@[m]) by {
                        if m < k {
                            assert(frontier@[m] == prior[m]);
                        } else {
                            assert(frontier@[m] == prior[m + 1]);
                        }
                        assert(start.contains(prior[if m < k { m } else { m + 1 }]));
                    }
                }
                if n.ub > best_lb {
                    return Some(n);
                }
            },
        }
    }
}

/// Merges what a worker found into the shared search: its incumbent
/// `found` replaces `best` when it is better (raising the frontier's bound),
/// then every entry of `local` is pushed on `frontier`, which keeps an entry
/// of the state of each one that beats the new incumbent.
pub fn merge_results(frontier: &mut NoDupFrontier, best: &mut Incumbent, local: &mut NoDupFrontier, found: Incumbent)
    requires
        old(frontier).wf(),
        old(local).wf(),
        old(frontier).spec_best_lb() == old(best).best_lb,
    ensures
        final(frontier).wf(),
        final(frontier).spec_best_lb() == final(best).best_lb,
        final(local)@.len() == 0,
        (found.best_lb > old(best).best_lb && found.solution is Some) ==> final(best).best_lb == found.best_lb
            && final(best).solution == found.solution,
        !(found.best_lb > old(best).best_lb && found.solution is Some) ==> *final(best) == *old(best),
        forall|k: int| 0 <= k < old(local)@.len() && #[trigger] old(local)@[k].2 > final(best).best_lb ==> exists|j: int|
            0 <= j < final(frontier)@.len() && final(frontier)@[j].0 == old(local)@[k].0,
{
    if found.best_lb > best.best_lb && found.solution.is_some() {
        best.best_lb = found.best_lb;
        best.solution = found.solution;
        frontier.set_best_lb(best.best_lb);
    }
    let ghost start = local@;
    let ghost mut taken: Seq<NodeView> = Seq::empty();
    loop
        invariant
            frontier.wf(),
            local.wf(),
            frontier.spec_best_lb() == best.best_lb,
            (found.best_lb > old(best).best_lb && found.solution is Some) ==> best.best_lb == found.best_lb
                && best.solution == found.solution,
            !(found.best_lb > old(best).best_lb && found.solution is Some) ==> *best == *old(best),
            start == old(local)@,
            forall|k: int| 0 <= k < start.len() ==> #[trigger] local@.contains(start[k]) || taken.contains(start[k]),
            forall|k: int| 0 <= k < taken.len() && #[trigger] taken[k].2 > best.best_lb ==> exists|j: int|
                0 <= j < frontier@.len() && frontier@[j].0 == taken[k].0,
        decreases local@.len(),
    {
        let ghost lbefore = local@;
        let ghost fbefore = frontier@;
        match local.pop() {
            None => {
                proof {
                    assert forall|k: int| 0 <= k < start.len() && #[trigger] start[k].2 > best.best_lb implies exists|j: int|
                        0 <= j < frontier@.len() && frontier@[j].0 == start[k].0 by {
                        assert(!local@.contains(start[k]));
                        assert(taken.contains(start[k]));
                        let t = choose|t: int| 0 <= t < taken.len() && taken[t] == start[k];
                        assert(taken[t].2 > best.best_lb);
                    }
                }
                return;
            },
            Some(n) => {
                let ghost v = node_view(&n);
                proof {
                    lemma_pushed_keeps_states(fbefore, best.best_lb, v);
                }
                frontier.push(n);
                proof {
                    let k0 = choose|k: int| {
                        &&& 0 <= k < lbefore.len()
                        &&& lbefore[k] == v
                        &&& local@ == lbefore.remove(k)
                        &&& forall|j: int| 0 <= j < lbefore.len() ==> before(v, #[trigger] lbefore[j])
                    };
                    let old_taken = taken;
                    taken = taken.push(v);
                    assert forall|k: int| 0 <= k < taken.len() && #[trigger] taken[k].2 > best.best_lb implies exists|j: int|
                        0 <= j < frontier@.len() && frontier@[j].0 == taken[k].0 by {
                        if k < old_taken.len() {
                            assert(taken[k] == old_taken[k]);
                            let j = choose|j: int| 0 <= j < fbefore.len() && fbefore[j].0 == old_taken[k].0;
                            assert(frontier@[j].0 == fbefore[j].0);
                        }
                    }
                    assert forall|k: int| 0 <= k < start.len() implies #[trigger] local@.contains(start[k]) || taken.contains(start[k]) by {
                        if lbefore.contains(start[k]) {
                            let m = choose|m: int| 0 <= m < lbefore.len() && lbefore[m] == start[k];
                            if m == k0 {
                                assert(taken[taken.len() - 1] == start[k]);
                            } else if m < k0 {
                                assert(local@[m] == start[k]);
                            } else {
                                assert(local@[m - 1] == start[k]);
                            }
                        } else {
                            let t = choose|t: int| 0 <= t < old_taken.len() && old_taken[t] == start[k];
                            assert(taken[t] == start[k]);
                        }
                    }
                }
            },
        }
    }
}

} // verus!
