use ddo::common::{Decision, FrontierNode, Reason, Solution, VarSet, Variable};
use ddo::solver::{explore, merge_results, next_subproblem, Incumbent};
use ddo::config::config_builder;
use ddo::frontier::NoDupFrontier;
use ddo::heuristics::{Cutoff, FixedWidth, NaturalOrder, NbUnassignedWidth, NoCutoff, VariableHeuristic, WidthHeuristic};
use ddo::mdd::AggressivelyBoundedMDD;
use ddo::oracles::{Problem, Relaxation};

/// Three variables, domain {0, 1, 2}, the state is the running sum and the
/// cost is the value taken.
#[derive(Copy, Clone)]
struct GreedySum;

impl Problem for GreedySum {
    fn nb_vars(&self) -> usize {
        3
    }
    fn initial_state(&self) -> usize {
        0
    }
    fn initial_value(&self) -> isize {
        0
    }
    fn domain_of(&self, _: &usize, _: Variable) -> Vec<isize> {
        vec![0, 1, 2]
    }
    fn transition(&self, state: &usize, _: &VarSet, d: Decision) -> usize {
        *state + d.value as usize
    }
    fn transition_cost(&self, _: &usize, _: &VarSet, d: Decision) -> isize {
        d.value
    }
}

/// Same shape, but no transition costs anything and the root is worth 7.
#[derive(Copy, Clone)]
struct FreeMoves;

impl Problem for FreeMoves {
    fn nb_vars(&self) -> usize {
        3
    }
    fn initial_state(&self) -> usize {
        0
    }
    fn initial_value(&self) -> isize {
        7
    }
    fn domain_of(&self, _: &usize, _: Variable) -> Vec<isize> {
        vec![0, 1, 2]
    }
    fn transition(&self, state: &usize, _: &VarSet, d: Decision) -> usize {
        *state + d.value as usize
    }
    fn transition_cost(&self, _: &usize, _: &VarSet, _: Decision) -> isize {
        0
    }
}

/// One variable with an empty domain.
#[derive(Copy, Clone)]
struct EmptySingle;

impl Problem for EmptySingle {
    fn nb_vars(&self) -> usize {
        1
    }
    fn initial_state(&self) -> usize {
        0
    }
    fn initial_value(&self) -> isize {
        0
    }
    fn domain_of(&self, _: &usize, _: Variable) -> Vec<isize> {
        vec![]
    }
    fn transition(&self, state: &usize, _: &VarSet, _: Decision) -> usize {
        *state
    }
    fn transition_cost(&self, _: &usize, _: &VarSet, _: Decision) -> isize {
        0
    }
}

#[derive(Copy, Clone)]
struct Fifty;

impl Relaxation for Fifty {
    fn estimate(&self, _: &usize) -> isize {
        50
    }
    fn default_relaxed_state(&self) -> usize {
        100
    }
}

/// Stops only once the lower bound it is given exceeds 5.
struct StopAbove5;

impl Cutoff for StopAbove5 {
    fn must_stop(&self, best_lb: isize, _: isize) -> bool {
        best_lb > 5
    }
}

fn d(var: usize, value: isize) -> Decision {
    Decision { variable: Variable(var), value }
}

fn fnode(state: usize, lp_len: isize, ub: isize) -> FrontierNode {
    FrontierNode { state, lp_len, ub, path: vec![d(0, lp_len)] }
}

#[test]
fn varset_all_remove_and_count() {
    let mut vs = VarSet::all(4);
    assert_eq!(vs.len(), 4);
    assert_eq!(vs.capacity_exec(), 4);
    vs.remove(Variable(1));
    assert!(!vs.contains(Variable(1)));
    assert!(vs.contains(Variable(2)));
    assert_eq!(vs.len(), 3);
    assert_eq!(vs.first(), Some(Variable(0)));
    assert_eq!(vs.to_vec(), vec![Variable(0), Variable(2), Variable(3)]);
    assert!(!vs.contains(Variable(9)));
}

#[test]
fn varset_empty_has_no_first() {
    let vs = VarSet::empty(3);
    assert!(vs.is_empty());
    assert_eq!(vs.len(), 0);
    assert_eq!(vs.first(), None);
    assert!(VarSet::all(0).is_empty());
}

#[test]
fn solution_lists_latest_decision_first() {
    let s = Solution::new(&vec![d(0, 5), d(1, 6), d(2, 7)]);
    assert_eq!(s.decisions(), vec![d(2, 7), d(1, 6), d(0, 5)]);
    assert_eq!(s.iter().count(), 3);
}

#[test]
fn variable_id_is_its_index() {
    assert_eq!(Variable(4).id(), 4);
}

#[test]
fn fixed_width_returns_its_width() {
    assert_eq!(FixedWidth(7).max_width(&VarSet::all(3)), 7);
}

#[test]
fn nb_unassigned_width_counts_free_variables() {
    let mut vs = VarSet::all(5);
    vs.remove(Variable(0));
    assert_eq!(NbUnassignedWidth.max_width(&vs), 4);
}

#[test]
fn natural_order_picks_the_smallest_free_variable() {
    let mut vs = VarSet::all(5);
    vs.remove(Variable(0));
    vs.remove(Variable(1));
    assert_eq!(NaturalOrder::new().next_var(&vs, &vec![], &vec![]), Some(Variable(2)));
}

#[test]
fn natural_order_has_nothing_when_no_variable_is_free() {
    assert_eq!(NaturalOrder::new().next_var(&VarSet::empty(5), &vec![], &vec![]), None);
}

#[test]
fn no_cutoff_never_stops() {
    assert!(!NoCutoff.must_stop(isize::MAX, isize::MIN));
}

#[test]
fn root_node_starts_the_whole_problem() {
    let cfg = config_builder(FreeMoves, Fifty).build();
    let root = cfg.root_node();
    assert_eq!(root.state, 0);
    assert_eq!(root.lp_len, 7);
    assert_eq!(root.ub, isize::MAX);
    assert!(root.path.is_empty());
}

#[test]
fn load_variables_leaves_out_the_variables_of_the_path() {
    let cfg = config_builder(GreedySum, Fifty).build();
    let root = FrontierNode { state: 2, lp_len: 2, ub: 100, path: vec![d(1, 2)] };
    let vs = cfg.load_variables(&root);
    assert_eq!(vs.to_vec(), vec![Variable(0), Variable(2)]);
}

#[test]
fn exact_from_a_subproblem_extends_its_path() {
    let cfg = config_builder(GreedySum, Fifty).build();
    let mut mdd = AggressivelyBoundedMDD::from(cfg);
    let root = FrontierNode { state: 1, lp_len: 1, ub: 100, path: vec![d(0, 1)] };
    let c = mdd.exact(&root, 0, 100).unwrap();
    assert_eq!(c.best_value, Some(5));
    assert!(c.is_exact);
    assert_eq!(mdd.best_solution().unwrap().decisions(), vec![d(2, 2), d(1, 2), d(0, 1)]);
}

#[test]
fn restricted_value_is_at_most_the_optimum() {
    let cfg = config_builder(GreedySum, Fifty).with_max_width(FixedWidth(2)).build();
    let mut mdd = AggressivelyBoundedMDD::from(cfg);
    let root = mdd.config().root_node();
    let c = mdd.restricted(&root, 0, 1000).unwrap();
    let v = c.best_value.unwrap();
    assert!(v <= 6);
    let sum: isize = mdd.best_solution().unwrap().decisions().iter().map(|x| x.value).sum();
    assert_eq!(sum, v);
}

#[test]
fn relaxed_value_is_at_least_the_optimum() {
    let cfg = config_builder(GreedySum, Fifty).with_max_width(FixedWidth(1)).build();
    let mut mdd = AggressivelyBoundedMDD::from(cfg);
    let root = mdd.config().root_node();
    let c = mdd.relaxed(&root, 0, 100000).unwrap();
    assert!(c.best_value.unwrap() >= 6);
    // the relaxed node of the last layer carries the best bound of the nodes
    // it stands for: 2 + 50, then 52 + 50
    assert_eq!(c.best_value, Some(102));
    assert!(!c.is_exact);
}

#[test]
fn relaxed_cutset_bounds_come_from_their_nodes() {
    let cfg = config_builder(GreedySum, Fifty).with_max_width(FixedWidth(1)).build();
    let mut mdd = AggressivelyBoundedMDD::from(cfg);
    let root = mdd.config().root_node();
    mdd.relaxed(&root, 0, 100000).unwrap();
    let best = mdd.best_value();
    let mut cutset = mdd.cutset();
    cutset.sort_by_key(|n| n.state);
    assert_eq!(cutset.len(), 3);
    for (i, n) in cutset.iter().enumerate() {
        assert!(n.ub <= best);
        assert_eq!(n.state, i);
        assert_eq!(n.lp_len, i as isize);
        assert_eq!(n.ub, i as isize + 50);
        assert_eq!(n.path, vec![d(0, i as isize)]);
    }
}

#[test]
fn restricted_cutset_is_the_last_exact_layer() {
    let cfg = config_builder(GreedySum, Fifty).with_max_width(FixedWidth(1)).build();
    let mut mdd = AggressivelyBoundedMDD::from(cfg);
    let root = mdd.config().root_node();
    mdd.restricted(&root, 0, 1000).unwrap();
    let cutset = mdd.cutset();
    assert_eq!(cutset.len(), 3);
    for n in cutset.iter() {
        assert_eq!(n.ub, n.lp_len + 50);
    }
}

#[test]
fn exact_leaves_no_cutset() {
    let cfg = config_builder(GreedySum, Fifty).with_max_width(FixedWidth(1)).build();
    let mut mdd = AggressivelyBoundedMDD::from(cfg);
    let root = mdd.config().root_node();
    mdd.exact(&root, 0, 1000).unwrap();
    assert!(mdd.cutset().is_empty());
    assert_eq!(mdd.final_layer().len(), 7);
    assert_eq!(mdd.max_width(), usize::MAX);
}

#[test]
fn width_one_keeps_one_node_per_layer() {
    let cfg = config_builder(GreedySum, Fifty).with_max_width(FixedWidth(1)).build();
    let mut mdd = AggressivelyBoundedMDD::from(cfg);
    let root = mdd.config().root_node();
    mdd.restricted(&root, 0, 1000).unwrap();
    assert_eq!(mdd.max_width(), 1);
    assert_eq!(mdd.final_layer().len(), 1);
    mdd.relaxed(&root, 0, 1000).unwrap();
    assert_eq!(mdd.final_layer().len(), 1);
    assert!(mdd.final_layer()[0].relaxed);
    assert_eq!(mdd.final_layer()[0].state, 100);
}

#[test]
fn width_zero_is_taken_as_one() {
    let cfg = config_builder(GreedySum, Fifty).with_max_width(FixedWidth(0)).build();
    let mut mdd = AggressivelyBoundedMDD::from(cfg);
    let root = mdd.config().root_node();
    mdd.relaxed(&root, 0, 1000).unwrap();
    assert_eq!(mdd.max_width(), 1);
    assert_eq!(mdd.best_value(), 102);
}

#[test]
fn one_variable_with_an_empty_domain_has_no_solution() {
    let cfg = config_builder(EmptySingle, Fifty).build();
    let mut mdd = AggressivelyBoundedMDD::from(cfg);
    let root = mdd.config().root_node();
    let c = mdd.exact(&root, isize::MIN, isize::MAX).unwrap();
    assert_eq!(c.best_value, None);
    assert!(mdd.best_solution().is_none());
}

#[test]
fn zero_costs_give_the_initial_value() {
    let cfg = config_builder(FreeMoves, Fifty).build();
    let mut mdd = AggressivelyBoundedMDD::from(cfg);
    let root = mdd.config().root_node();
    let c = mdd.exact(&root, isize::MIN, isize::MAX).unwrap();
    assert_eq!(c.best_value, Some(7));
    let c = mdd.restricted(&root, isize::MIN, isize::MAX).unwrap();
    assert_eq!(c.best_value, Some(7));
}

#[test]
fn no_free_variable_keeps_the_root() {
    let cfg = config_builder(GreedySum, Fifty).build();
    let mut mdd = AggressivelyBoundedMDD::from(cfg);
    let root = FrontierNode { state: 3, lp_len: 3, ub: 3, path: vec![d(0, 1), d(1, 1), d(2, 1)] };
    let c = mdd.exact(&root, 100, 100).unwrap();
    assert_eq!(c.best_value, Some(3));
    assert_eq!(mdd.best_solution().unwrap().decisions(), vec![d(2, 1), d(1, 1), d(0, 1)]);
}

#[test]
fn cutoff_sees_the_lower_bound() {
    let cfg = config_builder(GreedySum, Fifty).with_cutoff(StopAbove5).build();
    let mut mdd = AggressivelyBoundedMDD::from(cfg);
    let root = mdd.config().root_node();
    assert!(mdd.exact(&root, 0, 1000).is_ok());
    assert!(mdd.exact(&root, 6, 1000).is_err());
}

#[test]
fn compiling_twice_gives_the_same_outcome() {
    let cfg = config_builder(GreedySum, Fifty).with_max_width(FixedWidth(2)).build();
    let mut mdd = AggressivelyBoundedMDD::from(cfg);
    let root = mdd.config().root_node();
    let a = mdd.exact(&root, 0, 1000).unwrap();
    let sa = mdd.best_solution().unwrap().decisions();
    let b = mdd.exact(&root, 0, 1000).unwrap();
    let sb = mdd.best_solution().unwrap().decisions();
    assert_eq!(a, b);
    assert_eq!(sa, sb);
}

#[test]
fn a_reused_compiler_matches_a_fresh_one() {
    let cfg = config_builder(GreedySum, Fifty).with_max_width(FixedWidth(2)).build();
    let mut used = AggressivelyBoundedMDD::from(cfg);
    let root = used.config().root_node();
    used.relaxed(&root, 0, 1000).unwrap();
    used.exact(&root, 0, 1000).unwrap();
    let reused = used.restricted(&root, 0, 1000).unwrap();

    let cfg = config_builder(GreedySum, Fifty).with_max_width(FixedWidth(2)).build();
    let mut fresh = AggressivelyBoundedMDD::from(cfg);
    let once = fresh.restricted(&root, 0, 1000).unwrap();
    assert_eq!(reused, once);

    used.clear();
    assert_eq!(used.best_value(), isize::MIN);
    assert!(used.best_solution().is_none());
    assert!(used.cutset().is_empty());
}

#[test]
fn frontier_drops_dominated_nodes() {
    let mut f = NoDupFrontier::new();
    f.set_best_lb(10);
    f.push(fnode(1, 2, 10));
    assert!(f.is_empty());
    f.push(fnode(1, 2, 11));
    f.push(fnode(2, 2, 20));
    assert_eq!(f.len(), 2);
    f.set_best_lb(15);
    assert_eq!(f.len(), 1);
    assert_eq!(f.best_lb(), 15);
    assert_eq!(f.pop().unwrap().state, 2);
    assert!(f.pop().is_none());
}

#[test]
fn frontier_merges_nodes_of_the_same_state() {
    let mut f = NoDupFrontier::new();
    f.push(fnode(4, 3, 20));
    f.push(fnode(4, 5, 15));
    assert_eq!(f.len(), 1);
    let n = f.pop().unwrap();
    assert_eq!(n.state, 4);
    assert_eq!(n.lp_len, 5);
    assert_eq!(n.ub, 20);
    assert_eq!(n.path, vec![d(0, 5)]);
    assert!(f.pop().is_none());
}

#[test]
fn frontier_pops_the_largest_bound_first() {
    let mut f = NoDupFrontier::new();
    f.push(fnode(1, 1, 5));
    f.push(fnode(2, 1, 9));
    f.push(fnode(3, 4, 9));
    f.push(fnode(4, 1, 7));
    let order: Vec<usize> = std::iter::from_fn(|| f.pop()).map(|n| n.state).collect();
    assert_eq!(order, vec![3, 2, 4, 1]);
}

#[test]
fn frontier_clear_empties_it() {
    let mut f = NoDupFrontier::new();
    f.push(fnode(1, 1, 5));
    f.clear();
    assert_eq!(f.len(), 0);
    assert!(f.pop().is_none());
}

fn solve(width: usize) -> (isize, Vec<Decision>) {
    let cfg = config_builder(GreedySum, Fifty).with_max_width(FixedWidth(width)).build();
    let mut mdd = AggressivelyBoundedMDD::from(cfg);
    let mut frontier = NoDupFrontier::new();
    let mut best = Incumbent::new();
    frontier.push(mdd.config().root_node());
    while let Some(node) = frontier.pop() {
        explore(&mut mdd, &mut frontier, &mut best, &node).unwrap();
    }
    (best.best_lb, best.solution.unwrap().decisions())
}

#[test]
fn search_finds_the_optimum() {
    let (v, sol) = solve(1);
    assert_eq!(v, 6);
    assert_eq!(sol, vec![d(2, 2), d(1, 2), d(0, 2)]);
}

#[test]
fn searching_twice_gives_the_same_value() {
    assert_eq!(solve(1), solve(1));
    assert_eq!(solve(2).0, solve(1).0);
}

#[test]
fn explore_drops_a_dominated_subproblem() {
    let cfg = config_builder(GreedySum, Fifty).build();
    let mut mdd = AggressivelyBoundedMDD::from(cfg);
    let mut frontier = NoDupFrontier::new();
    frontier.set_best_lb(10);
    let mut best = Incumbent { best_lb: 10, solution: None };
    let node = FrontierNode { state: 0, lp_len: 0, ub: 10, path: vec![] };
    assert!(explore(&mut mdd, &mut frontier, &mut best, &node).is_ok());
    assert_eq!(best.best_lb, 10);
    assert!(best.solution.is_none());
    assert!(frontier.is_empty());
}

#[test]
fn explore_improves_the_incumbent_and_reopens_the_cutset() {
    let cfg = config_builder(GreedySum, Fifty).with_max_width(FixedWidth(1)).build();
    let mut mdd = AggressivelyBoundedMDD::from(cfg);
    let mut frontier = NoDupFrontier::new();
    let mut best = Incumbent::new();
    let root = mdd.config().root_node();
    assert!(explore(&mut mdd, &mut frontier, &mut best, &root).is_ok());
    // the restricted diagram of width one finds 2
    assert_eq!(best.best_lb, 2);
    assert_eq!(frontier.best_lb(), 2);
    // the first layer is reopened, each node bounded by its value plus 50
    assert_eq!(frontier.len(), 3);
    let n = frontier.pop().unwrap();
    assert_eq!((n.state, n.ub), (2, 52));
}

#[test]
fn explore_reports_a_cutoff() {
    let cfg = config_builder(GreedySum, Fifty).with_cutoff(StopAbove5).build();
    let mut mdd = AggressivelyBoundedMDD::from(cfg);
    let mut frontier = NoDupFrontier::new();
    frontier.set_best_lb(6);
    let mut best = Incumbent { best_lb: 6, solution: None };
    let root = mdd.config().root_node();
    assert_eq!(explore(&mut mdd, &mut frontier, &mut best, &root), Err(Reason::CutoffOccurred));
}

/// Two variables, each decision gains more than half of `isize::MAX`.
#[derive(Copy, Clone)]
struct Huge;

impl Problem for Huge {
    fn nb_vars(&self) -> usize {
        2
    }
    fn initial_state(&self) -> usize {
        0
    }
    fn initial_value(&self) -> isize {
        0
    }
    fn domain_of(&self, _: &usize, _: Variable) -> Vec<isize> {
        vec![1]
    }
    fn transition(&self, state: &usize, _: &VarSet, _: Decision) -> usize {
        *state + 1
    }
    fn transition_cost(&self, _: &usize, _: &VarSet, _: Decision) -> isize {
        isize::MAX / 2 + 1
    }
}

#[derive(Copy, Clone)]
struct Zero;

impl Relaxation for Zero {
    fn estimate(&self, _: &usize) -> isize {
        0
    }
    fn default_relaxed_state(&self) -> usize {
        100
    }
}

#[test]
fn exact_leaves_out_values_that_overflow() {
    let cfg = config_builder(Huge, Zero).build();
    let mut mdd = AggressivelyBoundedMDD::from(cfg);
    let root = mdd.config().root_node();
    let c = mdd.exact(&root, isize::MIN, isize::MAX).unwrap();
    assert_eq!(c.best_value, None);
    assert!(!c.is_exact);
}

#[test]
fn relaxed_saturates_values_that_overflow() {
    let cfg = config_builder(Huge, Zero).build();
    let mut mdd = AggressivelyBoundedMDD::from(cfg);
    let root = mdd.config().root_node();
    let c = mdd.relaxed(&root, isize::MIN, isize::MAX).unwrap();
    assert_eq!(c.best_value, Some(isize::MAX));
    assert!(!c.is_exact);
    assert!(mdd.final_layer()[0].relaxed);
}

#[test]
fn next_subproblem_skips_dominated_entries() {
    let mut f = NoDupFrontier::new();
    f.push(fnode(1, 1, 30));
    f.push(fnode(2, 1, 20));
    f.push(fnode(3, 1, 10));
    let n = next_subproblem(&mut f, 25).unwrap();
    assert_eq!(n.state, 1);
    assert!(next_subproblem(&mut f, 25).is_none());
    assert_eq!(f.len(), 0);
}

#[test]
fn merge_results_adopts_a_better_incumbent_and_pushes_local_nodes() {
    let mut shared = NoDupFrontier::new();
    shared.push(fnode(1, 1, 8));
    let mut best = Incumbent::new();
    let mut local = NoDupFrontier::new();
    local.push(fnode(2, 3, 12));
    local.push(fnode(3, 3, 6));
    let found = Incumbent { best_lb: 7, solution: Some(Solution::new(&vec![d(0, 7)])) };
    merge_results(&mut shared, &mut best, &mut local, found);
    assert_eq!(best.best_lb, 7);
    assert_eq!(shared.best_lb(), 7);
    assert!(local.is_empty());
    let mut states: Vec<usize> = std::iter::from_fn(|| shared.pop()).map(|n| n.state).collect();
    states.sort();
    assert_eq!(states, vec![1, 2]);
}

#[test]
fn merge_results_keeps_a_better_shared_incumbent() {
    let mut shared = NoDupFrontier::new();
    shared.set_best_lb(9);
    let mut best = Incumbent { best_lb: 9, solution: Some(Solution::new(&vec![d(0, 9)])) };
    let mut local = NoDupFrontier::new();
    let found = Incumbent { best_lb: 4, solution: Some(Solution::new(&vec![d(0, 4)])) };
    merge_results(&mut shared, &mut best, &mut local, found);
    assert_eq!(best.best_lb, 9);
    assert_eq!(best.solution.unwrap().decisions(), vec![d(0, 9)]);
}
