use ddo::common::{Decision, FrontierNode, Reason, VarSet, Variable};
use ddo::config::config_builder;
use ddo::heuristics::{Cutoff, FixedWidth};
use ddo::mdd::{AggressivelyBoundedMDD, MDDType};
use ddo::oracles::{Problem, Relaxation};

#[derive(Copy, Clone)]
struct DummyProblem;

impl Problem for DummyProblem {
    fn nb_vars(&self) -> usize {
        3
    }
    fn initial_state(&self) -> usize {
        0
    }
    fn initial_value(&self) -> isize {
        0
    }
    fn domain_of(&self, _: &usize, _: Variable) -> Vec<isize> {
        (0..=2).collect()
    }
    fn transition(&self, state: &usize, _: &VarSet, d: Decision) -> usize {
        *state + d.value as usize
    }
    fn transition_cost(&self, _: &usize, _: &VarSet, d: Decision) -> isize {
        d.value
    }
}

#[derive(Copy, Clone)]
struct DummyRelax;

impl Relaxation for DummyRelax {
    fn estimate(&self, _state: &usize) -> isize {
        50
    }
    fn default_relaxed_state(&self) -> usize {
        100
    }
}

#[derive(Clone, Copy)]
struct DummyInfeasibleProblem;

impl Problem for DummyInfeasibleProblem {
    fn nb_vars(&self) -> usize {
        3
    }
    fn initial_state(&self) -> usize {
        0
    }
    fn initial_value(&self) -> isize {
        0
    }
    fn domain_of(&self, _: &usize, _: Variable) -> Vec<isize> {
        Vec::new()
    }
    fn transition(&self, state: &usize, _: &VarSet, d: Decision) -> usize {
        *state + d.value as usize
    }
    fn transition_cost(&self, _: &usize, _: &VarSet, d: Decision) -> isize {
        d.value
    }
}

struct AlwaysStop;

impl Cutoff for AlwaysStop {
    fn must_stop(&self, _: isize, _: isize) -> bool {
        true
    }
}

#[test]
fn by_default_the_mdd_type_is_exact() {
    let config = config_builder(DummyProblem, DummyRelax).build();
    let mdd = AggressivelyBoundedMDD::new(config);

    assert_eq!(MDDType::Exact, mdd.mdd_type());
}

#[test]
fn mdd_type_changes_depending_on_the_requested_type_of_mdd() {
    let root_n = FrontierNode { state: 0, lp_len: 0, ub: 24, path: vec![] };

    let config = config_builder(DummyProblem, DummyRelax).build();
    let mut mdd = AggressivelyBoundedMDD::new(config);

    assert!(mdd.restricted(&root_n, 0, 1000).is_ok());
    assert_eq!(MDDType::Restricted, mdd.mdd_type());

    assert!(mdd.exact(&root_n, 0, 1000).is_ok());
    assert_eq!(MDDType::Exact, mdd.mdd_type());
}

#[test]
fn exact_no_cutoff_completion_must_be_coherent_with_outcome() {
    let cfg = config_builder(DummyProblem, DummyRelax).with_max_width(FixedWidth(1)).build();
    let mut mdd = AggressivelyBoundedMDD::from(cfg);

    let root = mdd.config().root_node();
    let result = mdd.exact(&root, 0, 1000);
    assert!(result.is_ok());
    let completion = result.unwrap();
    assert_eq!(completion.is_exact, mdd.is_exact());
    assert_eq!(completion.best_value, Some(mdd.best_value()));
}

#[test]
fn restricted_no_cutoff_completion_must_be_coherent_with_outcome_() {
    let cfg = config_builder(DummyProblem, DummyRelax).with_max_width(FixedWidth(1)).build();
    let mut mdd = AggressivelyBoundedMDD::from(cfg);

    let root = mdd.config().root_node();
    let result = mdd.restricted(&root, 0, 1000);
    assert!(result.is_ok());
    let completion = result.unwrap();
    assert_eq!(completion.is_exact, mdd.is_exact());
    assert_eq!(completion.best_value, Some(mdd.best_value()));
}

#[test]
fn relaxed_no_cutoff_completion_must_be_coherent_with_outcome() {
    let cfg = config_builder(DummyProblem, DummyRelax).with_max_width(FixedWidth(1)).build();
    let mut mdd = AggressivelyBoundedMDD::from(cfg);

    let root = mdd.config().root_node();
    let result = mdd.relaxed(&root, 0, 10000);
    assert!(result.is_ok());
    let completion = result.unwrap();
    assert_eq!(completion.is_exact, mdd.is_exact());
    assert_eq!(completion.best_value, Some(mdd.best_value()));
}

#[test]
fn exact_fails_with_cutoff_when_cutoff_occurs() {
    let cfg = config_builder(DummyProblem, DummyRelax)
        .with_max_width(FixedWidth(1))
        .with_cutoff(AlwaysStop)
        .build();
    let mut mdd = AggressivelyBoundedMDD::from(cfg);

    let root = mdd.config().root_node();
    let result = mdd.exact(&root, 0, 1000);
    assert!(result.is_err());
    assert_eq!(Some(Reason::CutoffOccurred), result.err());
}

#[test]
fn restricted_fails_with_cutoff_when_cutoff_occurs() {
    let cfg = config_builder(DummyProblem, DummyRelax)
        .with_max_width(FixedWidth(1))
        .with_cutoff(AlwaysStop)
        .build();
    let mut mdd = AggressivelyBoundedMDD::from(cfg);

    let root = mdd.config().root_node();
    let result = mdd.restricted(&root, 0, 1000);
    assert!(result.is_err());
    assert_eq!(Some(Reason::CutoffOccurred), result.err());
}

#[test]
fn relaxed_fails_with_cutoff_when_cutoff_occurs() {
    let cfg = config_builder(DummyProblem, DummyRelax)
        .with_max_width(FixedWidth(1))
        .with_cutoff(AlwaysStop)
        .build();
    let mut mdd = AggressivelyBoundedMDD::from(cfg);

    let root = mdd.config().root_node();
    let result = mdd.relaxed(&root, 0, 100000);
    assert!(result.is_err());
    assert_eq!(Some(Reason::CutoffOccurred), result.err());
}

// In an exact setup, the dummy problem has 7 states at the bottom level
#[test]
fn exact_completely_unrolls_the_mdd_no_matter_its_width() {
    let cfg = config_builder(DummyProblem, DummyRelax).with_max_width(FixedWidth(1)).build();
    let mut mdd = AggressivelyBoundedMDD::from(cfg);

    let root = mdd.config().root_node();

    assert!(mdd.exact(&root, 0, 1000).is_ok());
    assert!(mdd.best_solution().is_some());
    assert_eq!(mdd.best_value(), 6);
    assert_eq!(
        mdd.best_solution().unwrap().iter().collect::<Vec<Decision>>(),
        vec![
            Decision { variable: Variable(2), value: 2 },
            Decision { variable: Variable(1), value: 2 },
            Decision { variable: Variable(0), value: 2 },
        ]
    );
}

#[test]
fn restricted_drops_the_less_interesting_nodes() {
    let cfg = config_builder(DummyProblem, DummyRelax).with_max_width(FixedWidth(1)).build();
    let mut mdd = AggressivelyBoundedMDD::from(cfg);

    let root = mdd.config().root_node();

    assert!(mdd.restricted(&root, 0, 1000).is_ok());
    assert!(mdd.best_solution().is_some());
    assert_eq!(mdd.best_value(), 2);
    assert_eq!(
        mdd.best_solution().unwrap().iter().collect::<Vec<Decision>>(),
        vec![
            Decision { variable: Variable(2), value: 0 },
            Decision { variable: Variable(1), value: 0 },
            Decision { variable: Variable(0), value: 2 },
        ]
    );
}

#[test]
fn relaxed_populates_the_cutset_and_will_not_squash_first_layer() {
    let cfg = config_builder(DummyProblem, DummyRelax).with_max_width(FixedWidth(1)).build();
    let mut mdd = AggressivelyBoundedMDD::from(cfg);

    let root = mdd.config().root_node();
    assert!(mdd.relaxed(&root, 0, 100000).is_ok());

    let cutset = mdd.cutset();
    assert_eq!(cutset.len(), 3); // L1 was not squashed even though it was 3 wide
}

#[test]
fn an_exact_mdd_must_be_exact() {
    let cfg = config_builder(DummyProblem, DummyRelax).with_max_width(FixedWidth(1)).build();
    let mut mdd = AggressivelyBoundedMDD::from(cfg);

    let root = mdd.config().root_node();

    assert!(mdd.exact(&root, 0, 1000).is_ok());
    assert_eq!(true, mdd.is_exact())
}

#[test]
fn a_relaxed_mdd_is_exact_as_long_as_no_merge_occurs() {
    let cfg = config_builder(DummyProblem, DummyRelax).with_max_width(FixedWidth(10)).build();
    let mut mdd = AggressivelyBoundedMDD::from(cfg);
    let root = mdd.config().root_node();

    assert!(mdd.relaxed(&root, 0, 1000).is_ok());
    assert_eq!(true, mdd.is_exact())
}

#[test]
fn a_relaxed_mdd_is_not_exact_when_a_merge_occurred() {
    let cfg = config_builder(DummyProblem, DummyRelax).with_max_width(FixedWidth(1)).build();
    let mut mdd = AggressivelyBoundedMDD::from(cfg);
    let root = mdd.config().root_node();

    assert!(mdd.relaxed(&root, 0, 1000).is_ok());
    assert_eq!(false, mdd.is_exact())
}

#[test]
fn a_restricted_mdd_is_exact_as_long_as_no_restriction_occurs() {
    let cfg = config_builder(DummyProblem, DummyRelax).with_max_width(FixedWidth(10)).build();
    let mut mdd = AggressivelyBoundedMDD::from(cfg);
    let root = mdd.config().root_node();
    assert!(mdd.restricted(&root, 0, 1000).is_ok());
    assert_eq!(true, mdd.is_exact())
}

#[test]
fn a_restricted_mdd_is_not_exact_when_a_restriction_occurred() {
    let cfg = config_builder(DummyProblem, DummyRelax).with_max_width(FixedWidth(1)).build();
    let mut mdd = AggressivelyBoundedMDD::from(cfg);

    let root = mdd.config().root_node();

    assert!(mdd.restricted(&root, 0, 1000).is_ok());
    assert_eq!(false, mdd.is_exact())
}

#[test]
fn when_the_problem_is_infeasible_there_is_no_solution() {
    let cfg = config_builder(DummyInfeasibleProblem, DummyRelax).build();
    let mut mdd = AggressivelyBoundedMDD::from(cfg);
    let root = mdd.config().root_node();

    assert!(mdd.exact(&root, 0, 1000).is_ok());
    assert!(mdd.best_solution().is_none())
}

#[test]
fn when_the_problem_is_infeasible_the_best_value_is_min_infinity() {
    let cfg = config_builder(DummyInfeasibleProblem, DummyRelax).build();
    let mut mdd = AggressivelyBoundedMDD::from(cfg);
    let root = mdd.config().root_node();

    assert!(mdd.exact(&root, 0, 1000).is_ok());
    assert_eq!(isize::min_value(), mdd.best_value())
}

#[test]
fn exact_skips_node_with_an_ub_less_than_best_known_lb() {
    let cfg = config_builder(DummyProblem, DummyRelax).build();
    let mut mdd = AggressivelyBoundedMDD::from(cfg);
    let root = mdd.config().root_node();

    assert!(mdd.exact(&root, 100, 1000).is_ok());
    assert!(mdd.best_solution().is_none())
}

#[test]
fn relaxed_skips_node_with_an_ub_less_than_best_known_lb() {
    let cfg = config_builder(DummyProblem, DummyRelax).build();
    let mut mdd = AggressivelyBoundedMDD::from(cfg);
    let root = mdd.config().root_node();

    assert!(mdd.relaxed(&root, 100, 1000).is_ok());
    assert!(mdd.best_solution().is_none())
}

#[test]
fn restricted_skips_node_with_an_ub_less_than_best_known_lb() {
    let cfg = config_builder(DummyProblem, DummyRelax).build();
    let mut mdd = AggressivelyBoundedMDD::from(cfg);

    let root = mdd.config().root_node();

    assert!(mdd.restricted(&root, 100, 1000).is_ok());
    assert!(mdd.best_solution().is_none())
}
