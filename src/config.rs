//! The configuration of a compiler and the root of a problem.

use vstd::prelude::*;
use crate::common::{Decision, FrontierNode, VarSet, Variable};
use crate::heuristics::{Cutoff, NaturalOrder, NbUnassignedWidth, NoCutoff, VariableHeuristic, WidthHeuristic};
use crate::oracles::{Problem, Relaxation};

verus! {

/// Everything a compiler needs besides its own buffers: the problem, its
/// relaxation and the heuristics that steer a compilation.
#[derive(Clone)]
pub struct Config<P, R, W, V, C> {
    pub problem: P,
    pub relaxation: R,
    pub width: W,
    pub var_heu: V,
    pub cutoff: C,
}

/// A configuration for `problem` and `relaxation` with the default
/// heuristics: as wide as there are free variables, variables in their
/// natural order, no cutoff.
pub fn config_builder<P: Problem, R: Relaxation>(problem: P, relaxation: R) -> (r: Config<
    P,
    R,
    NbUnassignedWidth,
    NaturalOrder,
    NoCutoff,
>)
    ensures
        r.problem == problem,
        r.relaxation == relaxation,
{
    Config { problem, relaxation, width: NbUnassignedWidth, var_heu: NaturalOrder::new(), cutoff: NoCutoff }
}

/// The variables of `[0, n)` that no decision of `path` binds.
pub open spec fn free_after(n: nat, path: Seq<Decision>) -> Set<nat> {
    Set::new(|i: nat| i < n && forall|k: int| 0 <= k < path.len() ==> path[k].variable.0 != i)
}

impl<P: Problem, R: Relaxation, W: WidthHeuristic, V: VariableHeuristic, C: Cutoff> Config<P, R, W, V, C> {
    /// This configuration with `width` as its width heuristic.
    pub fn with_max_width<W2: WidthHeuristic>(self, width: W2) -> (r: Config<P, R, W2, V, C>)
        ensures
            r.problem == self.problem,
            r.relaxation == self.relaxation,
            r.width == width,
            r.var_heu == self.var_heu,
            r.cutoff == self.cutoff,
    {
        Config { problem: self.problem, relaxation: self.relaxation, width, var_heu: self.var_heu, cutoff: self.cutoff }
    }

    /// This configuration with `var_heu` as its variable heuristic.
    pub fn with_branch_heuristic<V2: VariableHeuristic>(self, var_heu: V2) -> (r: Config<P, R, W, V2, C>)
        ensures
            r.problem == self.problem,
            r.relaxation == self.relaxation,
            r.width == self.width,
            r.var_heu == var_heu,
            r.cutoff == self.cutoff,
    {
        Config { problem: self.problem, relaxation: self.relaxation, width: self.width, var_heu, cutoff: self.cutoff }
    }

    /// This configuration with `cutoff` as its cutoff.
    pub fn with_cutoff<C2: Cutoff>(self, cutoff: C2) -> (r: Config<P, R, W, V, C2>)
        ensures
            r.problem == self.problem,
            r.relaxation == self.relaxation,
            r.width == self.width,
            r.var_heu == self.var_heu,
            r.cutoff == cutoff,
    {
        Config { problem: self.problem, relaxation: self.relaxation, width: self.width, var_heu: self.var_heu, cutoff }
    }

    /// The finished configuration.
    pub fn build(self) -> (r: Self)
        ensures
            r == self,
    {
        self
    }

    /// The subproblem of the whole problem: its initial state and value, no
    /// decision taken and no known bound.
    pub fn root_node(&self) -> (r: FrontierNode)
        ensures
            r.state == self.problem.spec_initial_state(),
            r.lp_len == self.problem.spec_initial_value(),
            r.ub == isize::MAX,
            r.path@ == Seq::<Decision>::empty(),
    {
        FrontierNode {
            state: self.problem.initial_state(),
            lp_len: self.problem.initial_value(),
            ub: isize::MAX,
            path: Vec::new(),
        }
    }

    /// The free variables of the subproblem `root`: those its path leaves
    /// unbound.
    pub fn load_variables(&self, root: &FrontierNode) -> (r: VarSet)
        ensures
            r@ == free_after(self.problem.spec_nb_vars(), root.path@),
    {
        let n = self.problem.nb_vars();
        let mut vars = VarSet::all(n);
        let mut k: usize = 0;
        while k < root.path.len()
            invariant
                k <= root.path@.len(),
                n == self.problem.spec_nb_vars(),
                vars@ == Set::new(|i: nat| i < n && forall|m: int| 0 <= m < k ==> root.path@[m].variable.0 != i),
            decreases root.path@.len() - k,
        {
            let v: Variable = root.path[k].variable;
            vars.remove(v);
            assert(vars@ =~= Set::new(|i: nat| i < n && forall|m: int| 0 <= m < k + 1 ==> root.path@[m].variable.0 != i));
            k = k + 1;
        }
        assert(vars@ =~= free_after(self.problem.spec_nb_vars(), root.path@));
        vars
    }
}

} // verus!
