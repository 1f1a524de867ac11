//! Decision diagrams whose width is bounded aggressively: once a layer is
//! full, the compiler stops generating children instead of building the
//! whole layer and then dropping or merging the overdue nodes.

use vstd::prelude::*;
use crate::common::{Completion, Decision, FrontierNode, Reason, Solution, VarSet, Variable};
use crate::config::{free_after, Config};
use crate::heuristics::{Cutoff, VariableHeuristic, WidthHeuristic};
use crate::layer::{clamp, Layer, Node};
use crate::oracles::{admissible, below, completes, follows, lemma_run_concat, lemma_run_first, lemma_run_free, lemma_run_subset, order_set, run, Problem, Relaxation};

verus! {

/// The kind of diagram a compilation unrolls.
#[derive(Clone, Copy, Debug, PartialEq, Eq, Structural)]
pub enum MDDType {
    /// No width bound: the diagram yields the optimum of the subproblem.
    Exact,
    /// Nodes beyond the width are never generated: a lower bound.
    Restricted,
    /// Nodes beyond the width are absorbed by one relaxed node: an upper
    /// bound, and a cutset to branch on.
    Relaxed,
}

/// What holds of a node `n` of a layer whose free variables are `free`,
/// in a diagram rooted at state `rs` with value `lp` and free variables
/// `free0`: its estimate is the relaxation's, and unless it is relaxed its
/// path leads from the root to its state and gains its value.
pub open spec fn node_ok<P: Problem, R: Relaxation>(
    pb: &P,
    rlx: &R,
    rs: usize,
    lp: int,
    free0: Set<nat>,
    free: Set<nat>,
    n: Node,
) -> bool {
    &&& n.estimate == rlx.spec_estimate(n.state)
    &&& !n.relaxed ==> run(pb, rs, free0, n.path@) == Some((n.state, free, n.value - lp))
}

/// What holds of the layer `first` developed for the first variable, whose
/// remaining free variables are `free1`: its nodes beat `lb`, carry the
/// relaxation's estimate and have distinct states, and when no path value
/// overflows they are not relaxed and are reached by their paths.
pub open spec fn first_ok<P: Problem, R: Relaxation>(
    pb: &P,
    rlx: &R,
    rs: usize,
    free0: Set<nat>,
    free1: Set<nat>,
    lp: int,
    lb: int,
    first: Seq<Node>,
) -> bool {
    &&& forall|i: int| 0 <= i < first.len() ==> #[trigger] first[i].spec_ub() > lb && first[i].estimate == rlx.spec_estimate(
        first[i].state,
    )
    &&& forall|i: int, j: int| 0 <= i < first.len() && 0 <= j < first.len() && i != j ==> #[trigger] first[i].state
        != #[trigger] first[j].state
    &&& fits(pb, rs, free0, lp) ==> forall|i: int| 0 <= i < first.len() ==> !#[trigger] first[i].relaxed && run(
        pb,
        rs,
        free0,
        first[i].path@,
    ) == Some((first[i].state, free1, first[i].value - lp))
}

/// `new` is `old` after adding a node of state `state`, value `value`,
/// relaxed flag `relaxed` and path `path`, whose state has estimate `est`,
/// with `lb` the best known lower bound: a node of that state already
/// present takes the larger value (with its path), keeps its estimate and
/// becomes relaxed if either was, all else unchanged; otherwise the node is
/// appended when its bound beats `lb`, and dropped when it does not.
pub open spec fn added(
    old: Seq<Node>,
    new: Seq<Node>,
    state: usize,
    value: isize,
    relaxed: bool,
    path: Seq<Decision>,
    est: int,
    lb: int,
) -> bool {
    if exists|i: int| 0 <= i < old.len() && old[i].state == state {
        forall|i: int| 0 <= i < old.len() && #[trigger] old[i].state == state ==> {
            &&& new.len() == old.len()
            &&& forall|j: int| 0 <= j < old.len() && j != i ==> new[j] == old[j]
            &&& new[i].state == state
            &&& new[i].value == if value > old[i].value { value } else { old[i].value }
            &&& new[i].estimate == old[i].estimate
            &&& new[i].relaxed == (old[i].relaxed || relaxed)
            &&& new[i].path@ == if value > old[i].value { path } else { old[i].path@ }
        }
    } else if clamp(value + est) > lb {
        &&& new.len() == old.len() + 1
        &&& forall|j: int| 0 <= j < old.len() ==> new[j] == old[j]
        &&& new[old.len() as int].state == state
        &&& new[old.len() as int].value == value
        &&& new[old.len() as int].estimate == est
        &&& new[old.len() as int].relaxed == relaxed
        &&& new[old.len() as int].path@ == path
    } else {
        new == old
    }
}

/// The path of every node of `layer` that is not relaxed binds the
/// variables of `order`, in that order.
pub open spec fn paths_follow(layer: Seq<Node>, order: Seq<nat>) -> bool {
    forall|i: int| 0 <= i < layer.len() && !#[trigger] layer[i].relaxed ==> follows(layer[i].path@, order)
}

/// Following `path` from `rs` (free variables `free0`) reaches `s` and
/// gains `v`.
pub open spec fn reaches<P: Problem>(pb: &P, rs: usize, free0: Set<nat>, path: Seq<Decision>, s: usize, v: int) -> bool {
    match run(pb, rs, free0, path) {
        Some((t, _, w)) => t == s && w == v,
        None => false,
    }
}

/// The largest of the saturated upper bounds of the nodes `nodes[buffer[k]]`
/// for `k` in `[from, buffer.len())`.
pub open spec fn is_max_ub(r: isize, nodes: Seq<Node>, buffer: Seq<usize>, from: int) -> bool {
    &&& exists|k: int| from <= k < buffer.len() && r == clamp(#[trigger] nodes[buffer[k] as int].spec_ub())
    &&& forall|k: int| from <= k < buffer.len() ==> clamp(#[trigger] nodes[buffer[k] as int].spec_ub()) <= r
}

/// Every complete assignment of the subproblem that starts with `p` gains
/// at most `u`, counting the root value `lp`.
pub open spec fn dominated_by<P: Problem>(pb: &P, rs: usize, free0: Set<nat>, lp: int, u: int, p: Seq<Decision>) -> bool {
    forall|c: Seq<Decision>, v: int| #[trigger] completes(pb, rs, free0, p + c, v) ==> lp + v <= u
}

/// Every complete assignment of the subproblem that starts with `p` gains
/// at most the best known lower bound `lb`.
pub open spec fn dominated<P: Problem>(pb: &P, rs: usize, free0: Set<nat>, lp: int, lb: int, p: Seq<Decision>) -> bool {
    dominated_by(pb, rs, free0, lp, lb, p)
}

/// The nodes `layer` account for the path `p`: a node of the state `p`
/// reaches has at least its value, or `p` is dominated by `lb`, or (when
/// `rel` holds) a node of the relaxed state has at least the value of every
/// complete assignment that starts with `p`.
pub open spec fn accounted<P: Problem, R: Relaxation>(
    pb: &P,
    rlx: &R,
    rel: bool,
    rs: usize,
    free0: Set<nat>,
    lp: int,
    lb: int,
    layer: Seq<Node>,
    p: Seq<Decision>,
) -> bool {
    match run(pb, rs, free0, p) {
        None => true,
        Some((s, _, v)) => (exists|i: int| 0 <= i < layer.len() && #[trigger] layer[i].state == s && layer[i].value >= lp + v)
            || dominated(pb, rs, free0, lp, lb, p)
            || (rel && exists|i: int| 0 <= i < layer.len() && #[trigger] layer[i].state == rlx.spec_default_relaxed_state()
                && dominated_by(pb, rs, free0, lp, layer[i].value as int, p)),
    }
}

/// `layer` accounts for every path that binds the variables of `order`.
pub open spec fn covers<P: Problem, R: Relaxation>(
    pb: &P,
    rlx: &R,
    rel: bool,
    rs: usize,
    free0: Set<nat>,
    lp: int,
    lb: int,
    layer: Seq<Node>,
    order: Seq<nat>,
) -> bool {
    forall|p: Seq<Decision>| #[trigger] follows(p, order) ==> accounted(pb, rlx, rel, rs, free0, lp, lb, layer, p)
}

/// Every path of the subproblem gains a value that, with `lp`, fits in an
/// `isize`.
pub open spec fn fits<P: Problem>(pb: &P, rs: usize, free0: Set<nat>, lp: int) -> bool {
    forall|p: Seq<Decision>| #[trigger] run(pb, rs, free0, p) matches Some((_, _, v)) ==> isize::MIN <= lp + v <= isize::MAX
}

/// The node `n` has the state that `p` reaches before its last decision, and
/// at least the value of that prefix.
pub open spec fn handled_by<P: Problem>(pb: &P, rs: usize, free0: Set<nat>, lp: int, n: Node, p: Seq<Decision>) -> bool {
    match run(pb, rs, free0, p.drop_last()) {
        Some((s, _, v)) => n.state == s && n.value >= lp + v,
        None => false,
    }
}

/// `new` keeps the nodes of `old` at their positions, with their states and
/// at least their values.
pub open spec fn grows(old: Seq<Node>, new: Seq<Node>) -> bool {
    &&& old.len() <= new.len()
    &&& forall|i: int| 0 <= i < old.len() ==> #[trigger] new[i].state == old[i].state && new[i].value >= old[i].value
}

proof fn lemma_grows_trans(a: Seq<Node>, b: Seq<Node>, c: Seq<Node>)
    requires
        grows(a, b),
        grows(b, c),
    ensures
        grows(a, c),
{
    assert forall|i: int| 0 <= i < a.len() implies #[trigger] c[i].state == a[i].state && c[i].value >= a[i].value by {
        assert(b[i].state == a[i].state);
        assert(c[i].state == b[i].state);
    }
}

proof fn lemma_accounted_grows<P: Problem, R: Relaxation>(
    pb: &P,
    rlx: &R,
    rel: bool,
    rs: usize,
    free0: Set<nat>,
    lp: int,
    lb: int,
    old: Seq<Node>,
    new: Seq<Node>,
    p: Seq<Decision>,
)
    requires
        accounted(pb, rlx, rel, rs, free0, lp, lb, old, p),
        grows(old, new),
    ensures
        accounted(pb, rlx, rel, rs, free0, lp, lb, new, p),
{
    if let Some((s, _, v)) = run(pb, rs, free0, p) {
        if exists|i: int| 0 <= i < old.len() && #[trigger] old[i].state == s && old[i].value >= lp + v {
            let i = choose|i: int| 0 <= i < old.len() && #[trigger] old[i].state == s && old[i].value >= lp + v;
            assert(new[i].state == old[i].state);
        } else if !dominated(pb, rs, free0, lp, lb, p) {
            let dflt = rlx.spec_default_relaxed_state();
            let i = choose|i: int| 0 <= i < old.len() && #[trigger] old[i].state == dflt
                && dominated_by(pb, rs, free0, lp, old[i].value as int, p);
            assert(new[i].state == old[i].state);
            lemma_dominated_by_weaken(pb, rs, free0, lp, old[i].value as int, new[i].value as int, p);
        }
    }
}

/// A larger bound dominates what a smaller one does.
proof fn lemma_dominated_by_weaken<P: Problem>(pb: &P, rs: usize, free0: Set<nat>, lp: int, u: int, w: int, p: Seq<Decision>)
    requires
        dominated_by(pb, rs, free0, lp, u, p),
        u <= w,
    ensures
        dominated_by(pb, rs, free0, lp, w, p),
{
}

/// A path that extends a dominated one is dominated.
proof fn lemma_dominated_extends<P: Problem>(pb: &P, rs: usize, free0: Set<nat>, lp: int, u: int, q: Seq<Decision>, d: Decision)
    requires
        dominated_by(pb, rs, free0, lp, u, q),
    ensures
        dominated_by(pb, rs, free0, lp, u, q.push(d)),
{
    assert forall|c: Seq<Decision>, v: int| #[trigger] completes(pb, rs, free0, q.push(d) + c, v) implies lp + v <= u by {
        assert(q.push(d) + c =~= q + (seq![d] + c));
        assert(completes(pb, rs, free0, q + (seq![d] + c), v));
    }
}

/// A node of state `z` with at least the value `u` is in `layer`, or one
/// was dropped because its bound (with estimate `ez`) did not beat `lb`.
pub open spec fn kept(layer: Seq<Node>, z: usize, ez: int, lb: int, u: int) -> bool {
    (exists|i: int| 0 <= i < layer.len() && #[trigger] layer[i].state == z && layer[i].value >= u) || clamp(u + ez) <= lb
}

/// From the relaxed state, every free variable can take a value that costs
/// nothing and leads back to the relaxed state, whose estimate is not
/// negative.
pub open spec fn absorbing<P: Problem, R: Relaxation>(pb: &P, rlx: &R) -> bool {
    let z = rlx.spec_default_relaxed_state();
    &&& rlx.spec_estimate(z) >= 0
    &&& forall|free: Set<nat>, x: nat|
        #[trigger] free.contains(x) ==> exists|a: isize| #[trigger] pb.spec_domain(z, x).contains(a)
            && pb.spec_transition(z, free.remove(x), Decision { variable: Variable(x as usize), value: a }) == z
            && pb.spec_cost(z, free.remove(x), Decision { variable: Variable(x as usize), value: a }) == 0
}

proof fn lemma_kept_grows(old: Seq<Node>, new: Seq<Node>, z: usize, ez: int, lb: int, u: int)
    requires
        kept(old, z, ez, lb, u),
        grows(old, new),
    ensures
        kept(new, z, ez, lb, u),
{
    if exists|i: int| 0 <= i < old.len() && #[trigger] old[i].state == z && old[i].value >= u {
        let i = choose|i: int| 0 <= i < old.len() && #[trigger] old[i].state == z && old[i].value >= u;
        assert(new[i].state == old[i].state);
    }
}

/// No path gains more than what fits in an `isize`.
proof fn lemma_fits_dominated<P: Problem>(pb: &P, rs: usize, free0: Set<nat>, lp: int, p: Seq<Decision>)
    requires
        fits(pb, rs, free0, lp),
    ensures
        dominated_by(pb, rs, free0, lp, isize::MAX as int, p),
{
    assert forall|c: Seq<Decision>, v: int| #[trigger] completes(pb, rs, free0, p + c, v) implies lp + v <= isize::MAX by {
        assert(run(pb, rs, free0, p + c) is Some);
    }
}

/// A path dominated by `u`, where a node of the relaxed state keeps `u`,
/// is accounted for in a relaxed diagram.
proof fn lemma_from_bound<P: Problem, R: Relaxation>(
    pb: &P,
    rlx: &R,
    rs: usize,
    free0: Set<nat>,
    lp: int,
    lb: int,
    layer: Seq<Node>,
    p: Seq<Decision>,
    u: int,
)
    requires
        fits(pb, rs, free0, lp),
        absorbing(pb, rlx),
        dominated_by(pb, rs, free0, lp, u, p),
        kept(layer, rlx.spec_default_relaxed_state(), rlx.spec_estimate(rlx.spec_default_relaxed_state()), lb, u),
    ensures
        accounted(pb, rlx, true, rs, free0, lp, lb, layer, p),
{
    let z = rlx.spec_default_relaxed_state();
    let ez = rlx.spec_estimate(z);
    if run(pb, rs, free0, p) is Some {
        if exists|i: int| 0 <= i < layer.len() && #[trigger] layer[i].state == z && layer[i].value >= u {
            let i = choose|i: int| 0 <= i < layer.len() && #[trigger] layer[i].state == z && layer[i].value >= u;
            lemma_dominated_by_weaken(pb, rs, free0, lp, u, layer[i].value as int, p);
        } else if u + ez <= isize::MAX {
            lemma_dominated_by_weaken(pb, rs, free0, lp, u, lb, p);
        } else {
            lemma_fits_dominated(pb, rs, free0, lp, p);
        }
    }
}

/// The bound of a node that accounts for the prefix of `p` bounds every
/// complete assignment that starts with `p`.
proof fn lemma_node_bound<P: Problem, R: Relaxation>(
    pb: &P,
    rlx: &R,
    rs: usize,
    free0: Set<nat>,
    lp: int,
    n: Node,
    p: Seq<Decision>,
)
    requires
        fits(pb, rs, free0, lp),
        admissible(pb, rlx),
        p.len() > 0,
        handled_by(pb, rs, free0, lp, n, p),
        n.estimate == rlx.spec_estimate(n.state),
        free0.subset_of(below(pb.spec_nb_vars())),
    ensures
        dominated_by(pb, rs, free0, lp, clamp(n.spec_ub()) as int, p),
{
    let q = p.drop_last();
    let (sq, fq, vq) = run(pb, rs, free0, q)->0;
    lemma_run_subset(pb, rs, free0, q);
    assert forall|c: Seq<Decision>, v: int| #[trigger] completes(pb, rs, free0, p + c, v) implies lp + v <= clamp(n.spec_ub()) by {
        let c2 = seq![p.last()] + c;
        assert(p + c =~= q + c2);
        assert(p == q.push(p.last()));
        lemma_run_concat(pb, rs, free0, q, c2);
        let (s2, f2, v2) = run(pb, sq, fq, c2)->0;
        assert(completes(pb, sq, fq, c2, v2));
        assert(v2 <= rlx.spec_estimate(sq));
        assert(run(pb, rs, free0, p + c) is Some);
    }
}

/// The child of `parent` by `d` has at least `value`: every path that
/// `parent` handles and that ends with `d` is accounted for, once the
/// child is kept (or dropped by the lower bound).
proof fn lemma_child_accounted<P: Problem, R: Relaxation>(
    pb: &P,
    rlx: &R,
    rel: bool,
    rs: usize,
    free0: Set<nat>,
    lp: int,
    lb: int,
    ord: Seq<nat>,
    parent: Node,
    d: Decision,
    dest: usize,
    weight: int,
    value: int,
    next: Seq<Node>,
)
    requires
        fits(pb, rs, free0, lp),
        admissible(pb, rlx),
        dest == pb.spec_transition(parent.state, free0.difference(order_set(ord)).remove(d.variable.0 as nat), d),
        weight == pb.spec_cost(parent.state, free0.difference(order_set(ord)).remove(d.variable.0 as nat), d),
        value >= parent.value + weight || value == isize::MAX,
        (exists|i: int| 0 <= i < next.len() && #[trigger] next[i].state == dest && next[i].value >= value)
            || clamp(value + rlx.spec_estimate(dest)) <= lb,
        free0.subset_of(below(pb.spec_nb_vars())),
    ensures
        forall|p: Seq<Decision>|
            #[trigger] follows(p, ord.push(d.variable.0 as nat)) && handled_by(pb, rs, free0, lp, parent, p) && p.last() == d
                ==> accounted(pb, rlx, rel, rs, free0, lp, lb, next, p),
{
    let ordx = ord.push(d.variable.0 as nat);
    assert forall|p: Seq<Decision>|
        #[trigger] follows(p, ordx) && handled_by(pb, rs, free0, lp, parent, p) && p.last() == d
        implies accounted(pb, rlx, rel, rs, free0, lp, lb, next, p) by {
        let q = p.drop_last();
        assert(follows(q, ord)) by {
            assert forall|j: int| 0 <= j < q.len() implies #[trigger] q[j].variable.0 == ord[j] by {
                assert(p[j].variable.0 == ordx[j]);
            }
        }
        lemma_run_free(pb, rs, free0, q, ord);
        lemma_run_subset(pb, rs, free0, p);
        if let Some((sp, fp, vp)) = run(pb, rs, free0, p) {
            assert(sp == dest);
            assert(lp + vp <= value);
            if !(exists|i: int| 0 <= i < next.len() && #[trigger] next[i].state == dest && next[i].value >= value) {
                assert forall|c: Seq<Decision>, v: int| #[trigger] completes(pb, rs, free0, p + c, v) implies lp + v <= lb by {
                    lemma_run_concat(pb, rs, free0, p, c);
                    let (s2, f2, v2) = run(pb, sp, fp, c)->0;
                    assert(completes(pb, sp, fp, c, v2));
                    assert(v2 <= rlx.spec_estimate(sp));
                    assert(run(pb, rs, free0, p + c) is Some);
                }
            } else {
                let i = choose|i: int| 0 <= i < next.len() && #[trigger] next[i].state == dest && next[i].value >= value;
                assert(next[i].state == sp && next[i].value >= lp + vp);
            }
        }
    }
}

/// A compiler of exact, restricted and relaxed decision diagrams whose width
/// is bounded aggressively. It keeps three layers (the current one, the next
/// one and the last exact one) and is reused from one subproblem to the next.
pub struct AggressivelyBoundedMDD<P, R, W, V, C> {
    config: Config<P, R, W, V, C>,
    mddtype: MDDType,
    current: Layer,
    next: Layer,
    lel: Layer,
    prev_is_lel: bool,
    is_exact: bool,
    root_pa: Vec<Decision>,
    best_lb: isize,
    max_width: usize,
    best_node: Option<usize>,
    saturated: bool,
    order: Ghost<Seq<nat>>,
    first: Ghost<Seq<Node>>,
    free1: Ghost<Set<nat>>,
    lel_depth: Ghost<nat>,
    cut_width: Ghost<nat>,
    cut_layer: Ghost<Seq<Node>>,
    prev_layer: Ghost<Seq<Node>>,
}

impl<P: Problem, R: Relaxation, W: WidthHeuristic, V: VariableHeuristic, C: Cutoff> AggressivelyBoundedMDD<
    P,
    R,
    W,
    V,
    C,
> {
    pub closed spec fn spec_config(&self) -> Config<P, R, W, V, C> {
        self.config
    }

    pub closed spec fn spec_type(&self) -> MDDType {
        self.mddtype
    }

    /// The nodes of the last layer.
    pub closed spec fn spec_final_layer(&self) -> Seq<Node> {
        self.next.spec_nodes()
    }

    /// The nodes of the last exact layer.
    pub closed spec fn spec_lel(&self) -> Seq<Node> {
        self.lel.spec_nodes()
    }

    /// No layer was squashed, and no value saturated.
    pub closed spec fn spec_exact_flag(&self) -> bool {
        self.is_exact
    }

    pub closed spec fn spec_root_path(&self) -> Seq<Decision> {
        self.root_pa@
    }

    pub closed spec fn spec_best_lb(&self) -> isize {
        self.best_lb
    }

    pub closed spec fn spec_max_width(&self) -> usize {
        self.max_width
    }

    /// The variables of the last diagram, in the order its layers bind them.
    pub closed spec fn spec_order(&self) -> Seq<nat> {
        self.order@
    }

    /// The layer developed for the first variable of the last diagram.
    pub closed spec fn spec_first(&self) -> Seq<Node> {
        self.first@
    }

    /// The variables left free after the first layer.
    pub closed spec fn spec_free1(&self) -> Set<nat> {
        self.free1@
    }

    /// The depth of the last exact layer (the root is at depth 0).
    pub closed spec fn spec_lel_depth(&self) -> nat {
        self.lel_depth@
    }

    /// The number of nodes of the layer whose development was first cut
    /// short.
    pub closed spec fn spec_cut_width(&self) -> nat {
        self.cut_width@
    }

    /// The layer whose development was first cut short, as it was then.
    pub closed spec fn spec_cut_layer(&self) -> Seq<Node> {
        self.cut_layer@
    }

    /// The layer developed just before the last one.
    pub closed spec fn spec_prev_layer(&self) -> Seq<Node> {
        self.prev_layer@
    }

    /// The position of the best node in the last layer.
    pub closed spec fn spec_best_index(&self) -> Option<usize> {
        self.best_node
    }

    pub closed spec fn wf(&self) -> bool {
        &&& self.current.wf()
        &&& self.next.wf()
        &&& self.lel.wf()
        &&& self.max_width >= 1
        &&& self.best_node matches Some(b) ==> b < self.next.spec_nodes().len()
    }

    /// The state of a compiler that holds no diagram.
    pub closed spec fn spec_fresh(&self) -> bool {
        &&& self.wf()
        &&& self.mddtype == MDDType::Exact
        &&& self.current.spec_nodes().len() == 0
        &&& self.next.spec_nodes().len() == 0
        &&& self.lel.spec_nodes().len() == 0
        &&& !self.prev_is_lel
        &&& self.is_exact
        &&& self.best_node is None
        &&& self.best_lb == isize::MIN
    }

    /// The best node of the last layer, if any.
    pub open spec fn spec_best_node(&self) -> Option<Node> {
        match self.spec_best_index() {
            Some(b) => Some(self.spec_final_layer()[b as int]),
            None => None,
        }
    }

    pub open spec fn spec_best_value(&self) -> Option<isize> {
        match self.spec_best_node() {
            Some(n) => Some(n.value),
            None => None,
        }
    }

    /// The diagram squashed no layer (nor saturated a value), or it is
    /// relaxed and its best node, if any, was reached without a relaxed node.
    pub open spec fn spec_is_exact(&self) -> bool {
        self.spec_exact_flag() || (self.spec_type() == MDDType::Relaxed && match self.spec_best_node() {
            Some(n) => !n.relaxed,
            None => true,
        })
    }

    /// What holds once a diagram of kind `ty` was compiled from `root` with
    /// `best_lb` as the best known lower bound.
    pub open spec fn compiled(&self, root: &FrontierNode, best_lb: isize, ty: MDDType) -> bool {
        let pb = &self.spec_config().problem;
        let rlx = &self.spec_config().relaxation;
        let free0 = free_after(pb.spec_nb_vars(), root.path@);
        let layer = self.spec_final_layer();
        &&& self.spec_type() == ty
        &&& self.spec_root_path() == root.path@
        &&& self.spec_best_lb() == best_lb
        &&& forall|i: int| 0 <= i < layer.len() ==> #[trigger] layer[i].estimate == rlx.spec_estimate(layer[i].state)
        &&& forall|i: int| 0 <= i < layer.len() && !#[trigger] layer[i].relaxed
            ==> run(pb, root.state, free0, layer[i].path@) == Some((layer[i].state, Set::<nat>::empty(), layer[i].value - root.lp_len))
        &&& free0 != Set::<nat>::empty() ==> forall|i: int| 0 <= i < layer.len() ==> #[trigger] layer[i].spec_ub() > best_lb
        &&& ty != MDDType::Relaxed ==> forall|i: int| 0 <= i < layer.len() ==> !#[trigger] layer[i].relaxed
        &&& (ty == MDDType::Exact && fits(pb, root.state, free0, root.lp_len as int)) ==> self.spec_exact_flag()
        &&& (ty != MDDType::Exact && free0.len() >= 2) ==> layer.len() <= self.spec_max_width()
        &&& forall|i: int| 0 <= i < self.spec_lel().len() && !#[trigger] self.spec_lel()[i].relaxed ==> reaches(
            pb,
            root.state,
            free0,
            self.spec_lel()[i].path@,
            self.spec_lel()[i].state,
            self.spec_lel()[i].value - root.lp_len,
        )
        &&& order_set(self.spec_order()) == free0
        &&& forall|k: int| 0 <= k < self.spec_order().len() ==> self.spec_config().var_heu.spec_picks(
            free0.difference(order_set(self.spec_order().subrange(0, k))),
            #[trigger] self.spec_order()[k],
        )
        &&& self.spec_exact_flag() <==> self.spec_lel().len() == 0
        &&& paths_follow(layer, self.spec_order())
        &&& free0 != Set::<nat>::empty() ==> {
            &&& first_ok(pb, rlx, root.state, free0, self.spec_free1(), root.lp_len as int, best_lb as int, self.spec_first())
            &&& self.spec_free1() != free0
            &&& self.spec_first().len() == 0 ==> layer.len() == 0
            &&& (fits(pb, root.state, free0, root.lp_len as int) && admissible(pb, rlx)) ==> covers(
                pb,
                rlx,
                ty == MDDType::Relaxed && absorbing(pb, rlx),
                root.state,
                free0,
                root.lp_len as int,
                best_lb as int,
                self.spec_first(),
                self.spec_order().subrange(0, 1),
            )
        }
        &&& (!self.spec_exact_flag() && fits(pb, root.state, free0, root.lp_len as int)) ==> {
            &&& self.spec_lel_depth() >= 1
            &&& self.spec_lel_depth() == 1 ==> self.spec_lel() == self.spec_first()
            &&& ty == MDDType::Restricted ==> self.spec_cut_width() >= self.spec_max_width()
            &&& ty == MDDType::Relaxed ==> self.spec_cut_width() >= self.spec_max_width() - 1
            &&& ty != MDDType::Exact ==> {
                &&& self.spec_cut_width() == self.spec_cut_layer().len()
                &&& forall|i: int, j: int| 0 <= i < self.spec_cut_layer().len() && 0 <= j < self.spec_cut_layer().len() && i != j
                    ==> #[trigger] self.spec_cut_layer()[i].state != #[trigger] self.spec_cut_layer()[j].state
                &&& forall|i: int| 0 <= i < self.spec_cut_layer().len() ==> !#[trigger] self.spec_cut_layer()[i].relaxed && reaches(
                    pb,
                    root.state,
                    free0,
                    self.spec_cut_layer()[i].path@,
                    self.spec_cut_layer()[i].state,
                    self.spec_cut_layer()[i].value - root.lp_len,
                )
            }
        }
        &&& free0 == Set::<nat>::empty() ==> {
            &&& self.spec_exact_flag()
            &&& layer.len() == 1
            &&& layer[0].state == root.state
            &&& layer[0].value == root.lp_len
            &&& !layer[0].relaxed
            &&& layer[0].path@ == Seq::<Decision>::empty()
        }
        &&& (ty == MDDType::Relaxed && self.spec_max_width() == 1 && free0.len() >= 2 && fits(
            pb,
            root.state,
            free0,
            root.lp_len as int,
        ) && self.spec_first().len() > 0) ==> !self.spec_exact_flag() && self.spec_lel() == self.spec_first()
        &&& (ty == MDDType::Relaxed && self.spec_max_width() == 1 && free0.len() >= 2) ==> {
            &&& layer.len() <= 1
            &&& forall|j: int| 0 <= j < layer.len() ==> {
                &&& #[trigger] layer[j].state == rlx.spec_default_relaxed_state()
                &&& layer[j].relaxed
                &&& layer[j].path@ == Seq::<Decision>::empty()
                &&& (forall|i: int| 0 <= i < self.spec_prev_layer().len() ==> clamp(#[trigger] self.spec_prev_layer()[i].spec_ub())
                    <= layer[j].value)
                &&& exists|i: int| 0 <= i < self.spec_prev_layer().len() && layer[j].value == clamp(
                    #[trigger] self.spec_prev_layer()[i].spec_ub(),
                )
            }
        }
        &&& ((ty == MDDType::Exact || (ty == MDDType::Relaxed && absorbing(pb, rlx)) || self.spec_exact_flag()) && fits(
            pb,
            root.state,
            free0,
            root.lp_len as int,
        ) && admissible(pb, rlx)) ==> covers(
            pb,
            rlx,
            ty == MDDType::Relaxed && absorbing(pb, rlx),
            root.state,
            free0,
            root.lp_len as int,
            best_lb as int,
            layer,
            self.spec_order(),
        )
        &&& match self.spec_best_index() {
            None => layer.len() == 0,
            Some(b) => b < layer.len() && forall|i: int| 0 <= i < layer.len() ==> #[trigger] layer[i].value <= layer[b as int].value,
        }
    }

    /// A compiler parameterised by `config`.
    pub fn new(config: Config<P, R, W, V, C>) -> (r: Self)
        ensures
            r.spec_fresh(),
            r.wf(),
            r.spec_type() == MDDType::Exact,
            r.spec_final_layer().len() == 0,
            r.spec_lel().len() == 0,
            r.spec_exact_flag(),
            r.spec_best_index() is None,
            r.spec_best_lb() == isize::MIN,
            r.spec_config() == config,
            r.spec_max_width() == usize::MAX,
    {
        AggressivelyBoundedMDD {
            config,
            mddtype: MDDType::Exact,
            current: Layer::new(),
            next: Layer::new(),
            lel: Layer::new(),
            prev_is_lel: false,
            is_exact: true,
            root_pa: Vec::new(),
            best_lb: isize::MIN,
            max_width: usize::MAX,
            best_node: None,
            saturated: false,
            order: Ghost(Seq::empty()),
            first: Ghost(Seq::empty()),
            free1: Ghost(Set::empty()),
            lel_depth: Ghost(0),
            cut_width: Ghost(0),
            cut_layer: Ghost(Seq::empty()),
            prev_layer: Ghost(Seq::empty()),
        }
    }

    /// A compiler parameterised by `config`.
    pub fn from(config: Config<P, R, W, V, C>) -> (r: Self)
        ensures
            r.spec_fresh(),
            r.wf(),
            r.spec_type() == MDDType::Exact,
            r.spec_final_layer().len() == 0,
            r.spec_lel().len() == 0,
            r.spec_exact_flag(),
            r.spec_best_index() is None,
            r.spec_best_lb() == isize::MIN,
            r.spec_config() == config,
            r.spec_max_width() == usize::MAX,
    {
        Self::new(config)
    }

    /// Forgets the last diagram, keeping the layers' allocations.
    pub fn clear(&mut self)
        requires
            old(self).wf(),
        ensures
            final(self).spec_fresh(),
            final(self).wf(),
            final(self).spec_type() == MDDType::Exact,
            final(self).spec_final_layer().len() == 0,
            final(self).spec_lel().len() == 0,
            final(self).spec_exact_flag(),
            final(self).spec_best_index() is None,
            final(self).spec_best_lb() == isize::MIN,
            final(self).spec_config() == old(self).spec_config(),
            final(self).spec_max_width() == old(self).spec_max_width(),
    {
        self.mddtype = MDDType::Exact;
        self.prev_is_lel = false;
        self.is_exact = true;
        self.best_node = None;
        self.best_lb = isize::MIN;
        self.current.clear();
        self.next.clear();
        self.lel.clear();
    }

    /// The configuration of this compiler.
    pub fn config(&self) -> (r: &Config<P, R, W, V, C>)
        ensures
            *r == self.spec_config(),
    {
        &self.config
    }

    /// The kind of the last diagram.
    pub fn mdd_type(&self) -> (r: MDDType)
        ensures
            r == self.spec_type(),
    {
        self.mddtype
    }

    /// The nodes of the last layer of the last diagram.
    pub fn final_layer(&self) -> (r: &Vec<Node>)
        ensures
            r@ == self.spec_final_layer(),
    {
        self.next.nodes()
    }

    /// The width bound of the last diagram.
    pub fn max_width(&self) -> (r: usize)
        ensures
            r == self.spec_max_width(),
    {
        self.max_width
    }

    /// Whether the best value of the last diagram is the optimum of its
    /// subproblem.
    pub fn is_exact(&self) -> (r: bool)
        requires
            self.wf(),
        ensures
            r == self.spec_is_exact(),
    {
        self.is_exact || (self.mddtype == MDDType::Relaxed && match self.best_node {
            Some(b) => !self.next.get(b).relaxed,
            None => true,
        })
    }

    /// The value of the best node of the last diagram, or `isize::MIN` when
    /// its last layer is empty.
    pub fn best_value(&self) -> (r: isize)
        requires
            self.wf(),
        ensures
            r == match self.spec_best_value() {
                Some(v) => v,
                None => isize::MIN,
            },
    {
        match self.best_node {
            Some(b) => self.next.get(b).value,
            None => isize::MIN,
        }
    }

    /// The decisions leading to the best node of the last diagram, from the
    /// root of the whole problem, the latest first.
    pub fn best_solution(&self) -> (r: Option<Solution>)
        requires
            self.wf(),
        ensures
            r is Some <==> self.spec_best_index() is Some,
            r matches Some(s) ==> s@ == (self.spec_root_path() + self.spec_best_node()->0.path@).reverse(),
    {
        match self.best_node {
            Some(b) => {
                let path = concat(&self.root_pa, &self.next.get(b).path);
                Some(Solution::new(&path))
            },
            None => None,
        }
    }

    /// Compiles the exact diagram of the subproblem `root`, where `best_lb`
    /// is the best known lower bound and `ub` the bound known for `root`.
    pub fn exact(&mut self, root: &FrontierNode, best_lb: isize, ub: isize) -> (r: Result<Completion, Reason>)
        requires
            old(self).wf(),
        ensures
            final(self).wf(),
            final(self).spec_config() == old(self).spec_config(),
            final(self).spec_max_width() == usize::MAX,
            final(self).spec_type() == MDDType::Exact,
            r is Err <==> free_after(old(self).spec_config().problem.spec_nb_vars(), root.path@) != Set::<nat>::empty()
                && old(self).spec_config().cutoff.spec_stops(best_lb, ub),
            r matches Ok(c) ==> final(self).compiled(root, best_lb, MDDType::Exact) && c == (Completion {
                is_exact: final(self).spec_is_exact(),
                best_value: final(self).spec_best_value(),
            }),
    {
        self.clear();
        let free_vars = self.config.load_variables(root);
        self.mddtype = MDDType::Exact;
        self.max_width = usize::MAX;
        self.develop(root, free_vars, best_lb, ub)
    }

    /// Compiles a restricted diagram of the subproblem `root`: its best value
    /// is a lower bound.
    pub fn restricted(&mut self, root: &FrontierNode, best_lb: isize, ub: isize) -> (r: Result<Completion, Reason>)
        requires
            old(self).wf(),
        ensures
            final(self).wf(),
            final(self).spec_config() == old(self).spec_config(),
            final(self).spec_type() == MDDType::Restricted,
            r is Err <==> free_after(old(self).spec_config().problem.spec_nb_vars(), root.path@) != Set::<nat>::empty()
                && old(self).spec_config().cutoff.spec_stops(best_lb, ub),
            r matches Ok(c) ==> final(self).compiled(root, best_lb, MDDType::Restricted) && c == (Completion {
                is_exact: final(self).spec_is_exact(),
                best_value: final(self).spec_best_value(),
            }),
    {
        self.clear();
        let free_vars = self.config.load_variables(root);
        self.mddtype = MDDType::Restricted;
        let w = self.config.width.max_width(&free_vars);
        self.max_width = if w == 0 { 1 } else { w };
        self.develop(root, free_vars, best_lb, ub)
    }

    /// Compiles a relaxed diagram of the subproblem `root`: its best value
    /// is an upper bound, and its last exact layer a cutset.
    pub fn relaxed(&mut self, root: &FrontierNode, best_lb: isize, ub: isize) -> (r: Result<Completion, Reason>)
        requires
            old(self).wf(),
        ensures
            final(self).wf(),
            final(self).spec_config() == old(self).spec_config(),
            final(self).spec_type() == MDDType::Relaxed,
            r is Err <==> free_after(old(self).spec_config().problem.spec_nb_vars(), root.path@) != Set::<nat>::empty()
                && old(self).spec_config().cutoff.spec_stops(best_lb, ub),
            r matches Ok(c) ==> final(self).compiled(root, best_lb, MDDType::Relaxed) && c == (Completion {
                is_exact: final(self).spec_is_exact(),
                best_value: final(self).spec_best_value(),
            }),
    {
        self.clear();
        let free_vars = self.config.load_variables(root);
        self.mddtype = MDDType::Relaxed;
        let w = self.config.width.max_width(&free_vars);
        self.max_width = if w == 0 { 1 } else { w };
        self.develop(root, free_vars, best_lb, ub)
    }
}

/// `a` followed by `b`.
fn concat(a: &Vec<Decision>, b: &Vec<Decision>) -> (r: Vec<Decision>)
    ensures
        r@ == a@ + b@,
{
    let mut r = a.clone();
    assert(r@ =~= a@);
    let mut k: usize = 0;
    while k < b.len()
        invariant
            k <= b@.len(),
            r@ == a@ + b@.subrange(0, k as int),
        decreases b@.len() - k,
    {
        r.push(b[k]);
        k = k + 1;
        assert(r@ =~= a@ + b@.subrange(0, k as int));
    }
    assert(b@.subrange(0, b@.len() as int) =~= b@);
    r
}

impl<P: Problem, R: Relaxation, W: WidthHeuristic, V: VariableHeuristic, C: Cutoff> AggressivelyBoundedMDD<
    P,
    R,
    W,
    V,
    C,
> {
    /// Every node of the next layer satisfies `node_ok` for `free`, beats
    /// `best_lb` when `pruned`, and is relaxed only in a relaxed diagram.
    closed spec fn next_ok(&self, rs: usize, lp: int, free0: Set<nat>, free: Set<nat>, pruned: bool) -> bool {
        forall|i: int| 0 <= i < self.next.spec_nodes().len() ==> {
            &&& node_ok(&self.config.problem, &self.config.relaxation, rs, lp, free0, free, #[trigger] self.next.spec_nodes()[i])
            &&& pruned ==> self.next.spec_nodes()[i].spec_ub() > self.best_lb
            &&& self.mddtype != MDDType::Relaxed ==> !self.next.spec_nodes()[i].relaxed
        }
    }

    /// Every node of the current layer satisfies `node_ok` for `free`, and
    /// is relaxed only in a relaxed diagram.
    closed spec fn current_ok(&self, rs: usize, lp: int, free0: Set<nat>, free: Set<nat>) -> bool {
        forall|i: int| 0 <= i < self.current.spec_nodes().len() ==> {
            &&& node_ok(&self.config.problem, &self.config.relaxation, rs, lp, free0, free, #[trigger] self.current.spec_nodes()[i])
            &&& self.mddtype != MDDType::Relaxed ==> !self.current.spec_nodes()[i].relaxed
        }
    }

    /// Every node of the last exact layer that is not relaxed is reached by
    /// its path with its value.
    closed spec fn lel_ok(&self, rs: usize, lp: int, free0: Set<nat>) -> bool {
        forall|i: int| 0 <= i < self.lel.spec_nodes().len() && !#[trigger] self.lel.spec_nodes()[i].relaxed ==> reaches(
            &self.config.problem,
            rs,
            free0,
            self.lel.spec_nodes()[i].path@,
            self.lel.spec_nodes()[i].state,
            self.lel.spec_nodes()[i].value - lp,
        )
    }

    /// The bound on the size of the next layer while it is developed at
    /// `depth`.
    closed spec fn width_ok(&self, depth: usize) -> bool {
        &&& (depth > 1 && self.mddtype == MDDType::Restricted) ==> self.next.spec_nodes().len() <= self.max_width
        &&& (depth > 1 && self.mddtype == MDDType::Relaxed) ==> self.next.spec_nodes().len() <= self.max_width - 1
    }

    /// Unrolls the diagram of the kind already set, from `root`, over the
    /// free variables `vars`.
    fn develop(&mut self, root: &FrontierNode, vars: VarSet, best_lb: isize, ub: isize) -> (r: Result<Completion, Reason>)
        requires
            old(self).spec_fresh() || (old(self).wf() && old(self).current.spec_nodes().len() == 0
                && old(self).next.spec_nodes().len() == 0 && old(self).lel.spec_nodes().len() == 0 && old(self).is_exact
                && old(self).best_node is None),
            vars@ == free_after(old(self).config.problem.spec_nb_vars(), root.path@),
        ensures
            final(self).wf(),
            final(self).config == old(self).config,
            final(self).mddtype == old(self).mddtype,
            final(self).max_width == old(self).max_width,
            r is Err <==> free_after(old(self).config.problem.spec_nb_vars(), root.path@) != Set::<nat>::empty()
                && old(self).config.cutoff.spec_stops(best_lb, ub),
            r matches Ok(c) ==> final(self).compiled(root, best_lb, old(self).mddtype) && c == (Completion {
                is_exact: final(self).spec_is_exact(),
                best_value: final(self).spec_best_value(),
            }),
    {
        let ghost free0 = vars@;
        let ghost rs = root.state;
        let ghost lp = root.lp_len as int;
        let ghost ty = self.mddtype;
        let ghost rel = ty == MDDType::Relaxed && absorbing(&self.config.problem, &self.config.relaxation);
        let ghost z = self.config.relaxation.spec_default_relaxed_state();
        let ghost ez = self.config.relaxation.spec_estimate(z);
        let ghost fa = fits(&self.config.problem, rs, free0, lp) && admissible(&self.config.problem, &self.config.relaxation);
        let ghost mut ord: Seq<nat> = Seq::empty();
        let ghost mut first: Seq<Node> = Seq::empty();
        let ghost mut free1: Set<nat> = Set::empty();
        let ghost mut lel_depth: nat = 0;
        let ghost mut cut_width: nat = 0;
        let ghost mut cut_layer: Seq<Node> = Seq::empty();
        let ghost mut ord1: Seq<nat> = Seq::empty();
        let ghost mut before_last: Seq<Node> = Seq::empty();
        self.root_pa = root.path.clone();
        assert(self.root_pa@ =~= root.path@);
        self.best_lb = best_lb;
        let est = self.config.relaxation.estimate(&root.state);
        let root_node = Node { state: root.state, value: root.lp_len, estimate: est, relaxed: false, path: Vec::new() };
        assert(run(&self.config.problem, rs, free0, root_node.path@) == Some((rs, free0, 0int)));
        self.next.push(root_node);
        proof {
            assert(follows(self.next.spec_nodes()[0].path@, ord));
            assert(free0.difference(order_set(ord)) =~= free0);
            if fa {
                assert forall|p: Seq<Decision>| #[trigger] follows(p, ord) implies accounted(
                    &self.config.problem,
                    &self.config.relaxation,
                    rel,
                    rs,
                    free0,
                    lp,
                    best_lb as int,
                    self.next.spec_nodes(),
                    p,
                ) by {
                    assert(p =~= Seq::<Decision>::empty());
                    assert(self.next.spec_nodes()[0].state == rs);
                }
            }
        }
        assert(free0.subset_of(below(self.config.problem.spec_nb_vars())));
        let mut vars = vars;
        let n0 = vars.len();
        let mut depth: usize = 0;
        proof {
            vars.lemma_finite();
        }
        loop
            invariant
                self.wf(),
                self.config == old(self).config,
                self.mddtype == ty,
                ty == old(self).mddtype,
                self.max_width == old(self).max_width,
                self.best_lb == best_lb,
                self.root_pa@ == root.path@,
                self.best_node is None,
                (ty == MDDType::Exact && fits(&self.config.problem, rs, free0, lp)) ==> self.is_exact,
                rs == root.state,
                lp == root.lp_len,
                free0 == free_after(self.config.problem.spec_nb_vars(), root.path@),
                free0.subset_of(below(self.config.problem.spec_nb_vars())),
                vars@.finite(),
                free0.finite(),
                vars@.subset_of(free0),
                depth + vars@.len() == free0.len(),
                n0 == free0.len(),
                depth >= 1 ==> !self.config.cutoff.spec_stops(best_lb, ub),
                (depth >= 1 && first.len() == 0) ==> self.next.spec_nodes().len() == 0,
                depth >= 1 ==> first_ok(&self.config.problem, &self.config.relaxation, rs, free0, free1, lp, best_lb as int, first),
                depth >= 1 ==> free1 != free0,
                depth >= 1 ==> ord.len() >= 1 && ord1 == ord.subrange(0, 1),
                ord.len() == depth,
                (!self.is_exact && fits(&self.config.problem, rs, free0, lp) && ty != MDDType::Exact) ==> cut_width == cut_layer.len(),
                (!self.is_exact && fits(&self.config.problem, rs, free0, lp) && ty != MDDType::Exact) ==> forall|i: int, j: int|
                    0 <= i < cut_layer.len() && 0 <= j < cut_layer.len() && i != j ==> #[trigger] cut_layer[i].state
                        != #[trigger] cut_layer[j].state,
                (!self.is_exact && fits(&self.config.problem, rs, free0, lp) && ty != MDDType::Exact) ==> forall|i: int| 0 <= i < cut_layer.len() ==> !#[trigger] cut_layer[i].relaxed,
                (!self.is_exact && fits(&self.config.problem, rs, free0, lp) && ty != MDDType::Exact) ==> forall|i: int| 0 <= i < cut_layer.len() ==> #[trigger] reaches(
                    &self.config.problem, rs, free0, cut_layer[i].path@, cut_layer[i].state, cut_layer[i].value - lp),
                (ty == MDDType::Relaxed && self.max_width == 1 && depth >= 2) ==> forall|j: int| 0 <= j < self.next.spec_nodes().len() ==> {
                    &&& #[trigger] self.next.spec_nodes()[j].state == z
                    &&& self.next.spec_nodes()[j].relaxed
                    &&& self.next.spec_nodes()[j].path@ == Seq::<Decision>::empty()
                    &&& (forall|i: int| 0 <= i < before_last.len() ==> clamp(#[trigger] before_last[i].spec_ub()) <= self.next.spec_nodes()[j].value)
                    &&& exists|i: int| 0 <= i < before_last.len() && self.next.spec_nodes()[j].value == clamp(#[trigger] before_last[i].spec_ub())
                },
                forall|k: int| 0 <= k < ord.len() ==> self.config.var_heu.spec_picks(
                    free0.difference(order_set(ord.subrange(0, k))),
                    #[trigger] ord[k],
                ),
                (depth >= 1 && fa) ==> covers(&self.config.problem, &self.config.relaxation, rel, rs, free0, lp, best_lb as int, first, ord1),
                depth == 1 ==> self.next.spec_nodes() == first,
                depth == 0 ==> forall|j: int| 0 <= j < self.next.spec_nodes().len() ==> !#[trigger] self.next.spec_nodes()[j].relaxed,
                (depth <= 1 && fits(&self.config.problem, rs, free0, lp)) ==> self.is_exact,
                (!self.is_exact && fits(&self.config.problem, rs, free0, lp)) ==> lel_depth >= 1 && (lel_depth == 1 ==> self.lel.spec_nodes() == first),
                depth == 0 ==> self.is_exact && self.next.spec_nodes().len() == 1 && self.next.spec_nodes()[0].state == root.state
                    && self.next.spec_nodes()[0].value == root.lp_len && self.next.spec_nodes()[0].path@ == Seq::<Decision>::empty(),
                (self.is_exact && fits(&self.config.problem, rs, free0, lp)) ==> forall|j: int| 0 <= j < self.next.spec_nodes().len() ==> !#[trigger] self.next.spec_nodes()[j].relaxed,
                (!self.is_exact && fits(&self.config.problem, rs, free0, lp) && ty == MDDType::Relaxed) ==> cut_width >= self.max_width - 1,
                (!self.is_exact && fits(&self.config.problem, rs, free0, lp) && ty == MDDType::Restricted) ==> cut_width >= self.max_width,
                (ty == MDDType::Relaxed && self.max_width == 1 && depth >= 2 && fits(&self.config.problem, rs, free0, lp) && first.len() > 0) ==> !self.is_exact
                    && self.lel.spec_nodes() == first,
                fa == (fits(&self.config.problem, rs, free0, lp) && admissible(&self.config.problem, &self.config.relaxation)),
                rel == (ty == MDDType::Relaxed && absorbing(&self.config.problem, &self.config.relaxation)),
                self.is_exact <==> self.lel.spec_nodes().len() == 0,
                z == self.config.relaxation.spec_default_relaxed_state(),
                ez == self.config.relaxation.spec_estimate(z),
                vars@ == free0.difference(order_set(ord)),
                order_set(ord).subset_of(free0),
                (fa && (ty == MDDType::Exact || rel || self.is_exact)) ==> covers(&self.config.problem, &self.config.relaxation, rel, rs, free0, lp, best_lb as int, self.next.spec_nodes(), ord),
                self.next_ok(rs, lp, free0, vars@, depth >= 1),
                self.lel_ok(rs, lp, free0),
                paths_follow(self.next.spec_nodes(), ord),
                (ty != MDDType::Exact && depth >= 2) ==> self.next.spec_nodes().len() <= self.max_width,
            ensures
                self.wf(),
                self.config == old(self).config,
                self.mddtype == ty,
                self.max_width == old(self).max_width,
                self.best_lb == best_lb,
                self.root_pa@ == root.path@,
                self.best_node is None,
                (ty == MDDType::Exact && fits(&self.config.problem, rs, free0, lp)) ==> self.is_exact,
                vars@ == Set::<nat>::empty(),
                depth == free0.len(),
                depth >= 1 ==> !self.config.cutoff.spec_stops(best_lb, ub),
                (depth >= 1 && first.len() == 0) ==> self.next.spec_nodes().len() == 0,
                depth >= 1 ==> first_ok(&self.config.problem, &self.config.relaxation, rs, free0, free1, lp, best_lb as int, first),
                depth >= 1 ==> free1 != free0,
                depth >= 1 ==> ord.len() >= 1 && ord1 == ord.subrange(0, 1),
                ord.len() == depth,
                (!self.is_exact && fits(&self.config.problem, rs, free0, lp) && ty != MDDType::Exact) ==> cut_width == cut_layer.len(),
                (!self.is_exact && fits(&self.config.problem, rs, free0, lp) && ty != MDDType::Exact) ==> forall|i: int, j: int|
                    0 <= i < cut_layer.len() && 0 <= j < cut_layer.len() && i != j ==> #[trigger] cut_layer[i].state
                        != #[trigger] cut_layer[j].state,
                (!self.is_exact && fits(&self.config.problem, rs, free0, lp) && ty != MDDType::Exact) ==> forall|i: int| 0 <= i < cut_layer.len() ==> !#[trigger] cut_layer[i].relaxed,
                (!self.is_exact && fits(&self.config.problem, rs, free0, lp) && ty != MDDType::Exact) ==> forall|i: int| 0 <= i < cut_layer.len() ==> #[trigger] reaches(
                    &self.config.problem, rs, free0, cut_layer[i].path@, cut_layer[i].state, cut_layer[i].value - lp),
                (ty == MDDType::Relaxed && self.max_width == 1 && depth >= 2) ==> forall|j: int| 0 <= j < self.next.spec_nodes().len() ==> {
                    &&& #[trigger] self.next.spec_nodes()[j].state == z
                    &&& self.next.spec_nodes()[j].relaxed
                    &&& self.next.spec_nodes()[j].path@ == Seq::<Decision>::empty()
                    &&& (forall|i: int| 0 <= i < before_last.len() ==> clamp(#[trigger] before_last[i].spec_ub()) <= self.next.spec_nodes()[j].value)
                    &&& exists|i: int| 0 <= i < before_last.len() && self.next.spec_nodes()[j].value == clamp(#[trigger] before_last[i].spec_ub())
                },
                forall|k: int| 0 <= k < ord.len() ==> self.config.var_heu.spec_picks(
                    free0.difference(order_set(ord.subrange(0, k))),
                    #[trigger] ord[k],
                ),
                (depth >= 1 && fa) ==> covers(&self.config.problem, &self.config.relaxation, rel, rs, free0, lp, best_lb as int, first, ord1),
                depth == 1 ==> self.next.spec_nodes() == first,
                depth == 0 ==> forall|j: int| 0 <= j < self.next.spec_nodes().len() ==> !#[trigger] self.next.spec_nodes()[j].relaxed,
                (depth <= 1 && fits(&self.config.problem, rs, free0, lp)) ==> self.is_exact,
                (!self.is_exact && fits(&self.config.problem, rs, free0, lp)) ==> lel_depth >= 1 && (lel_depth == 1 ==> self.lel.spec_nodes() == first),
                depth == 0 ==> self.is_exact && self.next.spec_nodes().len() == 1 && self.next.spec_nodes()[0].state == root.state
                    && self.next.spec_nodes()[0].value == root.lp_len && self.next.spec_nodes()[0].path@ == Seq::<Decision>::empty(),
                (self.is_exact && fits(&self.config.problem, rs, free0, lp)) ==> forall|j: int| 0 <= j < self.next.spec_nodes().len() ==> !#[trigger] self.next.spec_nodes()[j].relaxed,
                (!self.is_exact && fits(&self.config.problem, rs, free0, lp) && ty == MDDType::Relaxed) ==> cut_width >= self.max_width - 1,
                (!self.is_exact && fits(&self.config.problem, rs, free0, lp) && ty == MDDType::Restricted) ==> cut_width >= self.max_width,
                (ty == MDDType::Relaxed && self.max_width == 1 && depth >= 2 && fits(&self.config.problem, rs, free0, lp) && first.len() > 0) ==> !self.is_exact
                    && self.lel.spec_nodes() == first,
                self.is_exact <==> self.lel.spec_nodes().len() == 0,
                order_set(ord) == free0,
                (fa && (ty == MDDType::Exact || rel || self.is_exact)) ==> covers(&self.config.problem, &self.config.relaxation, rel, rs, free0, lp, best_lb as int, self.next.spec_nodes(), ord),
                self.next_ok(rs, lp, free0, vars@, depth >= 1),
                self.lel_ok(rs, lp, free0),
                paths_follow(self.next.spec_nodes(), ord),
                (ty != MDDType::Exact && depth >= 2) ==> self.next.spec_nodes().len() <= self.max_width,
            decreases vars@.len(),
        {
            let prev = if self.prev_is_lel { self.lel.nodes() } else { self.current.nodes() };
            let var = match self.config.var_heu.next_var(&vars, prev, self.next.nodes()) {
                Some(v) => v,
                None => {
                    assert(order_set(ord) =~= free0) by {
                        assert forall|y: nat| free0.contains(y) implies order_set(ord).contains(y) by {
                            assert(!vars@.contains(y));
                        }
                    }
                    break;
                },
            };
            if self.config.cutoff.must_stop(best_lb, ub) {
                assert(free0.contains(var.0 as nat));
                return Err(Reason::CutoffOccurred);
            }
            let ghost fprev = vars@;
            let ghost ordx = ord.push(var.0 as nat);
            let ghost g = fa && (ty == MDDType::Exact || rel || self.is_exact);
            self.add_layer();
            vars.remove(var);
            proof {
                assert(order_set(ordx) =~= order_set(ord).insert(var.0 as nat)) by {
                    assert forall|y: nat| #[trigger] order_set(ord).insert(var.0 as nat).contains(y) implies ordx.contains(y) by {
                        if y == var.0 {
                            assert(ordx[ord.len() as int] == y);
                        } else {
                            let k = choose|k: int| 0 <= k < ord.len() && ord[k] == y;
                            assert(ordx[k] == y);
                        }
                    }
                    assert forall|y: nat| ordx.contains(y) implies #[trigger] order_set(ord).insert(var.0 as nat).contains(y) by {
                        let k = choose|k: int| 0 <= k < ordx.len() && ordx[k] == y;
                        if k < ord.len() {
                            assert(ord[k] == y);
                        }
                    }
                }
                assert(vars@ =~= free0.difference(order_set(ordx)));
                assert(order_set(ordx).subset_of(free0));
            }
            proof {
                vars.lemma_finite();
            }
            depth = depth + 1;
            let buffer = sorted_indices(&self.current);
            self.saturated = false;
            let mut squashed = false;
            let mut first_squashed: usize = 0;
            let mut bi: usize = 0;
            let ghost mut done: int = 0;
            while bi < buffer.len()
                invariant
                    self.wf(),
                    self.config == old(self).config,
                    self.mddtype == ty,
                    self.max_width == old(self).max_width,
                    self.best_lb == best_lb,
                    self.root_pa@ == root.path@,
                    self.best_node is None,
                    (ty == MDDType::Exact && fits(&self.config.problem, rs, free0, lp)) ==> self.is_exact,
                    ty == MDDType::Exact ==> !squashed,
                    depth >= 1,
                    bi <= buffer@.len(),
                    buffer@.len() == self.current.spec_nodes().len(),
                    forall|k: int| 0 <= k < buffer@.len() ==> #[trigger] buffer@[k] < self.current.spec_nodes().len(),
                    squashed ==> first_squashed < buffer@.len(),
                    fprev.contains(var.0 as nat),
                    vars@ == fprev.remove(var.0 as nat),
                    self.current_ok(rs, lp, free0, fprev),
                    self.next_ok(rs, lp, free0, vars@, true),
                    self.lel_ok(rs, lp, free0),
                    depth >= 2 ==> first_ok(&self.config.problem, &self.config.relaxation, rs, free0, free1, lp, best_lb as int, first),
                    depth >= 2 ==> free1 != free0,
                    depth >= 2 ==> ord.len() >= 1 && ord1 == ord.subrange(0, 1),
                    ord.len() + 1 == depth,
                    (!self.is_exact && fits(&self.config.problem, rs, free0, lp) && ty != MDDType::Exact) ==> cut_width == cut_layer.len(),
                    (!self.is_exact && fits(&self.config.problem, rs, free0, lp) && ty != MDDType::Exact) ==> forall|i: int, j: int|
                        0 <= i < cut_layer.len() && 0 <= j < cut_layer.len() && i != j ==> #[trigger] cut_layer[i].state
                            != #[trigger] cut_layer[j].state,
                    (!self.is_exact && fits(&self.config.problem, rs, free0, lp) && ty != MDDType::Exact) ==> forall|i: int| 0 <= i < cut_layer.len() ==> !#[trigger] cut_layer[i].relaxed,
                    (!self.is_exact && fits(&self.config.problem, rs, free0, lp) && ty != MDDType::Exact) ==> forall|i: int| 0 <= i < cut_layer.len() ==> #[trigger] reaches(
                        &self.config.problem, rs, free0, cut_layer[i].path@, cut_layer[i].state, cut_layer[i].value - lp),
                    (ty == MDDType::Relaxed && self.max_width == 1 && depth >= 2) ==> self.next.spec_nodes().len() == 0,
                    (ty == MDDType::Relaxed && self.max_width == 1 && depth >= 2 && squashed) ==> first_squashed == 0,
                    forall|k: int| 0 <= k < ord.len() ==> self.config.var_heu.spec_picks(
                        free0.difference(order_set(ord.subrange(0, k))),
                        #[trigger] ord[k],
                    ),
                    self.config.var_heu.spec_picks(fprev, var.0 as nat),
                    (depth >= 2 && fa) ==> covers(&self.config.problem, &self.config.relaxation, rel, rs, free0, lp, best_lb as int, first, ord1),
                    depth == 2 ==> self.current.spec_nodes() == first,
                    (depth >= 2 && first.len() == 0) ==> self.current.spec_nodes().len() == 0 && self.next.spec_nodes().len() == 0,
                    squashed ==> depth > 1,
                    depth == 1 ==> forall|j: int| 0 <= j < self.current.spec_nodes().len() ==> !#[trigger] self.current.spec_nodes()[j].relaxed,
                    (depth <= 2 && fits(&self.config.problem, rs, free0, lp)) ==> self.is_exact,
                    (!self.is_exact && fits(&self.config.problem, rs, free0, lp)) ==> lel_depth >= 1 && (lel_depth == 1 ==> self.lel.spec_nodes() == first),
                    (self.is_exact && fits(&self.config.problem, rs, free0, lp)) ==> forall|j: int| 0 <= j < self.current.spec_nodes().len() ==> !#[trigger] self.current.spec_nodes()[j].relaxed,
                    (!self.is_exact && fits(&self.config.problem, rs, free0, lp) && ty == MDDType::Relaxed) ==> cut_width >= self.max_width - 1,
                    squashed && ty == MDDType::Relaxed ==> self.next.spec_nodes().len() >= self.max_width - 1,
                    (!self.is_exact && fits(&self.config.problem, rs, free0, lp) && ty == MDDType::Restricted) ==> cut_width >= self.max_width,
                    (ty == MDDType::Relaxed && self.max_width == 1 && depth >= 3 && fits(&self.config.problem, rs, free0, lp) && first.len() > 0) ==> !self.is_exact
                        && self.lel.spec_nodes() == first,
                    (ty == MDDType::Relaxed && self.max_width == 1 && depth >= 2 && bi > 0) ==> squashed,
                    paths_follow(self.current.spec_nodes(), ord),
                    paths_follow(self.next.spec_nodes(), ordx),
                    self.width_ok(depth),
                    fa == (fits(&self.config.problem, rs, free0, lp) && admissible(&self.config.problem, &self.config.relaxation)),
                    g == (fa && (ty == MDDType::Exact || rel || self.is_exact)),
                    rel == (ty == MDDType::Relaxed && absorbing(&self.config.problem, &self.config.relaxation)),
                    self.is_exact <==> self.lel.spec_nodes().len() == 0,
                    self.saturated ==> self.current.spec_nodes().len() > 0 && (!fits(&self.config.problem, rs, free0, lp) || exists|i: int|
                        0 <= i < self.current.spec_nodes().len() && #[trigger] self.current.spec_nodes()[i].relaxed),
                    ((forall|i: int| 0 <= i < self.current.spec_nodes().len() ==> !#[trigger] self.current.spec_nodes()[i].relaxed)
                        && !self.saturated) ==> forall|j: int| 0 <= j < self.next.spec_nodes().len() ==> !#[trigger] self.next.spec_nodes()[j].relaxed,
                    squashed && ty == MDDType::Restricted ==> self.next.spec_nodes().len() >= self.max_width,
                    z == self.config.relaxation.spec_default_relaxed_state(),
                    ez == self.config.relaxation.spec_estimate(z),
                    0 <= done <= bi,
                    !squashed ==> done == bi,
                    squashed ==> done == first_squashed && bi == buffer@.len(),
                    fprev == free0.difference(order_set(ord)),
                    free0.subset_of(below(self.config.problem.spec_nb_vars())),
                    ordx == ord.push(var.0 as nat),
                    g ==> covers(&self.config.problem, &self.config.relaxation, rel, rs, free0, lp, best_lb as int, self.current.spec_nodes(), ord),
                    g ==> forall|p: Seq<Decision>, b: int|
                        0 <= b < done && #[trigger] follows(p, ordx) && #[trigger] handled_by(
                            &self.config.problem,
                            rs,
                            free0,
                            lp,
                            self.current.spec_nodes()[buffer@[b] as int],
                            p,
                        ) ==> accounted(&self.config.problem, &self.config.relaxation, rel, rs, free0, lp, best_lb as int, self.next.spec_nodes(), p),
                    (g && rel) ==> forall|b: int|
                        0 <= b < done && #[trigger] self.current.spec_nodes()[buffer@[b] as int].state == z ==> kept(
                            self.next.spec_nodes(),
                            z,
                            ez,
                            best_lb as int,
                            self.current.spec_nodes()[buffer@[b] as int].value as int,
                        ),
                decreases buffer@.len() - bi,
            {
                if self.must_squash(depth) {
                    squashed = true;
                    first_squashed = bi;
                    bi = buffer.len();
                } else {
                    let idx = buffer[bi];
                    let ghost before = self.next.spec_nodes();
                    let stopped = self.expand_node(idx, var, &vars, depth, Ghost(rs), Ghost(lp), Ghost(free0), Ghost(fprev), Ghost(ord), Ghost(g));
                    proof {
                        let lim: int = if stopped { bi as int } else { bi + 1 };
                        if g {
                            let pb = &self.config.problem;
                            let rlx = &self.config.relaxation;
                            assert forall|p: Seq<Decision>, b: int|
                                0 <= b < lim && #[trigger] follows(p, ordx) && #[trigger] handled_by(
                                    pb,
                                    rs,
                                    free0,
                                    lp,
                                    self.current.spec_nodes()[buffer@[b] as int],
                                    p,
                                ) implies accounted(pb, rlx, rel, rs, free0, lp, best_lb as int, self.next.spec_nodes(), p) by {
                                if b < bi {
                                    lemma_accounted_grows(pb, rlx, rel, rs, free0, lp, best_lb as int, before, self.next.spec_nodes(), p);
                                }
                            }
                            if rel {
                                assert forall|b: int|
                                    0 <= b < lim && #[trigger] self.current.spec_nodes()[buffer@[b] as int].state == z implies kept(
                                    self.next.spec_nodes(),
                                    z,
                                    ez,
                                    best_lb as int,
                                    self.current.spec_nodes()[buffer@[b] as int].value as int,
                                ) by {
                                    if b < bi {
                                        lemma_kept_grows(before, self.next.spec_nodes(), z, ez, best_lb as int,
                                            self.current.spec_nodes()[buffer@[b] as int].value as int);
                                    }
                                }
                            }
                        }
                    }
                    if stopped {
                        squashed = true;
                        first_squashed = bi;
                        bi = buffer.len();
                    } else {
                        bi = bi + 1;
                        proof {
                            done = done + 1;
                        }
                    }
                }
            }
            let ghost cur = self.current.spec_nodes();
            let ghost was_exact = self.is_exact;
            proof {
                if self.is_exact && fits(&self.config.problem, rs, free0, lp) && self.saturated {
                    let i = choose|i: int| 0 <= i < self.current.spec_nodes().len() && #[trigger] self.current.spec_nodes()[i].relaxed;
                    assert(!self.current.spec_nodes()[i].relaxed);
                }
            }
            let ghost next1 = self.next.spec_nodes();
            proof {
                assert forall|i: int, j: int| 0 <= i < next1.len() && 0 <= j < next1.len() && i != j implies #[trigger] next1[i].state
                    != #[trigger] next1[j].state by {
                    self.next.lemma_unique_state(i);
                }
                assert forall|i: int| 0 <= i < next1.len() && !#[trigger] next1[i].relaxed implies reaches(
                    &self.config.problem,
                    rs,
                    free0,
                    next1[i].path@,
                    next1[i].state,
                    next1[i].value - lp,
                ) by {
                    assert(node_ok(&self.config.problem, &self.config.relaxation, rs, lp, free0, vars@, next1[i]));
                }
            }
            let ghost mut sent: int = 0;
            proof {
                assert forall|i: int| 0 <= i < cur.len() && !#[trigger] cur[i].relaxed implies reaches(
                    &self.config.problem,
                    rs,
                    free0,
                    cur[i].path@,
                    cur[i].state,
                    cur[i].value - lp,
                ) by {
                    assert(node_ok(&self.config.problem, &self.config.relaxation, rs, lp, free0, fprev, cur[i]));
                }
            }
            proof {
                if g {
                    assert(covers(&self.config.problem, &self.config.relaxation, rel, rs, free0, lp, best_lb as int, cur, ord));
                    assert(forall|i: int| 0 <= i < cur.len() ==> #[trigger] cur[i].estimate == self.config.relaxation.spec_estimate(cur[i].state))
                        by {
                        assert forall|i: int| 0 <= i < cur.len() implies #[trigger] cur[i].estimate == self.config.relaxation.spec_estimate(cur[i].state) by {
                            assert(node_ok(&self.config.problem, &self.config.relaxation, rs, lp, free0, fprev, cur[i]));
                        }
                    }
                }
            }
            if squashed {
                match self.mddtype {
                    MDDType::Exact => {},
                    MDDType::Restricted => {
                        self.remember_lel();
                    },
                    MDDType::Relaxed => {
                        let max_ub = max_ub_from(&self.current, &buffer, first_squashed);
                        proof {
                            sent = max_ub as int;
                            if self.max_width == 1 && depth >= 2 {
                                assert(first_squashed == 0);
                                assert forall|i: int| 0 <= i < cur.len() implies clamp(#[trigger] cur[i].spec_ub()) <= sent by {
                                    assert(buffer@.contains(i as usize));
                                    let k = choose|k: int| 0 <= k < buffer@.len() && buffer@[k] == i as usize;
                                    assert(clamp(cur[buffer@[k] as int].spec_ub()) <= sent);
                                }
                                let k = choose|k: int| 0 <= k < buffer@.len() && sent == clamp(#[trigger] cur[buffer@[k] as int].spec_ub());
                                assert(sent == clamp(cur[buffer@[k] as int].spec_ub()));
                            }
                        }
                        self.remember_lel();
                        self.add_default_relaxed_node(max_ub, Ghost(rs), Ghost(lp), Ghost(free0), Ghost(vars@), Ghost(ordx));
                    },
                }
            } else if self.saturated {
                self.remember_lel();
            }
            proof {
                if g && (!squashed || rel) {
                    let pb = &self.config.problem;
                    let rlx = &self.config.relaxation;
                    let lb = best_lb as int;
                    let next = self.next.spec_nodes();
                    assert(grows(next1, next));
                    assert forall|p: Seq<Decision>| #[trigger] follows(p, ordx) implies accounted(pb, rlx, rel, rs, free0, lp, lb, next, p) by {
                        let q = p.drop_last();
                        assert(follows(q, ord)) by {
                            assert forall|j: int| 0 <= j < q.len() implies #[trigger] q[j].variable.0 == ord[j] by {
                                assert(p[j].variable.0 == ordx[j]);
                            }
                        }
                        assert(q.push(p.last()) =~= p);
                        assert(accounted(pb, rlx, rel, rs, free0, lp, lb, cur, q));
                        if let Some((sq, _, vq)) = run(pb, rs, free0, q) {
                            if exists|i: int| 0 <= i < cur.len() && #[trigger] cur[i].state == sq && cur[i].value >= lp + vq {
                                let i = choose|i: int| 0 <= i < cur.len() && #[trigger] cur[i].state == sq && cur[i].value >= lp + vq;
                                assert(buffer@.contains(i as usize));
                                let b = choose|b: int| 0 <= b < buffer@.len() && buffer@[b] == i as usize;
                                assert(handled_by(pb, rs, free0, lp, cur[buffer@[b] as int], p));
                                if b < done {
                                    lemma_accounted_grows(pb, rlx, rel, rs, free0, lp, lb, next1, next, p);
                                } else {
                                    lemma_node_bound(pb, rlx, rs, free0, lp, cur[i], p);
                                    assert(clamp(cur[buffer@[b] as int].spec_ub()) <= sent);
                                    lemma_dominated_by_weaken(pb, rs, free0, lp, clamp(cur[i].spec_ub()) as int, sent, p);
                                    lemma_from_bound(pb, rlx, rs, free0, lp, lb, next, p, sent);
                                }
                            } else if dominated(pb, rs, free0, lp, lb, q) {
                                lemma_dominated_extends(pb, rs, free0, lp, lb, q, p.last());
                            } else {
                                let i = choose|i: int| 0 <= i < cur.len() && #[trigger] cur[i].state == z
                                    && dominated_by(pb, rs, free0, lp, cur[i].value as int, q);
                                lemma_dominated_extends(pb, rs, free0, lp, cur[i].value as int, q, p.last());
                                assert(buffer@.contains(i as usize));
                                let b = choose|b: int| 0 <= b < buffer@.len() && buffer@[b] == i as usize;
                                if b < done {
                                    assert(cur[buffer@[b] as int].state == z);
                                    lemma_kept_grows(next1, next, z, ez, lb, cur[i].value as int);
                                    lemma_from_bound(pb, rlx, rs, free0, lp, lb, next, p, cur[i].value as int);
                                } else {
                                    assert(clamp(cur[buffer@[b] as int].spec_ub()) <= sent);
                                    assert(cur[i].estimate == ez);
                                    lemma_dominated_by_weaken(pb, rs, free0, lp, cur[i].value as int, sent, p);
                                    lemma_from_bound(pb, rlx, rs, free0, lp, lb, next, p, sent);
                                }
                            }
                        }
                    }
                }
            }
            proof {
                before_last = cur;
                if ty == MDDType::Relaxed && self.max_width == 1 && depth >= 2 && squashed {
                    let nx = self.next.spec_nodes();
                    assert(next1.len() == 0);
                    assert forall|j: int| 0 <= j < nx.len() implies #[trigger] nx[j].state == z && nx[j].relaxed && nx[j].path@
                        == Seq::<Decision>::empty() by {
                    }
                }
                assert forall|k: int| 0 <= k < ordx.len() implies self.config.var_heu.spec_picks(
                    free0.difference(order_set(ordx.subrange(0, k))),
                    #[trigger] ordx[k],
                ) by {
                    if k < ord.len() {
                        assert(ordx.subrange(0, k) =~= ord.subrange(0, k));
                        assert(ordx[k] == ord[k]);
                    } else {
                        assert(ordx.subrange(0, k) =~= ord);
                    }
                }
                if depth >= 2 {
                    assert(ordx.subrange(0, 1) =~= ord.subrange(0, 1));
                }
                if depth == 1 {
                    ord1 = ordx;
                    assert(ordx.subrange(0, 1) =~= ordx);
                }
                ord = ordx;
                if was_exact && !self.is_exact {
                    lel_depth = (depth - 1) as nat;
                    cut_width = next1.len();
                    cut_layer = next1;
                    if fits(&self.config.problem, rs, free0, lp) {
                        assert forall|i: int| 0 <= i < next1.len() implies !#[trigger] next1[i].relaxed by {
                            if next1[i].relaxed {
                                assert(!self.saturated);
                            }
                        }
                    }
                }
                if depth == 1 {
                    first = self.next.spec_nodes();
                    free1 = vars@;
                    assert forall|i: int, j: int| 0 <= i < first.len() && 0 <= j < first.len() && i != j implies #[trigger] first[i].state
                        != #[trigger] first[j].state by {
                        self.next.lemma_unique_state(i);
                    }
                    assert(fprev.contains(var.0 as nat));
                    assert(!vars@.contains(var.0 as nat));
                }
                if depth >= 2 && ty == MDDType::Relaxed {
                    assert(self.next.spec_nodes().len() <= self.max_width);
                }
            }
        }
        let c = self.finalize();
        self.order = Ghost(ord);
        self.first = Ghost(first);
        self.free1 = Ghost(free1);
        self.lel_depth = Ghost(lel_depth);
        self.cut_width = Ghost(cut_width);
        self.prev_layer = Ghost(before_last);
        self.cut_layer = Ghost(cut_layer);
        proof {
            let layer = self.next.spec_nodes();
            let pb = &self.config.problem;
            assert forall|i: int| 0 <= i < layer.len() && !#[trigger] layer[i].relaxed
                implies run(pb, root.state, free0, layer[i].path@) == Some((layer[i].state, Set::<nat>::empty(), layer[i].value - root.lp_len)) by {
                assert(node_ok(pb, &self.config.relaxation, rs, lp, free0, vars@, layer[i]));
            }
            assert forall|i: int| 0 <= i < layer.len() implies #[trigger] layer[i].estimate == self.config.relaxation.spec_estimate(layer[i].state) by {
                assert(node_ok(pb, &self.config.relaxation, rs, lp, free0, vars@, layer[i]));
            }
            if free0 != Set::<nat>::empty() {
                if free0.len() == 0 {
                    free0.lemma_len0_is_empty();
                }
            }
            if ty != MDDType::Exact && free0.len() >= 2 {
                assert(depth >= 2);
            }
        }
        Ok(c)
    }

    /// Whether the next layer is full at `depth`.
    fn must_squash(&self, depth: usize) -> (r: bool)
        requires
            self.wf(),
        ensures
            r == match self.mddtype {
                MDDType::Exact => false,
                MDDType::Restricted => depth > 1 && self.next.spec_nodes().len() >= self.max_width,
                MDDType::Relaxed => depth > 1 && self.next.spec_nodes().len() >= self.max_width - 1,
            },
    {
        match self.mddtype {
            MDDType::Exact => false,
            MDDType::Restricted => depth > 1 && self.next.len() >= self.max_width,
            MDDType::Relaxed => depth > 1 && self.next.len() >= self.max_width - 1,
        }
    }

    /// Makes the next layer the current one and empties the next one.
    fn add_layer(&mut self)
        requires
            old(self).wf(),
            old(self).best_node is None,
        ensures
            final(self).wf(),
            final(self).current == old(self).next,
            final(self).lel == old(self).lel,
            !final(self).prev_is_lel,
            final(self).saturated == old(self).saturated,
            final(self).next.spec_nodes().len() == 0,
            final(self).config == old(self).config,
            final(self).mddtype == old(self).mddtype,
            final(self).max_width == old(self).max_width,
            final(self).best_lb == old(self).best_lb,
            final(self).root_pa == old(self).root_pa,
            final(self).best_node == old(self).best_node,
            final(self).is_exact == old(self).is_exact,
    {
        core::mem::swap(&mut self.current, &mut self.next);
        self.prev_is_lel = false;
        self.next.clear();
    }

    /// Keeps the current layer as the last exact one, the first time a layer
    /// is squashed.
    fn remember_lel(&mut self)
        requires
            old(self).wf(),
        ensures
            final(self).wf(),
            !final(self).is_exact,
            old(self).is_exact ==> final(self).lel == old(self).current && final(self).current == old(self).lel
                && final(self).prev_is_lel,
            !old(self).is_exact ==> final(self).lel == old(self).lel && final(self).current == old(self).current
                && final(self).prev_is_lel == old(self).prev_is_lel,
            final(self).saturated == old(self).saturated,
            final(self).next == old(self).next,
            final(self).config == old(self).config,
            final(self).mddtype == old(self).mddtype,
            final(self).max_width == old(self).max_width,
            final(self).best_lb == old(self).best_lb,
            final(self).root_pa == old(self).root_pa,
            final(self).best_node == old(self).best_node,
    {
        if self.is_exact {
            self.is_exact = false;
            core::mem::swap(&mut self.current, &mut self.lel);
            self.prev_is_lel = true;
        }
    }

    /// Generates the children of the node at position `idx` of the current
    /// layer for `var`, until the next layer is full; says whether it was.
    fn expand_node(
        &mut self,
        idx: usize,
        var: Variable,
        vars: &VarSet,
        depth: usize,
        Ghost(rs): Ghost<usize>,
        Ghost(lp): Ghost<int>,
        Ghost(free0): Ghost<Set<nat>>,
        Ghost(fprev): Ghost<Set<nat>>,
        Ghost(ord): Ghost<Seq<nat>>,
        Ghost(g): Ghost<bool>,
    ) -> (stopped: bool)
        requires
            g ==> fits(&old(self).config.problem, rs, free0, lp) && admissible(
                &old(self).config.problem,
                &old(self).config.relaxation,
            ) && free0.subset_of(below(old(self).config.problem.spec_nb_vars())),
            fprev == free0.difference(order_set(ord)),
            paths_follow(old(self).current.spec_nodes(), ord),
            paths_follow(old(self).next.spec_nodes(), ord.push(var.0 as nat)),
            old(self).wf(),
            idx < old(self).current.spec_nodes().len(),
            fprev.contains(var.0 as nat),
            vars@ == fprev.remove(var.0 as nat),
            old(self).current_ok(rs, lp, free0, fprev),
            old(self).next_ok(rs, lp, free0, vars@, true),
            old(self).width_ok(depth),
            old(self).best_node is None,
        ensures
            final(self).wf(),
            final(self).current == old(self).current,
            final(self).lel == old(self).lel,
            final(self).config == old(self).config,
            final(self).mddtype == old(self).mddtype,
            final(self).max_width == old(self).max_width,
            final(self).best_lb == old(self).best_lb,
            final(self).root_pa == old(self).root_pa,
            final(self).best_node is None,
            final(self).is_exact == old(self).is_exact,
            final(self).next_ok(rs, lp, free0, vars@, true),
            final(self).width_ok(depth),
            paths_follow(final(self).next.spec_nodes(), ord.push(var.0 as nat)),
            final(self).saturated ==> old(self).saturated || !fits(&old(self).config.problem, rs, free0, lp)
                || old(self).current.spec_nodes()[idx as int].relaxed,
            (!old(self).current.spec_nodes()[idx as int].relaxed && !final(self).saturated && forall|j: int|
                0 <= j < old(self).next.spec_nodes().len() ==> !#[trigger] old(self).next.spec_nodes()[j].relaxed) ==> forall|j: int|
                0 <= j < final(self).next.spec_nodes().len() ==> !#[trigger] final(self).next.spec_nodes()[j].relaxed,
            old(self).saturated ==> final(self).saturated,
            stopped ==> depth > 1 && (old(self).mddtype == MDDType::Restricted ==> final(self).next.spec_nodes().len()
                >= old(self).max_width) && (old(self).mddtype == MDDType::Relaxed ==> final(self).next.spec_nodes().len()
                >= old(self).max_width - 1),
            old(self).mddtype == MDDType::Exact ==> !stopped,
            grows(old(self).next.spec_nodes(), final(self).next.spec_nodes()),
            (g && !stopped) ==> forall|p: Seq<Decision>|
                #[trigger] follows(p, ord.push(var.0 as nat)) && handled_by(
                    &old(self).config.problem,
                    rs,
                    free0,
                    lp,
                    old(self).current.spec_nodes()[idx as int],
                    p,
                ) ==> accounted(
                    &old(self).config.problem,
                    &old(self).config.relaxation,
                    old(self).mddtype == MDDType::Relaxed && absorbing(&old(self).config.problem, &old(self).config.relaxation),
                    rs,
                    free0,
                    lp,
                    old(self).best_lb as int,
                    final(self).next.spec_nodes(),
                    p,
                ),
            (g && !stopped && old(self).mddtype == MDDType::Relaxed && absorbing(&old(self).config.problem, &old(self).config.relaxation)
                && old(self).current.spec_nodes()[idx as int].state
                == old(self).config.relaxation.spec_default_relaxed_state()) ==> kept(
                final(self).next.spec_nodes(),
                old(self).config.relaxation.spec_default_relaxed_state(),
                old(self).config.relaxation.spec_estimate(old(self).config.relaxation.spec_default_relaxed_state()),
                old(self).best_lb as int,
                old(self).current.spec_nodes()[idx as int].value as int,
            ),
    {
        let ghost pb = &self.config.problem;
        let ghost rel = self.mddtype == MDDType::Relaxed && absorbing(&self.config.problem, &self.config.relaxation);
        let ghost z = self.config.relaxation.spec_default_relaxed_state();
        let ghost ez = self.config.relaxation.spec_estimate(z);
        let ghost absorb = g && rel && self.current.spec_nodes()[idx as int].state == z;
        let ghost a: isize = if absorb {
            choose|a: isize| #[trigger] pb.spec_domain(z, var.0 as nat).contains(a)
                && pb.spec_transition(z, fprev.remove(var.0 as nat), Decision { variable: Variable(var.0 as usize), value: a }) == z
                && pb.spec_cost(z, fprev.remove(var.0 as nat), Decision { variable: Variable(var.0 as usize), value: a }) == 0
        } else {
            0
        };
        let ghost rlx = &self.config.relaxation;
        let ghost lb = self.best_lb as int;
        let ghost ordx = ord.push(var.0 as nat);
        let ghost next0 = self.next.spec_nodes();
        let ghost parent = self.current.spec_nodes()[idx as int];
        let src_state = self.current.get(idx).state;
        let domain = self.config.problem.domain_of(&src_state, var);
        let mut j: usize = 0;
        assert(domain@.subrange(0, 0) =~= Seq::<isize>::empty());
        proof {
            if absorb {
                assert(fprev.contains(var.0 as nat));
                assert(var == Variable(var.0 as usize));
            }
        }
        while j < domain.len()
            invariant
                g ==> fits(&self.config.problem, rs, free0, lp) && admissible(&self.config.problem, &self.config.relaxation)
                    && free0.subset_of(below(self.config.problem.spec_nb_vars())),
                rel == (self.mddtype == MDDType::Relaxed && absorbing(&self.config.problem, &self.config.relaxation)),
                z == self.config.relaxation.spec_default_relaxed_state(),
                ez == self.config.relaxation.spec_estimate(z),
                absorb == (g && rel && parent.state == z),
                absorb ==> pb.spec_domain(z, var.0 as nat).contains(a)
                    && pb.spec_transition(z, fprev.remove(var.0 as nat), Decision { variable: var, value: a }) == z
                    && pb.spec_cost(z, fprev.remove(var.0 as nat), Decision { variable: var, value: a }) == 0,
                absorb && domain@.subrange(0, j as int).contains(a) ==> kept(self.next.spec_nodes(), z, ez, lb, parent.value as int),
                fprev == free0.difference(order_set(ord)),
                ordx == ord.push(var.0 as nat),
                next0 == old(self).next.spec_nodes(),
                paths_follow(self.current.spec_nodes(), ord),
                paths_follow(self.next.spec_nodes(), ordx),
                pb == &self.config.problem,
                rlx == &self.config.relaxation,
                lb == self.best_lb as int,
                parent == self.current.spec_nodes()[idx as int],
                j <= domain@.len(),
                grows(next0, self.next.spec_nodes()),
                g ==> forall|p: Seq<Decision>|
                    #[trigger] follows(p, ordx) && handled_by(pb, rs, free0, lp, parent, p)
                        && domain@.subrange(0, j as int).contains(p.last().value)
                        ==> accounted(pb, rlx, rel, rs, free0, lp, lb, self.next.spec_nodes(), p),
                self.wf(),
                self.saturated ==> old(self).saturated || !fits(&self.config.problem, rs, free0, lp) || parent.relaxed,
                old(self).saturated ==> self.saturated,
                (!parent.relaxed && !self.saturated && forall|j: int| 0 <= j < next0.len() ==> !#[trigger] next0[j].relaxed)
                    ==> forall|j: int| 0 <= j < self.next.spec_nodes().len() ==> !#[trigger] self.next.spec_nodes()[j].relaxed,
                self.current == old(self).current,
                self.lel == old(self).lel,
                self.config == old(self).config,
                self.mddtype == old(self).mddtype,
                self.max_width == old(self).max_width,
                self.best_lb == old(self).best_lb,
                self.root_pa == old(self).root_pa,
                self.best_node is None,
                self.is_exact == old(self).is_exact,
                src_state == self.current.spec_nodes()[idx as int].state,
                domain@ == self.config.problem.spec_domain(src_state, var.0 as nat),
                idx < self.current.spec_nodes().len(),
                fprev.contains(var.0 as nat),
                vars@ == fprev.remove(var.0 as nat),
                self.current_ok(rs, lp, free0, fprev),
                self.next_ok(rs, lp, free0, vars@, true),
                self.width_ok(depth),
            decreases domain@.len() - j,
        {
            if self.must_squash(depth) {
                return true;
            }
            let d = Decision { variable: var, value: domain[j] };
            assert(domain@.contains(d.value)) by {
                assert(domain@[j as int] == d.value);
            }
            let state = self.config.problem.transition(&src_state, vars, d);
            let weight = self.config.problem.transition_cost(&src_state, vars, d);
            let ghost before = self.next.spec_nodes();
            self.branch(idx, state, d, weight, Ghost(rs), Ghost(lp), Ghost(free0), Ghost(fprev), Ghost(depth), Ghost(ord), Ghost(g));
            proof {
                lemma_grows_trans(next0, before, self.next.spec_nodes());
                if g {
                    assert forall|p: Seq<Decision>|
                        #[trigger] follows(p, ordx) && handled_by(pb, rs, free0, lp, parent, p)
                            && domain@.subrange(0, j + 1).contains(p.last().value)
                            implies accounted(pb, rlx, rel, rs, free0, lp, lb, self.next.spec_nodes(), p) by {
                        let sub = domain@.subrange(0, j + 1);
                        let k = choose|k: int| 0 <= k < sub.len() && #[trigger] sub[k] == p.last().value;
                        if k == j {
                            assert(p[p.len() - 1].variable.0 == ordx[ordx.len() - 1]);
                            assert(p.last() == d);
                        } else {
                            assert(domain@.subrange(0, j as int)[k] == p.last().value);
                            assert(domain@.subrange(0, j as int).contains(p.last().value));
                            lemma_accounted_grows(pb, rlx, rel, rs, free0, lp, lb, before, self.next.spec_nodes(), p);
                        }
                    }
                }
                if absorb && domain@.subrange(0, j + 1).contains(a) {
                    let sub = domain@.subrange(0, j + 1);
                    let k = choose|k: int| 0 <= k < sub.len() && #[trigger] sub[k] == a;
                    if k == j {
                        assert(d == Decision { variable: var, value: a });
                    } else {
                        assert(domain@.subrange(0, j as int)[k] == a);
                        assert(domain@.subrange(0, j as int).contains(a));
                        lemma_kept_grows(before, self.next.spec_nodes(), z, ez, lb, parent.value as int);
                    }
                }
            }
            j = j + 1;
        }
        proof {
            if g {
                assert(domain@.subrange(0, domain@.len() as int) =~= domain@);
                assert forall|p: Seq<Decision>| #[trigger] follows(p, ordx) && handled_by(pb, rs, free0, lp, parent, p)
                    implies accounted(pb, rlx, rel, rs, free0, lp, lb, self.next.spec_nodes(), p) by {
                    if run(pb, rs, free0, p) is Some {
                        assert(p[p.len() - 1].variable.0 == ordx[ordx.len() - 1]);
                        assert(domain@.contains(p.last().value));
                    }
                }
                if absorb {
                    assert(domain@.contains(a));
                }
            }
        }
        false
    }

    /// Adds the child of the node at position `idx` of the current layer
    /// reached by `decision`. When its value would not fit in an `isize`, a
    /// relaxed diagram saturates it (the child is then relaxed: its value is
    /// only a bound) and another diagram leaves the child out.
    fn branch(
        &mut self,
        idx: usize,
        dest: usize,
        decision: Decision,
        weight: isize,
        Ghost(rs): Ghost<usize>,
        Ghost(lp): Ghost<int>,
        Ghost(free0): Ghost<Set<nat>>,
        Ghost(fprev): Ghost<Set<nat>>,
        Ghost(depth): Ghost<usize>,
        Ghost(ord): Ghost<Seq<nat>>,
        Ghost(g): Ghost<bool>,
    )
        requires
            g ==> fits(&old(self).config.problem, rs, free0, lp) && admissible(
                &old(self).config.problem,
                &old(self).config.relaxation,
            ) && free0.subset_of(below(old(self).config.problem.spec_nb_vars())),
            fprev == free0.difference(order_set(ord)),
            paths_follow(old(self).current.spec_nodes(), ord),
            paths_follow(old(self).next.spec_nodes(), ord.push(decision.variable.0 as nat)),
            old(self).wf(),
            idx < old(self).current.spec_nodes().len(),
            ({
                let pb = &old(self).config.problem;
                let src = old(self).current.spec_nodes()[idx as int].state;
                let x = decision.variable.0 as nat;
                let free = fprev.remove(x);
                &&& fprev.contains(x)
                &&& pb.spec_domain(src, x).contains(decision.value)
                &&& dest == pb.spec_transition(src, free, decision)
                &&& weight == pb.spec_cost(src, free, decision)
            }),
            old(self).current_ok(rs, lp, free0, fprev),
            old(self).next_ok(rs, lp, free0, fprev.remove(decision.variable.0 as nat), true),
            (depth > 1 && old(self).mddtype == MDDType::Restricted) ==> old(self).next.spec_nodes().len() < old(self).max_width,
            (depth > 1 && old(self).mddtype == MDDType::Relaxed) ==> old(self).next.spec_nodes().len() < old(self).max_width - 1,
            old(self).best_node is None,
        ensures
            final(self).wf(),
            final(self).current == old(self).current,
            final(self).lel == old(self).lel,
            final(self).config == old(self).config,
            final(self).mddtype == old(self).mddtype,
            final(self).max_width == old(self).max_width,
            final(self).best_lb == old(self).best_lb,
            final(self).root_pa == old(self).root_pa,
            final(self).best_node is None,
            final(self).is_exact == old(self).is_exact,
            final(self).next_ok(rs, lp, free0, fprev.remove(decision.variable.0 as nat), true),
            final(self).width_ok(depth),
            paths_follow(final(self).next.spec_nodes(), ord.push(decision.variable.0 as nat)),
            final(self).saturated ==> old(self).saturated || !fits(&old(self).config.problem, rs, free0, lp)
                || old(self).current.spec_nodes()[idx as int].relaxed,
            (!old(self).current.spec_nodes()[idx as int].relaxed && !final(self).saturated && forall|j: int|
                0 <= j < old(self).next.spec_nodes().len() ==> !#[trigger] old(self).next.spec_nodes()[j].relaxed) ==> forall|j: int|
                0 <= j < final(self).next.spec_nodes().len() ==> !#[trigger] final(self).next.spec_nodes()[j].relaxed,
            old(self).saturated ==> final(self).saturated,
            ({
                let parent = old(self).current.spec_nodes()[idx as int];
                let child = parent.value + weight;
                let est = old(self).config.relaxation.spec_estimate(dest);
                let lb = old(self).best_lb as int;
                let path = parent.path@.push(decision);
                &&& isize::MIN <= child <= isize::MAX ==> added(
                    old(self).next.spec_nodes(),
                    final(self).next.spec_nodes(),
                    dest,
                    child as isize,
                    parent.relaxed,
                    path,
                    est,
                    lb,
                )
                &&& (child > isize::MAX && old(self).mddtype == MDDType::Relaxed) ==> added(
                    old(self).next.spec_nodes(),
                    final(self).next.spec_nodes(),
                    dest,
                    isize::MAX,
                    true,
                    path,
                    est,
                    lb,
                )
                &&& !(isize::MIN <= child <= isize::MAX) ==> final(self).saturated
                &&& (isize::MIN <= child <= isize::MAX) ==> final(self).saturated == old(self).saturated
                &&& (child < isize::MIN || (child > isize::MAX && old(self).mddtype != MDDType::Relaxed))
                    ==> final(self).next == old(self).next
            }),
            grows(old(self).next.spec_nodes(), final(self).next.spec_nodes()),
            g ==> forall|p: Seq<Decision>|
                #[trigger] follows(p, ord.push(decision.variable.0 as nat)) && handled_by(
                    &old(self).config.problem,
                    rs,
                    free0,
                    lp,
                    old(self).current.spec_nodes()[idx as int],
                    p,
                ) && p.last() == decision ==> accounted(
                    &old(self).config.problem,
                    &old(self).config.relaxation,
                    old(self).mddtype == MDDType::Relaxed && absorbing(&old(self).config.problem, &old(self).config.relaxation),
                    rs,
                    free0,
                    lp,
                    old(self).best_lb as int,
                    final(self).next.spec_nodes(),
                    p,
                ),
            isize::MIN <= old(self).current.spec_nodes()[idx as int].value + weight <= isize::MAX ==> kept(
                final(self).next.spec_nodes(),
                dest,
                old(self).config.relaxation.spec_estimate(dest),
                old(self).best_lb as int,
                old(self).current.spec_nodes()[idx as int].value + weight,
            ),
            (weight == 0 && dest == old(self).config.relaxation.spec_default_relaxed_state()) ==> kept(
                final(self).next.spec_nodes(),
                dest,
                old(self).config.relaxation.spec_estimate(dest),
                old(self).best_lb as int,
                old(self).current.spec_nodes()[idx as int].value as int,
            ),
    {
        let ghost free = fprev.remove(decision.variable.0 as nat);
        let ghost x = decision.variable.0 as nat;
        let ghost ordx = ord.push(x);
        let ghost pb = &self.config.problem;
        let ghost rlx = &self.config.relaxation;
        let ghost lb = self.best_lb as int;
        let ghost rel = self.mddtype == MDDType::Relaxed && absorbing(&self.config.problem, &self.config.relaxation);
        let parent = self.current.get(idx);
        let ghost par = *parent;
        proof {
            if !parent.relaxed {
                assert(follows(parent.path@, ord));
                assert(follows(parent.path@.push(decision), ordx)) by {
                    let pp = parent.path@.push(decision);
                    assert forall|j: int| 0 <= j < pp.len() implies #[trigger] pp[j].variable.0 == ordx[j] by {
                        if j < parent.path@.len() {
                            assert(pp[j] == parent.path@[j]);
                        }
                    }
                }
            }
            assert(node_ok(pb, rlx, rs, lp, free0, fprev, *parent));
            assert(parent.path@.push(decision).drop_last() =~= parent.path@);
            if !parent.relaxed {
                assert(run(pb, rs, free0, parent.path@.push(decision)) == Some((dest, free, parent.value - lp + weight)));
            }
        }
        match parent.value.checked_add(weight) {
            None => {
                if self.mddtype == MDDType::Relaxed && weight > 0 {
                    let mut path = parent.path.clone();
                    assert(path@ =~= parent.path@);
                    path.push(decision);
                    let node = Node { state: dest, value: isize::MAX, estimate: isize::MAX, relaxed: true, path };
                    self.add_node(node, Ghost(rs), Ghost(lp), Ghost(free0), Ghost(free), Ghost(ordx));
                    self.saturated = true;
                    proof {
                        if fits(pb, rs, free0, lp) && !par.relaxed {
                            assert(false);
                        }
                        if g {
                            lemma_child_accounted(pb, rlx, rel, rs, free0, lp, lb, ord, *parent, decision, dest, weight as int,
                                isize::MAX as int, self.next.spec_nodes());
                        }
                    }
                } else {
                    self.saturated = true;
                    proof {
                        if fits(pb, rs, free0, lp) && !par.relaxed {
                            assert(false);
                        }
                        if g {
                            if weight > 0 || self.mddtype != MDDType::Relaxed {
                                assert(!parent.relaxed);
                            } else {
                                assert forall|p: Seq<Decision>|
                                    #[trigger] follows(p, ordx) && handled_by(pb, rs, free0, lp, *parent, p) && p.last() == decision
                                    implies accounted(pb, rlx, rel, rs, free0, lp, lb, self.next.spec_nodes(), p) by {
                                    let q = p.drop_last();
                                    assert(follows(q, ord)) by {
                                        assert forall|j: int| 0 <= j < q.len() implies #[trigger] q[j].variable.0 == ord[j] by {
                                            assert(p[j].variable.0 == ordx[j]);
                                        }
                                    }
                                    lemma_run_free(pb, rs, free0, q, ord);
                                    if run(pb, rs, free0, p) is Some {
                                        assert(p == q.push(p.last()));
                                    }
                                }
                            }
                        }
                    }
                }
            },
            Some(value) => {
                let mut path = parent.path.clone();
                assert(path@ =~= parent.path@);
                path.push(decision);
                let node = Node { state: dest, value, estimate: isize::MAX, relaxed: parent.relaxed, path };
                proof {
                    assert(node.path@.drop_last() =~= parent.path@);
                }
                self.add_node(node, Ghost(rs), Ghost(lp), Ghost(free0), Ghost(free), Ghost(ordx));
                proof {
                    if g {
                        lemma_child_accounted(pb, rlx, rel, rs, free0, lp, lb, ord, *parent, decision, dest, weight as int,
                            value as int, self.next.spec_nodes());
                    }
                }
            },
        }
    }

    /// Puts the node that absorbs the nodes left aside in the next layer;
    /// its value is `ub`.
    fn add_default_relaxed_node(
        &mut self,
        ub: isize,
        Ghost(rs): Ghost<usize>,
        Ghost(lp): Ghost<int>,
        Ghost(free0): Ghost<Set<nat>>,
        Ghost(free): Ghost<Set<nat>>,
        Ghost(ord): Ghost<Seq<nat>>,
    )
        requires
            paths_follow(old(self).next.spec_nodes(), ord),
            old(self).wf(),
            old(self).mddtype == MDDType::Relaxed,
            old(self).next_ok(rs, lp, free0, free, true),
            old(self).best_node is None,
        ensures
            final(self).wf(),
            final(self).config == old(self).config,
            final(self).mddtype == old(self).mddtype,
            final(self).max_width == old(self).max_width,
            final(self).best_lb == old(self).best_lb,
            final(self).root_pa == old(self).root_pa,
            final(self).best_node is None,
            final(self).is_exact == old(self).is_exact,
            final(self).next_ok(rs, lp, free0, free, true),
            final(self).next.spec_nodes().len() <= old(self).next.spec_nodes().len() + 1,
            final(self).lel == old(self).lel,
            final(self).current == old(self).current,
            final(self).saturated == old(self).saturated,
            added(
                old(self).next.spec_nodes(),
                final(self).next.spec_nodes(),
                old(self).config.relaxation.spec_default_relaxed_state(),
                ub,
                true,
                Seq::<Decision>::empty(),
                old(self).config.relaxation.spec_estimate(old(self).config.relaxation.spec_default_relaxed_state()),
                old(self).best_lb as int,
            ),
            paths_follow(final(self).next.spec_nodes(), ord),
            grows(old(self).next.spec_nodes(), final(self).next.spec_nodes()),
            kept(
                final(self).next.spec_nodes(),
                old(self).config.relaxation.spec_default_relaxed_state(),
                old(self).config.relaxation.spec_estimate(old(self).config.relaxation.spec_default_relaxed_state()),
                old(self).best_lb as int,
                ub as int,
            ),
    {
        let state = self.config.relaxation.default_relaxed_state();
        let node = Node { state, value: ub, estimate: isize::MAX, relaxed: true, path: Vec::new() };
        assert(node.path@ =~= Seq::<Decision>::empty());
        self.add_node(node, Ghost(rs), Ghost(lp), Ghost(free0), Ghost(free), Ghost(ord));
    }

    /// Inserts `node` in the next layer when it beats the best known lower
    /// bound, or merges it with the node of the same state.
    fn add_node(
        &mut self,
        node: Node,
        Ghost(rs): Ghost<usize>,
        Ghost(lp): Ghost<int>,
        Ghost(free0): Ghost<Set<nat>>,
        Ghost(free): Ghost<Set<nat>>,
        Ghost(ord): Ghost<Seq<nat>>,
    )
        requires
            paths_follow(old(self).next.spec_nodes(), ord),
            !node.relaxed ==> follows(node.path@, ord),
            old(self).wf(),
            node.estimate == isize::MAX,
            !node.relaxed ==> run(&old(self).config.problem, rs, free0, node.path@) == Some((node.state, free, node.value - lp)),
            old(self).mddtype != MDDType::Relaxed ==> !node.relaxed,
            old(self).next_ok(rs, lp, free0, free, true),
            old(self).best_node is None,
        ensures
            final(self).wf(),
            final(self).current == old(self).current,
            final(self).lel == old(self).lel,
            final(self).config == old(self).config,
            final(self).mddtype == old(self).mddtype,
            final(self).max_width == old(self).max_width,
            final(self).best_lb == old(self).best_lb,
            final(self).root_pa == old(self).root_pa,
            final(self).best_node is None,
            final(self).is_exact == old(self).is_exact,
            final(self).next_ok(rs, lp, free0, free, true),
            final(self).saturated == old(self).saturated,
            paths_follow(final(self).next.spec_nodes(), ord),
            final(self).next.spec_nodes().len() <= old(self).next.spec_nodes().len() + 1,
            grows(old(self).next.spec_nodes(), final(self).next.spec_nodes()),
            (!node.relaxed && forall|j: int| 0 <= j < old(self).next.spec_nodes().len() ==> !#[trigger] old(self).next.spec_nodes()[j].relaxed)
                ==> forall|j: int| 0 <= j < final(self).next.spec_nodes().len() ==> !#[trigger] final(self).next.spec_nodes()[j].relaxed,
            (exists|i: int| 0 <= i < final(self).next.spec_nodes().len() && #[trigger] final(self).next.spec_nodes()[i].state == node.state
                && final(self).next.spec_nodes()[i].value >= node.value)
                || clamp(node.value + old(self).config.relaxation.spec_estimate(node.state)) <= old(self).best_lb,
            added(
                old(self).next.spec_nodes(),
                final(self).next.spec_nodes(),
                node.state,
                node.value,
                node.relaxed,
                node.path@,
                old(self).config.relaxation.spec_estimate(node.state),
                old(self).best_lb as int,
            ),
    {
        let ghost oldn = self.next.spec_nodes();
        let ghost npath = node.path@;
        match self.next.find(node.state) {
            None => {
                let estimate = self.config.relaxation.estimate(&node.state);
                let fresh = Node { state: node.state, value: node.value, estimate, relaxed: node.relaxed, path: node.path };
                if fresh.ub() > self.best_lb {
                    self.next.push(fresh);
                    assert forall|i: int| 0 <= i < self.next.spec_nodes().len() implies {
                        &&& node_ok(&self.config.problem, &self.config.relaxation, rs, lp, free0, free, #[trigger] self.next.spec_nodes()[i])
                        &&& self.next.spec_nodes()[i].spec_ub() > self.best_lb
                        &&& self.mddtype != MDDType::Relaxed ==> !self.next.spec_nodes()[i].relaxed
                    } by {
                        if i < old(self).next.spec_nodes().len() {
                            assert(self.next.spec_nodes()[i] == old(self).next.spec_nodes()[i]);
                        }
                    }
                    let ghost last: int = self.next.spec_nodes().len() - 1;
                    assert(self.next.spec_nodes()[last].state == node.state);
                }
                assert(!(exists|i: int| 0 <= i < oldn.len() && oldn[i].state == node.state));
            },
            Some(i) => {
                let old_node = self.next.get(i);
                let keep_new = node.value > old_node.value;
                let value = if keep_new { node.value } else { old_node.value };
                let estimate = if node.estimate < old_node.estimate { node.estimate } else { old_node.estimate };
                let relaxed = old_node.relaxed || node.relaxed;
                let path = if keep_new {
                    node.path
                } else {
                    let p = old_node.path.clone();
                    assert(p@ =~= old_node.path@);
                    p
                };
                let merged = Node { state: old_node.state, value, estimate, relaxed, path };
                proof {
                    self.next.lemma_unique_state(i as int);
                    let o = old(self).next.spec_nodes()[i as int];
                    assert(node_ok(&self.config.problem, &self.config.relaxation, rs, lp, free0, free, o));
                }
                self.next.replace(i, merged);
                assert forall|k: int| 0 <= k < self.next.spec_nodes().len() implies {
                    &&& node_ok(&self.config.problem, &self.config.relaxation, rs, lp, free0, free, #[trigger] self.next.spec_nodes()[k])
                    &&& self.next.spec_nodes()[k].spec_ub() > self.best_lb
                    &&& self.mddtype != MDDType::Relaxed ==> !self.next.spec_nodes()[k].relaxed
                } by {
                    if k != i {
                        assert(self.next.spec_nodes()[k] == old(self).next.spec_nodes()[k]);
                    }
                }
                assert(self.next.spec_nodes()[i as int].state == node.state);
                proof {
                    let newn = self.next.spec_nodes();
                    assert forall|m: int| 0 <= m < oldn.len() && #[trigger] oldn[m].state == node.state implies {
                        &&& newn.len() == oldn.len()
                        &&& forall|j: int| 0 <= j < oldn.len() && j != m ==> newn[j] == oldn[j]
                        &&& newn[m].state == node.state
                        &&& newn[m].value == if node.value > oldn[m].value { node.value } else { oldn[m].value }
                        &&& newn[m].estimate == oldn[m].estimate
                        &&& newn[m].relaxed == (oldn[m].relaxed || node.relaxed)
                        &&& newn[m].path@ == if node.value > oldn[m].value { npath } else { oldn[m].path@ }
                    } by {
                        assert(m == i);
                    }
                    assert(oldn[i as int].state == node.state);
                }
            },
        }
    }

    /// Picks the node of largest value in the last layer (the last one
    /// among equals).
    fn finalize(&mut self) -> (c: Completion)
        requires
            old(self).wf(),
        ensures
            final(self).wf(),
            final(self).current == old(self).current,
            final(self).next == old(self).next,
            final(self).lel == old(self).lel,
            final(self).config == old(self).config,
            final(self).mddtype == old(self).mddtype,
            final(self).max_width == old(self).max_width,
            final(self).best_lb == old(self).best_lb,
            final(self).root_pa == old(self).root_pa,
            final(self).is_exact == old(self).is_exact,
            match final(self).best_node {
                None => final(self).next.spec_nodes().len() == 0,
                Some(b) => b < final(self).next.spec_nodes().len() && forall|i: int|
                    0 <= i < final(self).next.spec_nodes().len() ==> #[trigger] final(self).next.spec_nodes()[i].value
                        <= final(self).next.spec_nodes()[b as int].value,
            },
            c == (Completion { is_exact: final(self).spec_is_exact(), best_value: final(self).spec_best_value() }),
    {
        let mut best: Option<usize> = None;
        let mut i: usize = 0;
        while i < self.next.len()
            invariant
                self.next.wf(),
                i <= self.next.spec_nodes().len(),
                match best {
                    None => i == 0,
                    Some(b) => b < i && forall|k: int| 0 <= k < i ==> #[trigger] self.next.spec_nodes()[k].value
                        <= self.next.spec_nodes()[b as int].value,
                },
            decreases self.next.spec_nodes().len() - i,
        {
            let better = match best {
                None => true,
                Some(b) => self.next.get(i).value >= self.next.get(b).value,
            };
            if better {
                best = Some(i);
            }
            i = i + 1;
        }
        self.best_node = best;
        let best_value = match best {
            Some(b) => Some(self.next.get(b).value),
            None => None,
        };
        Completion { is_exact: self.is_exact(), best_value }
    }

    /// The frontier node standing for the node `n` of the last exact layer.
    fn to_frontier_node(&self, n: &Node) -> (r: FrontierNode)
        ensures
            r.state == n.state,
            r.lp_len == n.value,
            r.ub == clamp(n.spec_ub()),
            r.path@ == self.root_pa@ + n.path@,
    {
        FrontierNode { state: n.state, lp_len: n.value, ub: n.ub(), path: concat(&self.root_pa, &n.path) }
    }

    /// The subproblems left open by the last diagram. A restricted diagram
    /// reopens its last exact layer; a relaxed one does so only when its best
    /// value beats the best known lower bound, and then bounds each node by
    /// that value. An exact diagram, or one that squashed no layer, leaves
    /// nothing open.
    pub fn cutset(&self) -> (r: Vec<FrontierNode>)
        requires
            self.wf(),
        ensures
            ({
                let lel = self.spec_lel();
                let bv = match self.spec_best_value() {
                    Some(v) => v,
                    None => isize::MIN,
                };
                let open = !self.spec_exact_flag() && (self.spec_type() == MDDType::Restricted || (
                self.spec_type() == MDDType::Relaxed && bv > self.spec_best_lb()));
                &&& open ==> r@.len() == lel.len()
                &&& !open ==> r@.len() == 0
                &&& forall|i: int| 0 <= i < r@.len() ==> {
                    &&& (#[trigger] r@[i]).state == lel[i].state
                    &&& r@[i].lp_len == lel[i].value
                    &&& r@[i].path@ == self.spec_root_path() + lel[i].path@
                    &&& r@[i].ub <= clamp(lel[i].spec_ub())
                    &&& self.spec_type() == MDDType::Restricted ==> r@[i].ub == clamp(lel[i].spec_ub())
                    &&& self.spec_type() == MDDType::Relaxed ==> r@[i].ub == if clamp(lel[i].spec_ub()) < bv {
                        clamp(lel[i].spec_ub())
                    } else {
                        bv
                    }
                }
            }),
    {
        let mut r: Vec<FrontierNode> = Vec::new();
        if self.is_exact {
            return r;
        }
        let bv = self.best_value();
        let open = match self.mddtype {
            MDDType::Exact => false,
            MDDType::Restricted => true,
            MDDType::Relaxed => bv > self.best_lb,
        };
        if !open {
            return r;
        }
        let mut i: usize = 0;
        while i < self.lel.len()
            invariant
                self.wf(),
                open,
                !self.is_exact,
                self.mddtype != MDDType::Exact,
                self.mddtype == MDDType::Relaxed ==> bv > self.best_lb,
                bv == match self.spec_best_value() {
                    Some(v) => v,
                    None => isize::MIN,
                },
                i <= self.lel.spec_nodes().len(),
                r@.len() == i,
                forall|k: int| 0 <= k < r@.len() ==> {
                    &&& (#[trigger] r@[k]).state == self.lel.spec_nodes()[k].state
                    &&& r@[k].lp_len == self.lel.spec_nodes()[k].value
                    &&& r@[k].path@ == self.root_pa@ + self.lel.spec_nodes()[k].path@
                    &&& r@[k].ub <= clamp(self.lel.spec_nodes()[k].spec_ub())
                    &&& self.mddtype == MDDType::Restricted ==> r@[k].ub == clamp(self.lel.spec_nodes()[k].spec_ub())
                    &&& self.mddtype == MDDType::Relaxed ==> r@[k].ub == if clamp(self.lel.spec_nodes()[k].spec_ub()) < bv {
                        clamp(self.lel.spec_nodes()[k].spec_ub())
                    } else {
                        bv
                    }
                },
            decreases self.lel.spec_nodes().len() - i,
        {
            let mut f = self.to_frontier_node(self.lel.get(i));
            if self.mddtype == MDDType::Relaxed && bv <= f.ub {
                f.ub = bv;
            }
            r.push(f);
            i = i + 1;
        }
        r
    }
}

/// The positions of the nodes of `layer`, by decreasing value.
fn sorted_indices(layer: &Layer) -> (r: Vec<usize>)
    ensures
        r@.len() == layer.spec_nodes().len(),
        forall|k: int| 0 <= k < r@.len() ==> #[trigger] r@[k] < layer.spec_nodes().len(),
        forall|a: int, b: int| 0 <= a < b < r@.len() ==> layer.spec_nodes()[r@[a] as int].value
            >= layer.spec_nodes()[r@[b] as int].value,
        forall|m: usize| m < layer.spec_nodes().len() ==> #[trigger] r@.contains(m),
{
    let n = layer.len();
    let mut r: Vec<usize> = Vec::new();
    let mut i: usize = 0;
    while i < n
        invariant
            i <= n,
            n == layer.spec_nodes().len(),
            r@.len() == i,
            forall|k: int| 0 <= k < r@.len() ==> #[trigger] r@[k] < n,
            forall|a: int, b: int| 0 <= a < b < r@.len() ==> layer.spec_nodes()[r@[a] as int].value
                >= layer.spec_nodes()[r@[b] as int].value,
            forall|m: usize| m < i ==> #[trigger] r@.contains(m),
        decreases n - i,
    {
        // insert i after the last position whose value is at least its own
        let v = layer.get(i).value;
        let mut j: usize = r.len();
        while j > 0 && layer.get(r[j - 1]).value < v
            invariant
                j <= r@.len(),
                r@.len() == i,
                i < n,
                n == layer.spec_nodes().len(),
                v == layer.spec_nodes()[i as int].value,
                forall|k: int| 0 <= k < r@.len() ==> #[trigger] r@[k] < n,
                forall|k: int| j <= k < r@.len() ==> layer.spec_nodes()[#[trigger] r@[k] as int].value < v,
            decreases j,
        {
            j = j - 1;
        }
        let ghost before = r@;
        r.insert(j, i);
        assert forall|m: usize| m < i + 1 implies #[trigger] r@.contains(m) by {
            if m == i {
                assert(r@[j as int] == m);
            } else {
                assert(before.contains(m));
                let k = choose|k: int| 0 <= k < before.len() && before[k] == m;
                if k < j {
                    assert(r@[k] == m);
                } else {
                    assert(r@[k + 1] == m);
                }
            }
        }
        assert forall|a: int, b: int| 0 <= a < b < r@.len() implies layer.spec_nodes()[r@[a] as int].value
            >= layer.spec_nodes()[r@[b] as int].value by {
            if j > 0 {
                assert(layer.spec_nodes()[before[j - 1] as int].value >= v);
            }
            if a < j && b == j {
                assert(layer.spec_nodes()[before[a] as int].value >= layer.spec_nodes()[before[j - 1] as int].value);
            }
        }
        i = i + 1;
    }
    r
}

/// The largest saturated upper bound among the nodes `layer[buffer[k]]`
/// for `k` in `[from, buffer.len())`.
fn max_ub_from(layer: &Layer, buffer: &Vec<usize>, from: usize) -> (r: isize)
    requires
        from < buffer@.len(),
        forall|k: int| 0 <= k < buffer@.len() ==> #[trigger] buffer@[k] < layer.spec_nodes().len(),
    ensures
        is_max_ub(r, layer.spec_nodes(), buffer@, from as int),
{
    let n = buffer.len();
    let mut best = layer.get(buffer[from]).ub();
    let mut k: usize = from + 1;
    assert(buffer@.subrange(0, k as int)[from as int] == buffer@[from as int]);
    while k < buffer.len()
        invariant
            from < k <= buffer@.len(),
            forall|m: int| 0 <= m < buffer@.len() ==> #[trigger] buffer@[m] < layer.spec_nodes().len(),
            is_max_ub(best, layer.spec_nodes(), buffer@.subrange(0, k as int), from as int),
        decreases buffer@.len() - k,
    {
        let u = layer.get(buffer[k]).ub();
        proof {
            let s = buffer@.subrange(0, k as int);
            let t = buffer@.subrange(0, k + 1);
            assert forall|m: int| from <= m < k implies t[m] == s[m] by {}
            let w = choose|m: int| from <= m < s.len() && best == clamp(#[trigger] layer.spec_nodes()[s[m] as int].spec_ub());
            assert(t[w] == s[w]);
            assert(t[k as int] == buffer@[k as int]);
        }
        if u > best {
            best = u;
        }
        k = k + 1;
    }
    assert(buffer@.subrange(0, buffer@.len() as int) =~= buffer@);
    best
}

/// Following any path of a problem whose transitions all cost nothing
/// gains nothing.
pub proof fn lemma_run_zero_cost<P: Problem>(pb: &P, s: usize, free: Set<nat>, path: Seq<Decision>)
    requires
        forall|t: usize, f: Set<nat>, d: Decision| #[trigger] pb.spec_cost(t, f, d) == 0,
    ensures
        run(pb, s, free, path) matches Some((_, _, v)) ==> v == 0,
    decreases path.len(),
{
    if path.len() > 0 {
        lemma_run_zero_cost(pb, s, free, path.drop_last());
    }
}

impl<P: Problem, R: Relaxation, W: WidthHeuristic, V: VariableHeuristic, C: Cutoff> AggressivelyBoundedMDD<
    P,
    R,
    W,
    V,
    C,
> {
    /// When the relaxation is admissible, the upper bound of every node of
    /// the last layer is at least its value plus the value of any complete
    /// assignment from its state, whatever variables of the problem remain
    /// free.
    pub proof fn lemma_node_bound_admissible(&self, root: &FrontierNode, best_lb: isize, ty: MDDType)
        requires
            self.compiled(root, best_lb, ty),
            admissible(&self.spec_config().problem, &self.spec_config().relaxation),
        ensures
            forall|i: int, free: Set<nat>, path: Seq<Decision>, v: int|
                0 <= i < self.spec_final_layer().len() && free.subset_of(below(self.spec_config().problem.spec_nb_vars()))
                    && #[trigger] completes(&self.spec_config().problem, self.spec_final_layer()[i].state, free, path, v)
                    ==> self.spec_final_layer()[i].spec_ub() >= self.spec_final_layer()[i].value + v,
    {
        let layer = self.spec_final_layer();
        assert forall|i: int, free: Set<nat>, path: Seq<Decision>, v: int|
            0 <= i < layer.len() && free.subset_of(below(self.spec_config().problem.spec_nb_vars()))
                && #[trigger] completes(&self.spec_config().problem, layer[i].state, free, path, v)
            implies layer[i].spec_ub() >= layer[i].value + v by {
            assert(layer[i].estimate == self.spec_config().relaxation.spec_estimate(layer[i].state));
        }
    }

    /// An exact diagram of a subproblem whose path values fit in an `isize`
    /// is exact, and its best value is gained by a complete assignment of the
    /// subproblem: its best solution.
    pub proof fn lemma_exact_outcome(&self, root: &FrontierNode, best_lb: isize)
        requires
            self.compiled(root, best_lb, MDDType::Exact),
            fits(
                &self.spec_config().problem,
                root.state,
                free_after(self.spec_config().problem.spec_nb_vars(), root.path@),
                root.lp_len as int,
            ),
        ensures
            self.spec_is_exact(),
            self.spec_best_node() matches Some(n) ==> completes(
                &self.spec_config().problem,
                root.state,
                free_after(self.spec_config().problem.spec_nb_vars(), root.path@),
                n.path@,
                n.value - root.lp_len,
            ),
    {
        if let Some(b) = self.spec_best_index() {
            assert(!self.spec_final_layer()[b as int].relaxed);
        }
    }

    /// When the relaxation is admissible and no path value overflows, the
    /// best value of an exact diagram, or of any diagram that squashed no
    /// layer, is the optimum of the subproblem over the assignments that
    /// bind its variables in the diagram's order: no such assignment gains
    /// more, unless the best known lower bound already dominates it.
    pub proof fn lemma_exact_is_optimal(&self, root: &FrontierNode, best_lb: isize, ty: MDDType)
        requires
            self.compiled(root, best_lb, ty),
            ty == MDDType::Exact || self.spec_exact_flag(),
            fits(
                &self.spec_config().problem,
                root.state,
                free_after(self.spec_config().problem.spec_nb_vars(), root.path@),
                root.lp_len as int,
            ),
            admissible(&self.spec_config().problem, &self.spec_config().relaxation),
        ensures
            self.spec_is_exact(),
            order_set(self.spec_order()) == free_after(self.spec_config().problem.spec_nb_vars(), root.path@),
            forall|p: Seq<Decision>, v: int|
                follows(p, self.spec_order()) && #[trigger] completes(
                    &self.spec_config().problem,
                    root.state,
                    free_after(self.spec_config().problem.spec_nb_vars(), root.path@),
                    p,
                    v,
                ) ==> root.lp_len + v <= best_lb || (self.spec_best_value() matches Some(b) && root.lp_len + v <= b),
    {
        let pb = &self.spec_config().problem;
        let rlx = &self.spec_config().relaxation;
        let free0 = free_after(pb.spec_nb_vars(), root.path@);
        let layer = self.spec_final_layer();
        let lp = root.lp_len as int;
        let rel = ty == MDDType::Relaxed && absorbing(pb, rlx);
        assert forall|p: Seq<Decision>, v: int|
            follows(p, self.spec_order()) && #[trigger] completes(pb, root.state, free0, p, v)
            implies root.lp_len + v <= best_lb || (self.spec_best_value() matches Some(b) && root.lp_len + v <= b) by {
            assert(accounted(pb, rlx, rel, root.state, free0, lp, best_lb as int, layer, p));
            let (s, _, w) = run(pb, root.state, free0, p)->0;
            assert(p + Seq::<Decision>::empty() =~= p);
            assert(completes(pb, root.state, free0, p + Seq::<Decision>::empty(), v));
            if exists|i: int| 0 <= i < layer.len() && #[trigger] layer[i].state == s && layer[i].value >= lp + w {
                let i = choose|i: int| 0 <= i < layer.len() && #[trigger] layer[i].state == s && layer[i].value >= lp + w;
                let b = self.spec_best_index()->0;
                assert(layer[i].value <= layer[b as int].value);
            } else if !dominated(pb, root.state, free0, lp, best_lb as int, p) {
                let z = rlx.spec_default_relaxed_state();
                let i = choose|i: int| 0 <= i < layer.len() && #[trigger] layer[i].state == z
                    && dominated_by(pb, root.state, free0, lp, layer[i].value as int, p);
                let b = self.spec_best_index()->0;
                assert(layer[i].value <= layer[b as int].value);
            }
        }
    }

    /// A relaxed diagram bounds the optimum of its subproblem from above:
    /// no assignment that binds the variables in the diagram's order gains
    /// more than its best value, unless the best known lower bound already
    /// dominates it. This holds when the relaxation is admissible, no path
    /// value overflows, and the relaxed state can always take a value that
    /// costs nothing and keeps it relaxed.
    pub proof fn lemma_relaxed_is_upper_bound(&self, root: &FrontierNode, best_lb: isize)
        requires
            self.compiled(root, best_lb, MDDType::Relaxed),
            fits(
                &self.spec_config().problem,
                root.state,
                free_after(self.spec_config().problem.spec_nb_vars(), root.path@),
                root.lp_len as int,
            ),
            admissible(&self.spec_config().problem, &self.spec_config().relaxation),
            absorbing(&self.spec_config().problem, &self.spec_config().relaxation),
        ensures
            order_set(self.spec_order()) == free_after(self.spec_config().problem.spec_nb_vars(), root.path@),
            forall|p: Seq<Decision>, v: int|
                follows(p, self.spec_order()) && #[trigger] completes(
                    &self.spec_config().problem,
                    root.state,
                    free_after(self.spec_config().problem.spec_nb_vars(), root.path@),
                    p,
                    v,
                ) ==> root.lp_len + v <= best_lb || (self.spec_best_value() matches Some(b) && root.lp_len + v <= b),
    {
        let pb = &self.spec_config().problem;
        let rlx = &self.spec_config().relaxation;
        let free0 = free_after(pb.spec_nb_vars(), root.path@);
        let layer = self.spec_final_layer();
        let lp = root.lp_len as int;
        assert forall|p: Seq<Decision>, v: int|
            follows(p, self.spec_order()) && #[trigger] completes(pb, root.state, free0, p, v)
            implies root.lp_len + v <= best_lb || (self.spec_best_value() matches Some(b) && root.lp_len + v <= b) by {
            assert(accounted(pb, rlx, true, root.state, free0, lp, best_lb as int, layer, p));
            let (s, _, w) = run(pb, root.state, free0, p)->0;
            assert(p + Seq::<Decision>::empty() =~= p);
            assert(completes(pb, root.state, free0, p + Seq::<Decision>::empty(), v));
            if exists|i: int| 0 <= i < layer.len() && #[trigger] layer[i].state == s && layer[i].value >= lp + w {
                let i = choose|i: int| 0 <= i < layer.len() && #[trigger] layer[i].state == s && layer[i].value >= lp + w;
                let b = self.spec_best_index()->0;
                assert(layer[i].value <= layer[b as int].value);
            } else if !dominated(pb, root.state, free0, lp, best_lb as int, p) {
                let z = rlx.spec_default_relaxed_state();
                let i = choose|i: int| 0 <= i < layer.len() && #[trigger] layer[i].state == z
                    && dominated_by(pb, root.state, free0, lp, layer[i].value as int, p);
                let b = self.spec_best_index()->0;
                assert(layer[i].value <= layer[b as int].value);
            }
        }
    }

    /// The best value of a restricted (or exact) diagram is gained by a
    /// complete assignment of the subproblem, so that it is at most the
    /// optimum: at most every bound on what complete assignments gain.
    pub proof fn lemma_restricted_is_lower_bound(&self, root: &FrontierNode, best_lb: isize, ty: MDDType, opt: int)
        requires
            ty != MDDType::Relaxed,
            self.compiled(root, best_lb, ty),
            forall|path: Seq<Decision>, v: int|
                #[trigger] completes(
                    &self.spec_config().problem,
                    root.state,
                    free_after(self.spec_config().problem.spec_nb_vars(), root.path@),
                    path,
                    v,
                ) ==> v <= opt,
        ensures
            self.spec_best_node() matches Some(n) ==> {
                &&& completes(
                    &self.spec_config().problem,
                    root.state,
                    free_after(self.spec_config().problem.spec_nb_vars(), root.path@),
                    n.path@,
                    n.value - root.lp_len,
                )
                &&& n.value - root.lp_len <= opt
            },
    {
        if let Some(b) = self.spec_best_index() {
            assert(!self.spec_final_layer()[b as int].relaxed);
        }
    }

    /// A subproblem with one free variable whose domain is empty in the root
    /// state has no solution: an exact or restricted diagram keeps no node,
    /// nor does a relaxed one when no path value overflows.
    pub proof fn lemma_empty_domain(&self, root: &FrontierNode, best_lb: isize, ty: MDDType, x: nat)
        requires
            ty != MDDType::Relaxed || fits(
                &self.spec_config().problem,
                root.state,
                free_after(self.spec_config().problem.spec_nb_vars(), root.path@),
                root.lp_len as int,
            ),
            self.compiled(root, best_lb, ty),
            free_after(self.spec_config().problem.spec_nb_vars(), root.path@) == set![x],
            self.spec_config().problem.spec_domain(root.state, x) == Seq::<isize>::empty(),
        ensures
            self.spec_best_value() is None,
            self.spec_final_layer().len() == 0,
    {
        let pb = &self.spec_config().problem;
        let free0 = free_after(pb.spec_nb_vars(), root.path@);
        let layer = self.spec_final_layer();
        if ty == MDDType::Relaxed {
            let first = self.spec_first();
            assert(free0.contains(x));
            if first.len() > 0 {
                let n = first[0];
                assert(!first[0].relaxed);
                assert(run(pb, root.state, free0, n.path@) == Some((n.state, self.spec_free1(), n.value - root.lp_len)));
                if n.path@.len() == 0 {
                    assert(false);
                } else {
                    lemma_run_first(pb, root.state, free0, n.path@);
                }
            }
        } else if layer.len() > 0 {
            let n = layer[0];
            assert(!n.relaxed);
            assert(run(pb, root.state, free0, n.path@) == Some((n.state, Set::<nat>::empty(), n.value - root.lp_len)));
            if n.path@.len() == 0 {
                assert(free0.contains(x));
            } else {
                lemma_run_first(pb, root.state, free0, n.path@);
            }
        }
    }

    /// A relaxed diagram of width one over two variables or more, whose path
    /// values fit in an `isize`, squashes its second layer: its last exact
    /// layer, which its cutset reopens, is the layer of the first variable.
    pub proof fn lemma_unit_width_relaxed_cutset(&self, root: &FrontierNode, best_lb: isize)
        requires
            self.compiled(root, best_lb, MDDType::Relaxed),
            self.spec_max_width() == 1,
            free_after(self.spec_config().problem.spec_nb_vars(), root.path@).len() >= 2,
            fits(
                &self.spec_config().problem,
                root.state,
                free_after(self.spec_config().problem.spec_nb_vars(), root.path@),
                root.lp_len as int,
            ),
            self.spec_first().len() > 0,
        ensures
            !self.spec_exact_flag(),
            self.spec_lel() == self.spec_first(),
    {
    }

    /// With a width of one, a bounded diagram over two variables or more
    /// ends with at most one node.
    pub proof fn lemma_unit_width(&self, root: &FrontierNode, best_lb: isize, ty: MDDType)
        requires
            ty != MDDType::Exact,
            self.compiled(root, best_lb, ty),
            self.spec_max_width() == 1,
            free_after(self.spec_config().problem.spec_nb_vars(), root.path@).len() >= 2,
        ensures
            self.spec_final_layer().len() <= 1,
    {
    }

    /// When no transition costs anything, the best value of an exact or
    /// restricted diagram, if any, is the value of its root.
    pub proof fn lemma_zero_costs(&self, root: &FrontierNode, best_lb: isize, ty: MDDType)
        requires
            ty != MDDType::Relaxed,
            self.compiled(root, best_lb, ty),
            forall|t: usize, f: Set<nat>, d: Decision| #[trigger] self.spec_config().problem.spec_cost(t, f, d) == 0,
        ensures
            self.spec_best_value() matches Some(v) ==> v == root.lp_len,
    {
        if let Some(b) = self.spec_best_index() {
            let n = self.spec_final_layer()[b as int];
            assert(!n.relaxed);
            lemma_run_zero_cost(
                &self.spec_config().problem,
                root.state,
                free_after(self.spec_config().problem.spec_nb_vars(), root.path@),
                n.path@,
            );
        }
    }

    /// When the best known lower bound is at least the value plus the
    /// estimate of every state that a path of the subproblem reaches, an
    /// exact or restricted diagram keeps no node, nor does a relaxed one when
    /// no path value overflows.
    pub proof fn lemma_incumbent_prunes(&self, root: &FrontierNode, best_lb: isize, ty: MDDType)
        requires
            ty != MDDType::Relaxed || fits(
                &self.spec_config().problem,
                root.state,
                free_after(self.spec_config().problem.spec_nb_vars(), root.path@),
                root.lp_len as int,
            ),
            self.compiled(root, best_lb, ty),
            free_after(self.spec_config().problem.spec_nb_vars(), root.path@) != Set::<nat>::empty(),
            forall|path: Seq<Decision>|
                #[trigger] run(
                    &self.spec_config().problem,
                    root.state,
                    free_after(self.spec_config().problem.spec_nb_vars(), root.path@),
                    path,
                ) matches Some((s, _, v)) ==> root.lp_len + v + self.spec_config().relaxation.spec_estimate(s) <= best_lb,
        ensures
            self.spec_best_index() is None,
            self.spec_final_layer().len() == 0,
    {
        let layer = self.spec_final_layer();
        if ty == MDDType::Relaxed {
            let first = self.spec_first();
            if first.len() > 0 {
                let n = first[0];
                let free0 = free_after(self.spec_config().problem.spec_nb_vars(), root.path@);
                assert(first[0].spec_ub() > best_lb);
                assert(!first[0].relaxed);
                assert(run(&self.spec_config().problem, root.state, free0, n.path@) == Some((n.state, self.spec_free1(), n.value - root.lp_len)));
            }
        } else if layer.len() > 0 {
            let n = layer[0];
            assert(!n.relaxed);
            assert(n.spec_ub() > best_lb);
            let free0 = free_after(self.spec_config().problem.spec_nb_vars(), root.path@);
            assert(run(&self.spec_config().problem, root.state, free0, n.path@) == Some((n.state, Set::<nat>::empty(), n.value - root.lp_len)));
            assert(n.estimate == self.spec_config().relaxation.spec_estimate(n.state));
        }
    }
}

} // verus!
