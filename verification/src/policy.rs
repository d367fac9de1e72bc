//! Layer policies: which modules each layer owns, which layers it may
//! reference, and the findings of checking a graph against them.

use vstd::prelude::*;
use crate::text::{
    chars_of, push_text, push_slice, push_debug, push_decimal, decimal, debug_quoted, text_eq,
    string_of, has_prefix,
};
use crate::graph::{
    Graph, GraphView, Edge, EdgeView, within, within_spec, validate_spec, owned, edge_debug,
    push_edge_debug, path_separator,
};
use crate::cycle::{first_cycle, adjacency_rows, dfs_cycle, has_edge, is_cycle};

verus! {

// ---------------------------------------------------------------------------
// Declarations
// ---------------------------------------------------------------------------

/// A layer: its name, the module that selects what it owns, and the names of
/// the layers it may reference directly.
#[derive(Debug, Clone, Copy)]
pub struct Layer {
    pub name: &'static str,
    pub module: &'static str,
    pub allows: &'static [&'static str],
}

/// The characters of a layer's declaration.
pub struct LayerView {
    pub name: Seq<char>,
    pub module: Seq<char>,
    pub allows: Seq<Seq<char>>,
}

impl View for Layer {
    type V = LayerView;

    open spec fn view(&self) -> LayerView {
        LayerView {
            name: self.name@,
            module: self.module@,
            allows: self.allows@.map_values(|a: &str| a@),
        }
    }
}

/// The characters of a sequence of layer declarations.
pub open spec fn layer_views(ls: Seq<Layer>) -> Seq<LayerView> {
    ls.map_values(|l: Layer| l@)
}

/// The layers of an architecture, and whether references between layers
/// must not form a cycle.
#[derive(Debug, Clone, Copy)]
pub struct Policy {
    pub layers: &'static [Layer],
    pub acyclic: bool,
}

/// The contents of a policy.
pub struct PolicyView {
    pub layers: Seq<LayerView>,
    pub acyclic: bool,
}

impl View for Policy {
    type V = PolicyView;

    open spec fn view(&self) -> PolicyView {
        PolicyView { layers: layer_views(self.layers@), acyclic: self.acyclic }
    }
}

/// A problem that checking reports.
#[derive(Debug, Clone, PartialEq, Eq)]
pub enum Finding {
    /// The graph or the policy is malformed; nothing else was checked.
    Invalid(String),
    /// A layer owns no module of the graph.
    MissingLayer(String),
    /// A module belongs to no layer.
    Unclassified(String),
    /// A reference from layer `from` to layer `to` that `from` does not allow.
    Forbidden { from: String, to: String, edge: Edge },
    /// Layer names along a cycle of references between layers; the first
    /// name is repeated at the end.
    Cycle(Vec<String>),
}

/// The characters of a finding.
pub enum FindingView {
    Invalid(Seq<char>),
    MissingLayer(Seq<char>),
    Unclassified(Seq<char>),
    Forbidden { from: Seq<char>, to: Seq<char>, edge: EdgeView },
    Cycle(Seq<Seq<char>>),
}

impl View for Finding {
    type V = FindingView;

    open spec fn view(&self) -> FindingView {
        match self {
            Finding::Invalid(s) => FindingView::Invalid(s@),
            Finding::MissingLayer(s) => FindingView::MissingLayer(s@),
            Finding::Unclassified(s) => FindingView::Unclassified(s@),
            Finding::Forbidden { from, to, edge } => FindingView::Forbidden {
                from: from@,
                to: to@,
                edge: edge@,
            },
            Finding::Cycle(names) => FindingView::Cycle(names@.map_values(|s: String| s@)),
        }
    }
}

/// The findings of a vector.
pub open spec fn findings_view(v: Seq<Finding>) -> Seq<FindingView> {
    v.map_values(|f: Finding| f@)
}

/// The outcome of a check.
pub open spec fn outcome_view(r: Result<(), Vec<Finding>>) -> Result<(), Seq<FindingView>> {
    match r {
        Ok(()) => Ok(()),
        Err(v) => Err(findings_view(v@)),
    }
}

// ---------------------------------------------------------------------------
// Searching index ranges
// ---------------------------------------------------------------------------

/// The first index in `lo..hi` that satisfies `p`, or -1 when none does.
pub open spec fn first_in(lo: int, hi: int, p: spec_fn(int) -> bool) -> int
    decreases hi - lo,
{
    if lo >= hi {
        -1
    } else if p(lo) {
        lo
    } else {
        first_in(lo + 1, hi, p)
    }
}

/// `first_in` finds the first index that satisfies `p`.
pub proof fn lemma_first_in(lo: int, hi: int, p: spec_fn(int) -> bool, i: int)
    requires
        lo <= i <= hi,
        forall|k: int| lo <= k < i ==> !#[trigger] p(k),
        i < hi ==> p(i),
    ensures
        first_in(lo, hi, p) == (if i < hi {
            i
        } else {
            -1
        }),
    decreases i - lo,
{
    if lo < i {
        lemma_first_in(lo + 1, hi, p, i);
    }
}

/// `first_in` gives -1 or an index of the range that satisfies `p`, with no
/// earlier one.
pub proof fn lemma_first_in_range(lo: int, hi: int, p: spec_fn(int) -> bool)
    requires
        0 <= lo,
    ensures
        first_in(lo, hi, p) == -1 || (lo <= first_in(lo, hi, p) < hi && p(first_in(lo, hi, p))),
        forall|k: int|
            lo <= k < hi && (first_in(lo, hi, p) == -1 || k < first_in(lo, hi, p)) ==> !#[trigger] p(k),
    decreases hi - lo,
{
    if lo < hi {
        lemma_first_in_range(lo + 1, hi, p);
        if p(lo) {
            assert(first_in(lo, hi, p) == lo);
        } else {
            let f = first_in(lo + 1, hi, p);
            assert(first_in(lo, hi, p) == f);
            assert forall|k: int| lo <= k < hi && (f == -1 || k < f) implies !#[trigger] p(k) by {
                if k != lo {
                    assert(lo + 1 <= k < hi && (f == -1 || k < f));
                }
            }
        }
    }
}

// ---------------------------------------------------------------------------
// What a policy means
// ---------------------------------------------------------------------------

/// The names of the layers.
pub open spec fn layer_names(ls: Seq<LayerView>) -> Seq<Seq<char>> {
    ls.map_values(|l: LayerView| l.name)
}

/// Some layer has an empty name or module, or repeats an earlier name.
pub open spec fn bad_declaration(ls: Seq<LayerView>) -> bool {
    exists|i: int|
        0 <= i < ls.len() && (ls[i].name.len() == 0 || ls[i].module.len() == 0 || exists|j: int|
            0 <= j < i && #[trigger] ls[j].name == ls[i].name)
}

/// The selectors of layers `i` and `j` overlap: one selects the other.
pub open spec fn overlap(ls: Seq<LayerView>, root: Seq<char>) -> spec_fn(int, int) -> bool {
    |i: int, j: int|
        within_spec(ls[i].module, ls[j].module, root) || within_spec(ls[j].module, ls[i].module, root)
}

/// The `k`-th allowance of layer `i` names no layer, or repeats an earlier one.
pub open spec fn bad_allowance(ls: Seq<LayerView>, i: int, k: int) -> bool {
    let a = ls[i].allows[k];
    !layer_names(ls).contains(a) || exists|m: int| 0 <= m < k && #[trigger] ls[i].allows[m] == a
}

/// The layers whose selectors overlap that of layer `i`.
pub open spec fn overlaps_with(ls: Seq<LayerView>, root: Seq<char>, i: int) -> spec_fn(int) -> bool {
    |j: int| overlap(ls, root)(i, j)
}

/// The bad allowances of layer `i`.
pub open spec fn bad_allowance_of(ls: Seq<LayerView>, i: int) -> spec_fn(int) -> bool {
    |k: int| bad_allowance(ls, i, k)
}

/// The first problem with the selectors or allowances of layer `i`.
pub open spec fn layer_problem(ls: Seq<LayerView>, root: Seq<char>, i: int) -> Option<Seq<char>> {
    let j = first_in(i + 1, ls.len() as int, overlaps_with(ls, root, i));
    let k = first_in(0, ls[i].allows.len() as int, bad_allowance_of(ls, i));
    if j >= 0 {
        Some("Overlapping layer selectors: "@ + ls[i].name + " / "@ + ls[j].name)
    } else if k >= 0 {
        Some("Unknown/duplicate allowed layer: "@ + ls[i].allows[k])
    } else {
        None
    }
}

/// The layers with a problem.
pub open spec fn has_layer_problem(ls: Seq<LayerView>, root: Seq<char>) -> spec_fn(int) -> bool {
    |i: int| layer_problem(ls, root, i) is Some
}

/// The first problem of a policy, in the order in which checking looks:
/// no layers; an empty or repeated declaration; then layer by layer,
/// overlapping selectors and then unknown or repeated allowances.
pub open spec fn policy_problem(ls: Seq<LayerView>, root: Seq<char>) -> Option<Seq<char>> {
    let i = first_in(0, ls.len() as int, has_layer_problem(ls, root));
    if ls.len() == 0 {
        Some("No layers declared"@)
    } else if bad_declaration(ls) {
        Some("Empty/duplicate layer declaration"@)
    } else if i >= 0 {
        layer_problem(ls, root, i)
    } else {
        None
    }
}

/// A selector that does not end in `:`.
pub open spec fn plain_selector(s: Seq<char>) -> bool {
    s.len() == 0 || s.last() != ':'
}

/// Of two selectors that both prefix `m` as parent modules, the shorter
/// prefixes the longer one as a parent module too.
proof fn lemma_nested_prefixes(m: Seq<char>, a: Seq<char>, b: Seq<char>)
    requires
        has_prefix(m, a + path_separator()),
        has_prefix(m, b + path_separator()),
        a.len() <= b.len(),
        plain_selector(b),
    ensures
        a == b || has_prefix(b, a + path_separator()),
{
    let sa = a + path_separator();
    let sb = b + path_separator();
    assert(m.take(sb.len() as int).take(sa.len() as int) == m.take(sa.len() as int));
    if a.len() == b.len() {
        assert(sa == sb);
        assert(a == sa.take(a.len() as int));
        assert(b == sb.take(b.len() as int));
    } else if a.len() + 2 <= b.len() {
        assert(b.take(sa.len() as int) == sb.take(sa.len() as int));
    } else {
        assert(b.len() == a.len() + 1);
        assert(b.last() == sb[a.len() as int]);
        assert(sb[a.len() as int] == m[a.len() as int]);
        assert(sa[a.len() as int] == ':');
    }
}

/// Each module has one owner at most: when a policy has no problem and no
/// selector ends in `:`, no two layers select the same module.
pub proof fn lemma_one_owner(ls: Seq<LayerView>, root: Seq<char>, m: Seq<char>, i: int, j: int)
    requires
        policy_problem(ls, root) is None,
        forall|k: int| 0 <= k < ls.len() ==> plain_selector(#[trigger] ls[k].module),
        0 <= i < ls.len(),
        0 <= j < ls.len(),
        within_spec(m, ls[i].module, root),
        within_spec(m, ls[j].module, root),
    ensures
        i == j,
{
    if i != j {
        let (x, y) = if i < j {
            (i, j)
        } else {
            (j, i)
        };
        let hp = has_layer_problem(ls, root);
        lemma_first_in_range(0, ls.len() as int, hp);
        assert(!hp(x));
        let ov = overlaps_with(ls, root, x);
        lemma_first_in_range(x + 1, ls.len() as int, ov);
        assert(!ov(y));
        let a = ls[x].module;
        let b = ls[y].module;
        assert(plain_selector(a) && plain_selector(b));
        if m != a && m != b {
            if a.len() <= b.len() {
                lemma_nested_prefixes(m, a, b);
            } else {
                lemma_nested_prefixes(m, b, a);
            }
        }
    }
}

/// The layer that owns module `m`: the first whose selector selects it, or
/// -1 when none does.
pub open spec fn owner(ls: Seq<LayerView>, root: Seq<char>, m: Seq<char>) -> int {
    first_in(0, ls.len() as int, selects(ls, root, m))
}

/// The layers whose selectors select module `m`.
pub open spec fn selects(ls: Seq<LayerView>, root: Seq<char>, m: Seq<char>) -> spec_fn(int) -> bool {
    |l: int| within_spec(m, ls[l].module, root)
}

/// One finding per module that no layer owns, in module order.
pub open spec fn unclassified_findings(ls: Seq<LayerView>, root: Seq<char>, ms: Seq<Seq<char>>) -> Seq<
    FindingView,
>
    decreases ms.len(),
{
    if ms.len() == 0 {
        seq![]
    } else {
        let rest = unclassified_findings(ls, root, ms.drop_last());
        if owner(ls, root, ms.last()) < 0 {
            rest.push(FindingView::Unclassified(ms.last()))
        } else {
            rest
        }
    }
}

/// Whether layer `l` owns some module.
pub open spec fn owns_some(ls: Seq<LayerView>, root: Seq<char>, ms: Seq<Seq<char>>, l: int) -> bool {
    exists|k: int| 0 <= k < ms.len() && owner(ls, root, #[trigger] ms[k]) == l
}

/// One finding per layer among the first `n` that owns no module, in layer
/// order.
pub open spec fn missing_findings(ls: Seq<LayerView>, root: Seq<char>, ms: Seq<Seq<char>>, n: int) -> Seq<
    FindingView,
>
    decreases n,
{
    if n <= 0 {
        seq![]
    } else {
        let rest = missing_findings(ls, root, ms, n - 1);
        if owns_some(ls, root, ms, n - 1) {
            rest
        } else {
            rest.push(FindingView::MissingLayer(ls[n - 1].name))
        }
    }
}

/// The finding for an edge, if it crosses layers in a direction that the
/// source layer does not allow.
pub open spec fn edge_finding(ls: Seq<LayerView>, root: Seq<char>, e: EdgeView) -> Option<FindingView> {
    let a = owner(ls, root, e.from);
    let b = owner(ls, root, e.to);
    if a >= 0 && b >= 0 && a != b && !ls[a].allows.contains(ls[b].name) {
        Some(FindingView::Forbidden { from: ls[a].name, to: ls[b].name, edge: e })
    } else {
        None
    }
}

/// The forbidden references, in edge order.
pub open spec fn forbidden_findings(ls: Seq<LayerView>, root: Seq<char>, es: Seq<EdgeView>) -> Seq<
    FindingView,
>
    decreases es.len(),
{
    if es.len() == 0 {
        seq![]
    } else {
        let rest = forbidden_findings(ls, root, es.drop_last());
        match edge_finding(ls, root, es.last()) {
            Some(f) => rest.push(f),
            None => rest,
        }
    }
}

/// Some edge goes from a module of layer `a` to a module of another layer `b`.
pub open spec fn layer_edge(ls: Seq<LayerView>, root: Seq<char>, es: Seq<EdgeView>, a: int, b: int) -> bool {
    a != b && exists|k: int|
        0 <= k < es.len() && owner(ls, root, (#[trigger] es[k]).from) == a && owner(ls, root, es[k].to)
            == b
}

/// A closed walk of references between layers that visits each layer once.
pub open spec fn is_layer_cycle(ls: Seq<LayerView>, root: Seq<char>, es: Seq<EdgeView>, c: Seq<usize>) -> bool {
    &&& c.len() >= 2
    &&& c[0] == c.last()
    &&& c.drop_last().no_duplicates()
    &&& forall|i: int| 0 <= i < c.len() ==> (#[trigger] c[i]) < ls.len()
    &&& forall|i: int|
        0 <= i < c.len() - 1 ==> layer_edge(ls, root, es, #[trigger] c[i] as int, c[i + 1] as int)
}

/// References between layers form a cycle.
pub open spec fn layers_cyclic(ls: Seq<LayerView>, root: Seq<char>, es: Seq<EdgeView>) -> bool {
    exists|c: Seq<usize>|
        c.len() >= 2 && c[0] == c.last() && (forall|i: int| 0 <= i < c.len() ==> (#[trigger] c[i]) < ls.len())
            && (forall|i: int|
            0 <= i < c.len() - 1 ==> layer_edge(ls, root, es, #[trigger] c[i] as int, c[i + 1] as int))
}

/// The layer names along a cycle of layer indices.
pub open spec fn cycle_names(ls: Seq<LayerView>, c: Seq<usize>) -> Seq<Seq<char>> {
    c.map_values(|i: usize| ls[i as int].name)
}

/// The findings other than a cycle: unclassified modules, layers that own
/// nothing, and forbidden references, in that order.
pub open spec fn base_findings(p: PolicyView, g: GraphView) -> Seq<FindingView> {
    unclassified_findings(p.layers, g.crate_name, g.modules) + missing_findings(
        p.layers,
        g.crate_name,
        g.modules,
        p.layers.len() as int,
    ) + forbidden_findings(p.layers, g.crate_name, g.edges)
}

/// What a passing check promises: every module has an owner, every layer
/// owns a module, every reference between two layers goes in a direction
/// that its source layer allows, and, when the policy asks for it,
/// references between layers form no cycle.
pub open spec fn contract_holds(p: PolicyView, g: GraphView) -> bool {
    &&& forall|k: int| 0 <= k < g.modules.len() ==> owner(p.layers, g.crate_name, #[trigger] g.modules[k]) >= 0
    &&& forall|l: int| 0 <= l < p.layers.len() ==> #[trigger] owns_some(p.layers, g.crate_name, g.modules, l)
    &&& forall|k: int| 0 <= k < g.edges.len() ==> (#[trigger] edge_finding(p.layers, g.crate_name, g.edges[k])) is None
    &&& p.acyclic ==> !layers_cyclic(p.layers, g.crate_name, g.edges)
}

proof fn lemma_no_unclassified(ls: Seq<LayerView>, root: Seq<char>, ms: Seq<Seq<char>>)
    ensures
        unclassified_findings(ls, root, ms).len() == 0 <==> forall|k: int|
            0 <= k < ms.len() ==> owner(ls, root, #[trigger] ms[k]) >= 0,
    decreases ms.len(),
{
    if ms.len() > 0 {
        let init = ms.drop_last();
        lemma_no_unclassified(ls, root, init);
        if unclassified_findings(ls, root, ms).len() == 0 {
            assert forall|k: int| 0 <= k < ms.len() implies owner(ls, root, #[trigger] ms[k]) >= 0 by {
                if k < ms.len() - 1 {
                    assert(init[k] == ms[k]);
                }
            }
        } else {
            if forall|k: int| 0 <= k < ms.len() ==> owner(ls, root, #[trigger] ms[k]) >= 0 {
                assert(owner(ls, root, ms[ms.len() - 1]) >= 0);
                assert forall|k: int| 0 <= k < init.len() implies owner(ls, root, #[trigger] init[k]) >= 0 by {
                    assert(init[k] == ms[k]);
                }
            }
        }
    }
}

proof fn lemma_no_missing(ls: Seq<LayerView>, root: Seq<char>, ms: Seq<Seq<char>>, n: int)
    ensures
        missing_findings(ls, root, ms, n).len() == 0 <==> forall|l: int|
            0 <= l < n ==> #[trigger] owns_some(ls, root, ms, l),
    decreases n,
{
    if n > 0 {
        lemma_no_missing(ls, root, ms, n - 1);
    }
}

proof fn lemma_no_forbidden(ls: Seq<LayerView>, root: Seq<char>, es: Seq<EdgeView>)
    ensures
        forbidden_findings(ls, root, es).len() == 0 <==> forall|k: int|
            0 <= k < es.len() ==> (#[trigger] edge_finding(ls, root, es[k])) is None,
    decreases es.len(),
{
    if es.len() > 0 {
        let init = es.drop_last();
        lemma_no_forbidden(ls, root, init);
        if forbidden_findings(ls, root, es).len() == 0 {
            assert forall|k: int| 0 <= k < es.len() implies (#[trigger] edge_finding(ls, root, es[k])) is None by {
                if k < es.len() - 1 {
                    assert(init[k] == es[k]);
                }
            }
        } else {
            if forall|k: int| 0 <= k < es.len() ==> (#[trigger] edge_finding(ls, root, es[k])) is None {
                assert(edge_finding(ls, root, es[es.len() - 1]) is None);
                assert forall|k: int| 0 <= k < init.len() implies (#[trigger] edge_finding(ls, root, init[k])) is None by {
                    assert(init[k] == es[k]);
                }
            }
        }
    }
}

/// There are no base findings exactly when every module has an owner, every
/// layer owns a module and every reference between layers is allowed.
proof fn lemma_no_base_findings(p: PolicyView, g: GraphView)
    ensures
        base_findings(p, g).len() == 0 <==> {
            &&& forall|k: int| 0 <= k < g.modules.len() ==> owner(p.layers, g.crate_name, #[trigger] g.modules[k]) >= 0
            &&& forall|l: int| 0 <= l < p.layers.len() ==> #[trigger] owns_some(p.layers, g.crate_name, g.modules, l)
            &&& forall|k: int| 0 <= k < g.edges.len() ==> (#[trigger] edge_finding(p.layers, g.crate_name, g.edges[k])) is None
        },
{
    lemma_no_unclassified(p.layers, g.crate_name, g.modules);
    lemma_no_missing(p.layers, g.crate_name, g.modules, p.layers.len() as int);
    lemma_no_forbidden(p.layers, g.crate_name, g.edges);
}

/// Strictly increasing.
pub open spec fn increasing(r: Seq<usize>) -> bool {
    forall|i: int, j: int| 0 <= i < j < r.len() ==> r[i] < r[j]
}

/// The layers that layer `a` references, in increasing order.
pub open spec fn layer_successors(ls: Seq<LayerView>, root: Seq<char>, es: Seq<EdgeView>, a: int) -> Seq<
    usize,
> {
    choose|r: Seq<usize>|
        increasing(r) && forall|b: usize|
            #![trigger r.contains(b)]
            r.contains(b) <==> (b < ls.len() && layer_edge(ls, root, es, a, b as int))
}

/// The references between layers as adjacency lists.
pub open spec fn layer_adjacency(ls: Seq<LayerView>, root: Seq<char>, es: Seq<EdgeView>) -> Seq<
    Seq<usize>,
> {
    Seq::new(ls.len(), |a: int| layer_successors(ls, root, es, a))
}

/// The cycle of references between layers that checking reports, if any:
/// the first that depth-first search over the layers finds.
pub open spec fn layer_cycle(p: PolicyView, g: GraphView) -> Option<Seq<usize>> {
    dfs_cycle(layer_adjacency(p.layers, g.crate_name, g.edges))
}

/// What checking a graph against a policy gives. A malformed graph or policy
/// gives its one `Invalid` finding. Otherwise the base findings, followed,
/// when the policy asks for acyclic layers and references between layers
/// form a cycle, by one `Cycle` finding along `layer_cycle`; no findings at
/// all is `Ok`.
pub open spec fn check_spec(p: PolicyView, g: GraphView) -> Result<(), Seq<FindingView>> {
    match validate_spec(g) {
        Err(m) => Err(seq![FindingView::Invalid(m)]),
        Ok(()) => match policy_problem(p.layers, g.crate_name) {
            Some(m) => Err(seq![FindingView::Invalid(m)]),
            None => {
                let base = base_findings(p, g);
                match layer_cycle(p, g) {
                    Some(c) if p.acyclic => Err(base.push(FindingView::Cycle(cycle_names(p.layers, c)))),
                    _ => if base.len() == 0 {
                        Ok(())
                    } else {
                        Err(base)
                    },
                }
            },
        },
    }
}

// ---------------------------------------------------------------------------
// Checking
// ---------------------------------------------------------------------------

/// The layer that owns `module` (see `owner`).
fn owner_of(layers: &[Layer], module: &str, root: &str) -> (r: Option<usize>)
    ensures
        match r {
            Some(l) => owner(layer_views(layers@), root@, module@) == l as int && l < layers@.len(),
            None => owner(layer_views(layers@), root@, module@) == -1,
        },
{
    let ghost ls = layer_views(layers@);
    let ghost p = selects(ls, root@, module@);
    let mut l: usize = 0;
    while l < layers.len()
        invariant
            l <= layers@.len(),
            ls == layer_views(layers@),
            p == selects(ls, root@, module@),
            forall|k: int| 0 <= k < l ==> !#[trigger] p(k),
        decreases layers.len() - l,
    {
        if within(module, layers[l].module, root) {
            proof {
                assert(ls[l as int].module == layers@[l as int].module@);
                lemma_first_in(0, ls.len() as int, p, l as int);
            }
            return Some(l);
        }
        assert(ls[l as int].module == layers@[l as int].module@);
        l = l + 1;
    }
    proof {
        lemma_first_in(0, ls.len() as int, p, l as int);
    }
    None
}

/// Whether `names` holds `name`.
fn names_contain(names: &[&str], name: &str) -> (b: bool)
    ensures
        b == names@.map_values(|a: &str| a@).contains(name@),
{
    let ghost v = names@.map_values(|a: &str| a@);
    let mut i: usize = 0;
    while i < names.len()
        invariant
            i <= names@.len(),
            v == names@.map_values(|a: &str| a@),
            forall|k: int| 0 <= k < i ==> v[k] != name@,
        decreases names.len() - i,
    {
        if text_eq(names[i], name) {
            assert(v[i as int] == name@);
            return true;
        }
        i = i + 1;
    }
    false
}

/// Whether some layer is named `name`.
fn is_layer_name(layers: &[Layer], name: &str) -> (b: bool)
    ensures
        b == layer_names(layer_views(layers@)).contains(name@),
{
    let ghost v = layer_names(layer_views(layers@));
    let mut i: usize = 0;
    while i < layers.len()
        invariant
            i <= layers@.len(),
            v == layer_names(layer_views(layers@)),
            forall|k: int| 0 <= k < i ==> v[k] != name@,
        decreases layers.len() - i,
    {
        if text_eq(layers[i].name, name) {
            assert(v[i as int] == name@);
            return true;
        }
        i = i + 1;
    }
    false
}

/// Whether some layer has an empty or repeated declaration.
fn has_bad_declaration(layers: &[Layer]) -> (b: bool)
    ensures
        b == bad_declaration(layer_views(layers@)),
{
    let ghost ls = layer_views(layers@);
    let mut i: usize = 0;
    while i < layers.len()
        invariant
            i <= layers@.len(),
            ls == layer_views(layers@),
            forall|x: int|
                0 <= x < i ==> !(ls[x].name.len() == 0 || ls[x].module.len() == 0 || exists|j: int|
                    0 <= j < x && #[trigger] ls[j].name == ls[x].name),
        decreases layers.len() - i,
    {
        let layer = layers[i];
        assert(ls[i as int] == layer@);
        if layer.name.is_empty() || layer.module.is_empty() {
            return true;
        }
        let mut j: usize = 0;
        while j < i
            invariant
                j <= i < layers@.len(),
                ls == layer_views(layers@),
                layer@ == ls[i as int],
                forall|y: int| 0 <= y < j ==> #[trigger] ls[y].name != ls[i as int].name,
            decreases i - j,
        {
            if text_eq(layers[j].name, layer.name) {
                assert(ls[j as int].name == ls[i as int].name);
                return true;
            }
            j = j + 1;
        }
        i = i + 1;
    }
    false
}

/// The first problem with layer `i` (see `layer_problem`).
fn layer_problem_of(layers: &[Layer], root: &str, i: usize) -> (r: Option<String>)
    requires
        i < layers@.len(),
    ensures
        match (r, layer_problem(layer_views(layers@), root@, i as int)) {
            (Some(m), Some(t)) => m@ == t,
            (None, None) => true,
            _ => false,
        },
{
    let ghost ls = layer_views(layers@);
    let layer = layers[i];
    assert(ls[i as int] == layer@);
    let ghost ov = overlaps_with(ls, root@, i as int);
    let mut j: usize = i + 1;
    while j < layers.len()
        invariant
            i < j <= layers@.len(),
            ls == layer_views(layers@),
            layer@ == ls[i as int],
            ov == overlaps_with(ls, root@, i as int),
            forall|k: int| i + 1 <= k < j ==> !#[trigger] ov(k),
        decreases layers.len() - j,
    {
        let other = layers[j];
        assert(ls[j as int] == other@);
        if within(layer.module, other.module, root) || within(other.module, layer.module, root) {
            proof {
                lemma_first_in(i + 1, ls.len() as int, ov, j as int);
            }
            let mut out = chars_of("Overlapping layer selectors: ");
            push_text(&mut out, layer.name);
            push_text(&mut out, " / ");
            push_text(&mut out, other.name);
            return Some(string_of(&out));
        }
        j = j + 1;
    }
    proof {
        lemma_first_in(i + 1, ls.len() as int, ov, j as int);
    }
    let allows = layer.allows;
    let ghost av = allows@.map_values(|a: &str| a@);
    assert(av == ls[i as int].allows);
    let ghost ba = bad_allowance_of(ls, i as int);
    let mut k: usize = 0;
    while k < allows.len()
        invariant
            k <= allows@.len(),
            ls == layer_views(layers@),
            av == allows@.map_values(|a: &str| a@),
            av == ls[i as int].allows,
            ba == bad_allowance_of(ls, i as int),
            ov == overlaps_with(ls, root@, i as int),
            first_in(i + 1, ls.len() as int, ov) == -1,
            forall|x: int| 0 <= x < k ==> !#[trigger] ba(x),
        decreases allows.len() - k,
    {
        let allowed = allows[k];
        assert(allowed@ == av[k as int]);
        let known = is_layer_name(layers, allowed);
        let mut seen = false;
        let mut m: usize = 0;
        while m < k
            invariant
                m <= k < allows@.len(),
                av == allows@.map_values(|a: &str| a@),
                allowed@ == av[k as int],
                seen == exists|y: int| 0 <= y < m && #[trigger] av[y] == av[k as int],
            decreases k - m,
        {
            assert(av[m as int] == allows@[m as int]@);
            if text_eq(allows[m], allowed) {
                assert(av[m as int] == av[k as int]);
                seen = true;
            }
            m = m + 1;
        }
        assert(allowed@ == av[k as int]);
        assert((!known || seen) == ba(k as int));
        if !known || seen {
            proof {
                lemma_first_in(0, av.len() as int, ba, k as int);
            }
            let mut out = chars_of("Unknown/duplicate allowed layer: ");
            push_text(&mut out, allowed);
            return Some(string_of(&out));
        }
        k = k + 1;
    }
    proof {
        lemma_first_in(0, av.len() as int, ba, k as int);
    }
    None
}


/// The first problem of the policy (see `policy_problem`).
fn policy_problem_of(layers: &[Layer], root: &str) -> (r: Option<String>)
    ensures
        match (r, policy_problem(layer_views(layers@), root@)) {
            (Some(m), Some(t)) => m@ == t,
            (None, None) => true,
            _ => false,
        },
{
    let ghost ls = layer_views(layers@);
    if layers.len() == 0 {
        return Some(owned("No layers declared"));
    }
    if has_bad_declaration(layers) {
        return Some(owned("Empty/duplicate layer declaration"));
    }
    let ghost hp = has_layer_problem(ls, root@);
    let mut i: usize = 0;
    while i < layers.len()
        invariant
            i <= layers@.len(),
            ls == layer_views(layers@),
            hp == has_layer_problem(ls, root@),
            ls.len() > 0,
            !bad_declaration(ls),
            forall|k: int| 0 <= k < i ==> !#[trigger] hp(k),
        decreases layers.len() - i,
    {
        match layer_problem_of(layers, root, i) {
            Some(m) => {
                proof {
                    lemma_first_in(0, ls.len() as int, hp, i as int);
                }
                return Some(m);
            },
            None => {},
        }
        i = i + 1;
    }
    proof {
        lemma_first_in(0, ls.len() as int, hp, i as int);
    }
    None
}

/// Pushing a value above the last keeps a sequence increasing.
proof fn lemma_push_increasing(r: Seq<usize>, y: usize)
    requires
        increasing(r),
        r.len() > 0 ==> r.last() < y,
    ensures
        increasing(r.push(y)),
{
    assert forall|i: int, j: int| 0 <= i < j < r.push(y).len() implies r.push(y)[i] < r.push(y)[j] by {
        if j == r.len() {
            if i < r.len() - 1 {
                assert(r[i] < r[r.len() - 1]);
            }
        }
    }
}

/// Two increasing sequences with the same elements are equal.
pub proof fn lemma_increasing_unique(a: Seq<usize>, b: Seq<usize>)
    requires
        increasing(a),
        increasing(b),
        forall|y: usize| #![trigger a.contains(y)] #![trigger b.contains(y)] a.contains(y) <==> b.contains(y),
    ensures
        a == b,
    decreases a.len(),
{
    if a.len() == 0 {
        if b.len() > 0 {
            assert(b.contains(b[0]));
        }
    } else if b.len() == 0 {
        assert(a.contains(a[0]));
    } else {
        assert(a.contains(a[0]));
        let j = choose|j: int| 0 <= j < b.len() && b[j] == a[0];
        assert(b.contains(b[0]));
        let k = choose|k: int| 0 <= k < a.len() && a[k] == b[0];
        assert(a[0] == b[0]) by {
            if j > 0 {
                assert(b[0] < b[j]);
            }
            if k > 0 {
                assert(a[0] < a[k]);
            }
        }
        let a1 = a.drop_first();
        let b1 = b.drop_first();
        assert forall|y: usize| #![trigger a1.contains(y)] #![trigger b1.contains(y)] a1.contains(y) <==> b1.contains(y) by {
            if a1.contains(y) {
                let p = choose|p: int| 0 <= p < a1.len() && a1[p] == y;
                assert(a[p + 1] == y);
                assert(a.contains(y));
                let q = choose|q: int| 0 <= q < b.len() && b[q] == y;
                assert(a[0] < a[p + 1]);
                assert(q != 0);
                assert(b1[q - 1] == y);
            }
            if b1.contains(y) {
                let p = choose|p: int| 0 <= p < b1.len() && b1[p] == y;
                assert(b[p + 1] == y);
                assert(b.contains(y));
                let q = choose|q: int| 0 <= q < a.len() && a[q] == y;
                assert(b[0] < b[p + 1]);
                assert(q != 0);
                assert(a1[q - 1] == y);
            }
        }
        lemma_increasing_unique(a1, b1);
        assert(a == seq![a[0]] + a1);
        assert(b == seq![b[0]] + b1);
    }
}

/// `row` with `x` added, in increasing order.
fn with_successor(row: &Vec<usize>, x: usize) -> (r: Vec<usize>)
    requires
        increasing(row@),
    ensures
        r@.to_set() == row@.to_set().insert(x),
        increasing(r@),
{
    let mut r: Vec<usize> = Vec::new();
    let mut i: usize = 0;
    let mut placed = false;
    assert(row@.take(0).to_set() =~= r@.to_set());
    while i < row.len()
        invariant
            i <= row@.len(),
            r@.to_set() == (if placed {
                row@.take(i as int).to_set().insert(x)
            } else {
                row@.take(i as int).to_set()
            }),
            increasing(row@),
            increasing(r@),
            r@.len() > 0 && i < row@.len() ==> r@.last() < row@[i as int],
            !placed && r@.len() > 0 ==> r@.last() < x,
        decreases row.len() - i,
    {
        let v = row[i];
        let ghost was_placed = placed;
        if !placed && x <= v {
            if x < v {
                proof {
                    crate::graph::lemma_push_to_set(r@, x);
                    lemma_push_increasing(r@, x);
                }
                r.push(x);
            } else {
                assert(r@.to_set().insert(x) == r@.to_set().insert(v));
            }
            placed = true;
        }
        proof {
            lemma_push_increasing(r@, v);
            crate::graph::lemma_push_to_set(r@, v);
            crate::graph::lemma_push_to_set(row@.take(i as int), v);
            assert(row@.take(i + 1) == row@.take(i as int).push(v));
        }
        r.push(v);
        assert(r@.to_set() =~= (if placed {
            row@.take(i + 1).to_set().insert(x)
        } else {
            row@.take(i + 1).to_set()
        }));
        i = i + 1;
    }
    if !placed {
        proof {
            crate::graph::lemma_push_to_set(r@, x);
            lemma_push_increasing(r@, x);
        }
        r.push(x);
    }
    assert(row@.take(row.len() as int) == row@);
    r
}

/// The layer names along a cycle.
fn names_along(layers: &[Layer], c: &Vec<usize>) -> (r: Vec<String>)
    requires
        forall|i: int| 0 <= i < c@.len() ==> (#[trigger] c@[i]) < layers@.len(),
    ensures
        r@.map_values(|s: String| s@) == cycle_names(layer_views(layers@), c@),
{
    let ghost ls = layer_views(layers@);
    let mut r: Vec<String> = Vec::new();
    let mut i: usize = 0;
    while i < c.len()
        invariant
            i <= c@.len(),
            ls == layer_views(layers@),
            forall|k: int| 0 <= k < c@.len() ==> (#[trigger] c@[k]) < layers@.len(),
            r@.map_values(|s: String| s@) == cycle_names(ls, c@.take(i as int)),
        decreases c.len() - i,
    {
        let name = owned(layers[c[i]].name);
        proof {
            assert(ls[c@[i as int] as int].name == name@);
            assert(c@.take(i + 1) == c@.take(i as int).push(c@[i as int]));
            assert(cycle_names(ls, c@.take(i + 1)) == cycle_names(ls, c@.take(i as int)).push(name@));
            assert(r@.push(name).map_values(|s: String| s@) == r@.map_values(|s: String| s@).push(name@));
        }
        r.push(name);
        i = i + 1;
    }
    assert(c@.take(c.len() as int) == c@);
    r
}


/// A layer index as `owner` gives it.
pub open spec fn owner_index(o: Option<usize>) -> int {
    match o {
        Some(l) => l as int,
        None => -1,
    }
}

proof fn lemma_findings_push(v: Seq<Finding>, f: Finding)
    ensures
        findings_view(v.push(f)) == findings_view(v).push(f@),
{
    assert(findings_view(v.push(f)) =~= findings_view(v).push(f@));
}

proof fn lemma_layer_edge_step(
    ls: Seq<LayerView>,
    root: Seq<char>,
    es: Seq<EdgeView>,
    j: int,
    x: int,
    y: int,
)
    requires
        0 <= j < es.len(),
    ensures
        layer_edge(ls, root, es.take(j + 1), x, y) == (layer_edge(ls, root, es.take(j), x, y) || (x
            != y && owner(ls, root, es[j].from) == x && owner(ls, root, es[j].to) == y)),
{
    let a = es.take(j + 1);
    let b = es.take(j);
    if layer_edge(ls, root, a, x, y) {
        let k = choose|k: int|
            0 <= k < a.len() && owner(ls, root, (#[trigger] a[k]).from) == x && owner(ls, root, a[k].to)
                == y;
        if k < j {
            assert(b[k] == a[k]);
        }
    }
    if layer_edge(ls, root, b, x, y) {
        let k = choose|k: int|
            0 <= k < b.len() && owner(ls, root, (#[trigger] b[k]).from) == x && owner(ls, root, b[k].to)
                == y;
        assert(a[k] == b[k]);
    }
    if x != y && owner(ls, root, es[j].from) == x && owner(ls, root, es[j].to) == y {
        assert(a[j] == es[j]);
    }
}

impl Policy {
    /// Checks a graph against the policy (see `check_spec`). Each module
    /// belongs to the first layer whose selector selects it, and the crate
    /// root's selector selects the root alone. When the policy asks for
    /// acyclic layers, the reported cycle is one of references between
    /// layers, through each layer once, and none is reported exactly when
    /// there is no such cycle. The check passes exactly when the graph and
    /// the policy are well formed and the contract holds (see
    /// `contract_holds`).
    pub fn check(&self, graph: &Graph) -> (r: Result<(), Vec<Finding>>)
        ensures
            outcome_view(r) == check_spec(self@, graph@),
            self.acyclic && validate_spec(graph@) is Ok && policy_problem(
                self@.layers,
                graph@.crate_name,
            ) is None ==> match layer_cycle(self@, graph@) {
                Some(c) => is_layer_cycle(self@.layers, graph@.crate_name, graph@.edges, c),
                None => !layers_cyclic(self@.layers, graph@.crate_name, graph@.edges),
            },
            r is Ok <==> validate_spec(graph@) is Ok && policy_problem(
                self@.layers,
                graph@.crate_name,
            ) is None && contract_holds(self@, graph@),
    {
        match graph.validate() {
            Err(e) => {
                let v = vec![Finding::Invalid(e)];
                assert(findings_view(v@) =~= seq![FindingView::Invalid(e@)]);
                return Err(v);
            },
            Ok(()) => {},
        }
        let layers = self.layers;
        let root = graph.crate_name.as_str();
        match policy_problem_of(layers, root) {
            Some(m) => {
                let v = vec![Finding::Invalid(m)];
                assert(findings_view(v@) =~= seq![FindingView::Invalid(m@)]);
                return Err(v);
            },
            None => {},
        }
        let ghost ls = layer_views(layers@);
        let ghost rt = graph@.crate_name;
        let ghost ms = graph@.modules;
        let ghost es = graph@.edges;
        let nl = layers.len();
        // Modules that no layer owns.
        let mut findings: Vec<Finding> = Vec::new();
        let mut owners: Vec<Option<usize>> = Vec::new();
        let n = graph.modules.len();
        let mut i: usize = 0;
        assert(ms.take(0) =~= Seq::<Seq<char>>::empty());
        while i < n
            invariant
                n == ms.len(),
                i <= n,
                ls == layer_views(layers@),
                rt == root@,
                ms == graph@.modules,
                owners@.len() == i,
                forall|k: int| 0 <= k < i ==> owner_index(#[trigger] owners@[k]) == owner(ls, rt, ms[k]),
                forall|k: int| 0 <= k < i ==> match #[trigger] owners@[k] {
                    Some(l) => l < nl,
                    None => true,
                },
                nl == layers@.len(),
                findings_view(findings@) == unclassified_findings(ls, rt, ms.take(i as int)),
            decreases n - i,
        {
            let module = graph.modules.get(i);
            let o = owner_of(layers, module.as_str(), root);
            proof {
                assert(ms.take(i + 1).drop_last() == ms.take(i as int));
                assert(ms.take(i + 1).last() == ms[i as int]);
            }
            match o {
                None => {
                    let f = Finding::Unclassified(module.clone());
                    proof {
                        lemma_findings_push(findings@, f);
                    }
                    findings.push(f);
                },
                Some(_) => {},
            }
            owners.push(o);
            i = i + 1;
        }
        assert(ms.take(n as int) == ms);
        let ghost unclassified = findings_view(findings@);
        // Layers that own no module.
        let mut l: usize = 0;
        while l < nl
            invariant
                n == ms.len(),
                nl == layers@.len(),
                l <= nl,
                ls == layer_views(layers@),
                rt == root@,
                ms == graph@.modules,
                owners@.len() == n,
                forall|k: int| 0 <= k < n ==> owner_index(#[trigger] owners@[k]) == owner(ls, rt, ms[k]),
                unclassified == unclassified_findings(ls, rt, ms),
                findings_view(findings@) == unclassified + missing_findings(ls, rt, ms, l as int),
            decreases nl - l,
        {
            let mut owns = false;
            let mut k: usize = 0;
            while k < n
                invariant
                    n == ms.len(),
                    k <= n,
                    owners@.len() == n,
                    forall|x: int| 0 <= x < n ==> owner_index(#[trigger] owners@[x]) == owner(ls, rt, ms[x]),
                    owns == exists|x: int| 0 <= x < k && owner(ls, rt, #[trigger] ms[x]) == l,
                decreases n - k,
            {
                match owners[k] {
                    Some(o) => {
                        if o == l {
                            assert(owner(ls, rt, ms[k as int]) == l);
                            owns = true;
                        }
                    },
                    None => {},
                }
                assert(owner_index(owners@[k as int]) == owner(ls, rt, ms[k as int]));
                k = k + 1;
            }
            if !owns {
                let f = Finding::MissingLayer(owned(layers[l].name));
                proof {
                    lemma_findings_push(findings@, f);
                    assert(ls[l as int].name == layers@[l as int].name@);
                }
                findings.push(f);
            }
            l = l + 1;
        }
        let ghost classified = findings_view(findings@);
        // References that cross layers.
        let mut adjacency: Vec<Vec<usize>> = Vec::new();
        let mut a: usize = 0;
        while a < nl
            invariant
                a <= nl,
                adjacency@.len() == a,
                forall|x: int| 0 <= x < a ==> (#[trigger] adjacency@[x])@ == Seq::<usize>::empty(),
            decreases nl - a,
        {
            adjacency.push(Vec::new());
            a = a + 1;
        }
        let ne = graph.edges.len();
        let mut j: usize = 0;
        assert(es.take(0) =~= Seq::<EdgeView>::empty());
        while j < ne
            invariant
                ne == es.len(),
                nl == layers@.len(),
                j <= ne,
                ls == layer_views(layers@),
                rt == root@,
                es == graph@.edges,
                adjacency@.len() == nl,
                forall|x: int| 0 <= x < nl ==> increasing(#[trigger] adjacency@[x]@),
                forall|x: int, y: usize|
                    0 <= x < nl ==> (#[trigger] adjacency@[x]@.contains(y) <==> (y < nl && layer_edge(
                        ls,
                        rt,
                        es.take(j as int),
                        x,
                        y as int,
                    ))),
                findings_view(findings@) == classified + forbidden_findings(ls, rt, es.take(j as int)),
            decreases ne - j,
        {
            let e = graph.edges.get(j);
            let from = owner_of(layers, e.from.as_str(), root);
            let to = owner_of(layers, e.to.as_str(), root);
            proof {
                assert(es.take(j + 1).drop_last() == es.take(j as int));
                assert(es.take(j + 1).last() == es[j as int]);
                assert(es[j as int] == e@);
            }
            let ghost before = adjacency@;
            match (from, to) {
                (Some(x), Some(y)) => {
                    if x != y {
                        let row = with_successor(&adjacency[x], y);
                        adjacency.set(x, row);
                        let source = layers[x];
                        let target = layers[y];
                        assert(ls[x as int] == source@);
                        assert(ls[y as int] == target@);
                        if !names_contain(source.allows, target.name) {
                            let f = Finding::Forbidden {
                                from: owned(source.name),
                                to: owned(target.name),
                                edge: e.clone(),
                            };
                            proof {
                                lemma_findings_push(findings@, f);
                            }
                            findings.push(f);
                        }
                    }
                },
                _ => {},
            }
            proof {
                assert forall|p: int, q: usize| 0 <= p < nl implies (#[trigger] adjacency@[p]@.contains(q)
                    <==> (q < nl && layer_edge(ls, rt, es.take(j + 1), p, q as int))) by {
                    lemma_layer_edge_step(ls, rt, es, j as int, p, q as int);
                    if from is Some && to is Some && from->0 != to->0 && p == from->0 {
                        assert(adjacency@[p]@.to_set() == before[p]@.to_set().insert(to->0));
                        assert(adjacency@[p]@.contains(q) == adjacency@[p]@.to_set().contains(q));
                        assert(before[p]@.contains(q) == before[p]@.to_set().contains(q));
                    } else {
                        assert(adjacency@[p] == before[p]);
                    }
                }
                assert forall|p: int| 0 <= p < nl implies increasing(#[trigger] adjacency@[p]@) by {
                    if !(from is Some && to is Some && from->0 != to->0 && p == from->0) {
                        assert(adjacency@[p] == before[p]);
                    }
                }
            }
            j = j + 1;
        }
        assert(es.take(ne as int) == es);
        proof {
            assert(findings_view(findings@) == base_findings(self@, graph@));
            assert forall|x: int| 0 <= x < nl implies #[trigger] adjacency_rows(adjacency@)[x]
                == layer_successors(ls, rt, es, x) by {
                let row = adjacency@[x]@;
                assert(adjacency_rows(adjacency@)[x] == row);
                assert(increasing(row) && forall|b: usize|
                    #![trigger row.contains(b)]
                    row.contains(b) <==> (b < ls.len() && layer_edge(ls, rt, es, x, b as int)));
                lemma_increasing_unique(row, layer_successors(ls, rt, es, x));
            }
            assert(adjacency_rows(adjacency@) =~= layer_adjacency(ls, rt, es));
        }
        // A cycle of references between layers.
        if self.acyclic {
            proof {
                assert forall|u: int, k: int|
                    0 <= u < adjacency_rows(adjacency@).len() && 0 <= k < adjacency_rows(adjacency@)[u].len() implies (
                    #[trigger] adjacency_rows(adjacency@)[u][k]) < adjacency_rows(adjacency@).len() by {
                    assert(adjacency@[u]@.contains(adjacency@[u]@[k]));
                }
            }
            match first_cycle(&adjacency) {
                Some(c) => {
                    let names = names_along(layers, &c);
                    let f = Finding::Cycle(names);
                    proof {
                        lemma_findings_push(findings@, f);
                        assert forall|x: int| 0 <= x < c@.len() - 1 implies layer_edge(
                            ls,
                            rt,
                            es,
                            #[trigger] c@[x] as int,
                            c@[x + 1] as int,
                        ) by {
                            assert(has_edge(adjacency_rows(adjacency@), c@[x] as int, c@[x + 1] as int));
                            assert(adjacency@[c@[x] as int]@.contains(c@[x + 1]));
                        }
                        assert(is_layer_cycle(ls, rt, es, c@));
                        assert(layers_cyclic(ls, rt, es)) by {
                            let w = c@;
                            assert(w.len() >= 2 && w[0] == w.last() && (forall|x: int|
                                0 <= x < w.len() ==> (#[trigger] w[x]) < ls.len()) && (forall|x: int|
                                0 <= x < w.len() - 1 ==> layer_edge(
                                    ls,
                                    rt,
                                    es,
                                    #[trigger] w[x] as int,
                                    w[x + 1] as int,
                                )));
                        }
                    }
                    findings.push(f);
                    return Err(findings);
                },
                None => {
                    proof {
                        if layers_cyclic(ls, rt, es) {
                            let c = choose|c: Seq<usize>|
                                c.len() >= 2 && c[0] == c.last() && (forall|i: int|
                                    0 <= i < c.len() ==> (#[trigger] c[i]) < ls.len()) && (forall|i: int|
                                    0 <= i < c.len() - 1 ==> layer_edge(
                                        ls,
                                        rt,
                                        es,
                                        #[trigger] c[i] as int,
                                        c[i + 1] as int,
                                    ));
                            assert forall|x: int| 0 <= x < c.len() - 1 implies has_edge(
                                adjacency_rows(adjacency@),
                                #[trigger] c[x] as int,
                                c[x + 1] as int,
                            ) by {
                                assert(layer_edge(ls, rt, es, c[x] as int, c[x + 1] as int));
                                assert(adjacency@[c[x] as int]@.contains(c[x + 1]));
                            }
                            assert(is_cycle(adjacency_rows(adjacency@), c));
                        }
                    }
                },
            }
        }
        proof {
            lemma_no_base_findings(self@, graph@);
        }
        if findings.len() == 0 {
            Ok(())
        } else {
            Err(findings)
        }
    }
}


// ---------------------------------------------------------------------------
// Reports
// ---------------------------------------------------------------------------

/// What `{:?}` prints for a list of strings, without the brackets.
pub open spec fn debug_list(ns: Seq<Seq<char>>) -> Seq<char>
    decreases ns.len(),
{
    if ns.len() == 0 {
        seq![]
    } else if ns.len() == 1 {
        debug_quoted(ns[0])
    } else {
        debug_list(ns.drop_last()) + ", "@ + debug_quoted(ns.last())
    }
}

/// What `{:?}` prints for a finding.
pub open spec fn finding_debug(f: FindingView) -> Seq<char> {
    match f {
        FindingView::Invalid(s) => "Invalid("@ + debug_quoted(s) + ")"@,
        FindingView::MissingLayer(s) => "MissingLayer("@ + debug_quoted(s) + ")"@,
        FindingView::Unclassified(s) => "Unclassified("@ + debug_quoted(s) + ")"@,
        FindingView::Forbidden { from, to, edge } => "Forbidden { from: "@ + debug_quoted(from)
            + ", to: "@ + debug_quoted(to) + ", edge: "@ + edge_debug(edge) + " }"@,
        FindingView::Cycle(ns) => "Cycle(["@ + debug_list(ns) + "])"@,
    }
}

/// The findings of a failed check, each indented as a code block.
pub open spec fn findings_text(fs: Seq<FindingView>) -> Seq<char>
    decreases fs.len(),
{
    if fs.len() == 0 {
        seq![]
    } else {
        findings_text(fs.drop_last()) + "    "@ + finding_debug(fs.last()) + "\n\n"@
    }
}

/// The Markdown report of a check: the numbers of modules and references,
/// then `PASS`, or `FAIL` and the findings.
pub open spec fn report_text(g: GraphView, r: Result<(), Seq<FindingView>>) -> Seq<char> {
    "# Resolved layer contracts\n\nModules: "@ + decimal(g.modules.len()) + ". References: "@
        + decimal(g.edges.len()) + ".\n\n"@ + match r {
        Ok(()) => "PASS\n"@,
        Err(fs) => "FAIL\n\n"@ + findings_text(fs),
    }
}

fn push_finding_debug(out: &mut Vec<char>, f: &Finding)
    ensures
        final(out)@ == old(out)@ + finding_debug(f@),
{
    let ghost start = out@;
    match f {
        Finding::Invalid(s) => {
            push_text(out, "Invalid(");
            push_debug(out, s.as_str());
            push_text(out, ")");
        },
        Finding::MissingLayer(s) => {
            push_text(out, "MissingLayer(");
            push_debug(out, s.as_str());
            push_text(out, ")");
        },
        Finding::Unclassified(s) => {
            push_text(out, "Unclassified(");
            push_debug(out, s.as_str());
            push_text(out, ")");
        },
        Finding::Forbidden { from, to, edge } => {
            push_text(out, "Forbidden { from: ");
            push_debug(out, from.as_str());
            push_text(out, ", to: ");
            push_debug(out, to.as_str());
            push_text(out, ", edge: ");
            push_edge_debug(out, edge);
            push_text(out, " }");
        },
        Finding::Cycle(names) => {
            push_text(out, "Cycle([");
            let ghost ns = names@.map_values(|s: String| s@);
            let ghost mid = out@;
            let mut i: usize = 0;
            while i < names.len()
                invariant
                    i <= names@.len(),
                    ns == names@.map_values(|s: String| s@),
                    out@ == mid + debug_list(ns.take(i as int)),
                decreases names.len() - i,
            {
                if i > 0 {
                    push_text(out, ", ");
                }
                push_debug(out, names[i].as_str());
                proof {
                    assert(ns.take(i + 1).drop_last() == ns.take(i as int));
                    assert(ns.take(i + 1).last() == names@[i as int]@);
                    if i == 0 {
                        assert(debug_list(ns.take(0)) == Seq::<char>::empty());
                    }
                }
                i = i + 1;
            }
            assert(ns.take(names.len() as int) == ns);
            push_text(out, "])");
        },
    }
    assert(out@ == start + finding_debug(f@));
}

impl Policy {
    /// The Markdown report of checking the graph (see `report_text`).
    pub fn report(&self, graph: &Graph) -> (r: String)
        ensures
            r@ == report_text(graph@, check_spec(self@, graph@)),
    {
        let mut out = chars_of("# Resolved layer contracts\n\nModules: ");
        push_decimal(&mut out, graph.modules.len() as u64);
        push_text(&mut out, ". References: ");
        push_decimal(&mut out, graph.edges.len() as u64);
        push_text(&mut out, ".\n\n");
        let ghost head = out@;
        let outcome = self.check(graph);
        match &outcome {
            Ok(()) => {
                push_text(&mut out, "PASS\n");
            },
            Err(findings) => {
                push_text(&mut out, "FAIL\n\n");
                let ghost fs = findings_view(findings@);
                let ghost mid = out@;
                let mut i: usize = 0;
                while i < findings.len()
                    invariant
                        i <= findings@.len(),
                        fs == findings_view(findings@),
                        out@ == mid + findings_text(fs.take(i as int)),
                    decreases findings.len() - i,
                {
                    push_text(&mut out, "    ");
                    push_finding_debug(&mut out, &findings[i]);
                    push_text(&mut out, "\n\n");
                    proof {
                        assert(fs.take(i + 1).drop_last() == fs.take(i as int));
                        assert(fs.take(i + 1).last() == findings@[i as int]@);
                    }
                    i = i + 1;
                }
                assert(fs.take(findings.len() as int) == fs);
            },
        }
        assert(out@ == report_text(graph@, outcome_view(outcome)));
        string_of(&out)
    }
}

} // verus!
