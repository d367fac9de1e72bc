//! Collecting a crate's module graph from what the compiler resolved: the
//! references that a module makes through paths, method calls and the types
//! of its expressions.

use vstd::prelude::*;
use crate::graph::{Edge, EdgeView, Graph, owned};
use crate::text::{chars_of, push_text, string_of, text_eq};

verus! {

/// The full name of a definition: the crate's name, followed by `::` and the
/// path within the crate unless that path is empty, as for the crate root.
pub open spec fn full_name_spec(crate_name: Seq<char>, path: Seq<char>) -> Seq<char> {
    if path.len() == 0 {
        crate_name
    } else {
        crate_name + "::"@ + path
    }
}

/// The full name of a definition (see `full_name_spec`).
pub fn full_name(crate_name: &str, path: &str) -> (r: String)
    ensures
        r@ == full_name_spec(crate_name@, path@),
{
    if path.is_empty() {
        return owned(crate_name);
    }
    let mut out = chars_of(crate_name);
    push_text(&mut out, "::");
    push_text(&mut out, path);
    string_of(&out)
}

/// How a module refers to a definition.
#[derive(Clone, Copy, Debug, PartialEq, Eq)]
pub enum ReferenceKind {
    /// A resolved path.
    Path,
    /// A path in a type.
    TypePath,
    /// A path used as an expression.
    ExpressionPath,
    /// A resolved method call.
    Method,
    /// A struct, enum or union in the type of an expression.
    InferredType,
    /// A function item in the type of an expression.
    FunctionItem,
    /// A type alias in the type of an expression.
    TypeAlias,
}

/// The name that a reference of this kind is recorded under.
pub open spec fn kind_text(k: ReferenceKind) -> Seq<char> {
    match k {
        ReferenceKind::Path => "path"@,
        ReferenceKind::TypePath => "type-path"@,
        ReferenceKind::ExpressionPath => "expression-path"@,
        ReferenceKind::Method => "method"@,
        ReferenceKind::InferredType => "inferred-type"@,
        ReferenceKind::FunctionItem => "function-item"@,
        ReferenceKind::TypeAlias => "type-alias"@,
    }
}

/// The name that a reference of this kind is recorded under.
pub fn kind_name(k: ReferenceKind) -> (r: &'static str)
    ensures
        r@ == kind_text(k),
{
    match k {
        ReferenceKind::Path => "path",
        ReferenceKind::TypePath => "type-path",
        ReferenceKind::ExpressionPath => "expression-path",
        ReferenceKind::Method => "method",
        ReferenceKind::InferredType => "inferred-type",
        ReferenceKind::FunctionItem => "function-item",
        ReferenceKind::TypeAlias => "type-alias",
    }
}

/// A definition that a reference resolved to: whether it belongs to the
/// crate being collected, the full name of the module that defines it, and
/// its own full name.
#[derive(Clone, Debug, PartialEq, Eq)]
pub struct Target {
    pub local: bool,
    pub module: String,
    pub symbol: String,
}

/// The edges that a reference from module `from` to `t` adds: one, unless
/// `t` lies outside the crate or in `from` itself.
pub open spec fn reference_edges(from: Seq<char>, t: Target, location: Seq<char>, k: ReferenceKind) -> Set<
    EdgeView,
> {
    if t.local && from != t.module@ {
        set![EdgeView { from, to: t.module@, symbol: t.symbol@, location, kind: kind_text(k) }]
    } else {
        Set::empty()
    }
}

/// Whether `after` is `before` with the edges `added` and nothing else
/// changed.
pub open spec fn adds_edges(before: Graph, after: Graph, added: Set<EdgeView>) -> bool {
    &&& after@.crate_name == before@.crate_name
    &&& after@.modules == before@.modules
    &&& after@.edges.to_set() == before@.edges.to_set().union(added)
}

/// Records a reference from module `from` to `target`, made at `location`
/// (see `reference_edges`).
pub fn record_reference(graph: &mut Graph, from: &str, target: &Target, location: &str, kind: ReferenceKind)
    ensures
        adds_edges(*old(graph), *final(graph), reference_edges(from@, *target, location@, kind)),
{
    if !target.local || text_eq(from, target.module.as_str()) {
        assert(graph@.edges.to_set().union(Set::<EdgeView>::empty()) =~= graph@.edges.to_set());
        return;
    }
    let edge = Edge {
        from: owned(from),
        to: target.module.clone(),
        symbol: target.symbol.clone(),
        location: owned(location),
        kind: owned(kind_name(kind)),
    };
    let ghost start = graph@.edges.to_set();
    graph.edges.insert(edge);
    assert(graph@.edges.to_set() =~= start.union(reference_edges(from@, *target, location@, kind)));
}

/// The type of an expression, as far as collecting reads it.
#[derive(Debug, PartialEq, Eq)]
pub enum TypeShape {
    /// A struct, enum or union, with its type arguments.
    Adt(Target, Vec<TypeShape>),
    /// A reference, raw pointer, slice or array of the inner type.
    Pointee(Box<TypeShape>),
    /// A tuple of its field types.
    Tuple(Vec<TypeShape>),
    /// A function item, with its type arguments.
    FnDef(Target, Vec<TypeShape>),
    /// A type alias.
    Alias(Target),
    /// Any other type, which refers to nothing that collecting records.
    Other,
}

/// The deepest nesting of types that collecting follows.
pub open spec fn nesting_limit() -> int {
    64
}

/// Whether `ty`, met at nesting depth `depth`, and every type inside it stay
/// within the nesting limit.
pub open spec fn fits(ty: TypeShape, depth: int) -> bool
    decreases ty,
{
    depth <= nesting_limit() && match ty {
        TypeShape::Adt(_, args) => all_fit(args@, depth + 1),
        TypeShape::Pointee(inner) => fits(*inner, depth + 1),
        TypeShape::Tuple(fields) => all_fit(fields@, depth + 1),
        TypeShape::FnDef(_, args) => all_fit(args@, depth + 1),
        _ => true,
    }
}

/// Whether each of `ts`, met at nesting depth `depth`, fits.
pub open spec fn all_fit(ts: Seq<TypeShape>, depth: int) -> bool
    decreases ts,
{
    ts.len() == 0 || (all_fit(ts.subrange(0, ts.len() - 1), depth) && fits(ts[ts.len() - 1], depth))
}

/// The edges that the type of an expression in module `from`, at `location`,
/// adds: a reference to each struct, enum, union, function item and type
/// alias in it, looking through type arguments, pointers and tuples but not
/// into aliases.
pub open spec fn inferred_edges(ty: TypeShape, from: Seq<char>, location: Seq<char>) -> Set<EdgeView>
    decreases ty,
{
    match ty {
        TypeShape::Adt(t, args) => reference_edges(from, t, location, ReferenceKind::InferredType).union(
            all_inferred_edges(args@, from, location),
        ),
        TypeShape::Pointee(inner) => inferred_edges(*inner, from, location),
        TypeShape::Tuple(fields) => all_inferred_edges(fields@, from, location),
        TypeShape::FnDef(t, args) => reference_edges(from, t, location, ReferenceKind::FunctionItem).union(
            all_inferred_edges(args@, from, location),
        ),
        TypeShape::Alias(t) => reference_edges(from, t, location, ReferenceKind::TypeAlias),
        TypeShape::Other => Set::empty(),
    }
}

/// The edges that each of `ts` adds (see `inferred_edges`).
pub open spec fn all_inferred_edges(ts: Seq<TypeShape>, from: Seq<char>, location: Seq<char>) -> Set<
    EdgeView,
>
    decreases ts,
{
    if ts.len() == 0 {
        Set::empty()
    } else {
        all_inferred_edges(ts.subrange(0, ts.len() - 1), from, location).union(
            inferred_edges(ts[ts.len() - 1], from, location),
        )
    }
}

/// Whether `c` is one of the types directly inside `ty`: a type argument of
/// a struct, enum, union or function item, the pointee of a pointer, or a
/// field of a tuple.
pub open spec fn directly_inside(ty: TypeShape, c: TypeShape) -> bool {
    match ty {
        TypeShape::Adt(_, args) => args@.contains(c),
        TypeShape::Pointee(inner) => c == *inner,
        TypeShape::Tuple(fields) => fields@.contains(c),
        TypeShape::FnDef(_, args) => args@.contains(c),
        _ => false,
    }
}

/// Whether `sub` occurs in `ty`, `n` steps of `directly_inside` down.
pub open spec fn occurs_in(ty: TypeShape, sub: TypeShape, n: nat) -> bool
    decreases n,
{
    if n == 0 {
        sub == ty
    } else {
        exists|c: TypeShape| directly_inside(ty, c) && occurs_in(c, sub, (n - 1) as nat)
    }
}

/// The reference that a type makes by itself, not counting the types
/// inside it.
pub open spec fn own_edges(ty: TypeShape, from: Seq<char>, location: Seq<char>) -> Set<EdgeView> {
    match ty {
        TypeShape::Adt(t, _) => reference_edges(from, t, location, ReferenceKind::InferredType),
        TypeShape::FnDef(t, _) => reference_edges(from, t, location, ReferenceKind::FunctionItem),
        TypeShape::Alias(t) => reference_edges(from, t, location, ReferenceKind::TypeAlias),
        _ => Set::empty(),
    }
}

proof fn lemma_each_inferred(ts: Seq<TypeShape>, c: TypeShape, from: Seq<char>, location: Seq<char>)
    requires
        ts.contains(c),
    ensures
        inferred_edges(c, from, location).subset_of(all_inferred_edges(ts, from, location)),
    decreases ts.len(),
{
    let init = ts.subrange(0, ts.len() - 1);
    if ts[ts.len() - 1] != c {
        let k = choose|k: int| 0 <= k < ts.len() && ts[k] == c;
        assert(init[k] == c);
        lemma_each_inferred(init, c, from, location);
    }
}

/// Every struct, enum, union, function item and type alias anywhere in the
/// type of an expression, however deep in type arguments, pointers and
/// tuples, gives its reference: the edges of each type that occurs in `ty`
/// are among those that `ty` adds.
pub proof fn lemma_inferred_reaches_inner_types(
    ty: TypeShape,
    sub: TypeShape,
    n: nat,
    from: Seq<char>,
    location: Seq<char>,
)
    requires
        occurs_in(ty, sub, n),
    ensures
        own_edges(sub, from, location).subset_of(inferred_edges(ty, from, location)),
    decreases n,
{
    if n == 0 {
    } else {
        let c = choose|c: TypeShape| directly_inside(ty, c) && occurs_in(c, sub, (n - 1) as nat);
        lemma_inferred_reaches_inner_types(c, sub, (n - 1) as nat, from, location);
        match ty {
            TypeShape::Adt(_, args) => lemma_each_inferred(args@, c, from, location),
            TypeShape::Tuple(fields) => lemma_each_inferred(fields@, c, from, location),
            TypeShape::FnDef(_, args) => lemma_each_inferred(args@, c, from, location),
            _ => {},
        }
    }
}

proof fn lemma_each_source(ts: Seq<TypeShape>, e: EdgeView, from: Seq<char>, location: Seq<char>) -> (i: int)
    requires
        all_inferred_edges(ts, from, location).contains(e),
    ensures
        0 <= i < ts.len(),
        inferred_edges(ts[i], from, location).contains(e),
    decreases ts.len(),
{
    let init = ts.subrange(0, ts.len() - 1);
    if inferred_edges(ts[ts.len() - 1], from, location).contains(e) {
        ts.len() - 1
    } else {
        let k = lemma_each_source(init, e, from, location);
        assert(init[k] == ts[k]);
        k
    }
}

/// Every edge that the type of an expression adds is the reference of some
/// type that occurs in it: nothing else is recorded.
pub proof fn lemma_inferred_edges_have_sources(
    ty: TypeShape,
    e: EdgeView,
    from: Seq<char>,
    location: Seq<char>,
) -> (w: (TypeShape, nat))
    requires
        inferred_edges(ty, from, location).contains(e),
    ensures
        occurs_in(ty, w.0, w.1),
        own_edges(w.0, from, location).contains(e),
    decreases ty,
{
    if own_edges(ty, from, location).contains(e) {
        (ty, 0)
    } else {
        match ty {
            TypeShape::Adt(_, args) => {
                let i = lemma_each_source(args@, e, from, location);
                let c = args@[i];
                assert(decreases_to!(ty => c));
                let (sub, n) = lemma_inferred_edges_have_sources(c, e, from, location);
                assert(directly_inside(ty, c) && occurs_in(c, sub, n));
                assert(occurs_in(ty, sub, n + 1));
                (sub, n + 1)
            },
            TypeShape::Pointee(inner) => {
                let c = *inner;
                let (sub, n) = lemma_inferred_edges_have_sources(c, e, from, location);
                assert(directly_inside(ty, c) && occurs_in(c, sub, n));
                assert(occurs_in(ty, sub, n + 1));
                (sub, n + 1)
            },
            TypeShape::Tuple(fields) => {
                let i = lemma_each_source(fields@, e, from, location);
                let c = fields@[i];
                assert(decreases_to!(ty => c));
                let (sub, n) = lemma_inferred_edges_have_sources(c, e, from, location);
                assert(directly_inside(ty, c) && occurs_in(c, sub, n));
                assert(occurs_in(ty, sub, n + 1));
                (sub, n + 1)
            },
            TypeShape::FnDef(_, args) => {
                let i = lemma_each_source(args@, e, from, location);
                let c = args@[i];
                assert(decreases_to!(ty => c));
                let (sub, n) = lemma_inferred_edges_have_sources(c, e, from, location);
                assert(directly_inside(ty, c) && occurs_in(c, sub, n));
                assert(occurs_in(ty, sub, n + 1));
                (sub, n + 1)
            },
            _ => (ty, 0),
        }
    }
}

/// Each type of a sequence that fits, fits.
proof fn lemma_all_fit(ts: Seq<TypeShape>, depth: int, i: int)
    requires
        all_fit(ts, depth),
        0 <= i < ts.len(),
    ensures
        fits(ts[i], depth),
    decreases ts.len(),
{
    if i < ts.len() - 1 {
        let init = ts.subrange(0, ts.len() - 1);
        lemma_all_fit(init, depth, i);
        assert(init[i] == ts[i]);
    }
}

/// Adding edges in two steps adds their union.
proof fn lemma_adds_twice(a: Graph, b: Graph, c: Graph, x: Set<EdgeView>, y: Set<EdgeView>)
    requires
        adds_edges(a, b, x),
        adds_edges(b, c, y),
    ensures
        adds_edges(a, c, x.union(y)),
{
    assert(a@.edges.to_set().union(x).union(y) =~= a@.edges.to_set().union(x.union(y)));
}

/// Records the references that the types `ts`, met at nesting depth
/// `depth` in module `from`, make (see `all_inferred_edges`).
fn record_each(graph: &mut Graph, from: &str, location: &str, ts: &Vec<TypeShape>, depth: usize)
    requires
        all_fit(ts@, depth as int),
    ensures
        adds_edges(*old(graph), *final(graph), all_inferred_edges(ts@, from@, location@)),
    decreases ts,
{
    let ghost start = *graph;
    assert(start@.edges.to_set().union(Set::<EdgeView>::empty()) =~= start@.edges.to_set());
    assert(ts@.take(0) =~= Seq::<TypeShape>::empty());
    let mut i: usize = 0;
    while i < ts.len()
        invariant
            i <= ts.len(),
            all_fit(ts@, depth as int),
            start == *old(graph),
            adds_edges(start, *graph, all_inferred_edges(ts@.take(i as int), from@, location@)),
        decreases ts.len() - i,
    {
        proof {
            lemma_all_fit(ts@, depth as int, i as int);
        }
        let ghost before = *graph;
        assert(decreases_to!(ts => ts@[i as int]));
        record_inferred(graph, from, location, &ts[i], depth);
        proof {
            let t = ts@.take(i + 1);
            assert(t.subrange(0, t.len() - 1) == ts@.take(i as int));
            assert(t[t.len() - 1] == ts@[i as int]);
            lemma_adds_twice(
                start,
                before,
                *graph,
                all_inferred_edges(ts@.take(i as int), from@, location@),
                inferred_edges(ts@[i as int], from@, location@),
            );
        }
        i = i + 1;
    }
    assert(ts@.take(ts.len() as int) == ts@);
}

/// Records the references that the type `ty` of an expression in module
/// `from`, met at nesting depth `depth`, makes (see `inferred_edges`).
pub fn record_inferred(graph: &mut Graph, from: &str, location: &str, ty: &TypeShape, depth: usize)
    requires
        fits(*ty, depth as int),
    ensures
        adds_edges(*old(graph), *final(graph), inferred_edges(*ty, from@, location@)),
        forall|sub: TypeShape, n: nat|
            #[trigger] occurs_in(*ty, sub, n) ==> own_edges(sub, from@, location@).subset_of(
                final(graph)@.edges.to_set(),
            ),
        forall|e: EdgeView|
            #[trigger] final(graph)@.edges.to_set().contains(e) ==> old(graph)@.edges.to_set().contains(e)
                || exists|sub: TypeShape, n: nat|
                occurs_in(*ty, sub, n) && own_edges(sub, from@, location@).contains(e),
    decreases ty,
{
    proof {
        assert forall|sub: TypeShape, n: nat| #[trigger] occurs_in(*ty, sub, n) implies own_edges(
            sub,
            from@,
            location@,
        ).subset_of(inferred_edges(*ty, from@, location@)) by {
            lemma_inferred_reaches_inner_types(*ty, sub, n, from@, location@);
        }
        assert forall|e: EdgeView| #[trigger] inferred_edges(*ty, from@, location@).contains(e) implies exists|
            sub: TypeShape,
            n: nat,
        | occurs_in(*ty, sub, n) && own_edges(sub, from@, location@).contains(e) by {
            let (sub, n) = lemma_inferred_edges_have_sources(*ty, e, from@, location@);
        }
    }
    let ghost start = *graph;
    match ty {
        TypeShape::Adt(t, args) => {
            record_reference(graph, from, t, location, ReferenceKind::InferredType);
            let ghost mid = *graph;
            record_each(graph, from, location, args, depth + 1);
            proof {
                lemma_adds_twice(
                    start,
                    mid,
                    *graph,
                    reference_edges(from@, *t, location@, ReferenceKind::InferredType),
                    all_inferred_edges(args@, from@, location@),
                );
            }
        },
        TypeShape::Pointee(inner) => {
            record_inferred(graph, from, location, inner, depth + 1);
        },
        TypeShape::Tuple(fields) => {
            record_each(graph, from, location, fields, depth + 1);
        },
        TypeShape::FnDef(t, args) => {
            record_reference(graph, from, t, location, ReferenceKind::FunctionItem);
            let ghost mid = *graph;
            record_each(graph, from, location, args, depth + 1);
            proof {
                lemma_adds_twice(
                    start,
                    mid,
                    *graph,
                    reference_edges(from@, *t, location@, ReferenceKind::FunctionItem),
                    all_inferred_edges(args@, from@, location@),
                );
            }
        },
        TypeShape::Alias(t) => {
            record_reference(graph, from, t, location, ReferenceKind::TypeAlias);
        },
        TypeShape::Other => {
            assert(graph@.edges.to_set().union(Set::<EdgeView>::empty()) =~= graph@.edges.to_set());
        },
    }
}

/// Whether each of `ts`, met at nesting depth `depth`, fits.
fn each_fits(ts: &Vec<TypeShape>, depth: usize) -> (r: bool)
    requires
        depth <= nesting_limit() + 1,
    ensures
        r == all_fit(ts@, depth as int),
    decreases ts,
{
    let mut i: usize = 0;
    assert(ts@.take(0) =~= Seq::<TypeShape>::empty());
    while i < ts.len()
        invariant
            i <= ts.len(),
            depth <= nesting_limit() + 1,
            all_fit(ts@.take(i as int), depth as int),
        decreases ts.len() - i,
    {
        assert(decreases_to!(ts => ts@[i as int]));
        let ok = fits_within(&ts[i], depth);
        let ghost t = ts@.take(i + 1);
        assert(t.subrange(0, t.len() - 1) == ts@.take(i as int));
        assert(t[t.len() - 1] == ts@[i as int]);
        if !ok {
            proof {
                if all_fit(ts@, depth as int) {
                    lemma_all_fit(ts@, depth as int, i as int);
                }
            }
            return false;
        }
        i = i + 1;
    }
    assert(ts@.take(ts.len() as int) == ts@);
    true
}

/// Whether `ty`, met at nesting depth `depth`, fits (see `fits`); collecting
/// refuses a type that does not.
pub fn fits_within(ty: &TypeShape, depth: usize) -> (r: bool)
    ensures
        r == fits(*ty, depth as int),
    decreases ty,
{
    if depth > 64 {
        return false;
    }
    match ty {
        TypeShape::Adt(_, args) => each_fits(args, depth + 1),
        TypeShape::Pointee(inner) => fits_within(inner, depth + 1),
        TypeShape::Tuple(fields) => each_fits(fields, depth + 1),
        TypeShape::FnDef(_, args) => each_fits(args, depth + 1),
        _ => true,
    }
}

/// Starts the graph of crate `name`: its name, and its root module.
pub fn begin_crate(graph: &mut Graph, name: String)
    ensures
        final(graph)@.crate_name == name@,
        final(graph)@.modules.to_set() == old(graph)@.modules.to_set().insert(name@),
        final(graph)@.edges == old(graph)@.edges,
{
    let root = name.clone();
    graph.crate_name = name;
    graph.modules.insert(root);
}

/// The edges that a reference to `t`, when there is one, adds.
pub open spec fn optional_edges(from: Seq<char>, t: Option<&Target>, location: Seq<char>, k: ReferenceKind) -> Set<
    EdgeView,
> {
    match t {
        Some(t) => reference_edges(from, *t, location, k),
        None => Set::empty(),
    }
}

/// Records what an expression in module `from`, at `location`, refers to:
/// the definition its path resolved to, the method it calls, and the
/// definitions in its type (see `inferred_edges`).
pub fn record_expression(
    graph: &mut Graph,
    from: &str,
    location: &str,
    path: Option<&Target>,
    method: Option<&Target>,
    ty: &TypeShape,
)
    requires
        fits(*ty, 0),
    ensures
        adds_edges(
            *old(graph),
            *final(graph),
            optional_edges(from@, path, location@, ReferenceKind::ExpressionPath).union(
                optional_edges(from@, method, location@, ReferenceKind::Method),
            ).union(inferred_edges(*ty, from@, location@)),
        ),
{
    let ghost start = *graph;
    match path {
        Some(t) => record_reference(graph, from, t, location, ReferenceKind::ExpressionPath),
        None => {
            assert(graph@.edges.to_set().union(Set::<EdgeView>::empty()) =~= graph@.edges.to_set());
        },
    }
    let ghost first = *graph;
    match method {
        Some(t) => record_reference(graph, from, t, location, ReferenceKind::Method),
        None => {
            assert(graph@.edges.to_set().union(Set::<EdgeView>::empty()) =~= graph@.edges.to_set());
        },
    }
    let ghost second = *graph;
    record_inferred(graph, from, location, ty, 0);
    proof {
        let a = optional_edges(from@, path, location@, ReferenceKind::ExpressionPath);
        let b = optional_edges(from@, method, location@, ReferenceKind::Method);
        lemma_adds_twice(start, first, second, a, b);
        lemma_adds_twice(start, second, *graph, a.union(b), inferred_edges(*ty, from@, location@));
    }
}

} // verus!
