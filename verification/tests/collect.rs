use lib::collect::{
    begin_crate, fits_within, full_name, kind_name, record_expression, record_inferred, record_reference,
    ReferenceKind, Target, TypeShape,
};
use lib::graph::{Edge, Graph};

fn target(local: bool, module: &str, symbol: &str) -> Target {
    Target { local, module: module.into(), symbol: symbol.into() }
}

fn edges(graph: &Graph) -> Vec<(String, String, String, String)> {
    (0..graph.edges.len())
        .map(|i| {
            let e: &Edge = graph.edges.get(i);
            (e.from.clone(), e.to.clone(), e.symbol.clone(), e.kind.clone())
        })
        .collect()
}

fn edge(from: &str, to: &str, symbol: &str, kind: &str) -> (String, String, String, String) {
    (from.into(), to.into(), symbol.into(), kind.into())
}

#[test]
fn full_names_join_crate_and_path() {
    assert_eq!(full_name("app", ""), "app");
    assert_eq!(full_name("app", "domain::Task"), "app::domain::Task");
}

#[test]
fn kinds_have_stable_names() {
    let names: Vec<&str> = [
        ReferenceKind::Path,
        ReferenceKind::TypePath,
        ReferenceKind::ExpressionPath,
        ReferenceKind::Method,
        ReferenceKind::InferredType,
        ReferenceKind::FunctionItem,
        ReferenceKind::TypeAlias,
    ]
    .into_iter()
    .map(kind_name)
    .collect();
    assert_eq!(
        names,
        vec!["path", "type-path", "expression-path", "method", "inferred-type", "function-item", "type-alias"]
    );
}

#[test]
fn only_references_to_other_local_modules_are_recorded() {
    let mut graph = Graph::default();
    begin_crate(&mut graph, "app".into());
    assert_eq!(graph.crate_name, "app");
    assert!(graph.modules.contains("app"));
    let here = "app::domain";
    record_reference(&mut graph, here, &target(false, "std::vec", "std::vec::Vec"), "src/lib.rs:1:1", ReferenceKind::Path);
    record_reference(&mut graph, here, &target(true, "app::domain", "app::domain::Task"), "src/lib.rs:2:1", ReferenceKind::Path);
    assert_eq!(graph.edges.len(), 0);
    record_reference(&mut graph, here, &target(true, "app::infra", "app::infra::Repo"), "src/lib.rs:3:1", ReferenceKind::TypePath);
    assert_eq!(edges(&graph), vec![edge("app::domain", "app::infra", "app::infra::Repo", "type-path")]);
    assert_eq!(graph.edges.get(0).location, "src/lib.rs:3:1");
    record_reference(&mut graph, here, &target(true, "app::infra", "app::infra::Repo"), "src/lib.rs:3:1", ReferenceKind::TypePath);
    assert_eq!(graph.edges.len(), 1);
}

#[test]
fn inferred_types_are_followed_through_arguments_pointers_and_tuples() {
    let repo = target(true, "app::infra", "app::infra::Repo");
    let task = target(true, "app::domain", "app::domain::Task");
    let make = target(true, "app::infra", "app::infra::make");
    let alias = target(true, "app::aliases", "app::aliases::Handle");
    let ty = TypeShape::Tuple(vec![
        TypeShape::Adt(target(false, "alloc::vec", "alloc::vec::Vec"), vec![TypeShape::Pointee(Box::new(
            TypeShape::Adt(repo, vec![]),
        ))]),
        TypeShape::FnDef(make, vec![TypeShape::Adt(task, vec![])]),
        TypeShape::Alias(alias),
        TypeShape::Other,
    ]);
    let mut graph = Graph::default();
    record_inferred(&mut graph, "app::domain", "src/lib.rs:9:9", &ty, 0);
    assert_eq!(
        edges(&graph),
        vec![
            edge("app::domain", "app::aliases", "app::aliases::Handle", "type-alias"),
            edge("app::domain", "app::infra", "app::infra::Repo", "inferred-type"),
            edge("app::domain", "app::infra", "app::infra::make", "function-item"),
        ]
    );
}

#[test]
fn expressions_record_path_method_and_type() {
    let mut graph = Graph::default();
    let path = target(true, "app::a", "app::a::f");
    let method = target(true, "app::b", "app::b::T::m");
    let ty = TypeShape::Adt(target(true, "app::c", "app::c::S"), vec![]);
    record_expression(&mut graph, "app", "src/lib.rs:5:5", Some(&path), Some(&method), &ty);
    assert_eq!(
        edges(&graph),
        vec![
            edge("app", "app::a", "app::a::f", "expression-path"),
            edge("app", "app::b", "app::b::T::m", "method"),
            edge("app", "app::c", "app::c::S", "inferred-type"),
        ]
    );
    let mut quiet = Graph::default();
    record_expression(&mut quiet, "app", "src/lib.rs:5:5", None, None, &TypeShape::Other);
    assert_eq!(quiet.edges.len(), 0);
}

fn nested(levels: usize) -> TypeShape {
    let mut ty = TypeShape::Other;
    for _ in 0..levels {
        ty = TypeShape::Pointee(Box::new(ty));
    }
    ty
}

#[test]
fn nesting_beyond_the_limit_is_refused() {
    assert!(fits_within(&nested(64), 0));
    assert!(!fits_within(&nested(65), 0));
    assert!(fits_within(&nested(0), 64));
    assert!(!fits_within(&nested(1), 64));
    assert!(!fits_within(&TypeShape::Other, 65));
    assert!(!fits_within(&TypeShape::Other, usize::MAX));
    assert!(fits_within(&TypeShape::Tuple(vec![]), 64));
    assert!(!fits_within(&TypeShape::Tuple(vec![TypeShape::Other]), 64));
}
