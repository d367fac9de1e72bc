use lib::cycle::first_cycle;
use lib::graph::{within, Edge, Graph, ModuleSet};
use lib::policy::{Finding, Layer, Policy};

fn module_set(names: &[&str]) -> ModuleSet {
    ModuleSet::from_vec(names.iter().map(|s| s.to_string()).collect())
}

fn edge(from: &str, to: &str, symbol: &str) -> Edge {
    Edge {
        from: from.into(),
        to: to.into(),
        symbol: symbol.into(),
        location: "src/lib.rs:1:1".into(),
        kind: "path".into(),
    }
}

fn names(set: &ModuleSet) -> Vec<String> {
    (0..set.len()).map(|i| set.get(i).clone()).collect()
}

#[test]
fn module_sets_keep_byte_order_without_duplicates() {
    let mut set = ModuleSet::new();
    assert!(set.is_empty());
    assert!(set.insert("b".into()));
    assert!(set.insert("é".into()));
    assert!(set.insert("a".into()));
    assert!(set.insert("Z".into()));
    assert!(!set.insert("a".into()));
    assert_eq!(names(&set), vec!["Z", "a", "b", "é"]);
    assert!(set.contains("é"));
    assert!(!set.contains("c"));
    assert!(set.remove("b"));
    assert!(!set.remove("b"));
    assert_eq!(names(&set), vec!["Z", "a", "é"]);
    assert_eq!(names(&module_set(&["b", "a", "b"])), vec!["a", "b"]);
}

#[test]
fn edge_sets_order_by_fields_in_turn() {
    let mut graph = Graph::default();
    assert!(graph.edges.insert(edge("b", "a", "x")));
    assert!(graph.edges.insert(edge("a", "b", "y")));
    assert!(graph.edges.insert(edge("a", "b", "x")));
    assert!(!graph.edges.insert(edge("a", "b", "x")));
    assert_eq!(graph.edges.len(), 3);
    assert_eq!(graph.edges.get(0).symbol, "x");
    assert_eq!(graph.edges.get(1).symbol, "y");
    assert_eq!(graph.edges.get(2).from, "b");
    assert!(graph.edges.contains(&edge("b", "a", "x")));
    assert!(graph.edges.remove(&edge("b", "a", "x")));
    assert!(!graph.edges.contains(&edge("b", "a", "x")));
}

#[test]
fn prefixes_select_whole_segments_and_root_selects_only_itself() {
    assert!(within("app", "app", "app"));
    assert!(!within("app::x", "app", "app"));
    assert!(within("app::inner", "app::inner", "app"));
    assert!(within("app::inner::deep", "app::inner", "app"));
    assert!(!within("app::inner_extra", "app::inner", "app"));
    assert!(!within("app::inne", "app::inner", "app"));
    assert!(within("app::x", "app", "other"));
}

#[test]
fn validation_messages_name_the_fault() {
    let mut graph = Graph { crate_name: "app".into(), ..Graph::default() };
    assert_eq!(graph.validate(), Err("Graph must contain its crate root".to_string()));
    graph.modules.insert("app".into());
    assert_eq!(graph.validate(), Ok(()));
    graph.modules.insert("application".into());
    assert_eq!(graph.validate(), Err("Module outside collected crate: application".to_string()));
    graph.modules.remove("application");
    graph.edges.insert(edge("app", "app", ""));
    assert_eq!(
        graph.validate(),
        Err("Invalid edge: Edge { from: \"app\", to: \"app\", symbol: \"\", location: \"src/lib.rs:1:1\", kind: \"path\" }"
            .to_string())
    );
    let empty = Graph::default();
    assert_eq!(empty.validate(), Err("Graph must contain its crate root".to_string()));
}

#[test]
fn encoding_is_hex_per_field_in_set_order() {
    let mut graph = Graph { crate_name: "ab".into(), modules: module_set(&["ab::c", "ab"]), ..Graph::default() };
    graph.edges.insert(Edge {
        from: "ab".into(),
        to: "ab::c".into(),
        symbol: "S".into(),
        location: "é".into(),
        kind: "k".into(),
    });
    assert_eq!(
        graph.encode(),
        "layer-graph-v1\nC\t6162\nM\t6162\nM\t61623a3a63\nE\t6162\t61623a3a63\t53\tc3a9\t6b\nEND\n"
    );
}

#[test]
fn decoding_reverses_encoding() {
    let mut graph = Graph { crate_name: "k".into(), modules: module_set(&["k", "k::a\tb", "k::\u{1F600}"]), ..Graph::default() };
    graph.edges.insert(Edge {
        from: "k::a\tb".into(),
        to: "k::\u{1F600}".into(),
        symbol: "line\nbreak\r".into(),
        location: "\\".into(),
        kind: "\"".into(),
    });
    assert_eq!(graph.validate(), Ok(()));
    assert_eq!(Graph::decode(&graph.encode()), Ok(graph));
}

#[test]
fn decoding_accepts_crlf_and_uppercase_hex() {
    let decoded = Graph::decode("layer-graph-v1\r\nC\t4A\r\nM\t4a\r\nEND\r\n").unwrap();
    assert_eq!(decoded.crate_name, "J");
    assert_eq!(names(&decoded.modules), vec!["J"]);
    assert_eq!(decoded.edges.len(), 0);
    let no_final_newline = Graph::decode("layer-graph-v1\nC\t4a\nM\t4a\nEND").unwrap();
    assert_eq!(no_final_newline.crate_name, "J");
}

#[test]
fn each_decoding_error_has_its_message() {
    let fail = |text: &str| Graph::decode(text).unwrap_err();
    assert_eq!(fail(""), "Unsupported or missing graph schema");
    assert_eq!(fail("layer-graph-v2\nEND\n"), "Unsupported or missing graph schema");
    assert_eq!(fail("layer-graph-v1\nC\t61\nM\t61\nEND\nM\t62\n"), "Data after graph terminator");
    assert_eq!(fail("layer-graph-v1\nC\t61\nM\t61\nM\t61\nEND\n"), "Duplicate module in graph");
    assert_eq!(
        fail("layer-graph-v1\nC\t61\nM\t61\nE\t61\t61\t62\t62\t62\nE\t61\t61\t62\t62\t62\nEND\n"),
        "Duplicate edge in graph"
    );
    assert_eq!(fail("layer-graph-v1\nC\t61\nC\t61\nEND\n"), "Invalid graph record: C\t61");
    assert_eq!(fail("layer-graph-v1\nX\nEND\n"), "Invalid graph record: X");
    assert_eq!(fail("layer-graph-v1\nC\t61\nM\t61\n"), "Incomplete graph");
    assert_eq!(fail("layer-graph-v1\nM\t61\nEND\n"), "Incomplete graph");
    assert_eq!(fail("layer-graph-v1\nC\t6\nEND\n"), "Invalid graph field encoding");
    assert_eq!(fail("layer-graph-v1\nC\t6g\nEND\n"), "Invalid graph field encoding");
    assert_eq!(fail("layer-graph-v1\nC\tff\nEND\n"), "invalid utf-8 sequence of 1 bytes from index 0");
    assert_eq!(fail("layer-graph-v1\nC\t61\nEND\n"), "Graph must contain its crate root");
}

#[test]
fn dot_quotes_names_and_merges_parallel_references() {
    let mut graph = Graph { crate_name: "a".into(), modules: module_set(&["a", "a::\"q\"", "a::\\\n"]), ..Graph::default() };
    graph.edges.insert(edge("a", "a::\"q\"", "x"));
    graph.edges.insert(edge("a", "a::\"q\"", "y"));
    graph.edges.insert(edge("a::\\\n", "a", "z"));
    assert_eq!(
        graph.dot(),
        "digraph modules {\n  \"a\";\n  \"a::\\\"q\\\"\";\n  \"a::\\\\\\n\";\n  \"a\" -> \"a::\\\"q\\\"\";\n  \"a::\\\\\\n\" -> \"a\";\n}\n"
    );
}

#[test]
fn first_cycle_returns_a_closed_walk_or_nothing() {
    assert_eq!(first_cycle(&vec![vec![1], vec![2], vec![0]]), Some(vec![0, 1, 2, 0]));
    assert_eq!(first_cycle(&vec![vec![0]]), Some(vec![0, 0]));
    assert_eq!(first_cycle(&vec![vec![1, 2], vec![2], vec![]]), None);
    assert_eq!(first_cycle(&vec![vec![], vec![2], vec![1]]), Some(vec![1, 2, 1]));
    assert_eq!(first_cycle(&vec![]), None);
    assert_eq!(first_cycle(&vec![vec![2, 1], vec![0], vec![0]]), Some(vec![0, 2, 0]));
    assert_eq!(first_cycle(&vec![vec![1], vec![2, 3], vec![], vec![1]]), Some(vec![1, 3, 1]));
}

const CYCLIC: Policy = Policy {
    acyclic: true,
    layers: &[
        Layer { name: "root", module: "app", allows: &[] },
        Layer { name: "inner", module: "app::inner", allows: &["outer"] },
        Layer { name: "outer", module: "app::outer", allows: &["inner"] },
    ],
};

const TOLERANT: Policy = Policy { acyclic: false, layers: CYCLIC.layers };

fn cyclic_graph() -> Graph {
    let mut graph = Graph { crate_name: "app".into(), modules: module_set(&["app", "app::inner", "app::outer"]), ..Graph::default() };
    graph.edges.insert(edge("app::inner", "app::outer", "A"));
    graph.edges.insert(edge("app::outer", "app::inner", "B"));
    graph
}

#[test]
fn mutually_allowed_layers_still_form_a_cycle() {
    assert_eq!(
        CYCLIC.check(&cyclic_graph()),
        Err(vec![Finding::Cycle(vec!["inner".into(), "outer".into(), "inner".into()])])
    );
    assert_eq!(TOLERANT.check(&cyclic_graph()), Ok(()));
}

#[test]
fn invalid_graphs_are_reported_before_the_policy() {
    let graph = Graph { crate_name: "app".into(), ..Graph::default() };
    assert_eq!(
        CYCLIC.check(&graph),
        Err(vec![Finding::Invalid("Graph must contain its crate root".into())])
    );
    let empty = Policy { acyclic: true, layers: &[] };
    assert_eq!(
        empty.check(&graph),
        Err(vec![Finding::Invalid("Graph must contain its crate root".into())])
    );
}

#[test]
fn report_lists_findings_in_debug_form() {
    assert_eq!(
        TOLERANT.report(&cyclic_graph()),
        "# Resolved layer contracts\n\nModules: 3. References: 2.\n\nPASS\n"
    );
    let mut graph = cyclic_graph();
    graph.modules.insert("app::x".into());
    assert_eq!(
        CYCLIC.report(&graph),
        "# Resolved layer contracts\n\nModules: 4. References: 2.\n\nFAIL\n\n    Unclassified(\"app::x\")\n\n    Cycle([\"inner\", \"outer\", \"inner\"])\n\n"
    );
}

#[test]
fn forbidden_findings_follow_edge_order() {
    let policy = Policy {
        acyclic: false,
        layers: &[
            Layer { name: "root", module: "app", allows: &[] },
            Layer { name: "inner", module: "app::inner", allows: &[] },
            Layer { name: "outer", module: "app::outer", allows: &[] },
        ],
    };
    let graph = cyclic_graph();
    assert_eq!(
        policy.check(&graph),
        Err(vec![
            Finding::Forbidden { from: "inner".into(), to: "outer".into(), edge: edge("app::inner", "app::outer", "A") },
            Finding::Forbidden { from: "outer".into(), to: "inner".into(), edge: edge("app::outer", "app::inner", "B") },
        ])
    );
    assert_eq!(
        policy.report(&graph),
        "# Resolved layer contracts\n\nModules: 3. References: 2.\n\nFAIL\n\n    Forbidden { from: \"inner\", to: \"outer\", edge: Edge { from: \"app::inner\", to: \"app::outer\", symbol: \"A\", location: \"src/lib.rs:1:1\", kind: \"path\" } }\n\n    Forbidden { from: \"outer\", to: \"inner\", edge: Edge { from: \"app::outer\", to: \"app::inner\", symbol: \"B\", location: \"src/lib.rs:1:1\", kind: \"path\" } }\n\n"
    );
}

#[test]
fn policy_declaration_errors_have_their_messages() {
    let graph = cyclic_graph();
    let blank = Policy { acyclic: true, layers: &[Layer { name: "", module: "app", allows: &[] }] };
    assert_eq!(blank.check(&graph), Err(vec![Finding::Invalid("Empty/duplicate layer declaration".into())]));
    let overlap = Policy {
        acyclic: true,
        layers: &[
            Layer { name: "a", module: "app::inner", allows: &[] },
            Layer { name: "b", module: "app::inner::x", allows: &[] },
        ],
    };
    assert_eq!(overlap.check(&graph), Err(vec![Finding::Invalid("Overlapping layer selectors: a / b".into())]));
    let twice = Policy { acyclic: true, layers: &[Layer { name: "a", module: "app", allows: &["a", "a"] }] };
    assert_eq!(twice.check(&graph), Err(vec![Finding::Invalid("Unknown/duplicate allowed layer: a".into())]));
}

#[test]
fn text_cut_short_before_the_terminator_is_refused() {
    let mut graph = Graph { crate_name: "app".into(), modules: module_set(&["app", "app::x"]), ..Graph::default() };
    graph.edges.insert(edge("app", "app::x", "app::x::T"));
    let text = graph.encode();
    for n in 0..text.len() - 1 {
        assert!(Graph::decode(&text[..n]).is_err(), "prefix of {n} bytes decoded");
    }
    assert_eq!(Graph::decode(&text[..text.len() - 1]), Ok(graph));
}

#[test]
fn text_after_the_terminator_is_refused() {
    let graph = Graph { crate_name: "app".into(), modules: module_set(&["app"]), ..Graph::default() };
    let text = graph.encode();
    for extra in ["\n", "x", "END\n", "M\t61\n", "\r\n"] {
        assert_eq!(
            Graph::decode(&format!("{text}{extra}")),
            Err("Data after graph terminator".to_string()),
            "{extra:?} was accepted"
        );
    }
    assert_eq!(Graph::decode(&text), Ok(graph));
}

#[test]
fn dot_shows_only_modules_and_module_pairs() {
    let mut first = Graph { crate_name: "a".into(), modules: module_set(&["a", "a::b"]), ..Graph::default() };
    first.edges.insert(edge("a", "a::b", "x"));
    first.edges.insert(edge("a", "a::b", "y"));
    let mut second = Graph { crate_name: "other".into(), modules: module_set(&["a", "a::b"]), ..Graph::default() };
    second.edges.insert(Edge {
        from: "a".into(),
        to: "a::b".into(),
        symbol: "z".into(),
        location: "elsewhere".into(),
        kind: "method".into(),
    });
    assert_eq!(first.dot(), second.dot());
}

#[test]
fn cloned_graphs_are_equal() {
    let mut graph = Graph { crate_name: "a".into(), modules: module_set(&["a", "a::b"]), ..Graph::default() };
    graph.edges.insert(edge("a", "a::b", "x"));
    let copy = graph.clone();
    assert_eq!(copy, graph);
    assert_eq!(copy.encode(), graph.encode());
}
