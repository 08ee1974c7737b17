use parser_wasm::includes_graph::{IncludesGraph, IncludesNode};

fn chain(names: &[&str]) -> Vec<String> {
    names.iter().map(|n| n.to_string()).collect()
}

#[test]
fn diamond_reports_one_chain_for_each_way_up() {
    // root pulls in a and b, and each of them pulls in c, which uses custom gates.
    let mut graph = IncludesGraph::new();
    graph.add_node("/root.circom".to_string(), true, false);
    graph.add_edge("/a.circom".to_string());
    graph.add_edge("/b.circom".to_string());
    graph.add_node("/b.circom".to_string(), false, false);
    graph.add_edge("/c.circom".to_string());
    graph.add_node("/c.circom".to_string(), true, true);
    graph.add_node("/a.circom".to_string(), false, false);
    graph.add_edge("/c.circom".to_string());
    let chains = graph.get_problematic_paths();
    assert_eq!(
        chains,
        vec![chain(&["/c.circom", "/b.circom"]), chain(&["/c.circom", "/a.circom"])]
    );
}

#[test]
fn diamond_with_bare_root_reports_the_root_once_for_each_way() {
    let mut graph = IncludesGraph::new();
    graph.add_node("/root.circom".to_string(), false, false);
    graph.add_edge("/a.circom".to_string());
    graph.add_edge("/b.circom".to_string());
    graph.add_node("/a.circom".to_string(), false, false);
    graph.add_edge("/c.circom".to_string());
    graph.add_node("/c.circom".to_string(), true, true);
    graph.add_node("/b.circom".to_string(), false, false);
    graph.add_edge("/c.circom".to_string());
    let chains = graph.get_problematic_paths();
    assert_eq!(
        chains,
        vec![
            chain(&["/c.circom", "/a.circom"]),
            chain(&["/c.circom", "/a.circom", "/root.circom"]),
            chain(&["/c.circom", "/b.circom"]),
            chain(&["/c.circom", "/b.circom", "/root.circom"]),
        ]
    );
}

#[test]
fn cycle_ends_when_an_edge_would_be_taken_again() {
    // a pulls in b and b pulls in a; a uses custom gates, neither has the pragma.
    let mut graph = IncludesGraph::new();
    graph.add_node("/a.circom".to_string(), false, true);
    graph.add_edge("/b.circom".to_string());
    graph.add_node("/b.circom".to_string(), false, false);
    graph.add_edge("/a.circom".to_string());
    let chains = graph.get_problematic_paths();
    assert_eq!(
        chains,
        vec![
            chain(&["/a.circom"]),
            chain(&["/a.circom", "/b.circom"]),
            chain(&["/a.circom", "/b.circom", "/a.circom"]),
        ]
    );
}

#[test]
fn file_pulled_in_twice_by_one_file_gives_two_chains() {
    let mut graph = IncludesGraph::new();
    graph.add_node("/main.circom".to_string(), false, false);
    graph.add_edge("/gates.circom".to_string());
    graph.add_edge("/gates.circom".to_string());
    graph.add_node("/gates.circom".to_string(), true, true);
    let chains = graph.get_problematic_paths();
    assert_eq!(
        chains,
        vec![
            chain(&["/gates.circom", "/main.circom"]),
            chain(&["/gates.circom", "/main.circom"]),
        ]
    );
}

#[test]
fn graph_without_feature_use_reports_nothing() {
    let mut graph = IncludesGraph::new();
    graph.add_node("/main.circom".to_string(), false, false);
    graph.add_edge("/lib.circom".to_string());
    graph.add_node("/lib.circom".to_string(), false, false);
    assert!(graph.get_problematic_paths().is_empty());
    assert!(IncludesGraph::default().get_problematic_paths().is_empty());
}

#[test]
fn compliant_chain_reports_nothing() {
    let mut graph = IncludesGraph::new();
    graph.add_node("/main.circom".to_string(), true, false);
    graph.add_edge("/gates.circom".to_string());
    graph.add_node("/gates.circom".to_string(), true, true);
    assert!(graph.get_problematic_paths().is_empty());
}

#[test]
fn edge_is_stored_under_the_normal_form() {
    let mut graph = IncludesGraph::new();
    graph.add_node("/main.circom".to_string(), false, false);
    graph.add_edge("/lib/../gates.circom".to_string());
    graph.add_node("/gates.circom".to_string(), true, true);
    assert_eq!(
        graph.get_problematic_paths(),
        vec![chain(&["/gates.circom", "/main.circom"])]
    );
}

#[test]
fn display_path_joins_file_names_with_arrows() {
    let shown = IncludesGraph::display_path(&chain(&["/lib/c.circom", "/src/a.circom", "/root.circom"]));
    assert_eq!(shown, "c.circom -> a.circom -> root.circom");
    assert_eq!(IncludesGraph::display_path(&chain(&["/only.circom"])), "only.circom");
    assert_eq!(IncludesGraph::display_path(&[]), "");
}

#[test]
fn every_chain_leads_from_a_user_of_the_feature_to_a_file_without_pragma() {
    // m pulls in a and g; a pulls in g; g pulls in h; g and h use custom gates.
    let pragma = |path: &str| path == "/g.circom" || path == "/a.circom";
    let mut graph = IncludesGraph::new();
    graph.add_node("/m.circom".to_string(), pragma("/m.circom"), false);
    graph.add_edge("/a.circom".to_string());
    graph.add_edge("/g.circom".to_string());
    graph.add_node("/g.circom".to_string(), pragma("/g.circom"), true);
    graph.add_edge("/h.circom".to_string());
    graph.add_node("/h.circom".to_string(), pragma("/h.circom"), true);
    graph.add_node("/a.circom".to_string(), pragma("/a.circom"), false);
    graph.add_edge("/g.circom".to_string());
    let chains = graph.get_problematic_paths();
    assert_eq!(
        chains,
        vec![
            chain(&["/g.circom", "/m.circom"]),
            chain(&["/g.circom", "/a.circom", "/m.circom"]),
            chain(&["/h.circom"]),
            chain(&["/h.circom", "/g.circom", "/m.circom"]),
            chain(&["/h.circom", "/g.circom", "/a.circom", "/m.circom"]),
        ]
    );
    for c in &chains {
        assert!(c[0] == "/g.circom" || c[0] == "/h.circom");
        assert!(!pragma(c.last().unwrap()));
    }
}

#[test]
fn node_holds_its_path_and_pragma() {
    let node = IncludesNode { path: "/a.circom".to_string(), custom_gates_pragma: true };
    assert_eq!(node.path, "/a.circom");
    assert!(node.custom_gates_pragma);
}
