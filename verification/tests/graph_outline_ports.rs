use symnebula::brainstorm::{reuse_clusters, ClustersJson, GraphXml};
use symnebula::expr::{parse_side, parse_simple_eq, Expr};
use symnebula::graph_outline::{GraphOutline, OutlineEdge, OutlineNode};

fn node(id: usize, formula: Expr, text: &str, dynamic: bool) -> OutlineNode {
    let target = match &formula {
        Expr::Eq(_, _) => formula.symbols().first().cloned(),
        _ => None,
    };
    OutlineNode {
        id,
        formula,
        formula_text: text.to_string(),
        is_dynamic: dynamic,
        solve_target: target,
    }
}

fn edge(from: usize, fs: &str, to: usize, ts: &str) -> OutlineEdge {
    OutlineEdge { from_node: from, from_symbol: fs.to_string(), to_node: to, to_symbol: ts.to_string() }
}

#[test]
fn port_inference_for_equations() {
    let g = GraphOutline {
        nodes: vec![
            node(0, parse_simple_eq("x + y = 10").unwrap(), "((x) + (y)) = (10)", false),
            node(1, parse_simple_eq("x = 5").unwrap(), "(x) = (5)", false),
        ],
        edges: vec![edge(1, "x", 0, "x")],
    };
    let xml = GraphXml::from_graph(&g);
    assert_eq!(xml.name, "SymNebula");
    assert_eq!(xml.version, "1.0");
    assert_eq!(xml.nodes[0].id, "n0");
    assert_eq!(xml.nodes[0].node_type, "formula");
    assert_eq!(xml.nodes[0].formula, "((x) + (y)) = (10)");
    assert_eq!(xml.nodes[0].ports.inputs, vec!["x".to_string(), "y".to_string()]);
    assert!(xml.nodes[0].ports.outputs.is_empty());
    assert!(xml.nodes[1].ports.inputs.is_empty());
    assert_eq!(xml.nodes[1].ports.outputs, vec!["x".to_string()]);
    assert_eq!(xml.synapses.len(), 1);
    assert_eq!(xml.synapses[0].from, "n1.x");
    assert_eq!(xml.synapses[0].to, "n0.x");
    let text = xml.to_xml();
    assert!(text.contains("<ports>"));
    assert!(text.contains("<input"));
    assert!(text.contains("<output"));
}

#[test]
fn free_equation_symbol_is_the_output() {
    let g = GraphOutline {
        nodes: vec![node(3, parse_simple_eq("a + b = 3").unwrap(), "a+b=3", true)],
        edges: vec![],
    };
    let xml = GraphXml::from_graph(&g);
    assert_eq!(xml.nodes[0].id, "n3");
    assert_eq!(xml.nodes[0].node_type, "dynamic");
    assert_eq!(xml.nodes[0].ports.inputs, vec!["b".to_string()]);
    assert_eq!(xml.nodes[0].ports.outputs, vec!["a".to_string()]);
}

#[test]
fn numbers_and_expressions_ports() {
    let g = GraphOutline {
        nodes: vec![
            node(0, parse_side("42").unwrap(), "42", false),
            node(1, parse_side("p * q").unwrap(), "(p) * (q)", false),
            node(2, parse_side("7").unwrap(), "7", false),
        ],
        edges: vec![edge(2, "k", 1, "p"), edge(2, "k", 1, "p")],
    };
    let xml = GraphXml::from_graph(&g);
    assert!(xml.nodes[0].ports.inputs.is_empty());
    assert_eq!(xml.nodes[0].ports.outputs, vec!["output".to_string()]);
    assert_eq!(xml.nodes[1].ports.inputs, vec!["p".to_string(), "q".to_string()]);
    assert!(xml.nodes[1].ports.outputs.is_empty());
    assert_eq!(xml.nodes[2].ports.outputs, vec!["k".to_string()]);
    assert_eq!(xml.synapses.len(), 2);
    assert_eq!(xml.synapses[1].from, "n2.k");
    assert_eq!(xml.synapses[1].to, "n1.p");
}

#[test]
fn cached_clusters_kept_when_topology_unchanged() {
    let cached = ClustersJson { topology_version: 4, clusters: vec![] };
    let loaded = ClustersJson { topology_version: 4, clusters: vec![] };
    assert_eq!(reuse_clusters(Some(cached), loaded).topology_version, 4);
    let older = ClustersJson { topology_version: 3, clusters: vec![] };
    let fresh = ClustersJson { topology_version: 5, clusters: vec![] };
    assert_eq!(reuse_clusters(Some(older), fresh).topology_version, 5);
    let only = ClustersJson { topology_version: 9, clusters: vec![] };
    assert_eq!(reuse_clusters(None, only).topology_version, 9);
}
