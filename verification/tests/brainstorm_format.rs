use symnebula::brainstorm::{
    detect_formula_type, escape_xml, state_to_status, status_to_state, BrainstormFile, GraphNode,
    GraphSynapse, GraphXml, PortDef, VersionTxt,
};
use symnebula::graph_xml::xml_is_safe;
use symnebula::state::NodeState;

#[test]
fn test_status_conversion() {
    assert_eq!(state_to_status(&NodeState::Green), "Green");
    assert_eq!(state_to_status(&NodeState::Yellow), "Yellow");
    assert_eq!(state_to_status(&NodeState::Purple), "Purple");
    assert_eq!(state_to_status(&NodeState::Gray), "Gray");

    assert_eq!(status_to_state("Green"), Some(NodeState::Green));
    assert_eq!(status_to_state("Yellow"), Some(NodeState::Yellow));
    assert_eq!(status_to_state("Purple"), Some(NodeState::Purple));
    assert_eq!(status_to_state("Gray"), Some(NodeState::Gray));
    assert_eq!(status_to_state("gray"), Some(NodeState::Gray));
    assert_eq!(status_to_state("unknown"), None);
}

#[test]
fn test_detect_formula_type() {
    assert_eq!(detect_formula_type("x + y = 10"), "eq");
    assert_eq!(detect_formula_type("42"), "constant");
    assert_eq!(detect_formula_type(" 3.14 "), "constant");
    assert_eq!(detect_formula_type("x + y"), "expr");
}

#[test]
fn detect_formula_type_float_forms() {
    assert_eq!(detect_formula_type("-1e5"), "constant");
    assert_eq!(detect_formula_type("inf"), "constant");
    assert_eq!(detect_formula_type("NaN"), "constant");
    assert_eq!(detect_formula_type(".5"), "constant");
    assert_eq!(detect_formula_type("5."), "constant");
    assert_eq!(detect_formula_type("1e"), "expr");
    assert_eq!(detect_formula_type(""), "expr");
    assert_eq!(detect_formula_type("a == b"), "eq");
}

#[test]
fn status_words_round_trip() {
    for s in [NodeState::Gray, NodeState::Yellow, NodeState::Green, NodeState::Purple] {
        assert_eq!(status_to_state(state_to_status(&s)), Some(s));
    }
    assert_eq!(status_to_state("Grey"), Some(NodeState::Gray));
    assert_eq!(status_to_state("grey"), Some(NodeState::Gray));
    assert_eq!(status_to_state("GREEN"), None);
}

#[test]
fn escape_xml_replaces_the_five_characters() {
    assert_eq!(escape_xml("a<b>&\"c'"), "a&lt;b&gt;&amp;&quot;c&apos;");
    assert_eq!(escape_xml("x + y = 10"), "x + y = 10");
    assert_eq!(escape_xml(""), "");
}

#[test]
fn version_txt_round_trip() {
    let v = VersionTxt {
        brainstorm_version: 1,
        symnebula_core: "0.1.0".to_string(),
        topology_version: 42,
    };
    let txt = v.to_text();
    assert_eq!(txt, "brainstorm_version=1\nsymnebula_core=0.1.0\ntopology_version=42");
    let back = VersionTxt::parse(&txt).unwrap();
    assert_eq!(back.brainstorm_version, 1);
    assert_eq!(back.symnebula_core, "0.1.0");
    assert_eq!(back.topology_version, 42);
}

#[test]
fn version_txt_parse_skips_and_defaults() {
    let v = VersionTxt::parse("  brainstorm_version=abc\r\nnoise\ntopology_version= 7\nsymnebula_core=x").unwrap();
    assert_eq!(v.brainstorm_version, 0);
    assert_eq!(v.topology_version, 0);
    assert_eq!(v.symnebula_core, "x");
    let empty = VersionTxt::parse("").unwrap();
    assert_eq!(empty.brainstorm_version, 0);
    assert_eq!(empty.symnebula_core, "");
}

fn sample_graph() -> GraphXml {
    GraphXml {
        name: "SymNebula".to_string(),
        version: "1.0".to_string(),
        nodes: vec![
            GraphNode {
                id: "n0".to_string(),
                node_type: "eq".to_string(),
                formula: "x + y = 10".to_string(),
                ports: PortDef {
                    inputs: vec!["x".to_string()],
                    outputs: vec!["y".to_string()],
                },
            },
            GraphNode {
                id: "n1".to_string(),
                node_type: "constant".to_string(),
                formula: "42".to_string(),
                ports: PortDef { inputs: vec![], outputs: vec![] },
            },
        ],
        synapses: vec![GraphSynapse { from: "n0.y".to_string(), to: "n1.x".to_string() }],
    }
}

#[test]
fn graph_xml_text_layout() {
    let xml = sample_graph().to_xml();
    let expected = "<nebula name=\"SymNebula\" version=\"1.0\">\n    <nodes>\n        <node id=\"n0\" type=\"eq\">\n            <formula>x + y = 10</formula>\n            <ports>\n                <input name=\"x\"/>\n                <output name=\"y\"/>\n            </ports>\n        </node>\n        <node id=\"n1\" type=\"constant\">\n            <formula>42</formula>\n        </node>\n    </nodes>\n    <synapses>\n        <synapse from=\"n0.y\" to=\"n1.x\"/>\n    </synapses>\n</nebula>\n";
    assert_eq!(xml, expected);
}

#[test]
fn graph_xml_write_then_read() {
    let g = sample_graph();
    let xml = g.to_xml();
    assert!(xml_is_safe(&xml));
    let back = GraphXml::parse(&xml).unwrap();
    assert_eq!(back.name, g.name);
    assert_eq!(back.version, g.version);
    assert_eq!(back.nodes.len(), 2);
    assert_eq!(back.nodes[0].id, "n0");
    assert_eq!(back.nodes[0].node_type, "eq");
    assert_eq!(back.nodes[0].formula, "x + y = 10");
    assert_eq!(back.nodes[0].ports.inputs, vec!["x".to_string()]);
    assert_eq!(back.nodes[0].ports.outputs, vec!["y".to_string()]);
    assert_eq!(back.nodes[1].formula, "42");
    assert!(back.nodes[1].ports.inputs.is_empty());
    assert_eq!(back.synapses.len(), 1);
    assert_eq!(back.synapses[0].from, "n0.y");
    assert_eq!(back.synapses[0].to, "n1.x");
}

#[test]
fn graph_xml_parse_defaults_and_empty_synapse() {
    let xml = "<nebula>\n<nodes>\n<node id=\"a\">\n<formula>1</formula>\n</node>\n</nodes>\n<synapse from=\"\" to=\"b\"/>\n</nebula>";
    assert!(xml_is_safe(xml));
    let g = GraphXml::parse(xml).unwrap();
    assert_eq!(g.name, "SymNebula");
    assert_eq!(g.version, "1.0");
    assert_eq!(g.nodes.len(), 1);
    assert_eq!(g.nodes[0].id, "a");
    assert_eq!(g.nodes[0].node_type, "");
    assert!(g.synapses.is_empty());
}

#[test]
fn graph_xml_unsafe_text_is_detected() {
    assert!(!xml_is_safe("<nebula name="));
    assert!(!xml_is_safe("<node id=é\"x\">"));
    assert!(xml_is_safe("<nebula name=\"é\">"));
}

#[test]
fn brainstorm_file_keeps_path() {
    let f = BrainstormFile::new("/tmp/demo.brainstorm");
    assert_eq!(f.path, "/tmp/demo.brainstorm");
}
