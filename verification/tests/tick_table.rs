use symnebula::state::NodeState;
use symnebula::viz::{strip_outer_parens, NodeSnapshot, TickDisplay};

#[test]
fn node_state_labels() {
    assert_eq!(NodeState::Gray.label(), "gray");
    assert_eq!(NodeState::Yellow.label(), "yellow");
    assert_eq!(NodeState::Green.label(), "green");
    assert_eq!(NodeState::Purple.label(), "purple");
    assert!(NodeState::Green.is_stable());
    assert!(!NodeState::Yellow.is_stable());
}

#[test]
fn strip_outer_parens_cases() {
    assert_eq!(strip_outer_parens("  ((x + y))  "), "x + y");
    assert_eq!(strip_outer_parens("(a) + (b)"), "(a) + (b)");
    assert_eq!(strip_outer_parens("(a + b"), "(a + b");
    assert_eq!(strip_outer_parens("( (x) )"), "x");
    assert_eq!(strip_outer_parens("()"), "");
    assert_eq!(strip_outer_parens("x"), "x");
}

#[test]
fn status_marks_and_first_green() {
    assert_eq!(TickDisplay::status_char(&NodeState::Green), "G");
    assert_eq!(TickDisplay::status_char(&NodeState::Yellow), "Y");
    assert_eq!(TickDisplay::status_char(&NodeState::Purple), "P");
    assert_eq!(TickDisplay::status_char(&NodeState::Gray), "-");
    let s = [NodeState::Gray, NodeState::Yellow, NodeState::Green, NodeState::Green];
    assert_eq!(TickDisplay::first_green_idx(&s), Some(2));
    assert_eq!(TickDisplay::first_green_idx(&[NodeState::Yellow]), None);
    assert_eq!(TickDisplay::first_green_idx(&[]), None);
}

fn snap(id: usize, formula: &str, dynamic: bool, state: NodeState) -> NodeSnapshot {
    NodeSnapshot { id, formula: formula.to_string(), is_dynamic: dynamic, state }
}

#[test]
fn empty_table_renders_a_note() {
    let d = TickDisplay::new();
    assert!(d.is_renderable());
    assert_eq!(d.render_lines(), vec!["  (无记录)".to_string()]);
}

#[test]
fn record_and_render_two_ticks() {
    let mut d = TickDisplay::new();
    let out = vec![(0usize, "y".to_string()), (0usize, "x".to_string()), (1usize, "z".to_string())];
    d.record(1, &[snap(0, "x + y = 10", false, NodeState::Yellow), snap(1, "z", true, NodeState::Gray)], &out);
    d.record(2, &[snap(0, "x + y = 10", false, NodeState::Green), snap(1, "z", true, NodeState::Green)], &out);
    assert!(d.is_renderable());
    let lines = d.render_lines();
    let expected = vec![
        format!("  {:>24}  {:>5} {:>5}", "Tick →", 1, 2),
        format!("  {}  {}", "-".repeat(24), "-".repeat(11)),
        format!("  {:>21}{}", "n0:x + y = 10", "   "),
        format!("    {:>20}  {:>5} {:>5}", "x", "Y", "G*"),
        format!("    {:>20}  {:>5} {:>5}", "y", "Y", "G*"),
        String::new(),
        format!("  {:>21}{}", "n1:z", " ⚡"),
        format!("    {:>20}  {:>5} {:>5}", "z", "-", "G*"),
        String::new(),
    ];
    assert_eq!(lines, expected);
}

#[test]
fn record_uses_output_when_no_symbol_and_pads_new_symbols() {
    let mut d = TickDisplay::new();
    d.record(5, &[snap(7, "42", false, NodeState::Green)], &[]);
    d.record(6, &[snap(7, "42", false, NodeState::Green)], &[(7, "k".to_string())]);
    let lines = d.render_lines();
    assert_eq!(lines[2], format!("  {:>21}   ", "n7:42"));
    assert_eq!(lines[3], format!("    {:>20}  {:>5}", "output", "G*"));
    assert_eq!(lines[4], format!("    {:>20}  {:>5} {:>5}", "k", "-", "G*"));
}

#[test]
fn render_shows_the_last_twelve_ticks() {
    let mut d = TickDisplay::new();
    for t in 0..15usize {
        let st = if t == 1 { NodeState::Green } else if t < 13 { NodeState::Yellow } else { NodeState::Green };
        d.record(t, &[snap(0, "a", false, st)], &[(0, "a".to_string())]);
    }
    let lines = d.render_lines();
    let header: Vec<String> = (3..15).map(|t| format!("{:>5}", t)).collect();
    assert_eq!(lines[0], format!("  {:>24}  {}", "Tick →", header.join(" ")));
    assert_eq!(lines[1], format!("  {}  {}", "-".repeat(24), "-".repeat(12 * 6 - 1)));
    // the first Green (tick 1) is out of view: no star
    assert!(!lines[3].contains('*'));
}

#[test]
fn tick_summary_counts_states() {
    let s = [NodeState::Green, NodeState::Gray, NodeState::Yellow, NodeState::Green, NodeState::Purple];
    assert_eq!(TickDisplay::tick_summary(3, &s), "  Tick  3 | GGYP- |  2G  1Y  1P  1-");
    assert_eq!(TickDisplay::tick_summary(120, &[]), "  Tick 120 |  |  0G  0Y  0P  0-");
}

#[test]
fn strip_outer_parens_twice_is_once() {
    for s in ["  ((a) + (b))  ", "(((x)))", "(a)(b)", " ( ( y ) ) ", "z"] {
        let once = strip_outer_parens(s);
        assert_eq!(strip_outer_parens(&once), once);
    }
}

#[test]
fn node_order_is_fixed_by_the_first_tick() {
    let mut d = TickDisplay::new();
    d.record(0, &[snap(2, "b", false, NodeState::Gray), snap(1, "a", false, NodeState::Gray)], &[]);
    d.record(1, &[snap(1, "a", false, NodeState::Green), snap(2, "b", false, NodeState::Yellow), snap(3, "c", false, NodeState::Green)], &[]);
    let lines = d.render_lines();
    assert_eq!(lines[2], format!("  {:>21}   ", "n2:b"));
    assert_eq!(lines[3], format!("    {:>20}  {:>5} {:>5}", "output", "-", "Y"));
    assert_eq!(lines[5], format!("  {:>21}   ", "n1:a"));
    assert_eq!(lines[6], format!("    {:>20}  {:>5} {:>5}", "output", "-", "G*"));
    // node 3 came after the order was set: it is not in the table
    assert_eq!(lines.len(), 8);
}
