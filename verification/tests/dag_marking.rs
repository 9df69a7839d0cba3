use symnebula::dag::{build_cluster_dag, mark_dirty, KIND_CONST, KIND_INPUT, KIND_MUL, KIND_SUB, NO_INPUT};

#[test]
fn mark_dirty_propagates() {
    // Simple graph: 0=input, 1=const, 2=sub(1,0), 3=mul(2,2)
    let _kinds = vec![KIND_INPUT, KIND_CONST, KIND_SUB, KIND_MUL];
    let input0 = vec![NO_INPUT, NO_INPUT, 1, 2];
    let input1 = vec![NO_INPUT, NO_INPUT, 0, 2];
    let mut dirty = vec![false; 4];

    mark_dirty(&mut dirty, &input0, &input1, 0);
    assert!(dirty[0]);
    assert!(!dirty[1]);
    assert!(dirty[2]);
    assert!(dirty[3]);
}

#[test]
fn mark_dirty_stops_at_dirty_nodes() {
    // 0 -> 1 -> 2, node 1 already dirty: 2 is not reached through it
    let input0 = vec![NO_INPUT, 0, 1];
    let input1 = vec![NO_INPUT, NO_INPUT, NO_INPUT];
    let mut dirty = vec![false, true, false];
    mark_dirty(&mut dirty, &input0, &input1, 0);
    assert_eq!(dirty, vec![true, true, false]);
}

#[test]
fn mark_dirty_ends_on_cycles() {
    // 0 <- 1 <- 2 <- 1 (a cycle between 1 and 2)
    let input0 = vec![NO_INPUT, 0, 1];
    let input1 = vec![NO_INPUT, 2, NO_INPUT];
    let mut dirty = vec![false; 3];
    mark_dirty(&mut dirty, &input0, &input1, 0);
    assert_eq!(dirty, vec![true, true, true]);
}

#[test]
fn mark_dirty_twice_changes_nothing() {
    let input0 = vec![NO_INPUT, 0, 0, 2];
    let input1 = vec![NO_INPUT, NO_INPUT, 1, NO_INPUT];
    let mut dirty = vec![false; 4];
    mark_dirty(&mut dirty, &input0, &input1, 1);
    let once = dirty.clone();
    assert_eq!(once, vec![false, true, true, true]);
    mark_dirty(&mut dirty, &input0, &input1, 1);
    assert_eq!(dirty, once);
}

#[test]
fn cluster_dag_is_a_ring() {
    let dag = build_cluster_dag(4);
    assert_eq!(dag, vec![vec![1], vec![2], vec![3], vec![0]]);
    assert_eq!(build_cluster_dag(1), vec![vec![0]]);
    assert!(build_cluster_dag(0).is_empty());
}
