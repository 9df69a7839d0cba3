use symnebula::compute::{
    tick_step, AdaptiveScheduler, BackendMode, Cluster, CpuBackend, GpuBackend, RuntimeSnapshot,
    SolverBackend, SolverResult, GPU_THRESHOLD,
};

#[test]
fn small_clusters_go_to_cpu() {
    let mut s = AdaptiveScheduler::new(true);
    assert_eq!(s.mode, BackendMode::Cpu);
    let snap = RuntimeSnapshot { tick: 0 };
    let r = s.solve_cluster(&Cluster { id: 1, num_nodes: 10_000 }, &snap);
    assert_eq!(r, SolverResult::Success);
    assert_eq!(s.mode, BackendMode::Cpu);
    s.solve_cluster(&Cluster { id: 2, num_nodes: GPU_THRESHOLD - 1 }, &snap);
    assert_eq!(s.mode, BackendMode::Cpu);
}

#[test]
fn large_clusters_go_to_gpu_when_present() {
    let snap = RuntimeSnapshot { tick: 3 };
    let mut with_gpu = AdaptiveScheduler::new(true);
    with_gpu.solve_cluster(&Cluster { id: 2, num_nodes: GPU_THRESHOLD }, &snap);
    assert_eq!(with_gpu.mode, BackendMode::Gpu);
    let mut without = AdaptiveScheduler::new(false);
    let r = without.solve_cluster(&Cluster { id: 2, num_nodes: 500_000 }, &snap);
    assert_eq!(r, SolverResult::Success);
    assert_eq!(without.mode, BackendMode::Cpu);
}

#[test]
fn tick_step_reports_each_backend() {
    let clusters = vec![
        Cluster { id: 1, num_nodes: 10_000 },
        Cluster { id: 2, num_nodes: 500_000 },
        Cluster { id: 3, num_nodes: 5_000 },
    ];
    let mut s = AdaptiveScheduler::new(true);
    let modes = tick_step(&clusters, &RuntimeSnapshot { tick: 0 }, &mut s);
    assert_eq!(modes, vec![BackendMode::Cpu, BackendMode::Gpu, BackendMode::Cpu]);
    assert_eq!(s.mode, BackendMode::Cpu);
    let none = tick_step(&[], &RuntimeSnapshot { tick: 1 }, &mut s);
    assert!(none.is_empty());
}

#[test]
fn backends_always_succeed() {
    let c = Cluster { id: 9, num_nodes: 1 };
    let snap = RuntimeSnapshot { tick: 0 };
    assert_eq!(CpuBackend.solve(&c, &snap), SolverResult::Success);
    assert_eq!(GpuBackend.solve(&c, &snap), SolverResult::Success);
}
