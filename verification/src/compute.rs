use vstd::prelude::*;

verus! {

// ============================================================
// Adaptive CPU/GPU scheduling of clusters
// ============================================================

/// A compute cluster: its id and how many nodes it holds.
#[derive(Debug, Clone, Copy)]
pub struct Cluster {
    pub id: usize,
    pub num_nodes: usize,
}

/// The runtime snapshot handed to a backend with each cluster.
#[derive(Debug, Clone, Copy)]
pub struct RuntimeSnapshot {
    pub tick: usize,
}

/// The outcome of solving one cluster.
#[derive(Debug, Clone, Copy, PartialEq, Eq, Structural)]
pub enum SolverResult {
    Success,
    Failure,
}

/// The backend in use.
#[derive(Debug, Clone, Copy, PartialEq, Eq, Structural)]
pub enum BackendMode {
    Cpu,
    Gpu,
    Hybrid,
}

/// Clusters with at least this many nodes go to the GPU.
pub const GPU_THRESHOLD: usize = 50_000;

/// A backend that solves one cluster at a time.
pub trait SolverBackend {
    fn solve(&mut self, cluster: &Cluster, snapshot: &RuntimeSnapshot) -> SolverResult;
}

/// The CPU backend: a Newton iteration on the host.
#[derive(Debug, Clone, Copy)]
pub struct CpuBackend;

/// The GPU backend: the same iteration in parallel on the device.
#[derive(Debug, Clone, Copy)]
pub struct GpuBackend;

impl SolverBackend for CpuBackend {
    /// Solves the cluster; the simulated iteration always converges.
    fn solve(&mut self, cluster: &Cluster, snapshot: &RuntimeSnapshot) -> (r: SolverResult)
        ensures
            r == SolverResult::Success,
    {
        SolverResult::Success
    }
}

impl SolverBackend for GpuBackend {
    /// Solves the cluster; the simulated iteration always converges.
    fn solve(&mut self, cluster: &Cluster, snapshot: &RuntimeSnapshot) -> (r: SolverResult)
        ensures
            r == SolverResult::Success,
    {
        SolverResult::Success
    }
}

/// The backend for a cluster of `num_nodes` nodes: the CPU below
/// `GPU_THRESHOLD`, else the GPU where there is one, else the CPU.
pub open spec fn mode_for(num_nodes: usize, gpu: bool) -> BackendMode {
    if num_nodes < GPU_THRESHOLD {
        BackendMode::Cpu
    } else if gpu {
        BackendMode::Gpu
    } else {
        BackendMode::Cpu
    }
}

/// Chooses a backend for each cluster by its size and the GPU's presence.
pub struct AdaptiveScheduler {
    cpu_backend: CpuBackend,
    gpu_backend: Option<GpuBackend>,
    pub mode: BackendMode,
}

impl AdaptiveScheduler {
    /// Whether the scheduler has a GPU backend.
    pub closed spec fn has_gpu(&self) -> bool {
        self.gpu_backend is Some
    }

    /// The backend chosen last (the `mode` field).
    pub closed spec fn current_mode(&self) -> BackendMode {
        self.mode
    }

    /// A scheduler on the CPU, with a GPU backend when one is available.
    pub fn new(gpu_available: bool) -> (r: Self)
        ensures
            r.has_gpu() == gpu_available,
            r.current_mode() == BackendMode::Cpu,
    {
        AdaptiveScheduler {
            cpu_backend: CpuBackend,
            gpu_backend: if gpu_available {
                Some(GpuBackend)
            } else {
                None
            },
            mode: BackendMode::Cpu,
        }
    }

    /// Solves one cluster on the backend that its size calls for, falling
    /// back to the CPU when no GPU is available; `mode` records the choice.
    pub fn solve_cluster(&mut self, cluster: &Cluster, snapshot: &RuntimeSnapshot) -> (r:
        SolverResult)
        ensures
            final(self).current_mode() == mode_for(cluster.num_nodes, old(self).has_gpu()),
            final(self).has_gpu() == old(self).has_gpu(),
            r == SolverResult::Success,
    {
        if cluster.num_nodes < GPU_THRESHOLD {
            self.mode = BackendMode::Cpu;
            self.cpu_backend.solve(cluster, snapshot)
        } else {
            match &mut self.gpu_backend {
                Some(gpu) => {
                    self.mode = BackendMode::Gpu;
                    gpu.solve(cluster, snapshot)
                },
                None => {
                    self.mode = BackendMode::Cpu;
                    self.cpu_backend.solve(cluster, snapshot)
                },
            }
        }
    }
}

/// One tick: solves every cluster in order and gives, for each, the backend
/// that solved it.
pub fn tick_step(
    clusters: &[Cluster],
    snapshot: &RuntimeSnapshot,
    scheduler: &mut AdaptiveScheduler,
) -> (r: Vec<BackendMode>)
    ensures
        r@.len() == clusters@.len(),
        forall|i: int|
            0 <= i < clusters@.len() ==> #[trigger] r@[i] == mode_for(
                clusters@[i].num_nodes,
                old(scheduler).has_gpu(),
            ),
        final(scheduler).has_gpu() == old(scheduler).has_gpu(),
        final(scheduler).current_mode() == if clusters@.len() == 0 {
            old(scheduler).current_mode()
        } else {
            mode_for(clusters@.last().num_nodes, old(scheduler).has_gpu())
        },
{
    let ghost gpu = scheduler.has_gpu();
    let mut r: Vec<BackendMode> = Vec::new();
    let mut i: usize = 0;
    while i < clusters.len()
        invariant
            i <= clusters@.len(),
            r@.len() == i,
            scheduler.has_gpu() == gpu,
            gpu == old(scheduler).has_gpu(),
            forall|k: int|
                0 <= k < i ==> #[trigger] r@[k] == mode_for(clusters@[k].num_nodes, gpu),
            scheduler.current_mode() == if i == 0 {
                old(scheduler).current_mode()
            } else {
                mode_for(clusters@[i - 1].num_nodes, gpu)
            },
        decreases clusters@.len() - i,
    {
        scheduler.solve_cluster(&clusters[i], snapshot);
        r.push(scheduler.mode);
        i = i + 1;
    }
    r
}

} // verus!
