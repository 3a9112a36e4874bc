//! The settings of the network fuzzing runs: how many nodes take part and
//! how badly the simulated network behaves.
use vstd::prelude::*;

verus! {

/// The fewest and the most nodes a fuzzing run uses.
pub const MIN_FUZZ_NODES: usize = 2;

pub const MAX_FUZZ_NODES: usize = 49;

/// The number of nodes for a run configured with `configured`: kept
/// between `MIN_FUZZ_NODES` and `MAX_FUZZ_NODES`.
pub fn fuzz_node_count(configured: usize) -> (n: usize)
    ensures
        n == (if configured < MIN_FUZZ_NODES {
            MIN_FUZZ_NODES
        } else if configured > MAX_FUZZ_NODES {
            MAX_FUZZ_NODES
        } else {
            configured
        }),
{
    if configured < MIN_FUZZ_NODES {
        MIN_FUZZ_NODES
    } else if configured > MAX_FUZZ_NODES {
        MAX_FUZZ_NODES
    } else {
        configured
    }
}

/// How a simulated network delays and loses actions: each action waits up
/// to `max_delay_ms` and is lost with chance `loss_percent` in a hundred.
#[derive(Debug, Clone, Copy, Default, PartialEq, Eq, Structural)]
pub struct FuzzNetworkProfile {
    pub max_delay_ms: u64,
    pub loss_percent: u8,
}

impl FuzzNetworkProfile {
    /// A slow, lossy network spread over the globe.
    pub fn slow_global() -> (p: FuzzNetworkProfile)
        ensures
            p == (FuzzNetworkProfile { max_delay_ms: 500, loss_percent: 10 }),
    {
        FuzzNetworkProfile { max_delay_ms: 500, loss_percent: 10 }
    }
}

} // verus!
