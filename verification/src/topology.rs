//! Where the layers of a model run.
use candle_core::Device;
use vstd::prelude::*;

verus! {

/// Where a device is.
#[derive(Debug, Clone, Copy, PartialEq, Eq, Structural)]
pub enum Location {
    Cpu,
    Cuda { gpu_id: usize },
    Metal { gpu_id: usize },
}

/// Where a layer runs: on a device of this machine, or on a worker elsewhere.
#[derive(Debug)]
pub enum RemoteAwareDevice {
    Local(Device),
    Remote { addr: String },
}

impl RemoteAwareDevice {
    /// The worker's address, if the layer runs on one.
    pub open spec fn worker(&self) -> Option<Seq<char>> {
        match self {
            RemoteAwareDevice::Local(_) => None,
            RemoteAwareDevice::Remote { addr } => Some(addr@),
        }
    }

    /// Whether the layer runs on a worker.
    pub fn is_remote(&self) -> (r: bool)
        ensures
            r == (self.worker() is Some),
    {
        match self {
            RemoteAwareDevice::Local(_) => false,
            RemoteAwareDevice::Remote { .. } => true,
        }
    }

    /// Whether the layer runs on the worker at this address.
    pub(crate) fn runs_at(&self, other: &String) -> (r: bool)
        ensures
            r == (self.worker() == Some(other@)),
    {
        match self {
            RemoteAwareDevice::Local(_) => false,
            RemoteAwareDevice::Remote { addr } => *addr == *other,
        }
    }
}

} // verus!
