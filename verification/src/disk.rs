//! Volume usage, from the block counts of the volume.

use vstd::prelude::*;

verus! {

/// Space on the volume that contains a path.
///
/// `used = total - free` is the container-level figure: on APFS all volumes of a container
/// (System, VM, Preboot, the data volume) share one pool, so `used` counts them in and can
/// exceed what a scan of the data volume finds. `available` is what the user can still
/// write; `free` also counts the blocks reserved for the superuser.
#[derive(Debug, Clone, PartialEq, Eq)]
pub struct DiskUsage {
    pub path: String,
    pub total: u64,
    /// Bytes free for this user.
    pub available: u64,
    /// Bytes free overall.
    pub free: u64,
    /// `total - free`.
    pub used: u64,
}

/// What a volume says about itself.
#[derive(Debug, Clone, Copy, PartialEq, Eq, Structural)]
pub struct Volume {
    /// Bytes in a block.
    pub fragment_size: u64,
    pub blocks: u64,
    pub blocks_free: u64,
    pub blocks_available: u64,
}

/// Whether the bytes of a volume can be counted.
pub open spec fn countable(volume: Volume) -> bool {
    &&& volume.blocks * volume.fragment_size <= u64::MAX
    &&& volume.blocks_free * volume.fragment_size <= u64::MAX
    &&& volume.blocks_available * volume.fragment_size <= u64::MAX
}

/// Usage of the volume that contains `path`.
pub fn disk_usage(path: &str, volume: &Volume) -> (usage: DiskUsage)
    requires
        countable(*volume),
    ensures
        usage.path@ == path@,
        usage.total == volume.blocks * volume.fragment_size,
        usage.free == volume.blocks_free * volume.fragment_size,
        usage.available == volume.blocks_available * volume.fragment_size,
        usage.used == if usage.free <= usage.total {
            usage.total - usage.free
        } else {
            0
        },
{
    let total: u64 = volume.blocks * volume.fragment_size;
    let free: u64 = volume.blocks_free * volume.fragment_size;
    let available: u64 = volume.blocks_available * volume.fragment_size;
    DiskUsage {
        path: path.to_owned(),
        total,
        available,
        free,
        used: if free <= total {
            total - free
        } else {
            0
        },
    }
}

} // verus!
