//! Address patterns and barrier arithmetic for the access-pattern
//! micro-benchmarks. The timing, random sampling and thread barrier spinning
//! live with the driver; the address formulas and the epoch bounds each phase
//! must satisfy are decided here.

use vstd::prelude::*;

use crate::main_memory::Address;
use crate::main_memory::BLOCK_SIZE;
use crate::main_memory::MAIN_MEMORY_SIZE;
use crate::memory_cache::CACHE_SIZE;
use crate::memory_cache::MemoryCacheId;
use crate::memory_cache::NUMBER_OF_CACHES;

verus! {

/// The number of bytes a whole cache covers: the chunk each chunked pattern
/// walks.
pub const CHUNK_SIZE: usize = 1024;

/// The chunk is a cache's worth of blocks.
pub proof fn lemma_chunk_size_is_cache_coverage()
    ensures
        CHUNK_SIZE == CACHE_SIZE * BLOCK_SIZE,
{
}

/// The `i`th address of the thread-unique chunk pattern: each cache walks its
/// own cache-sized chunk of memory, round and round.
pub fn unique_chunk_address(id: MemoryCacheId, i: usize) -> (a: Address)
    requires
        (id as int) < NUMBER_OF_CACHES,
    ensures
        a.0 == id * CHUNK_SIZE as int + (i as int % CHUNK_SIZE as int),
        a.0 < MAIN_MEMORY_SIZE,
{
    Address((id as usize) * CHUNK_SIZE + (i % CHUNK_SIZE))
}

/// The `i`th address of the shared chunk pattern: every cache walks the same
/// cache-sized chunk.
pub fn shared_chunk_address(i: usize) -> (a: Address)
    ensures
        a.0 == i as int % CHUNK_SIZE as int,
        a.0 < MAIN_MEMORY_SIZE,
{
    Address(i % CHUNK_SIZE)
}

/// The `i`th address of the false-sharing pattern: caches stride through the
/// shared chunk at their own id, hitting different bytes of the same blocks.
pub fn false_sharing_address(id: MemoryCacheId, i: usize) -> (a: Address)
    requires
        (id as int) < NUMBER_OF_CACHES,
        i <= MAIN_MEMORY_SIZE,
    ensures
        a.0 == (i * id) as int % CHUNK_SIZE as int,
        a.0 < MAIN_MEMORY_SIZE,
{
    proof {
        assert(i * id <= MAIN_MEMORY_SIZE * NUMBER_OF_CACHES) by (nonlinear_arith)
            requires
                i <= MAIN_MEMORY_SIZE,
                id < NUMBER_OF_CACHES,
        ;
    }
    Address((i * (id as usize)) % CHUNK_SIZE)
}

/// The epoch window of benchmark phase `phase` (1-indexed): before entering
/// the phase the shared epoch counter must lie in `[r.0, r.1)`, and `r.1` is
/// the count at which every cache has completed the phase.
pub fn phase_epoch_bounds(phase: usize) -> (r: (usize, usize))
    requires
        1 <= phase,
        phase * NUMBER_OF_CACHES as int <= usize::MAX,
    ensures
        r.0 == (phase - 1) * NUMBER_OF_CACHES as int,
        r.1 == phase * NUMBER_OF_CACHES as int,
        r.0 < r.1,
{
    ((phase - 1) * NUMBER_OF_CACHES, phase * NUMBER_OF_CACHES)
}

} // verus!
