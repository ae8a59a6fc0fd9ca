use mesi_cache::benchmark::{
    false_sharing_address, phase_epoch_bounds, shared_chunk_address, unique_chunk_address,
    CHUNK_SIZE,
};
use mesi_cache::main_memory::{Address, Block, BLOCK_SIZE, MAIN_MEMORY_SIZE};

#[test]
fn boundary_addresses_map_to_first_and_last_block() {
    assert_eq!(Block::for_addr(Address(0)), Block(0));
    assert_eq!(Block::for_addr(Address(MAIN_MEMORY_SIZE - 1)), Block(2047));
}

#[test]
fn addresses_within_one_block_share_it() {
    assert_eq!(Block::for_addr(Address(31)), Block(0));
    assert_eq!(Block::for_addr(Address(32)), Block(1));
    assert_eq!(Block::for_addr(Address(65504)), Block(2047));
}

#[test]
fn address_range_covers_the_block() {
    let r = Block(5).address_range();
    assert_eq!(r.start, 5 * BLOCK_SIZE);
    assert_eq!(r.end, 6 * BLOCK_SIZE);
    let r0 = Block(0).address_range();
    assert_eq!(r0.start, 0);
    assert_eq!(r0.end, 32);
    let last = Block(2047).address_range();
    assert_eq!(last.end, MAIN_MEMORY_SIZE);
}

#[test]
fn chunk_patterns_stay_in_memory() {
    assert_eq!(CHUNK_SIZE, 1024);
    assert_eq!(unique_chunk_address(3, 1025).0, 3 * CHUNK_SIZE + 1);
    assert_eq!(unique_chunk_address(7, 0).0, 7 * CHUNK_SIZE);
    assert_eq!(shared_chunk_address(2048).0, 0);
    assert_eq!(shared_chunk_address(7).0, 7);
    assert_eq!(false_sharing_address(2, 5).0, 10);
    assert_eq!(false_sharing_address(0, 5).0, 0);
    assert!(unique_chunk_address(7, usize::MAX).0 < MAIN_MEMORY_SIZE);
}

#[test]
fn phase_epoch_bounds_step_by_cache_count() {
    assert_eq!(phase_epoch_bounds(1), (0, 8));
    assert_eq!(phase_epoch_bounds(3), (16, 24));
}
