use std::sync::mpsc::{channel, Receiver, Sender};

use mesi_cache::bus::{BusMessage, ResponseSender};
use mesi_cache::main_memory::{Address, Block, MainMemory};
use mesi_cache::memory_cache::{MemoryCache, MesiState};

/// A cache wired to hand-held endpoints: what it sends lands in the returned
/// receiver, and messages pushed into the returned sender are what it snoops.
fn cache_harness(id: u8) -> (MemoryCache, Sender<BusMessage>, Receiver<BusMessage>) {
    let (to_bus, bus_out) = channel();
    let (feed, from_bus) = channel();
    (MemoryCache::new(id, to_bus, from_bus), feed, bus_out)
}

fn zero_block() -> [u8; 32] {
    [0u8; 32]
}

/// Queue main memory's answer to a read of block `b`, as the bus would
/// deliver it; the cache takes it in at its next snoop.
fn feed_read_grant(feed: &Sender<BusMessage>, who: u8, b: usize, data: [u8; 32]) {
    feed.send(BusMessage::ReadResponse {
        who,
        from: ResponseSender::MainMemory,
        block: Block(b),
        data: Some(data),
    })
    .unwrap();
}

/// Queue main memory's answer to an exclusive read of block `b`.
fn feed_write_grant(feed: &Sender<BusMessage>, who: u8, b: usize, data: [u8; 32]) {
    feed.send(BusMessage::ReadExclusiveResponse {
        who,
        block: Block(b),
        data: Some(data),
    })
    .unwrap();
}

#[test]
fn memory_grant_installs_exclusive() {
    let (mut cache, feed, bus_out) = cache_harness(0);
    feed_read_grant(&feed, 0, 0, zero_block());
    assert_eq!(cache.read(Address(0)), Some(0));
    // A block that came from main memory is held Exclusive: no other cache
    // has a copy.
    assert_eq!(cache.line_state(Block(0)), Some(MesiState::Exclusive));
    assert_eq!(cache.total_count(), 1);
    assert!(bus_out.try_recv().is_err());
}

#[test]
fn peer_grant_installs_shared() {
    let (mut cache, feed, _bus_out) = cache_harness(0);
    feed.send(BusMessage::ReadResponse {
        who: 0,
        from: ResponseSender::Cache,
        block: Block(2),
        data: Some(zero_block()),
    })
    .unwrap();
    cache.snoop_backlog();
    // A block that a peer supplied may be held elsewhere too: Shared.
    assert_eq!(cache.line_state(Block(2)), Some(MesiState::Shared));
}

#[test]
fn redundant_memory_response_is_discarded() {
    let (mut cache, feed, _bus_out) = cache_harness(0);
    // The peer's copy arrives first, the memory copy races in after: the
    // line is installed exactly once and stays Shared.
    feed.send(BusMessage::ReadResponse {
        who: 0,
        from: ResponseSender::Cache,
        block: Block(2),
        data: Some([7u8; 32]),
    })
    .unwrap();
    feed_read_grant(&feed, 0, 2, zero_block());
    assert_eq!(cache.read(Address(2 * 32)), Some(7));
    assert_eq!(cache.line_state(Block(2)), Some(MesiState::Shared));
    // A trailing copy from main memory is expected traffic, not a fault.
    assert!(!cache.protocol_fault());
}

#[test]
fn second_peer_response_is_a_protocol_fault() {
    let (mut cache, feed, _bus_out) = cache_harness(0);
    feed.send(BusMessage::ReadResponse {
        who: 0,
        from: ResponseSender::Cache,
        block: Block(2),
        data: Some([7u8; 32]),
    })
    .unwrap();
    assert_eq!(cache.read(Address(2 * 32)), Some(7));
    assert!(!cache.protocol_fault());
    // A second data-carrying peer response for a block already held valid
    // cannot happen under the protocol: the cache records the fault and
    // leaves its line alone.
    cache.handle_bus_message(&BusMessage::ReadResponse {
        who: 0,
        from: ResponseSender::Cache,
        block: Block(2),
        data: Some([9u8; 32]),
    });
    assert!(cache.protocol_fault());
    assert_eq!(cache.line_state(Block(2)), Some(MesiState::Shared));
    assert_eq!(cache.read(Address(2 * 32)), Some(7));
}

#[test]
fn silent_upgrade() {
    let (mut cache, feed, bus_out) = cache_harness(0);
    feed_read_grant(&feed, 0, 0, zero_block());
    assert_eq!(cache.read(Address(0)), Some(0));
    assert_eq!(cache.line_state(Block(0)), Some(MesiState::Exclusive));
    // Exclusive-to-Modified is silent: no bus traffic for the write.
    assert!(cache.write(Address(0), 7));
    assert!(bus_out.try_recv().is_err());
    assert_eq!(cache.line_state(Block(0)), Some(MesiState::Modified));
    assert_eq!(cache.read(Address(0)), Some(7));
    assert_eq!(cache.total_count(), 3);
}

#[test]
fn shared_write_asks_for_exclusivity() {
    let (mut cache, feed, bus_out) = cache_harness(0);
    feed.send(BusMessage::ReadResponse {
        who: 0,
        from: ResponseSender::Cache,
        block: Block(1),
        data: Some(zero_block()),
    })
    .unwrap();
    assert_eq!(cache.read(Address(32)), Some(0));
    assert_eq!(cache.line_state(Block(1)), Some(MesiState::Shared));
    // Writing a Shared line forces everyone else to invalidate first.
    assert!(cache.write(Address(32), 9));
    assert!(matches!(
        bus_out.try_recv(),
        Ok(BusMessage::ReadExclusiveRequest { who: 0, block }) if block == Block(1)
    ));
    assert!(bus_out.try_recv().is_err());
    assert_eq!(cache.line_state(Block(1)), Some(MesiState::Modified));
    assert_eq!(cache.read(Address(32)), Some(9));
}

#[test]
fn repeated_read_hits() {
    let (mut cache, feed, _bus_out) = cache_harness(0);
    feed_read_grant(&feed, 0, 3, zero_block());
    assert_eq!(cache.read(Address(3 * 32 + 5)), Some(0));
    let misses = cache.miss_count();
    // No snooped invalidation in between: the second read is a hit.
    assert_eq!(cache.read(Address(3 * 32 + 5)), Some(0));
    assert_eq!(cache.miss_count(), misses);
    assert_eq!(cache.total_count(), 2);
}

#[test]
fn empty_discards_all_lines() {
    let (mut cache, feed, bus_out) = cache_harness(0);
    feed_read_grant(&feed, 0, 0, zero_block());
    assert_eq!(cache.read(Address(0)), Some(0));
    cache.empty();
    // The line was clean, so emptying wrote nothing back.
    assert!(bus_out.try_recv().is_err());
    assert_eq!(cache.line_state(Block(0)), None);
    // The next read finds nothing cached and installs a fresh valid line.
    feed_read_grant(&feed, 0, 0, zero_block());
    assert_eq!(cache.read(Address(0)), Some(0));
    assert_eq!(cache.line_state(Block(0)), Some(MesiState::Exclusive));
}

#[test]
fn write_then_read_returns_the_byte() {
    let (mut cache, feed, _bus_out) = cache_harness(2);
    feed_write_grant(&feed, 2, 4, zero_block());
    assert!(cache.write(Address(4 * 32 + 9), 0x5A));
    assert_eq!(cache.line_state(Block(4)), Some(MesiState::Modified));
    assert_eq!(cache.read(Address(4 * 32 + 9)), Some(0x5A));
    // The rest of the block still reads as it arrived.
    assert_eq!(cache.read(Address(4 * 32 + 8)), Some(0));
}

#[test]
fn flush_writes_back_modified_lines() {
    let (mut cache, feed, bus_out) = cache_harness(0);
    feed_write_grant(&feed, 0, 0, zero_block());
    assert!(cache.write(Address(0), 1));
    feed_write_grant(&feed, 0, 1, zero_block());
    assert!(cache.write(Address(32), 2));
    feed_read_grant(&feed, 0, 2, zero_block());
    assert_eq!(cache.read(Address(64)), Some(0));
    assert!(bus_out.try_recv().is_err());

    cache.flush();
    let mut seen = Vec::new();
    while let Ok(msg) = bus_out.try_recv() {
        match msg {
            BusMessage::WriteRequest { block, data } => seen.push((block.0, data[0])),
            other => panic!("flush must only write back, sent {:?}", other),
        }
    }
    seen.sort();
    assert_eq!(seen, vec![(0, 1), (1, 2)]);
    // Flushed lines are gone; clean lines survive and none is Modified.
    assert_eq!(cache.line_state(Block(0)), None);
    assert_eq!(cache.line_state(Block(1)), None);
    assert_eq!(cache.line_state(Block(2)), Some(MesiState::Exclusive));
}

#[test]
fn flush_twice_is_flush() {
    let (mut cache, feed, bus_out) = cache_harness(0);
    feed_write_grant(&feed, 0, 6, zero_block());
    assert!(cache.write(Address(6 * 32), 3));
    cache.flush();
    while bus_out.try_recv().is_ok() {}
    // The second flush finds nothing Modified: no traffic, no change.
    cache.flush();
    assert!(bus_out.try_recv().is_err());
    assert_eq!(cache.line_state(Block(6)), None);
}

#[test]
fn snooped_exclusive_read_invalidates() {
    let (mut cache, feed, bus_out) = cache_harness(0);
    feed_read_grant(&feed, 0, 0, zero_block());
    assert_eq!(cache.read(Address(0)), Some(0));

    cache.handle_bus_message(&BusMessage::ReadExclusiveRequest {
        who: 1,
        block: Block(0),
    });
    assert_eq!(cache.line_state(Block(0)), Some(MesiState::Invalid));
    // The line was clean: invalidation needs no write-back.
    assert!(bus_out.try_recv().is_err());
}

#[test]
fn snooped_exclusive_read_of_dirty_line_writes_back() {
    let (mut cache, feed, bus_out) = cache_harness(0);
    feed_write_grant(&feed, 0, 0, zero_block());
    assert!(cache.write(Address(0), 0x42));

    cache.handle_bus_message(&BusMessage::ReadExclusiveRequest {
        who: 1,
        block: Block(0),
    });
    assert_eq!(cache.line_state(Block(0)), Some(MesiState::Invalid));
    match bus_out.try_recv() {
        Ok(BusMessage::WriteRequest { block, data }) => {
            assert_eq!(block, Block(0));
            assert_eq!(data[0], 0x42);
        }
        other => panic!("the dirty line must be written back, got {:?}", other),
    }
    assert!(bus_out.try_recv().is_err());
}

#[test]
fn snooped_read_demotes_and_responds() {
    let (mut cache, feed, bus_out) = cache_harness(0);
    feed_read_grant(&feed, 0, 0, zero_block());
    assert_eq!(cache.read(Address(0)), Some(0));

    cache.handle_bus_message(&BusMessage::ReadRequest {
        who: 1,
        block: Block(0),
    });
    assert_eq!(cache.line_state(Block(0)), Some(MesiState::Shared));
    match bus_out.try_recv() {
        Ok(BusMessage::ReadResponse {
            who,
            from,
            block,
            data,
        }) => {
            assert_eq!(who, 1);
            assert_eq!(from, ResponseSender::Cache);
            assert_eq!(block, Block(0));
            assert_eq!(data, Some(zero_block()));
        }
        other => panic!("expected a peer response, got {:?}", other),
    }
    assert!(bus_out.try_recv().is_err());
}

#[test]
fn modified_snooper_writes_back_before_responding() {
    let (mut cache, feed, bus_out) = cache_harness(0);
    feed_write_grant(&feed, 0, 0, zero_block());
    assert!(cache.write(Address(0), 0x77));

    cache.handle_bus_message(&BusMessage::ReadRequest {
        who: 1,
        block: Block(0),
    });
    // Dirty data must reach memory before sharing: write-back first.
    match bus_out.try_recv() {
        Ok(BusMessage::WriteRequest { block, data }) => {
            assert_eq!(block, Block(0));
            assert_eq!(data[0], 0x77);
        }
        other => panic!("expected the write-back first, got {:?}", other),
    }
    match bus_out.try_recv() {
        Ok(BusMessage::ReadResponse { who, data, .. }) => {
            assert_eq!(who, 1);
            assert_eq!(data.map(|d| d[0]), Some(0x77));
        }
        other => panic!("expected the response second, got {:?}", other),
    }
    assert_eq!(cache.line_state(Block(0)), Some(MesiState::Shared));
}

#[test]
fn peer_read_demotes_exclusive_holder() {
    let (mut cache, feed, _bus_out) = cache_harness(0);
    feed_read_grant(&feed, 0, 5, zero_block());
    assert_eq!(cache.read(Address(5 * 32)), Some(0));
    assert_eq!(cache.line_state(Block(5)), Some(MesiState::Exclusive));
    // Another cache just acquired a copy of the block: demote to Shared.
    cache.handle_bus_message(&BusMessage::ReadResponse {
        who: 3,
        from: ResponseSender::MainMemory,
        block: Block(5),
        data: Some(zero_block()),
    });
    assert_eq!(cache.line_state(Block(5)), Some(MesiState::Shared));
}

#[test]
fn writer_demotes_reader() {
    let mut mm = MainMemory::new();
    let (mut a, feed_a, bus_a) = cache_harness(0);
    let (mut b, feed_b, _bus_b) = cache_harness(1);

    // A reads block 0 from memory and holds it Exclusive.
    let req_a = BusMessage::ReadRequest {
        who: 0,
        block: Block(0),
    };
    let resp_a = mm.handle_message(&req_a).unwrap();
    feed_a.send(resp_a).unwrap();
    assert_eq!(a.read(Address(0)), Some(0));
    assert_eq!(a.line_state(Block(0)), Some(MesiState::Exclusive));

    // B reads block 0: A snoops the request, responds and demotes itself;
    // memory also responds. B takes the peer copy; the memory copy is
    // redundant and discarded.
    let req_b = BusMessage::ReadRequest {
        who: 1,
        block: Block(0),
    };
    a.handle_bus_message(&req_b);
    let peer_resp = bus_a.recv().unwrap();
    let mem_resp = mm.handle_message(&req_b).unwrap();
    feed_b.send(peer_resp).unwrap();
    feed_b.send(mem_resp).unwrap();
    assert_eq!(b.read(Address(0)), Some(0));
    assert_eq!(b.line_state(Block(0)), Some(MesiState::Shared));
    assert_eq!(a.line_state(Block(0)), Some(MesiState::Shared));

    // A writes: it asks for exclusivity, B invalidates, A is Modified.
    assert!(a.write(Address(0), 0xA));
    assert_eq!(a.line_state(Block(0)), Some(MesiState::Modified));
    let rdx = bus_a.recv().unwrap();
    assert!(matches!(rdx, BusMessage::ReadExclusiveRequest { who: 0, .. }));
    b.handle_bus_message(&rdx);
    assert_eq!(b.line_state(Block(0)), Some(MesiState::Invalid));
    let stale = mm.handle_message(&rdx).unwrap();
    // The granted exclusive-read response is stale by the time A sees it:
    // A already holds the block Modified and must not clobber its write.
    feed_a.send(stale).unwrap();
    a.snoop_backlog();
    assert_eq!(a.line_state(Block(0)), Some(MesiState::Modified));
    assert_eq!(a.read(Address(0)), Some(0xA));

    // B reads again: memory refuses (the block is dirty elsewhere), A snoops
    // the request, writes back and serves its copy; B ends up reading 0xA.
    let req_b2 = BusMessage::ReadRequest {
        who: 1,
        block: Block(0),
    };
    let mem_none = mm.handle_message(&req_b2).unwrap();
    assert!(matches!(
        mem_none,
        BusMessage::ReadResponse { data: None, .. }
    ));
    a.handle_bus_message(&req_b2);
    let write_back = bus_a.recv().unwrap();
    assert!(matches!(write_back, BusMessage::WriteRequest { .. }));
    mm.handle_message(&write_back);
    let peer_resp2 = bus_a.recv().unwrap();

    feed_b.send(mem_none).unwrap();
    feed_b.send(peer_resp2).unwrap();
    assert_eq!(b.read(Address(0)), Some(0xA));
    assert_eq!(b.line_state(Block(0)), Some(MesiState::Shared));
    assert_eq!(a.line_state(Block(0)), Some(MesiState::Shared));

    // With the write-back landed, memory serves the written byte again.
    match mm.handle_message(&BusMessage::ReadRequest {
        who: 2,
        block: Block(0),
    }) {
        Some(BusMessage::ReadResponse { data: Some(d), .. }) => assert_eq!(d[0], 0xA),
        other => panic!("memory should be coherent again, got {:?}", other),
    }
}

#[test]
fn capacity_flush_preserves_writes() {
    let mut mm = MainMemory::new();
    let (mut cache, feed, bus_out) = cache_harness(0);

    for i in 0..33usize {
        let req = BusMessage::ReadExclusiveRequest {
            who: 0,
            block: Block(i),
        };
        let resp = mm.handle_message(&req).unwrap();
        feed.send(resp).unwrap();
        assert!(cache.write(Address(i * 32), (i + 1) as u8));
    }

    // The 33rd distinct block found the cache full: every Modified line was
    // written back before the insert, none dropped silently.
    let mut write_backs = Vec::new();
    while let Ok(msg) = bus_out.try_recv() {
        match msg {
            BusMessage::WriteRequest { block, data } => write_backs.push((block.0, data[0])),
            other => panic!("unexpected traffic {:?}", other),
        }
    }
    write_backs.sort();
    let expected: Vec<(usize, u8)> = (0..32usize).map(|i| (i, (i + 1) as u8)).collect();
    assert_eq!(write_backs, expected);

    // Only the newest block remains cached, still Modified.
    assert_eq!(cache.line_state(Block(32)), Some(MesiState::Modified));
    assert_eq!(cache.line_state(Block(0)), None);

    // Landing the write-backs in memory makes every written byte visible.
    for (b, byte) in &write_backs {
        let mut d = [0u8; 32];
        d[0] = *byte;
        mm.handle_message(&BusMessage::WriteRequest {
            block: Block(*b),
            data: d,
        });
    }
    for i in 0..32usize {
        match mm.handle_message(&BusMessage::ReadRequest {
            who: 1,
            block: Block(i),
        }) {
            Some(BusMessage::ReadResponse { data: Some(d), .. }) => {
                assert_eq!(d[0], (i + 1) as u8)
            }
            other => panic!("block {} should be readable, got {:?}", i, other),
        }
    }
}

#[test]
fn counters_and_reset() {
    let (mut cache, feed, _bus_out) = cache_harness(0);
    feed_read_grant(&feed, 0, 0, zero_block());
    assert_eq!(cache.read(Address(0)), Some(0));
    assert_eq!(cache.read(Address(1)), Some(0));
    assert_eq!(cache.read(Address(2)), Some(0));
    assert!(cache.miss_count() <= cache.total_count());
    assert_eq!(cache.total_count(), 3);
    let percent = cache.miss_count() as f64 / cache.total_count() as f64 * 100.0;
    assert!((0.0..=100.0).contains(&percent));
    cache.reset_stats();
    assert_eq!(cache.miss_count(), 0);
    assert_eq!(cache.total_count(), 0);
    // The lines survive a statistics reset.
    assert_eq!(cache.line_state(Block(0)), Some(MesiState::Exclusive));
}

#[test]
fn reading_an_invalid_line_is_a_miss_state() {
    let (mut cache, feed, _bus_out) = cache_harness(0);
    feed_read_grant(&feed, 0, 0, zero_block());
    assert_eq!(cache.read(Address(0)), Some(0));
    cache.handle_bus_message(&BusMessage::ReadExclusiveRequest {
        who: 1,
        block: Block(0),
    });
    assert_eq!(cache.line_state(Block(0)), Some(MesiState::Invalid));
    // A fresh grant revalidates the invalid line in place.
    feed_read_grant(&feed, 0, 0, [3u8; 32]);
    assert_eq!(cache.read(Address(0)), Some(3));
    assert_eq!(cache.line_state(Block(0)), Some(MesiState::Exclusive));
}
