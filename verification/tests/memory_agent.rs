use mesi_cache::bus::{BusMessage, ResponseSender};
use mesi_cache::main_memory::{Block, MainMemory};

fn read_block(mm: &mut MainMemory, who: u8, b: usize) -> Option<[u8; 32]> {
    match mm.handle_message(&BusMessage::ReadRequest {
        who,
        block: Block(b),
    }) {
        Some(BusMessage::ReadResponse {
            who: w,
            from,
            block,
            data,
        }) => {
            assert_eq!(w, who);
            assert_eq!(from, ResponseSender::MainMemory);
            assert_eq!(block, Block(b));
            data
        }
        other => panic!("unexpected response {:?}", other),
    }
}

#[test]
fn fresh_memory_serves_zeroes() {
    let mut mm = MainMemory::new();
    let data = read_block(&mut mm, 3, 5).expect("fresh block must be available");
    assert_eq!(data, [0u8; 32]);
}

#[test]
fn write_back_lands_and_is_served() {
    let mut mm = MainMemory::new();
    let mut payload = [0u8; 32];
    payload[0] = 0xAB;
    payload[31] = 0xCD;
    let none = mm.handle_message(&BusMessage::WriteRequest {
        block: Block(7),
        data: payload,
    });
    assert!(none.is_none());
    assert_eq!(read_block(&mut mm, 1, 7), Some(payload));
    // neighbouring blocks untouched
    assert_eq!(read_block(&mut mm, 1, 6), Some([0u8; 32]));
    assert_eq!(read_block(&mut mm, 1, 8), Some([0u8; 32]));
}

#[test]
fn exclusive_read_marks_block_dirty_elsewhere() {
    let mut mm = MainMemory::new();
    let granted = mm.handle_message(&BusMessage::ReadExclusiveRequest {
        who: 2,
        block: Block(9),
    });
    match granted {
        Some(BusMessage::ReadExclusiveResponse {
            who,
            block,
            data: Some(d),
        }) => {
            assert_eq!(who, 2);
            assert_eq!(block, Block(9));
            assert_eq!(d, [0u8; 32]);
        }
        other => panic!("exclusive read should be granted, got {:?}", other),
    }
    // While held exclusively elsewhere, plain reads and further exclusive
    // reads get no data.
    assert_eq!(read_block(&mut mm, 4, 9), None);
    match mm.handle_message(&BusMessage::ReadExclusiveRequest {
        who: 5,
        block: Block(9),
    }) {
        Some(BusMessage::ReadExclusiveResponse { data, .. }) => assert!(data.is_none()),
        other => panic!("unexpected {:?}", other),
    }
    // A write-back returns the block to coherent visibility.
    let mut payload = [0u8; 32];
    payload[3] = 9;
    mm.handle_message(&BusMessage::WriteRequest {
        block: Block(9),
        data: payload,
    });
    assert_eq!(read_block(&mut mm, 4, 9), Some(payload));
}

#[test]
fn responses_are_ignored_by_memory() {
    let mut mm = MainMemory::new();
    let r = mm.handle_message(&BusMessage::ReadResponse {
        who: 0,
        from: ResponseSender::Cache,
        block: Block(0),
        data: Some([1u8; 32]),
    });
    assert!(r.is_none());
    let r2 = mm.handle_message(&BusMessage::ReadExclusiveResponse {
        who: 0,
        block: Block(0),
        data: None,
    });
    assert!(r2.is_none());
    // Memory unchanged by the ignored responses.
    assert_eq!(read_block(&mut mm, 0, 0), Some([0u8; 32]));
}
