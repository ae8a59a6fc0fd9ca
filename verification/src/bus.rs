//! The messages that travel on the broadcast bus connecting the memory caches
//! to main memory, and the trusted endpoints the agents use to exchange them.
//!
//! The bus itself is pure plumbing: it forwards every inbound message to every
//! participant, including the sender. The fan-out loop performs no logic and
//! lives with the thread wiring; the protocol vocabulary and the channel
//! endpoints that the verified agents hold are here.

use vstd::prelude::*;

use crate::main_memory::Block;
use crate::main_memory::BLOCK_SIZE;
use crate::memory_cache::MemoryCacheId;

verus! {

/// The various types of messages we can send on the bus.
#[derive(Clone, Copy, Debug)]
pub enum BusMessage {
    /// A request to read a block from main memory.
    ReadRequest {
        /// Which memory cache is requesting the read.
        who: MemoryCacheId,
        /// Which block of memory.
        block: Block,
    },
    /// The response to a `ReadRequest`.
    ReadResponse {
        /// Which memory cache the response is for.
        who: MemoryCacheId,
        /// Who sent the response.
        from: ResponseSender,
        /// Which block of memory.
        block: Block,
        /// The block's data. If `None`, the data is unavailable due to another
        /// cache holding it exclusively for writing.
        data: Option<[u8; BLOCK_SIZE]>,
    },
    /// A request to exclusively read a block from main memory, with intent to
    /// modify and write it back.
    ReadExclusiveRequest {
        /// Which memory cache is requesting the exclusive read.
        who: MemoryCacheId,
        /// Which block of memory.
        block: Block,
    },
    /// The response to a `ReadExclusiveRequest`.
    ReadExclusiveResponse {
        /// Which memory cache the response is for.
        who: MemoryCacheId,
        /// Which block of memory.
        block: Block,
        /// The block's data. If `None`, the data is unavailable due to another
        /// cache holding it exclusively for writing.
        data: Option<[u8; BLOCK_SIZE]>,
    },
    /// A request to write a block back to main memory.
    WriteRequest {
        /// Which block of memory.
        block: Block,
        /// The data to be written to the block.
        data: [u8; BLOCK_SIZE],
    },
}

/// Who sent a response.
#[derive(Clone, Copy, Debug, PartialEq, Eq, Structural)]
pub enum ResponseSender {
    /// The response was sent by a snooping memory cache.
    Cache,
    /// The response was sent by main memory.
    MainMemory,
}

#[verifier::external_type_specification]
#[verifier::external_body]
#[verifier::reject_recursive_types(T)]
pub struct ExSender<T>(std::sync::mpsc::Sender<T>);

#[verifier::external_type_specification]
#[verifier::external_body]
#[verifier::reject_recursive_types(T)]
pub struct ExReceiver<T>(std::sync::mpsc::Receiver<T>);

/// Relies on std::sync::mpsc::Sender::send: queues the message for the
/// receiving endpoint. A failure means the receiver is gone; the message is
/// then dropped, and the sending agent finds the fault at its next receive.
#[verifier::external_body]
pub(crate) fn send_message(tx: &std::sync::mpsc::Sender<BusMessage>, msg: BusMessage) {
    let _ = tx.send(msg);
}

/// Relies on std::sync::mpsc::Receiver::recv: blocks until a message arrives
/// and hands it over. A closed channel means the bus is gone, which the
/// simulation treats as fatal structural corruption.
#[verifier::external_body]
pub(crate) fn receive_message(rx: &std::sync::mpsc::Receiver<BusMessage>) -> BusMessage {
    rx.recv().expect("Error receiving bus message")
}

/// Relies on std::sync::mpsc::Receiver::try_recv: hands over a queued message
/// if one is waiting, without blocking.
#[verifier::external_body]
pub(crate) fn try_receive_message(
    rx: &std::sync::mpsc::Receiver<BusMessage>,
) -> Option<BusMessage> {
    rx.try_recv().ok()
}

} // verus!
