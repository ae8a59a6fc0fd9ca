//! Main memory: byte addressing, block indexing, and the authoritative block
//! store that serves the bus as a coherence participant.
//!
//! The memory agent's thread loop (receive, wait out the modelled DRAM
//! latency, act) lives with the thread wiring; the decision of how each bus
//! message changes the store and what response it earns is `handle_message`,
//! verified here against the pure transition `memory_step`.

use vstd::prelude::*;

use crate::bus::BusMessage;
use crate::bus::ResponseSender;

verus! {

/// The size of a block of memory, in bytes.
pub const BLOCK_SIZE: usize = 32;

/// The size of main memory, in bytes.
pub const MAIN_MEMORY_SIZE: usize = 65536;

/// The number of blocks main memory holds.
pub const MAIN_MEMORY_BLOCKS: usize = 2048;

/// The address of a byte in memory.
#[derive(Clone, Copy, Debug, PartialEq, Eq, Structural)]
pub struct Address(pub usize);

/// The index of a contiguous block of bytes in memory or cache.
#[derive(Clone, Copy, Debug, PartialEq, Eq, Structural)]
pub struct Block(pub usize);

impl Block {
    /// Get the block for the given address.
    pub fn for_addr(addr: Address) -> (b: Block)
        ensures
            b.0 == addr.0 as int / BLOCK_SIZE as int,
    {
        Block(addr.0 / BLOCK_SIZE)
    }

    /// Get the range of addresses for this block.
    pub fn address_range(&self) -> (r: core::ops::Range<usize>)
        requires
            (self.0 + 1) * BLOCK_SIZE as int <= usize::MAX,
        ensures
            r.start == self.0 * BLOCK_SIZE as int,
            r.end == (self.0 + 1) * BLOCK_SIZE as int,
    {
        self.0 * BLOCK_SIZE..(self.0 + 1) * BLOCK_SIZE
    }
}

#[verifier::external_type_specification]
#[verifier::external_body]
#[verifier::reject_recursive_types(B)]
pub struct ExBitVec<B>(bit_vec::BitVec<B>);

pub uninterp spec fn bits_of(bits: bit_vec::BitVec) -> Seq<bool>;

/// Relies on bit_vec::BitVec::from_elem: a vector of `len` copies of `bit`.
#[verifier::external_body]
fn bits_from_elem(len: usize, bit: bool) -> (r: bit_vec::BitVec)
    ensures
        bits_of(r) == Seq::new(len as nat, |i: int| bit),
{
    bit_vec::BitVec::from_elem(len, bit)
}

/// Relies on bit_vec::BitVec::get: the bit at the index, or `None` past the
/// end.
#[verifier::external_body]
fn bits_get(bits: &bit_vec::BitVec, i: usize) -> (r: Option<bool>)
    ensures
        r == (if i < bits_of(*bits).len() {
            Some(bits_of(*bits)[i as int])
        } else {
            None::<bool>
        }),
{
    bits.get(i)
}

/// Relies on bit_vec::BitVec::set: replaces the bit at the index, which must
/// be in range (the call panics past the end).
#[verifier::external_body]
fn bits_set(bits: &mut bit_vec::BitVec, i: usize, x: bool)
    requires
        i < bits_of(*old(bits)).len(),
    ensures
        bits_of(*final(bits)) == bits_of(*old(bits)).update(i as int, x),
{
    bits.set(i, x)
}

/// The mathematical content of main memory: its bytes and the per-block
/// "held exclusively elsewhere" bits.
pub struct MemoryView {
    /// Every byte of the store.
    pub bytes: Seq<u8>,
    /// For each block, whether some cache has claimed it for modification and
    /// not yet written it back.
    pub dirty_elsewhere: Seq<bool>,
}

impl MemoryView {
    /// The view has the fixed geometry of the store.
    pub open spec fn wf(self) -> bool {
        &&& self.bytes.len() == MAIN_MEMORY_SIZE
        &&& self.dirty_elsewhere.len() == MAIN_MEMORY_BLOCKS
    }
}

/// The bytes of block `b` within a whole-memory byte sequence.
pub open spec fn block_bytes(bytes: Seq<u8>, b: int) -> Seq<u8> {
    bytes.subrange(b * BLOCK_SIZE as int, b * BLOCK_SIZE as int + BLOCK_SIZE as int)
}

/// A whole-memory byte sequence with block `b` replaced by `data`.
pub open spec fn splice_block(bytes: Seq<u8>, b: int, data: Seq<u8>) -> Seq<u8> {
    Seq::new(
        bytes.len(),
        |i: int|
            if b * BLOCK_SIZE as int <= i < b * BLOCK_SIZE as int + BLOCK_SIZE as int {
                data[i - b * BLOCK_SIZE as int]
            } else {
                bytes[i]
            },
    )
}

/// Whether the block a request or write-back names lies inside the store.
/// Messages with blocks past the end indicate structural corruption; the
/// caller checks and fails, as the agent cannot serve them.
pub open spec fn msg_block_in_range(msg: BusMessage) -> bool {
    match msg {
        BusMessage::ReadRequest { block, .. } => block.0 < MAIN_MEMORY_BLOCKS,
        BusMessage::ReadExclusiveRequest { block, .. } => block.0 < MAIN_MEMORY_BLOCKS,
        BusMessage::WriteRequest { block, .. } => block.0 < MAIN_MEMORY_BLOCKS,
        _ => true,
    }
}

/// How one bus message changes the store: an exclusive read that is granted
/// sets the block's dirty bit, a write-back clears it and lands the bytes,
/// and everything else leaves the store alone.
pub open spec fn memory_step(m: MemoryView, msg: BusMessage) -> MemoryView {
    match msg {
        BusMessage::ReadExclusiveRequest { block, .. } => {
            if m.dirty_elsewhere[block.0 as int] {
                m
            } else {
                MemoryView { dirty_elsewhere: m.dirty_elsewhere.update(block.0 as int, true), ..m }
            }
        },
        BusMessage::WriteRequest { block, data } => {
            MemoryView {
                bytes: splice_block(m.bytes, block.0 as int, data@),
                dirty_elsewhere: m.dirty_elsewhere.update(block.0 as int, false),
            }
        },
        _ => m,
    }
}

/// What one bus message earns in response: requests for a block whose dirty
/// bit is set get `data: None`, others get the block's current bytes;
/// write-backs and responses get nothing.
pub open spec fn memory_responds(m: MemoryView, msg: BusMessage, r: Option<BusMessage>) -> bool {
    match msg {
        BusMessage::ReadRequest { who, block } => {
            if m.dirty_elsewhere[block.0 as int] {
                r == Some(
                    (BusMessage::ReadResponse {
                        who,
                        from: ResponseSender::MainMemory,
                        block,
                        data: None,
                    }),
                )
            } else {
                match r {
                    Some(
                        BusMessage::ReadResponse { who: w, from, block: bl, data: Some(d) },
                    ) => {
                        &&& w == who
                        &&& from == ResponseSender::MainMemory
                        &&& bl == block
                        &&& d@ == block_bytes(m.bytes, block.0 as int)
                    },
                    _ => false,
                }
            }
        },
        BusMessage::ReadExclusiveRequest { who, block } => {
            if m.dirty_elsewhere[block.0 as int] {
                r == Some((BusMessage::ReadExclusiveResponse { who, block, data: None }))
            } else {
                match r {
                    Some(BusMessage::ReadExclusiveResponse { who: w, block: bl, data: Some(d) }) => {
                        &&& w == who
                        &&& bl == block
                        &&& d@ == block_bytes(m.bytes, block.0 as int)
                    },
                    _ => false,
                }
            }
        },
        _ => r is None,
    }
}

/// The main memory.
pub struct MainMemory {
    data: Vec<u8>,
    modified: bit_vec::BitVec,
}

impl View for MainMemory {
    type V = MemoryView;

    closed spec fn view(&self) -> MemoryView {
        MemoryView { bytes: self.data@, dirty_elsewhere: bits_of(self.modified) }
    }
}

impl MainMemory {
    /// A fresh store: every byte zero, no block held exclusively elsewhere.
    pub fn new() -> (m: MainMemory)
        ensures
            m@.wf(),
            m@.bytes == Seq::new(MAIN_MEMORY_SIZE as nat, |i: int| 0u8),
            m@.dirty_elsewhere == Seq::new(MAIN_MEMORY_BLOCKS as nat, |i: int| false),
    {
        let mut data: Vec<u8> = Vec::new();
        let mut i: usize = 0;
        while i < MAIN_MEMORY_SIZE
            invariant
                i <= MAIN_MEMORY_SIZE,
                data@ == Seq::new(i as nat, |j: int| 0u8),
            decreases MAIN_MEMORY_SIZE - i,
        {
            data.push(0u8);
            proof {
                assert(data@ =~= Seq::new((i + 1) as nat, |j: int| 0u8));
            }
            i = i + 1;
        }
        let m = MainMemory { data, modified: bits_from_elem(MAIN_MEMORY_BLOCKS, false) };
        m
    }

    /// Copy the 32 bytes of block `b` out of the store.
    fn copy_block(&self, b: usize) -> (out: [u8; BLOCK_SIZE])
        requires
            self@.wf(),
            b < MAIN_MEMORY_BLOCKS,
        ensures
            out@ == block_bytes(self@.bytes, b as int),
    {
        let mut out: [u8; BLOCK_SIZE] = [0u8; BLOCK_SIZE];
        let base: usize = b * BLOCK_SIZE;
        let mut i: usize = 0;
        while i < BLOCK_SIZE
            invariant
                self@.wf(),
                b < MAIN_MEMORY_BLOCKS,
                base == b * BLOCK_SIZE as int,
                i <= BLOCK_SIZE,
                out@.len() == BLOCK_SIZE,
                forall|j: int| 0 <= j < i ==> out@[j] == self@.bytes[base + j],
            decreases BLOCK_SIZE - i,
        {
            out[i] = *self.data.get(base + i).unwrap();
            i = i + 1;
        }
        proof {
            assert(out@ =~= block_bytes(self@.bytes, b as int));
        }
        out
    }

    /// Serve one bus message: answer reads, grant or refuse exclusive reads,
    /// absorb write-backs, ignore responses. The store changes exactly as
    /// `memory_step` says and the answer satisfies `memory_responds`.
    pub fn handle_message(&mut self, msg: &BusMessage) -> (r: Option<BusMessage>)
        requires
            old(self)@.wf(),
            msg_block_in_range(*msg),
        ensures
            final(self)@.wf(),
            final(self)@ == memory_step(old(self)@, *msg),
            memory_responds(old(self)@, *msg, r),
    {
        match *msg {
            BusMessage::ReadRequest { who, block } => {
                let dirty = match bits_get(&self.modified, block.0) {
                    Some(x) => x,
                    None => false,
                };
                let data = if dirty {
                    None
                } else {
                    Some(self.copy_block(block.0))
                };
                Some(
                    BusMessage::ReadResponse { who, from: ResponseSender::MainMemory, block, data },
                )
            },
            BusMessage::ReadExclusiveRequest { who, block } => {
                let dirty = match bits_get(&self.modified, block.0) {
                    Some(x) => x,
                    None => false,
                };
                let data = if dirty {
                    None
                } else {
                    bits_set(&mut self.modified, block.0, true);
                    Some(self.copy_block(block.0))
                };
                Some(BusMessage::ReadExclusiveResponse { who, block, data })
            },
            BusMessage::WriteRequest { block, data } => {
                bits_set(&mut self.modified, block.0, false);
                let base: usize = block.0 * BLOCK_SIZE;
                let mut i: usize = 0;
                while i < BLOCK_SIZE
                    invariant
                        self@.bytes.len() == MAIN_MEMORY_SIZE,
                        self@.dirty_elsewhere == memory_step(old(self)@, *msg).dirty_elsewhere,
                        *msg == (BusMessage::WriteRequest { block, data }),
                        block.0 < MAIN_MEMORY_BLOCKS,
                        base == block.0 * BLOCK_SIZE as int,
                        i <= BLOCK_SIZE,
                        forall|j: int|
                            0 <= j < i ==> self@.bytes[base + j] == data@[j],
                        forall|j: int|
                            0 <= j < MAIN_MEMORY_SIZE && !(base <= j < base + BLOCK_SIZE as int)
                                ==> self@.bytes[j] == old(self)@.bytes[j],
                    decreases BLOCK_SIZE - i,
                {
                    self.data.set(base + i, data[i]);
                    i = i + 1;
                }
                proof {
                    assert(self@.bytes =~= memory_step(old(self)@, *msg).bytes);
                    assert(self@ =~= memory_step(old(self)@, *msg));
                }
                None
            },
            _ => None,
        }
    }
}

/// The store after the memory agent has drained a sequence of bus messages.
pub open spec fn memory_run(m: MemoryView, msgs: Seq<BusMessage>) -> MemoryView
    decreases msgs.len(),
{
    if msgs.len() == 0 {
        m
    } else {
        memory_step(memory_run(m, msgs.drop_last()), msgs.last())
    }
}

/// The payload of the last write-back for block `b` within `msgs`, if any.
pub open spec fn last_write_to(msgs: Seq<BusMessage>, b: int) -> Option<[u8; BLOCK_SIZE]>
    decreases msgs.len(),
{
    if msgs.len() == 0 {
        None
    } else {
        match msgs.last() {
            BusMessage::WriteRequest { block, data } => {
                if block.0 == b {
                    Some(data)
                } else {
                    last_write_to(msgs.drop_last(), b)
                }
            },
            _ => last_write_to(msgs.drop_last(), b),
        }
    }
}

/// After the memory agent drains any sequence of bus messages, each block
/// holds the payload of the last write-back addressed to it, and a block no
/// write-back addressed still holds its original bytes.
pub proof fn lemma_memory_reflects_last_write(m: MemoryView, msgs: Seq<BusMessage>, b: int)
    requires
        m.wf(),
        0 <= b < MAIN_MEMORY_BLOCKS,
        forall|i: int| 0 <= i < msgs.len() ==> msg_block_in_range(#[trigger] msgs[i]),
    ensures
        memory_run(m, msgs).wf(),
        block_bytes(memory_run(m, msgs).bytes, b) == (match last_write_to(msgs, b) {
            Some(d) => d@,
            None => block_bytes(m.bytes, b),
        }),
    decreases msgs.len(),
{
    if msgs.len() == 0 {
    } else {
        assert(forall|i: int|
            0 <= i < msgs.drop_last().len() ==> msg_block_in_range(#[trigger] msgs.drop_last()[i]));
        lemma_memory_reflects_last_write(m, msgs.drop_last(), b);
        let pre = memory_run(m, msgs.drop_last());
        let post = memory_step(pre, msgs.last());
        assert(msg_block_in_range(msgs.last()));
        assert(post.wf());
        match msgs.last() {
            BusMessage::WriteRequest { block, data } => {
                if block.0 == b {
                    assert(block_bytes(post.bytes, b) =~= data@);
                } else {
                    assert(block_bytes(post.bytes, b) =~= block_bytes(pre.bytes, b));
                }
            },
            _ => {
                assert(block_bytes(post.bytes, b) =~= block_bytes(pre.bytes, b));
            },
        }
    }
}

} // verus!
