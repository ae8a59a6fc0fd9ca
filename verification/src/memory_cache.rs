//! Memory cache: a local set of cache lines with MESI states, servicing
//! program reads and writes and snooping the bus as a coherence participant.

use vstd::prelude::*;

use lru_time_cache::LruCache;

use crate::bus::BusMessage;
use crate::bus::ResponseSender;
use crate::bus::send_message;
use crate::bus::receive_message;
use crate::bus::try_receive_message;
use crate::main_memory::Address;
use crate::main_memory::Block;
use crate::main_memory::BLOCK_SIZE;
use crate::main_memory::MAIN_MEMORY_SIZE;

verus! {

/// The number of blocks a cache can hold.
pub const CACHE_SIZE: usize = 32;

/// The number of caches to simulate.
pub const NUMBER_OF_CACHES: usize = 8;

/// The id of a memory cache.
pub type MemoryCacheId = u8;

/// The current MESI state of a cache line.
///
/// Two caches may hold the same block at once only if neither holds it
/// Modified or Exclusive.
#[derive(Clone, Copy, Debug, PartialEq, Eq, Structural)]
pub enum MesiState {
    /// The line is present only in the current cache and is dirty: it has been
    /// modified from the value in main memory and must be written back before
    /// any other participant reads the block.
    Modified,
    /// The line is present only in the current cache and is clean. It may
    /// become Shared in response to a read request, or Modified on a write.
    Exclusive,
    /// The line may be stored in other caches as well and is clean. It may be
    /// discarded (become Invalid) at any time.
    Shared,
    /// The line is invalid (unused).
    Invalid,
}

/// A cache line is a block of data and its associated MESI state.
#[derive(Clone, Copy, Debug)]
pub struct CacheLine {
    /// The line's MESI state.
    pub state: MesiState,
    /// The line's copy of the block.
    pub data: [u8; BLOCK_SIZE],
}

impl CacheLine {
    /// Read a byte from the data in this cache line. The line must be live:
    /// an Invalid line's payload must not be read.
    pub fn read_byte(&self, addr: Address) -> (r: u8)
        requires
            self.state != MesiState::Invalid,
        ensures
            r == self.data[addr.0 as int % BLOCK_SIZE as int],
    {
        self.data[addr.0 % BLOCK_SIZE]
    }

    /// Write a byte to the data in this cache line, which must already be
    /// held Modified.
    pub fn write_byte(&mut self, addr: Address, val: u8)
        requires
            old(self).state == MesiState::Modified,
        ensures
            final(self).state == old(self).state,
            final(self).data@ == old(self).data@.update(addr.0 as int % BLOCK_SIZE as int, val),
    {
        self.data[addr.0 % BLOCK_SIZE] = val;
    }
}

#[verifier::external_type_specification]
#[verifier::external_body]
#[verifier::reject_recursive_types(Key)]
#[verifier::reject_recursive_types(Value)]
pub struct ExLruCache<Key, Value>(LruCache<Key, Value>);

/// The LRU table a cache stores its lines in, keyed by block index.
pub type LineTable = LruCache<usize, CacheLine>;

/// What a line table holds: each stored block's line, keyed by block index.
pub uninterp spec fn lru_contents(table: LineTable) -> Map<usize, CacheLine>;

/// The capacity a line table was created with.
pub uninterp spec fn lru_capacity(table: LineTable) -> nat;

/// Whether the line table was created without an expiry duration, so that
/// entries only ever leave it by removal or eviction, never by the clock.
pub uninterp spec fn lru_untimed(table: LineTable) -> bool;

/// Relies on lru_time_cache::LruCache::with_capacity: an empty cache bounded
/// by `capacity` entries, with no expiry duration.
#[verifier::external_body]
fn lru_with_capacity(capacity: usize) -> (table: LineTable)
    ensures
        lru_contents(table).dom() == Set::<usize>::empty(),
        lru_contents(table).dom().finite(),
        lru_capacity(table) == capacity,
        lru_untimed(table),
{
    LruCache::with_capacity(capacity)
}

/// Relies on lru_time_cache::LruCache::len: with no expiry duration set,
/// every stored entry is counted.
#[verifier::external_body]
fn lru_len(table: &LineTable) -> (n: usize)
    requires
        lru_untimed(*table),
        lru_contents(*table).dom().finite(),
    ensures
        n == lru_contents(*table).dom().len(),
{
    table.len()
}

/// Relies on lru_time_cache::LruCache::get: returns the entry stored under
/// the key; with no expiry duration set it only refreshes the entry's
/// recency, leaving the contents as they were.
#[verifier::external_body]
fn lru_get(table: &mut LineTable, key: usize) -> (r: Option<CacheLine>)
    requires
        lru_untimed(*old(table)),
    ensures
        lru_contents(*final(table)) == lru_contents(*old(table)),
        lru_capacity(*final(table)) == lru_capacity(*old(table)),
        lru_untimed(*final(table)),
        r == (if lru_contents(*old(table)).dom().contains(key) {
            Some(lru_contents(*old(table))[key])
        } else {
            None::<CacheLine>
        }),
{
    table.get(&key).copied()
}

/// Relies on lru_time_cache::LruCache::peek: returns the entry stored under
/// the key without touching the table at all.
#[verifier::external_body]
fn lru_peek(table: &LineTable, key: usize) -> (r: Option<CacheLine>)
    requires
        lru_untimed(*table),
    ensures
        r == (if lru_contents(*table).dom().contains(key) {
            Some(lru_contents(*table)[key])
        } else {
            None::<CacheLine>
        }),
{
    table.peek(&key).copied()
}

/// Relies on lru_time_cache::LruCache::insert: stores the value under the
/// key; a key not yet present, arriving when the table is full, first evicts
/// the least recently used entry.
#[verifier::external_body]
fn lru_insert(table: &mut LineTable, key: usize, value: CacheLine)
    requires
        lru_untimed(*old(table)),
        lru_capacity(*old(table)) > 0,
        lru_contents(*old(table)).dom().finite(),
        lru_contents(*old(table)).dom().len() <= lru_capacity(*old(table)),
    ensures
        lru_capacity(*final(table)) == lru_capacity(*old(table)),
        lru_untimed(*final(table)),
        if lru_contents(*old(table)).dom().contains(key) || lru_contents(*old(table)).dom().len()
            < lru_capacity(*old(table)) {
            lru_contents(*final(table)) == lru_contents(*old(table)).insert(key, value)
        } else {
            exists|victim: usize|
                #![auto]
                lru_contents(*old(table)).dom().contains(victim) && victim != key && lru_contents(
                    *final(table),
                ) == lru_contents(*old(table)).remove(victim).insert(key, value)
        },
{
    let _ = table.insert(key, value);
}

/// Relies on lru_time_cache::LruCache::remove: takes the entry stored under
/// the key out of the table and returns it.
#[verifier::external_body]
fn lru_remove(table: &mut LineTable, key: usize) -> (r: Option<CacheLine>)
    requires
        lru_untimed(*old(table)),
    ensures
        lru_contents(*final(table)) == lru_contents(*old(table)).remove(key),
        lru_capacity(*final(table)) == lru_capacity(*old(table)),
        lru_untimed(*final(table)),
        r == (if lru_contents(*old(table)).dom().contains(key) {
            Some(lru_contents(*old(table))[key])
        } else {
            None::<CacheLine>
        }),
{
    table.remove(&key)
}

/// Relies on lru_time_cache::LruCache::peek_iter: walks every stored entry
/// exactly once, without touching recency or the contents.
#[verifier::external_body]
fn lru_entries(table: &LineTable) -> (entries: Vec<(usize, CacheLine)>)
    requires
        lru_untimed(*table),
        lru_contents(*table).dom().finite(),
    ensures
        entries@.len() == lru_contents(*table).dom().len(),
        forall|i: int|
            0 <= i < entries@.len() ==> lru_contents(*table).dom().contains(
                (#[trigger] entries@[i]).0,
            ) && entries@[i].1 == lru_contents(*table)[entries@[i].0],
        forall|i: int, j: int|
            0 <= i < j < entries@.len() ==> (#[trigger] entries@[i]).0 != (#[trigger] entries@[j]).0,
        forall|b: usize|
            lru_contents(*table).dom().contains(b) ==> exists|i: int|
                0 <= i < entries@.len() && (#[trigger] entries@[i]).0 == b,
{
    table.peek_iter().map(|(k, v)| (*k, *v)).collect()
}

/// The mathematical content of a memory cache: its id, its counters, its
/// lines keyed by block index, and everything it has sent onto the bus.
pub struct CacheView {
    /// This cache's unique id.
    pub id: MemoryCacheId,
    /// How many reads and writes missed the cache.
    pub miss: u64,
    /// How many reads and writes were serviced.
    pub total: u64,
    /// The cache's lines, keyed by block index.
    pub lines: Map<usize, CacheLine>,
    /// Every message this cache has sent onto the bus, oldest first.
    pub sent: Seq<BusMessage>,
    /// Every bus message this cache has received and handled, oldest first.
    pub rcvd: Seq<BusMessage>,
    /// Whether the cache has observed traffic the protocol can never
    /// produce (see `sanity_fault`). The driver treats a recorded fault as
    /// fatal corruption.
    pub fault: bool,
}

impl CacheView {
    /// At most a cache's worth of lines, and no more misses than accesses.
    pub open spec fn wf(self) -> bool {
        &&& self.lines.dom().finite()
        &&& self.lines.dom().len() <= CACHE_SIZE
        &&& self.miss <= self.total
    }
}

/// The cache holds a line for block `b` whose payload may be read.
pub open spec fn line_valid(lines: Map<usize, CacheLine>, b: usize) -> bool {
    lines.dom().contains(b) && lines[b].state != MesiState::Invalid
}

/// The cache holds no lines at all.
pub open spec fn no_lines(lines: Map<usize, CacheLine>) -> bool {
    lines == Map::<usize, CacheLine>::empty()
}

/// The blocks a cache holds Modified.
pub open spec fn modified_blocks(lines: Map<usize, CacheLine>) -> Set<usize> {
    lines.dom().filter(|b: usize| lines[b].state == MesiState::Modified)
}

/// The lines left after every modified line is written back and dropped.
pub open spec fn clean_lines(lines: Map<usize, CacheLine>) -> Map<usize, CacheLine> {
    lines.remove_keys(modified_blocks(lines))
}

/// The write-back message for block `b`.
pub open spec fn write_back_of(lines: Map<usize, CacheLine>, b: usize) -> BusMessage {
    BusMessage::WriteRequest { block: Block(b), data: lines[b].data }
}

/// `msgs` writes every modified line of `lines` back, each exactly once, in
/// some order.
pub open spec fn is_write_back_sequence(
    lines: Map<usize, CacheLine>,
    msgs: Seq<BusMessage>,
) -> bool {
    &&& (forall|p: int, q: int| 0 <= p < q < msgs.len() ==> msgs[p] != msgs[q])
    &&& (forall|p: int|
        0 <= p < msgs.len() ==> exists|b: usize|
            modified_blocks(lines).contains(b) && #[trigger] msgs[p] == write_back_of(lines, b))
    &&& (forall|b: usize|
        #[trigger] modified_blocks(lines).contains(b) ==> exists|p: int|
            0 <= p < msgs.len() && msgs[p] == write_back_of(lines, b))
}

/// A memory cache.
pub struct MemoryCache {
    /// This cache's unique id.
    pub id: MemoryCacheId,
    miss_count: u64,
    total_count: u64,
    to_bus: std::sync::mpsc::Sender<BusMessage>,
    from_bus: std::sync::mpsc::Receiver<BusMessage>,
    cached_lines: LineTable,
    sent: Ghost<Seq<BusMessage>>,
    rcvd: Ghost<Seq<BusMessage>>,
    protocol_fault: bool,
}

impl View for MemoryCache {
    type V = CacheView;

    closed spec fn view(&self) -> CacheView {
        CacheView {
            id: self.id,
            miss: self.miss_count,
            total: self.total_count,
            lines: lru_contents(self.cached_lines),
            sent: self.sent@,
            rcvd: self.rcvd@,
            fault: self.protocol_fault,
        }
    }
}

impl MemoryCache {
    /// The cache's structural invariant: a well-formed view over a line table
    /// that is bounded by `CACHE_SIZE` and never expires entries.
    pub closed spec fn wf(&self) -> bool {
        &&& self@.wf()
        &&& lru_capacity(self.cached_lines) == CACHE_SIZE
        &&& lru_untimed(self.cached_lines)
    }

    /// A fresh cache wired to the bus: no lines, counters at zero, nothing
    /// sent yet.
    pub fn new(
        id: MemoryCacheId,
        to_bus: std::sync::mpsc::Sender<BusMessage>,
        from_bus: std::sync::mpsc::Receiver<BusMessage>,
    ) -> (c: MemoryCache)
        ensures
            c.wf(),
            c@.id == id,
            c@.miss == 0,
            c@.total == 0,
            no_lines(c@.lines),
            c@.sent == Seq::<BusMessage>::empty(),
            c@.rcvd == Seq::<BusMessage>::empty(),
            !c@.fault,
    {
        let c = MemoryCache {
            id,
            miss_count: 0,
            total_count: 0,
            to_bus,
            from_bus,
            cached_lines: lru_with_capacity(CACHE_SIZE),
            sent: Ghost(Seq::empty()),
            rcvd: Ghost(Seq::empty()),
            protocol_fault: false,
        };
        proof {
            assert(c@.lines =~= Map::<usize, CacheLine>::empty());
        }
        c
    }

    /// The number of reads and writes that have missed the cache.
    pub fn miss_count(&self) -> (r: u64)
        ensures
            r == self@.miss,
    {
        self.miss_count
    }

    /// The number of reads and writes serviced so far.
    pub fn total_count(&self) -> (r: u64)
        ensures
            r == self@.total,
    {
        self.total_count
    }

    /// Whether this cache has observed traffic the protocol can never
    /// produce: a data-carrying peer response for a block already held
    /// valid. The driver treats a recorded fault as fatal corruption.
    pub fn protocol_fault(&self) -> (r: bool)
        ensures
            r == self@.fault,
    {
        self.protocol_fault
    }

    /// Reset the statistics recording miss percents.
    pub fn reset_stats(&mut self)
        requires
            old(self).wf(),
        ensures
            final(self).wf(),
            final(self)@ == (CacheView { miss: 0, total: 0, ..old(self)@ }),
    {
        self.miss_count = 0;
        self.total_count = 0;
    }

    /// The MESI state of this cache's line for `block`, if it holds one.
    pub fn line_state(&self, block: Block) -> (r: Option<MesiState>)
        requires
            self.wf(),
        ensures
            r == (if self@.lines.dom().contains(block.0) {
                Some(self@.lines[block.0].state)
            } else {
                None::<MesiState>
            }),
    {
        match lru_peek(&self.cached_lines, block.0) {
            Some(line) => Some(line.state),
            None => None,
        }
    }

    /// Send a message onto the bus, recording it in the sent log.
    fn emit(&mut self, msg: BusMessage)
        requires
            old(self).wf(),
        ensures
            final(self).wf(),
            final(self)@ == (CacheView { sent: old(self)@.sent.push(msg), ..old(self)@ }),
    {
        send_message(&self.to_bus, msg);
        self.sent = Ghost(self.sent@.push(msg));
    }

    /// Flush the cache: write each Modified cache line back to main memory
    /// and drop it from the local set. Afterwards no line is Modified.
    #[verifier::rlimit(60)]
    pub fn flush(&mut self)
        requires
            old(self).wf(),
        ensures
            final(self).wf(),
            final(self)@.id == old(self)@.id,
            final(self)@.miss == old(self)@.miss,
            final(self)@.total == old(self)@.total,
            final(self)@.rcvd == old(self)@.rcvd,
            final(self)@.fault == old(self)@.fault,
            final(self)@.lines == clean_lines(old(self)@.lines),
            forall|b: usize|
                final(self)@.lines.dom().contains(b) ==> (#[trigger] final(self)@.lines[b]).state
                    != MesiState::Modified,
            old(self)@.sent.is_prefix_of(final(self)@.sent),
            is_write_back_sequence(
                old(self)@.lines,
                final(self)@.sent.skip(old(self)@.sent.len() as int),
            ),
    {
        let ghost pre = self@;
        let entries = lru_entries(&self.cached_lines);
        let n: usize = entries.len();
        let mut i: usize = 0;
        while i < n
            invariant
                self.wf(),
                n == entries@.len(),
                i <= n,
                self@.id == pre.id,
                self@.miss == pre.miss,
                self@.total == pre.total,
                self@.rcvd == pre.rcvd,
                self@.fault == pre.fault,
                pre.lines.dom().finite(),
                entries@.len() == pre.lines.dom().len(),
                forall|j: int|
                    0 <= j < entries@.len() ==> pre.lines.dom().contains(
                        (#[trigger] entries@[j]).0,
                    ) && entries@[j].1 == pre.lines[entries@[j].0],
                forall|j: int, k: int|
                    0 <= j < k < entries@.len() ==> (#[trigger] entries@[j]).0 != (
                    #[trigger] entries@[k]).0,
                forall|b: usize|
                    pre.lines.dom().contains(b) ==> exists|j: int|
                        0 <= j < entries@.len() && (#[trigger] entries@[j]).0 == b,
                self@.lines == pre.lines.remove_keys(processed_modified(entries@, i as int)),
                pre.sent.is_prefix_of(self@.sent),
                wb_delta_matches(
                    pre.lines,
                    entries@,
                    i as int,
                    self@.sent.skip(pre.sent.len() as int),
                ),
            decreases n - i,
        {
            let ghost lines_before = self@.lines;
            let ghost sent_before = self@.sent;
            let ghost delta_before = self@.sent.skip(pre.sent.len() as int);
            let (b, line) = entries[i];
            if line.state == MesiState::Modified {
                self.emit(BusMessage::WriteRequest { block: Block(b), data: line.data });
                let _ = lru_remove(&mut self.cached_lines, b);
                proof {
                    let wb = write_back_of(pre.lines, b);
                    assert(entries@[i as int].1 == pre.lines[b]);
                    assert(self@.sent == sent_before.push(wb));
                    assert(pre.sent =~= self@.sent.subrange(0, pre.sent.len() as int));
                    let delta_new = self@.sent.skip(pre.sent.len() as int);
                    assert(delta_new =~= delta_before.push(wb));
                    assert(self@.lines =~= pre.lines.remove_keys(
                        processed_modified(entries@, i as int + 1),
                    ));
                    assert(self@.lines.dom() =~= lines_before.dom().remove(b)) by {
                        assert(lines_before.dom().contains(b));
                    }
                    assert forall|p: int| 0 <= p < delta_before.len() implies delta_before[p]
                        != wb by {
                        let j = choose|j: int|
                            0 <= j < i && entries@[j].1.state == MesiState::Modified
                                && delta_before[p] == write_back_of(pre.lines, entries@[j].0);
                        assert(entries@[j].0 != entries@[i as int].0);
                    }
                    assert forall|j: int|
                        0 <= j < i + 1 && (#[trigger] entries@[j]).1.state
                            == MesiState::Modified implies exists|p: int|
                        0 <= p < delta_new.len() && delta_new[p] == write_back_of(
                            pre.lines,
                            entries@[j].0,
                        ) by {
                        if j < i {
                            let p = choose|p: int|
                                0 <= p < delta_before.len() && delta_before[p] == write_back_of(
                                    pre.lines,
                                    entries@[j].0,
                                );
                            assert(delta_new[p] == write_back_of(pre.lines, entries@[j].0));
                        } else {
                            assert(delta_new[delta_before.len() as int] == write_back_of(
                                pre.lines,
                                entries@[j].0,
                            ));
                        }
                    }
                    assert forall|p: int| 0 <= p < delta_new.len() implies exists|j: int|
                        0 <= j < i + 1 && entries@[j].1.state == MesiState::Modified && #[trigger]
                        delta_new[p] == write_back_of(pre.lines, entries@[j].0) by {
                        if p < delta_before.len() {
                            let j = choose|j: int|
                                0 <= j < i && entries@[j].1.state == MesiState::Modified
                                    && delta_before[p] == write_back_of(pre.lines, entries@[j].0);
                            assert(delta_new[p] == write_back_of(pre.lines, entries@[j].0));
                        } else {
                            assert(delta_new[p] == write_back_of(
                                pre.lines,
                                entries@[i as int].0,
                            ));
                        }
                    }
                }
            } else {
                proof {
                    assert(processed_modified(entries@, i as int + 1) =~= processed_modified(
                        entries@,
                        i as int,
                    ));
                }
            }
            i = i + 1;
        }
        proof {
            let delta = self@.sent.skip(pre.sent.len() as int);
            assert(self@.lines =~= clean_lines(pre.lines)) by {
                assert forall|b: usize| #[trigger]
                    modified_blocks(pre.lines).contains(b) implies processed_modified(
                    entries@,
                    n as int,
                ).contains(b) by {
                    let j = choose|j: int|
                        0 <= j < entries@.len() && (#[trigger] entries@[j]).0 == b;
                    assert(entries@[j].1 == pre.lines[b]);
                }
            }
            assert(is_write_back_sequence(pre.lines, delta)) by {
                assert forall|b: usize| #[trigger]
                    modified_blocks(pre.lines).contains(b) implies exists|p: int|
                    0 <= p < delta.len() && delta[p] == write_back_of(pre.lines, b) by {
                    let j = choose|j: int|
                        0 <= j < entries@.len() && (#[trigger] entries@[j]).0 == b;
                    assert(entries@[j].1 == pre.lines[b]);
                    assert(entries@[j].1.state == MesiState::Modified);
                }
            }
        }
    }

    /// Flush the cache if adding a new cache line could drop another cache
    /// line from the full cache.
    fn maybe_flush(&mut self)
        requires
            old(self).wf(),
        ensures
            final(self).wf(),
            final(self)@.id == old(self)@.id,
            final(self)@.miss == old(self)@.miss,
            final(self)@.total == old(self)@.total,
            final(self)@.rcvd == old(self)@.rcvd,
            final(self)@.fault == old(self)@.fault,
            old(self)@.sent.is_prefix_of(final(self)@.sent),
            if old(self)@.lines.dom().len() == CACHE_SIZE {
                &&& final(self)@.lines == clean_lines(old(self)@.lines)
                &&& is_write_back_sequence(
                    old(self)@.lines,
                    final(self)@.sent.skip(old(self)@.sent.len() as int),
                )
            } else {
                final(self)@ == old(self)@
            },
    {
        if lru_len(&self.cached_lines) == CACHE_SIZE {
            self.flush();
        } else {
            proof {
                assert(old(self)@.sent.is_prefix_of(self@.sent)) by {
                    assert(self@.sent =~= self@.sent.subrange(0, self@.sent.len() as int));
                }
            }
        }
    }

    /// Empty the cache: flush the modified lines, then discard every line.
    pub fn empty(&mut self)
        requires
            old(self).wf(),
        ensures
            final(self).wf(),
            final(self)@.id == old(self)@.id,
            final(self)@.miss == old(self)@.miss,
            final(self)@.total == old(self)@.total,
            final(self)@.rcvd == old(self)@.rcvd,
            final(self)@.fault == old(self)@.fault,
            no_lines(final(self)@.lines),
            old(self)@.sent.is_prefix_of(final(self)@.sent),
            is_write_back_sequence(
                old(self)@.lines,
                final(self)@.sent.skip(old(self)@.sent.len() as int),
            ),
    {
        self.flush();
        self.cached_lines = lru_with_capacity(CACHE_SIZE);
        proof {
            assert(self@.lines =~= Map::<usize, CacheLine>::empty());
        }
    }
}

/// The block a bus message names.
pub open spec fn msg_block(msg: BusMessage) -> usize {
    match msg {
        BusMessage::ReadRequest { block, .. } => block.0,
        BusMessage::ReadResponse { block, .. } => block.0,
        BusMessage::ReadExclusiveRequest { block, .. } => block.0,
        BusMessage::ReadExclusiveResponse { block, .. } => block.0,
        BusMessage::WriteRequest { block, .. } => block.0,
    }
}

/// Whether handling `msg` installs a line: a data-carrying response addressed
/// to this cache, for a block of which it holds no valid copy. A response for
/// a block already held valid is redundant (a peer answered first) and is
/// left unused.
pub open spec fn installs_line(
    lines: Map<usize, CacheLine>,
    id: MemoryCacheId,
    msg: BusMessage,
) -> bool {
    match msg {
        BusMessage::ReadResponse { who, block, data, .. } => who == id && data is Some
            && !line_valid(lines, block.0),
        BusMessage::ReadExclusiveResponse { who, block, data } => who == id && data is Some
            && !line_valid(lines, block.0),
        _ => false,
    }
}

/// The line a response installs: Modified for an exclusive read; for a plain
/// read, Exclusive when main memory answered and Shared when a peer cache
/// did.
pub open spec fn installed_line(msg: BusMessage) -> CacheLine {
    match msg {
        BusMessage::ReadResponse { from, data: Some(d), .. } => CacheLine {
            state: if from == ResponseSender::MainMemory {
                MesiState::Exclusive
            } else {
                MesiState::Shared
            },
            data: d,
        },
        BusMessage::ReadExclusiveResponse { data: Some(d), .. } => CacheLine {
            state: MesiState::Modified,
            data: d,
        },
        _ => CacheLine { state: MesiState::Invalid, data: arbitrary() },
    }
}

/// How a message that installs nothing changes the lines: a snooped read
/// demotes a valid line to Shared, a snooped exclusive read invalidates the
/// line, a peer's read response demotes an Exclusive line to Shared, and
/// everything else leaves the lines alone.
pub open spec fn snooped_lines(
    lines: Map<usize, CacheLine>,
    id: MemoryCacheId,
    msg: BusMessage,
) -> Map<usize, CacheLine> {
    match msg {
        BusMessage::ReadRequest { who, block } => {
            if who != id && line_valid(lines, block.0) {
                lines.insert(
                    block.0,
                    CacheLine { state: MesiState::Shared, data: lines[block.0].data },
                )
            } else {
                lines
            }
        },
        BusMessage::ReadExclusiveRequest { who, block } => {
            if who != id && lines.dom().contains(block.0) {
                lines.insert(
                    block.0,
                    CacheLine { state: MesiState::Invalid, data: lines[block.0].data },
                )
            } else {
                lines
            }
        },
        BusMessage::ReadResponse { who, block, data, .. } => {
            if who != id && data is Some && lines.dom().contains(block.0) && lines[block.0].state
                == MesiState::Exclusive {
                lines.insert(
                    block.0,
                    CacheLine { state: MesiState::Shared, data: lines[block.0].data },
                )
            } else {
                lines
            }
        },
        _ => lines,
    }
}

/// What a message that installs nothing makes the cache send: a copy of the
/// line for a snooped read (preceded by a write-back if the line was dirty),
/// a write-back for a snooped exclusive read of a dirty line, nothing else.
pub open spec fn snooped_sends(
    lines: Map<usize, CacheLine>,
    id: MemoryCacheId,
    msg: BusMessage,
) -> Seq<BusMessage> {
    match msg {
        BusMessage::ReadRequest { who, block } => {
            if who != id && line_valid(lines, block.0) {
                if lines[block.0].state == MesiState::Modified {
                    seq![write_back_of(lines, block.0), line_copy_response(lines, who, block.0)]
                } else {
                    seq![line_copy_response(lines, who, block.0)]
                }
            } else {
                Seq::empty()
            }
        },
        BusMessage::ReadExclusiveRequest { who, block } => {
            if who != id && lines.dom().contains(block.0) && lines[block.0].state
                == MesiState::Modified {
                seq![write_back_of(lines, block.0)]
            } else {
                Seq::empty()
            }
        },
        _ => Seq::empty(),
    }
}

/// The response a snooping cache sends to `who`, carrying its copy of the
/// block.
pub open spec fn line_copy_response(
    lines: Map<usize, CacheLine>,
    who: MemoryCacheId,
    b: usize,
) -> BusMessage {
    BusMessage::ReadResponse {
        who,
        from: ResponseSender::Cache,
        block: Block(b),
        data: Some(lines[b].data),
    }
}

/// Room is made and the line stored: a line the cache already holds is
/// replaced in place; otherwise, if the cache is full, some (clean) victim is
/// dropped to make room.
pub open spec fn install_step(
    lines: Map<usize, CacheLine>,
    b: usize,
    line: CacheLine,
    post: Map<usize, CacheLine>,
) -> bool {
    if lines.dom().contains(b) || lines.dom().len() < CACHE_SIZE {
        post == lines.insert(b, line)
    } else {
        exists|victim: usize|
            #![auto]
            lines.dom().contains(victim) && victim != b && post == lines.remove(victim).insert(
                b,
                line,
            )
    }
}

/// A full install: a cache at capacity first flushes its modified lines (so
/// no write is silently discarded), then stores the new line, possibly
/// evicting a clean victim.
pub open spec fn install_post(
    lines: Map<usize, CacheLine>,
    b: usize,
    line: CacheLine,
    post: Map<usize, CacheLine>,
    emitted: Seq<BusMessage>,
) -> bool {
    if lines.dom().len() == CACHE_SIZE {
        &&& is_write_back_sequence(lines, emitted)
        &&& install_step(clean_lines(lines), b, line, post)
    } else {
        &&& emitted.len() == 0
        &&& install_step(lines, b, line, post)
    }
}

/// Traffic the protocol can never produce: a data-carrying response from a
/// peer cache, addressed to this cache, for a block it already holds valid.
/// Only main memory's redundant copy may trail a peer's response; a second
/// peer copy means the single-owner discipline broke down. The handler
/// leaves the line alone and records the fault; the driver treats a
/// recorded fault as fatal corruption.
pub open spec fn sanity_fault(
    lines: Map<usize, CacheLine>,
    id: MemoryCacheId,
    msg: BusMessage,
) -> bool {
    match msg {
        BusMessage::ReadResponse { who, from, block, data } => who == id && data is Some
            && line_valid(lines, block.0) && from == ResponseSender::Cache,
        _ => false,
    }
}

/// How one bus message changes a cache: the MESI transition table, plus the
/// capacity discipline on installs. The counters and the id never change;
/// the sent log only grows; the message itself is appended to the received
/// log, and impossible traffic sets the sticky fault flag.
pub open spec fn cache_transition(pre: CacheView, msg: BusMessage, post: CacheView) -> bool {
    &&& post.id == pre.id
    &&& post.miss == pre.miss
    &&& post.total == pre.total
    &&& post.rcvd == pre.rcvd.push(msg)
    &&& post.fault == (pre.fault || sanity_fault(pre.lines, pre.id, msg))
    &&& pre.sent.is_prefix_of(post.sent)
    &&& if installs_line(pre.lines, pre.id, msg) {
        install_post(
            pre.lines,
            msg_block(msg),
            installed_line(msg),
            post.lines,
            post.sent.skip(pre.sent.len() as int),
        )
    } else {
        &&& post.lines == snooped_lines(pre.lines, pre.id, msg)
        &&& post.sent == pre.sent + snooped_sends(pre.lines, pre.id, msg)
    }
}

/// The cache's evolution over a sequence of received messages, each taken in
/// by `cache_transition` in order.
pub open spec fn cache_transitions(
    pre: CacheView,
    msgs: Seq<BusMessage>,
    post: CacheView,
) -> bool
    decreases msgs.len(),
{
    if msgs.len() == 0 {
        post == pre
    } else {
        exists|mid: CacheView|
            #![auto]
            cache_transition(pre, msgs[0], mid) && cache_transitions(mid, msgs.skip(1), post)
    }
}

/// A handled run extends by one more taken-in message.
pub proof fn lemma_transitions_snoc(
    pre: CacheView,
    msgs: Seq<BusMessage>,
    mid: CacheView,
    m: BusMessage,
    post: CacheView,
)
    requires
        cache_transitions(pre, msgs, mid),
        cache_transition(mid, m, post),
    ensures
        cache_transitions(pre, msgs.push(m), post),
    decreases msgs.len(),
{
    if msgs.len() == 0 {
        assert(mid == pre);
        assert(msgs.push(m)[0] == m);
        assert(msgs.push(m).skip(1) =~= Seq::<BusMessage>::empty());
        assert(cache_transitions(post, msgs.push(m).skip(1), post));
    } else {
        let w = choose|w: CacheView|
            #![auto]
            cache_transition(pre, msgs[0], w) && cache_transitions(w, msgs.skip(1), mid);
        lemma_transitions_snoc(w, msgs.skip(1), mid, m, post);
        assert(msgs.push(m)[0] == msgs[0]);
        assert(msgs.push(m).skip(1) =~= msgs.skip(1).push(m));
    }
}

/// The response a waiting cache is after: a read response (or an
/// exclusive-read response, when `exclusive` is set) addressed to `id` for
/// `target`, whatever data it carries.
pub open spec fn awaited_response(
    id: MemoryCacheId,
    exclusive: bool,
    target: Block,
    m: BusMessage,
) -> bool {
    match m {
        BusMessage::ReadResponse { who, block, .. } => !exclusive && who == id && block == target,
        BusMessage::ReadExclusiveResponse { who, block, .. } => exclusive && who == id && block
            == target,
        _ => false,
    }
}

/// One step of the bus-facing part of a program access: the cache either
/// takes in one received bus message or puts the access's own request on
/// the bus.
pub enum AccessStep {
    /// One received bus message was handled.
    Handled(BusMessage),
    /// The access's own request was sent.
    Requested,
}

/// The cache as a program access first sees it: the access counted, all
/// else untouched.
pub open spec fn counted_view(v: CacheView) -> CacheView {
    CacheView { total: (v.total + 1) as u64, ..v }
}

/// The cache after a missing access charges the miss.
pub open spec fn missed_view(v: CacheView) -> CacheView {
    CacheView { miss: (v.miss + 1) as u64, ..v }
}

/// What one access step does: a handled message moves the cache by
/// `cache_transition`; the emission of the access's own request `own`
/// appends it to the sent log and changes nothing else.
pub open spec fn access_step_ok(
    pre: CacheView,
    step: AccessStep,
    own: BusMessage,
    mid: CacheView,
) -> bool {
    match step {
        AccessStep::Handled(m) => cache_transition(pre, m, mid),
        AccessStep::Requested => mid == (CacheView { sent: pre.sent.push(own), ..pre }),
    }
}

/// The cache's evolution during the bus-facing part of one program access,
/// its counters frozen: a sequence of steps, each either the handling of one
/// received message or the emission of the access's own request `own`.
/// Nothing else moves the cache, so every message such a run puts on the bus
/// is the access's own request or a snoop obligation of a handled message.
pub open spec fn access_run(
    pre: CacheView,
    steps: Seq<AccessStep>,
    own: BusMessage,
    post: CacheView,
) -> bool
    decreases steps.len(),
{
    if steps.len() == 0 {
        post == pre
    } else {
        exists|mid: CacheView|
            #![auto]
            access_step_ok(pre, steps[0], own, mid) && access_run(mid, steps.skip(1), own, post)
    }
}

/// An access run extends by one more handled message.
proof fn lemma_run_snoc_handled(
    pre: CacheView,
    steps: Seq<AccessStep>,
    own: BusMessage,
    mid: CacheView,
    m: BusMessage,
    post: CacheView,
)
    requires
        access_run(pre, steps, own, mid),
        cache_transition(mid, m, post),
    ensures
        access_run(pre, steps.push(AccessStep::Handled(m)), own, post),
    decreases steps.len(),
{
    if steps.len() == 0 {
        assert(mid == pre);
        assert(steps.push(AccessStep::Handled(m))[0] == AccessStep::Handled(m));
        assert(steps.push(AccessStep::Handled(m)).skip(1) =~= Seq::<AccessStep>::empty());
        assert(access_run(post, steps.push(AccessStep::Handled(m)).skip(1), own, post));
        assert(access_step_ok(pre, steps.push(AccessStep::Handled(m))[0], own, post));
    } else {
        let w = choose|w: CacheView|
            #![auto]
            access_step_ok(pre, steps[0], own, w) && access_run(w, steps.skip(1), own, mid);
        lemma_run_snoc_handled(w, steps.skip(1), own, mid, m, post);
        assert(steps.push(AccessStep::Handled(m))[0] == steps[0]);
        assert(steps.push(AccessStep::Handled(m)).skip(1) =~= steps.skip(1).push(
            AccessStep::Handled(m),
        ));
        assert(access_step_ok(pre, steps.push(AccessStep::Handled(m))[0], own, w));
        assert(access_run(w, steps.push(AccessStep::Handled(m)).skip(1), own, post));
    }
}

/// An access run extends by the emission of the access's own request.
proof fn lemma_run_snoc_requested(
    pre: CacheView,
    steps: Seq<AccessStep>,
    own: BusMessage,
    mid: CacheView,
)
    requires
        access_run(pre, steps, own, mid),
    ensures
        access_run(
            pre,
            steps.push(AccessStep::Requested),
            own,
            (CacheView { sent: mid.sent.push(own), ..mid }),
        ),
    decreases steps.len(),
{
    let post = CacheView { sent: mid.sent.push(own), ..mid };
    if steps.len() == 0 {
        assert(mid == pre);
        assert(steps.push(AccessStep::Requested)[0] == AccessStep::Requested);
        assert(steps.push(AccessStep::Requested).skip(1) =~= Seq::<AccessStep>::empty());
        assert(access_run(post, steps.push(AccessStep::Requested).skip(1), own, post));
        assert(access_step_ok(pre, steps.push(AccessStep::Requested)[0], own, post));
    } else {
        let w = choose|w: CacheView|
            #![auto]
            access_step_ok(pre, steps[0], own, w) && access_run(w, steps.skip(1), own, mid);
        lemma_run_snoc_requested(w, steps.skip(1), own, mid);
        assert(steps.push(AccessStep::Requested)[0] == steps[0]);
        assert(steps.push(AccessStep::Requested).skip(1) =~= steps.skip(1).push(
            AccessStep::Requested,
        ));
        assert(access_step_ok(pre, steps.push(AccessStep::Requested)[0], own, w));
        assert(access_run(w, steps.push(AccessStep::Requested).skip(1), own, post));
    }
}

/// An access run extends by a whole run of handled messages.
proof fn lemma_run_then_transitions(
    pre: CacheView,
    steps: Seq<AccessStep>,
    own: BusMessage,
    mid: CacheView,
    msgs: Seq<BusMessage>,
    post: CacheView,
)
    requires
        access_run(pre, steps, own, mid),
        cache_transitions(mid, msgs, post),
    ensures
        exists|more: Seq<AccessStep>| access_run(pre, #[trigger] (steps + more), own, post),
    decreases msgs.len(),
{
    if msgs.len() == 0 {
        assert(post == mid);
        assert(steps + Seq::<AccessStep>::empty() =~= steps);
        assert(access_run(pre, steps + Seq::<AccessStep>::empty(), own, post));
    } else {
        let w = choose|w: CacheView|
            #![auto]
            cache_transition(mid, msgs[0], w) && cache_transitions(w, msgs.skip(1), post);
        lemma_run_snoc_handled(pre, steps, own, mid, msgs[0], w);
        lemma_run_then_transitions(
            pre,
            steps.push(AccessStep::Handled(msgs[0])),
            own,
            w,
            msgs.skip(1),
            post,
        );
        let more0 = choose|more0: Seq<AccessStep>|
            access_run(
                pre,
                #[trigger] (steps.push(AccessStep::Handled(msgs[0])) + more0),
                own,
                post,
            );
        assert(steps.push(AccessStep::Handled(msgs[0])) + more0 =~= steps + (seq![
            AccessStep::Handled(msgs[0]),
        ] + more0));
    }
}

/// The blocks among the first `i` table entries whose line is Modified.
spec fn processed_modified(entries: Seq<(usize, CacheLine)>, i: int) -> Set<usize> {
    Set::new(
        |b: usize|
            exists|j: int|
                0 <= j < i && (#[trigger] entries[j]).0 == b && entries[j].1.state
                    == MesiState::Modified,
    )
}

/// A prefix of a prefix is a prefix.
proof fn lemma_prefix_chain(a: Seq<BusMessage>, b: Seq<BusMessage>, c: Seq<BusMessage>)
    requires
        a.is_prefix_of(b),
        b.is_prefix_of(c),
    ensures
        a.is_prefix_of(c),
{
    assert(a =~= c.subrange(0, a.len() as int));
}

impl MemoryCache {
    /// Make room if the cache is full, then store the received line.
    fn install(&mut self, block: Block, line: CacheLine)
        requires
            old(self).wf(),
        ensures
            final(self).wf(),
            final(self)@.id == old(self)@.id,
            final(self)@.miss == old(self)@.miss,
            final(self)@.total == old(self)@.total,
            final(self)@.rcvd == old(self)@.rcvd,
            final(self)@.fault == old(self)@.fault,
            old(self)@.sent.is_prefix_of(final(self)@.sent),
            install_post(
                old(self)@.lines,
                block.0,
                line,
                final(self)@.lines,
                final(self)@.sent.skip(old(self)@.sent.len() as int),
            ),
    {
        self.maybe_flush();
        let ghost mid = self@;
        lru_insert(&mut self.cached_lines, block.0, line);
        proof {
            assert(self@.sent == mid.sent);
            if mid.lines.dom().contains(block.0) {
                assert(self@.lines.dom() =~= mid.lines.dom().insert(block.0));
                assert(mid.lines.dom().insert(block.0) =~= mid.lines.dom());
            } else if mid.lines.dom().len() < CACHE_SIZE {
                assert(self@.lines.dom() =~= mid.lines.dom().insert(block.0));
            } else {
                let victim = choose|victim: usize|
                    #![auto]
                    mid.lines.dom().contains(victim) && victim != block.0 && self@.lines
                        == mid.lines.remove(victim).insert(block.0, line);
                assert(self@.lines.dom() =~= mid.lines.dom().remove(victim).insert(block.0));
            }
        }
    }

    /// React to one bus message: snoop other caches' requests, watch peers'
    /// responses, take in the responses addressed to this cache, and ignore
    /// the rest. The message is appended to the received log, and impossible
    /// traffic sets the sticky protocol-fault flag.
    pub fn handle_bus_message(&mut self, msg: &BusMessage)
        requires
            old(self).wf(),
        ensures
            final(self).wf(),
            cache_transition(old(self)@, *msg, final(self)@),
    {
        let ghost pre = self@;
        self.rcvd = Ghost(self.rcvd@.push(*msg));
        match *msg {
            BusMessage::ReadRequest { who, block } => {
                if who != self.id {
                    let cached = lru_get(&mut self.cached_lines, block.0);
                    if let Some(line) = cached {
                        match line.state {
                            MesiState::Invalid => {
                                proof {
                                    lemma_no_sends(pre.sent, self@.sent);
                                }
                            },
                            MesiState::Exclusive | MesiState::Shared => {
                                let response = BusMessage::ReadResponse {
                                    who,
                                    from: ResponseSender::Cache,
                                    block,
                                    data: Some(line.data),
                                };
                                self.emit(response);
                                lru_insert(
                                    &mut self.cached_lines,
                                    block.0,
                                    CacheLine { state: MesiState::Shared, data: line.data },
                                );
                                proof {
                                    lemma_one_send(pre.sent, self@.sent, response);
                                }
                            },
                            MesiState::Modified => {
                                let write_back = BusMessage::WriteRequest {
                                    block,
                                    data: line.data,
                                };
                                let response = BusMessage::ReadResponse {
                                    who,
                                    from: ResponseSender::Cache,
                                    block,
                                    data: Some(line.data),
                                };
                                self.emit(write_back);
                                self.emit(response);
                                lru_insert(
                                    &mut self.cached_lines,
                                    block.0,
                                    CacheLine { state: MesiState::Shared, data: line.data },
                                );
                                proof {
                                    lemma_two_sends(pre.sent, self@.sent, write_back, response);
                                }
                            },
                        }
                    } else {
                        proof {
                            lemma_no_sends(pre.sent, self@.sent);
                        }
                    }
                } else {
                    proof {
                        lemma_no_sends(pre.sent, self@.sent);
                    }
                }
            },
            BusMessage::ReadExclusiveRequest { who, block } => {
                if who != self.id {
                    let cached = lru_get(&mut self.cached_lines, block.0);
                    if let Some(line) = cached {
                        if line.state == MesiState::Modified {
                            let write_back = BusMessage::WriteRequest { block, data: line.data };
                            self.emit(write_back);
                            lru_insert(
                                &mut self.cached_lines,
                                block.0,
                                CacheLine { state: MesiState::Invalid, data: line.data },
                            );
                            proof {
                                lemma_one_send(pre.sent, self@.sent, write_back);
                            }
                        } else {
                            lru_insert(
                                &mut self.cached_lines,
                                block.0,
                                CacheLine { state: MesiState::Invalid, data: line.data },
                            );
                            proof {
                                lemma_no_sends(pre.sent, self@.sent);
                            }
                        }
                    } else {
                        proof {
                            lemma_no_sends(pre.sent, self@.sent);
                        }
                    }
                } else {
                    proof {
                        lemma_no_sends(pre.sent, self@.sent);
                    }
                }
            },
            BusMessage::ReadResponse { who, from, block, data } => {
                if who == self.id {
                    if let Some(d) = data {
                        let cached = lru_get(&mut self.cached_lines, block.0);
                        let valid = match cached {
                            Some(line) => line.state != MesiState::Invalid,
                            None => false,
                        };
                        if valid {
                            // A snooping peer answered before this (redundant)
                            // copy arrived; it is left unused. A second
                            // data-carrying peer response over a valid copy is
                            // traffic the protocol cannot produce: record the
                            // fault for the driver, which treats it as fatal.
                            if from == ResponseSender::Cache {
                                self.protocol_fault = true;
                            }
                            proof {
                                lemma_no_sends(pre.sent, self@.sent);
                            }
                        } else {
                            let state = if from == ResponseSender::MainMemory {
                                MesiState::Exclusive
                            } else {
                                MesiState::Shared
                            };
                            self.install(block, CacheLine { state, data: d });
                        }
                    } else {
                        proof {
                            lemma_no_sends(pre.sent, self@.sent);
                        }
                    }
                } else {
                    if let Some(d) = data {
                        let cached = lru_get(&mut self.cached_lines, block.0);
                        if let Some(line) = cached {
                            if line.state == MesiState::Exclusive {
                                lru_insert(
                                    &mut self.cached_lines,
                                    block.0,
                                    CacheLine { state: MesiState::Shared, data: line.data },
                                );
                            }
                        }
                    }
                    proof {
                        lemma_no_sends(pre.sent, self@.sent);
                    }
                }
            },
            BusMessage::ReadExclusiveResponse { who, block, data } => {
                if who == self.id {
                    if let Some(d) = data {
                        let cached = lru_get(&mut self.cached_lines, block.0);
                        let valid = match cached {
                            Some(line) => line.state != MesiState::Invalid,
                            None => false,
                        };
                        if valid {
                            // An exclusive-read response for a block already
                            // held valid is stale (the write it answers was
                            // already honoured locally); taking it would
                            // clobber the line, so it is left unused.
                            proof {
                                lemma_no_sends(pre.sent, self@.sent);
                            }
                        } else {
                            self.install(block, CacheLine { state: MesiState::Modified, data: d });
                        }
                    } else {
                        proof {
                            lemma_no_sends(pre.sent, self@.sent);
                        }
                    }
                } else {
                    proof {
                        lemma_no_sends(pre.sent, self@.sent);
                    }
                }
            },
            BusMessage::WriteRequest { .. } => {
                proof {
                    lemma_no_sends(pre.sent, self@.sent);
                }
            },
        }
    }

    /// Handle the backlog of unprocessed bus messages: drain everything that
    /// is already waiting, without blocking. The received log's growth is
    /// exactly what was handled, in order, and the cache moves by the
    /// corresponding chain of transitions.
    #[verifier::loop_isolation(false)]
    pub fn snoop_backlog(&mut self)
        requires
            old(self).wf(),
        ensures
            final(self).wf(),
            final(self)@.id == old(self)@.id,
            final(self)@.miss == old(self)@.miss,
            final(self)@.total == old(self)@.total,
            old(self)@.sent.is_prefix_of(final(self)@.sent),
            old(self)@.rcvd.is_prefix_of(final(self)@.rcvd),
            cache_transitions(
                old(self)@,
                final(self)@.rcvd.skip(old(self)@.rcvd.len() as int),
                final(self)@,
            ),
    {
        let ghost pre = self@;
        proof {
            lemma_no_sends(pre.sent, self@.sent);
            assert(pre.rcvd =~= self@.rcvd.subrange(0, pre.rcvd.len() as int));
            assert(self@.rcvd.skip(pre.rcvd.len() as int) =~= Seq::<BusMessage>::empty());
        }
        let mut budget: usize = usize::MAX;
        loop
            invariant
                self.wf(),
                self@.id == pre.id,
                self@.miss == pre.miss,
                self@.total == pre.total,
                pre.sent.is_prefix_of(self@.sent),
                pre.rcvd.is_prefix_of(self@.rcvd),
                cache_transitions(pre, self@.rcvd.skip(pre.rcvd.len() as int), self@),
            decreases budget,
        {
            if budget == 0 {
                break ;
            }
            budget = budget - 1;
            let ghost before = self@;
            match try_receive_message(&self.from_bus) {
                Some(m) => {
                    self.handle_bus_message(&m);
                    proof {
                        lemma_prefix_chain(pre.sent, before.sent, self@.sent);
                        let d0 = before.rcvd.skip(pre.rcvd.len() as int);
                        lemma_transitions_snoc(pre, d0, before, m, self@);
                        assert(self@.rcvd.skip(pre.rcvd.len() as int) =~= d0.push(m));
                        assert(pre.rcvd =~= self@.rcvd.subrange(0, pre.rcvd.len() as int));
                    }
                },
                None => {
                    break ;
                },
            }
        }
    }

    /// Keep snooping bus messages until the response this cache awaits (a
    /// read response, or an exclusive-read response when `exclusive` is set,
    /// addressed to it for `target`) has been observed and handled. On
    /// success the handled delta ends with the first such response; nothing
    /// handled before it matched. Gives up only after an effectively
    /// unlimited number of messages.
    #[verifier::loop_isolation(false)]
    fn snoop_until_response(&mut self, exclusive: bool, target: Block) -> (got: bool)
        requires
            old(self).wf(),
        ensures
            final(self).wf(),
            final(self)@.id == old(self)@.id,
            final(self)@.miss == old(self)@.miss,
            final(self)@.total == old(self)@.total,
            old(self)@.sent.is_prefix_of(final(self)@.sent),
            old(self)@.rcvd.is_prefix_of(final(self)@.rcvd),
            cache_transitions(
                old(self)@,
                final(self)@.rcvd.skip(old(self)@.rcvd.len() as int),
                final(self)@,
            ),
            ({
                let handled = final(self)@.rcvd.skip(old(self)@.rcvd.len() as int);
                &&& (got ==> handled.len() >= 1 && awaited_response(
                    old(self)@.id,
                    exclusive,
                    target,
                    handled.last(),
                ))
                &&& (forall|i: int|
                    0 <= i < handled.len() - (if got {
                        1int
                    } else {
                        0int
                    }) ==> !awaited_response(
                        old(self)@.id,
                        exclusive,
                        target,
                        #[trigger] handled[i],
                    ))
            }),
    {
        let ghost pre = self@;
        proof {
            lemma_no_sends(pre.sent, self@.sent);
            assert(pre.rcvd =~= self@.rcvd.subrange(0, pre.rcvd.len() as int));
            assert(self@.rcvd.skip(pre.rcvd.len() as int) =~= Seq::<BusMessage>::empty());
        }
        let mut budget: usize = usize::MAX;
        loop
            invariant
                self.wf(),
                self@.id == pre.id,
                self@.miss == pre.miss,
                self@.total == pre.total,
                pre.sent.is_prefix_of(self@.sent),
                pre.rcvd.is_prefix_of(self@.rcvd),
                cache_transitions(pre, self@.rcvd.skip(pre.rcvd.len() as int), self@),
                forall|i: int|
                    0 <= i < self@.rcvd.skip(pre.rcvd.len() as int).len() ==> !awaited_response(
                        pre.id,
                        exclusive,
                        target,
                        #[trigger] self@.rcvd.skip(pre.rcvd.len() as int)[i],
                    ),
            decreases budget,
        {
            if budget == 0 {
                return false;
            }
            budget = budget - 1;
            let ghost before = self@;
            let m = receive_message(&self.from_bus);
            self.handle_bus_message(&m);
            proof {
                lemma_prefix_chain(pre.sent, before.sent, self@.sent);
                let d0 = before.rcvd.skip(pre.rcvd.len() as int);
                lemma_transitions_snoc(pre, d0, before, m, self@);
                assert(self@.rcvd.skip(pre.rcvd.len() as int) =~= d0.push(m));
                assert(pre.rcvd =~= self@.rcvd.subrange(0, pre.rcvd.len() as int));
            }
            let matched = match m {
                BusMessage::ReadResponse { who, block, .. } => !exclusive && who == self.id
                    && block == target,
                BusMessage::ReadExclusiveResponse { who, block, .. } => exclusive && who == self.id
                    && block == target,
                _ => false,
            };
            proof {
                assert(matched == awaited_response(pre.id, exclusive, target, m));
            }
            if matched {
                return true;
            }
        }
    }

    /// Read the byte at the given address. Returns `None` only if the bus
    /// failed to produce the block within an effectively unlimited number of
    /// attempts; on success the line is held valid at the instant of return
    /// and the byte comes from it. A hit — the miss counter untouched — is
    /// nothing but the backlog drain; a miss names a drain point where the
    /// block was absent or Invalid, and what follows is an interleaving of
    /// this cache's own read requests with handled traffic.
    #[verifier::loop_isolation(false)]
    pub fn read(&mut self, addr: Address) -> (r: Option<u8>)
        requires
            old(self).wf(),
            addr.0 < MAIN_MEMORY_SIZE,
            old(self)@.total < u64::MAX,
        ensures
            final(self).wf(),
            final(self)@.id == old(self)@.id,
            final(self)@.total == old(self)@.total + 1,
            old(self)@.miss <= final(self)@.miss <= old(self)@.miss + 1,
            old(self)@.sent.is_prefix_of(final(self)@.sent),
            old(self)@.rcvd.is_prefix_of(final(self)@.rcvd),
            r matches Some(byte) ==> {
                &&& line_valid(final(self)@.lines, addr.0 / BLOCK_SIZE)
                &&& byte == final(self)@.lines[addr.0 / BLOCK_SIZE].data[addr.0 as int
                    % BLOCK_SIZE as int]
            },
            final(self)@.miss == old(self)@.miss ==> cache_transitions(
                counted_view(old(self)@),
                final(self)@.rcvd.skip(old(self)@.rcvd.len() as int),
                final(self)@,
            ) && r is Some,
            final(self)@.miss == old(self)@.miss + 1 ==> exists|
                k: int,
                drained: CacheView,
                steps: Seq<AccessStep>,
            |
                0 <= k <= final(self)@.rcvd.skip(old(self)@.rcvd.len() as int).len()
                    && #[trigger] cache_transitions(
                    counted_view(old(self)@),
                    final(self)@.rcvd.skip(old(self)@.rcvd.len() as int).take(k),
                    drained,
                ) && !line_valid(drained.lines, addr.0 / BLOCK_SIZE) && #[trigger] access_run(
                    missed_view(drained),
                    steps,
                    (BusMessage::ReadRequest {
                        who: old(self)@.id,
                        block: Block(addr.0 / BLOCK_SIZE),
                    }),
                    final(self)@,
                ),
    {
        self.total_count = self.total_count + 1;
        let ghost entered = self@;
        proof {
            lemma_no_sends(entered.sent, self@.sent);
            assert(entered == counted_view(old(self)@));
        }
        self.snoop_backlog();
        let ghost drained = self@;
        let target = Block::for_addr(addr);
        proof {
            assert(target == Block(addr.0 / BLOCK_SIZE));
        }
        let cached = lru_get(&mut self.cached_lines, target.0);
        if let Some(line) = cached {
            if line.state != MesiState::Invalid {
                proof {
                    assert(self@ == drained);
                    assert(self@.rcvd.skip(entered.rcvd.len() as int) == drained.rcvd.skip(
                        entered.rcvd.len() as int,
                    ));
                }
                return Some(line.read_byte(addr));
            }
        }
        self.miss_count = self.miss_count + 1;
        let ghost pre = self@;
        let ghost own = BusMessage::ReadRequest { who: entered.id, block: target };
        proof {
            lemma_no_sends(pre.sent, self@.sent);
            assert(pre == missed_view(drained));
            assert(!line_valid(drained.lines, target.0));
            assert(access_run(pre, Seq::<AccessStep>::empty(), own, self@));
        }
        let mut retries: usize = usize::MAX;
        loop
            invariant
                self.wf(),
                self@.id == pre.id,
                self@.miss == pre.miss,
                self@.total == pre.total,
                pre.sent.is_prefix_of(self@.sent),
                pre.rcvd.is_prefix_of(self@.rcvd),
                pre.miss == entered.miss + 1,
                pre.total == entered.total,
                entered.sent.is_prefix_of(pre.sent),
                entered.rcvd.is_prefix_of(pre.rcvd),
                target.0 == addr.0 / BLOCK_SIZE,
                exists|steps: Seq<AccessStep>| #[trigger] access_run(pre, steps, own, self@),
            decreases retries,
        {
            if retries == 0 {
                proof {
                    lemma_missing_access_exit(entered, drained, pre, own, self@, target.0);
                }
                return None;
            }
            retries = retries - 1;
            let ghost before = self@;
            self.emit(BusMessage::ReadRequest { who: self.id, block: target });
            let ghost after_emit = self@;
            proof {
                let steps0 = choose|steps0: Seq<AccessStep>|
                    #[trigger] access_run(pre, steps0, own, before);
                assert(after_emit == (CacheView { sent: before.sent.push(own), ..before }));
                lemma_run_snoc_requested(pre, steps0, own, before);
                assert(access_run(pre, steps0.push(AccessStep::Requested), own, after_emit));
            }
            let got = self.snoop_until_response(false, target);
            proof {
                assert(before.sent =~= after_emit.sent.subrange(0, before.sent.len() as int));
                lemma_prefix_chain(pre.sent, before.sent, after_emit.sent);
                lemma_prefix_chain(pre.sent, after_emit.sent, self@.sent);
                lemma_prefix_chain(entered.sent, pre.sent, self@.sent);
                lemma_prefix_chain(pre.rcvd, after_emit.rcvd, self@.rcvd);
                lemma_prefix_chain(entered.rcvd, pre.rcvd, self@.rcvd);
                let steps1 = choose|steps1: Seq<AccessStep>|
                    #[trigger] access_run(pre, steps1, own, after_emit);
                let d2 = self@.rcvd.skip(after_emit.rcvd.len() as int);
                assert(cache_transitions(after_emit, d2, self@));
                lemma_run_then_transitions(pre, steps1, own, after_emit, d2, self@);
                let more = choose|more: Seq<AccessStep>|
                    access_run(pre, #[trigger] (steps1 + more), own, self@);
                assert(access_run(pre, steps1 + more, own, self@));
            }
            if !got {
                proof {
                    lemma_missing_access_exit(entered, drained, pre, own, self@, target.0);
                }
                return None;
            }
            let ghost checked = self@;
            let cached = lru_get(&mut self.cached_lines, target.0);
            if let Some(line) = cached {
                if line.state != MesiState::Invalid {
                    proof {
                        assert(self@ == checked);
                        lemma_missing_access_exit(entered, drained, pre, own, self@, target.0);
                    }
                    return Some(line.read_byte(addr));
                }
            }
            proof {
                assert(self@ == checked);
            }
            // The block is still unavailable: another cache holds it Modified
            // and will have issued a write-back on snooping the request, so
            // the next attempt should succeed.
        }
    }

    /// Write the value to the given address. Returns whether the write landed
    /// (failure means the bus never granted the block, after an effectively
    /// unlimited number of attempts); on success the line is held Modified
    /// with the value stored at the instant of return. A hit stores the byte
    /// in place after the backlog drain — silently for a Modified or
    /// Exclusive line, after exactly one exclusive-read request for a Shared
    /// one; a miss names a drain point where the block was absent or Invalid,
    /// and what follows is an interleaving of this cache's own exclusive-read
    /// requests with handled traffic, capped by the local store of the byte.
    #[verifier::loop_isolation(false)]
    pub fn write(&mut self, addr: Address, value: u8) -> (ok: bool)
        requires
            old(self).wf(),
            addr.0 < MAIN_MEMORY_SIZE,
            old(self)@.total < u64::MAX,
        ensures
            final(self).wf(),
            final(self)@.id == old(self)@.id,
            final(self)@.total == old(self)@.total + 1,
            old(self)@.miss <= final(self)@.miss <= old(self)@.miss + 1,
            old(self)@.sent.is_prefix_of(final(self)@.sent),
            old(self)@.rcvd.is_prefix_of(final(self)@.rcvd),
            ok ==> {
                &&& line_valid(final(self)@.lines, addr.0 / BLOCK_SIZE)
                &&& final(self)@.lines[addr.0 / BLOCK_SIZE].state == MesiState::Modified
                &&& final(self)@.lines[addr.0 / BLOCK_SIZE].data[addr.0 as int
                    % BLOCK_SIZE as int] == value
            },
            final(self)@.miss == old(self)@.miss ==> ok,
            final(self)@.miss == old(self)@.miss ==> exists|drained: CacheView|
                #[trigger] cache_transitions(
                    counted_view(old(self)@),
                    final(self)@.rcvd.skip(old(self)@.rcvd.len() as int),
                    drained,
                ) && line_valid(drained.lines, addr.0 / BLOCK_SIZE) && final(self)@.lines
                    == drained.lines.insert(
                    addr.0 / BLOCK_SIZE,
                    final(self)@.lines[addr.0 / BLOCK_SIZE],
                ) && final(self)@.lines[addr.0 / BLOCK_SIZE].data@ == drained.lines[addr.0
                    / BLOCK_SIZE].data@.update(addr.0 as int % BLOCK_SIZE as int, value)
                    && final(self)@.rcvd == drained.rcvd && final(self)@.fault == drained.fault && (
                if drained.lines[addr.0 / BLOCK_SIZE].state == MesiState::Shared {
                    final(self)@.sent == drained.sent.push(
                        (BusMessage::ReadExclusiveRequest {
                            who: old(self)@.id,
                            block: Block(addr.0 / BLOCK_SIZE),
                        }),
                    )
                } else {
                    final(self)@.sent == drained.sent
                }),
            final(self)@.miss == old(self)@.miss + 1 ==> exists|
                k: int,
                drained: CacheView,
                steps: Seq<AccessStep>,
                run_end: CacheView,
            |
                0 <= k <= final(self)@.rcvd.skip(old(self)@.rcvd.len() as int).len()
                    && #[trigger] cache_transitions(
                    counted_view(old(self)@),
                    final(self)@.rcvd.skip(old(self)@.rcvd.len() as int).take(k),
                    drained,
                ) && !line_valid(drained.lines, addr.0 / BLOCK_SIZE) && #[trigger] access_run(
                    missed_view(drained),
                    steps,
                    (BusMessage::ReadExclusiveRequest {
                        who: old(self)@.id,
                        block: Block(addr.0 / BLOCK_SIZE),
                    }),
                    run_end,
                ) && (if ok {
                    run_end.lines.dom().contains(addr.0 / BLOCK_SIZE) && run_end.lines[addr.0
                        / BLOCK_SIZE].state == MesiState::Modified && final(self)@.lines
                        == run_end.lines.insert(
                        addr.0 / BLOCK_SIZE,
                        final(self)@.lines[addr.0 / BLOCK_SIZE],
                    ) && final(self)@.lines[addr.0 / BLOCK_SIZE].data@ == run_end.lines[addr.0
                        / BLOCK_SIZE].data@.update(addr.0 as int % BLOCK_SIZE as int, value)
                        && final(self)@.sent == run_end.sent && final(self)@.rcvd == run_end.rcvd
                        && final(self)@.fault == run_end.fault && final(self)@.miss == run_end.miss
                        && final(self)@.total == run_end.total && final(self)@.id == run_end.id
                } else {
                    final(self)@ == run_end
                }),
    {
        self.total_count = self.total_count + 1;
        let ghost entered = self@;
        proof {
            lemma_no_sends(entered.sent, self@.sent);
            assert(entered == counted_view(old(self)@));
        }
        self.snoop_backlog();
        let ghost drained = self@;
        let target = Block::for_addr(addr);
        proof {
            assert(target == Block(addr.0 / BLOCK_SIZE));
        }
        let cached = lru_get(&mut self.cached_lines, target.0);
        if let Some(found) = cached {
            match found.state {
                MesiState::Modified | MesiState::Exclusive => {
                    proof {
                        assert(self@ == drained);
                    }
                    let mut line = found;
                    line.state = MesiState::Modified;
                    line.write_byte(addr, value);
                    lru_insert(&mut self.cached_lines, target.0, line);
                    proof {
                        assert(self@.lines.dom() =~= drained.lines.dom().insert(target.0));
                        assert(drained.lines.dom().insert(target.0) =~= drained.lines.dom());
                        assert(self@.rcvd == drained.rcvd);
                        assert(self@.lines[target.0] == line);
                        assert(self@.rcvd.skip(old(self)@.rcvd.len() as int) == drained.rcvd.skip(
                            entered.rcvd.len() as int,
                        ));
                        assert(cache_transitions(
                            counted_view(old(self)@),
                            self@.rcvd.skip(old(self)@.rcvd.len() as int),
                            drained,
                        ));
                    }
                    return true;
                },
                MesiState::Shared => {
                    // An Exclusive line is by invariant not shared, so the
                    // upgrade is silent; a Shared line forces the peers to
                    // invalidate their copies first.
                    proof {
                        assert(self@ == drained);
                    }
                    self.emit(BusMessage::ReadExclusiveRequest { who: self.id, block: target });
                    let mut line = found;
                    line.state = MesiState::Modified;
                    line.write_byte(addr, value);
                    lru_insert(&mut self.cached_lines, target.0, line);
                    proof {
                        assert(self@.lines.dom() =~= drained.lines.dom().insert(target.0));
                        assert(drained.lines.dom().insert(target.0) =~= drained.lines.dom());
                        assert(drained.sent =~= self@.sent.subrange(0, drained.sent.len() as int));
                        lemma_prefix_chain(entered.sent, drained.sent, self@.sent);
                        assert(self@.rcvd == drained.rcvd);
                        assert(self@.lines[target.0] == line);
                        assert(self@.sent == drained.sent.push(
                            (BusMessage::ReadExclusiveRequest {
                                who: old(self)@.id,
                                block: Block(addr.0 / BLOCK_SIZE),
                            }),
                        ));
                        assert(self@.rcvd.skip(old(self)@.rcvd.len() as int) == drained.rcvd.skip(
                            entered.rcvd.len() as int,
                        ));
                        assert(cache_transitions(
                            counted_view(old(self)@),
                            self@.rcvd.skip(old(self)@.rcvd.len() as int),
                            drained,
                        ));
                    }
                    return true;
                },
                MesiState::Invalid => {},
            }
        }
        self.miss_count = self.miss_count + 1;
        let ghost pre = self@;
        let ghost own = BusMessage::ReadExclusiveRequest { who: entered.id, block: target };
        proof {
            lemma_no_sends(pre.sent, self@.sent);
            assert(pre == missed_view(drained));
            assert(!line_valid(drained.lines, target.0));
            assert(access_run(pre, Seq::<AccessStep>::empty(), own, self@));
        }
        let mut retries: usize = usize::MAX;
        loop
            invariant
                self.wf(),
                self@.id == pre.id,
                self@.miss == pre.miss,
                self@.total == pre.total,
                pre.sent.is_prefix_of(self@.sent),
                pre.rcvd.is_prefix_of(self@.rcvd),
                pre.miss == entered.miss + 1,
                pre.total == entered.total,
                entered.sent.is_prefix_of(pre.sent),
                entered.rcvd.is_prefix_of(pre.rcvd),
                target.0 == addr.0 / BLOCK_SIZE,
                exists|steps: Seq<AccessStep>| #[trigger] access_run(pre, steps, own, self@),
            decreases retries,
        {
            if retries == 0 {
                proof {
                    lemma_missing_access_exit(entered, drained, pre, own, self@, target.0);
                    lemma_write_exit_unchanged(entered, own, self@, target.0);
                }
                return false;
            }
            retries = retries - 1;
            let ghost before = self@;
            self.emit(BusMessage::ReadExclusiveRequest { who: self.id, block: target });
            let ghost after_emit = self@;
            proof {
                let steps0 = choose|steps0: Seq<AccessStep>|
                    #[trigger] access_run(pre, steps0, own, before);
                assert(after_emit == (CacheView { sent: before.sent.push(own), ..before }));
                lemma_run_snoc_requested(pre, steps0, own, before);
                assert(access_run(pre, steps0.push(AccessStep::Requested), own, after_emit));
            }
            let got = self.snoop_until_response(true, target);
            proof {
                assert(before.sent =~= after_emit.sent.subrange(0, before.sent.len() as int));
                lemma_prefix_chain(pre.sent, before.sent, after_emit.sent);
                lemma_prefix_chain(pre.sent, after_emit.sent, self@.sent);
                lemma_prefix_chain(entered.sent, pre.sent, self@.sent);
                lemma_prefix_chain(pre.rcvd, after_emit.rcvd, self@.rcvd);
                lemma_prefix_chain(entered.rcvd, pre.rcvd, self@.rcvd);
                let steps1 = choose|steps1: Seq<AccessStep>|
                    #[trigger] access_run(pre, steps1, own, after_emit);
                let d2 = self@.rcvd.skip(after_emit.rcvd.len() as int);
                assert(cache_transitions(after_emit, d2, self@));
                lemma_run_then_transitions(pre, steps1, own, after_emit, d2, self@);
                let more = choose|more: Seq<AccessStep>|
                    access_run(pre, #[trigger] (steps1 + more), own, self@);
                assert(access_run(pre, steps1 + more, own, self@));
            }
            if !got {
                proof {
                    lemma_missing_access_exit(entered, drained, pre, own, self@, target.0);
                    lemma_write_exit_unchanged(entered, own, self@, target.0);
                }
                return false;
            }
            let ghost checked = self@;
            let cached = lru_get(&mut self.cached_lines, target.0);
            if let Some(found) = cached {
                if found.state == MesiState::Modified {
                    proof {
                        assert(self@ == checked);
                        lemma_missing_access_exit(entered, drained, pre, own, checked, target.0);
                    }
                    let mut line = found;
                    line.write_byte(addr, value);
                    lru_insert(&mut self.cached_lines, target.0, line);
                    proof {
                        assert(self@.lines.dom() =~= checked.lines.dom().insert(target.0));
                        assert(checked.lines.dom().insert(target.0) =~= checked.lines.dom());
                        let (k2, dr2, steps2) = choose|
                            k2: int,
                            dr2: CacheView,
                            steps2: Seq<AccessStep>,
                        |
                            0 <= k2 <= checked.rcvd.skip(entered.rcvd.len() as int).len()
                                && #[trigger] cache_transitions(
                                entered,
                                checked.rcvd.skip(entered.rcvd.len() as int).take(k2),
                                dr2,
                            ) && !line_valid(dr2.lines, target.0) && #[trigger] access_run(
                                missed_view(dr2),
                                steps2,
                                own,
                                checked,
                            );
                        assert(self@.rcvd == checked.rcvd);
                        assert(self@.rcvd.skip(entered.rcvd.len() as int) == checked.rcvd.skip(
                            entered.rcvd.len() as int,
                        ));
                        assert(self@.lines == checked.lines.insert(target.0, self@.lines[target.0]));
                    }
                    return true;
                }
            }
            proof {
                assert(self@ == checked);
            }
            // The block is still unavailable: another cache holds it Modified
            // and will have issued a write-back on snooping the request, so
            // the next attempt should succeed.
        }
    }

}

/// Flushing is idempotent: a flush leaves no Modified line, so flushing again
/// changes nothing and writes nothing back.
pub proof fn lemma_flush_flush_is_flush(lines: Map<usize, CacheLine>, second: Seq<BusMessage>)
    requires
        is_write_back_sequence(clean_lines(lines), second),
    ensures
        clean_lines(clean_lines(lines)) == clean_lines(lines),
        second == Seq::<BusMessage>::empty(),
{
    assert(modified_blocks(clean_lines(lines)) =~= Set::<usize>::empty());
    assert(clean_lines(clean_lines(lines)) =~= clean_lines(lines));
    if second.len() > 0 {
        let b = choose|b: usize|
            modified_blocks(clean_lines(lines)).contains(b) && second[0] == write_back_of(
                clean_lines(lines),
                b,
            );
        assert(false);
    }
    assert(second =~= Seq::<BusMessage>::empty());
}

/// The capacity discipline never drops a Modified line silently: when an
/// install makes room, every Modified line either survives unchanged or its
/// write-back is among the messages emitted first.
pub proof fn lemma_install_never_drops_modified(
    lines: Map<usize, CacheLine>,
    b: usize,
    line: CacheLine,
    post: Map<usize, CacheLine>,
    emitted: Seq<BusMessage>,
    k: usize,
)
    requires
        lines.dom().finite(),
        lines.dom().len() <= CACHE_SIZE,
        install_post(lines, b, line, post, emitted),
        lines.dom().contains(k),
        lines[k].state == MesiState::Modified,
        k != b,
    ensures
        (post.dom().contains(k) && post[k] == lines[k]) || exists|p: int|
            0 <= p < emitted.len() && emitted[p] == write_back_of(lines, k),
{
    if lines.dom().len() == CACHE_SIZE {
        assert(modified_blocks(lines).contains(k));
    } else {
        assert(post == lines.insert(b, line));
        assert(post.dom().contains(k) && post[k] == lines[k]);
    }
}

/// A snooped exclusive read of block `b` issued by another cache: the one
/// kind of traffic that costs this cache its line for `b`.
pub open spec fn foreign_exclusive_read(id: MemoryCacheId, msg: BusMessage, b: usize) -> bool {
    match msg {
        BusMessage::ReadExclusiveRequest { who, block } => who != id && block.0 == b,
        _ => false,
    }
}

/// Snooped traffic that is not an exclusive read of block `b` leaves a valid
/// line for `b` valid with its payload intact: a snooped plain read demotes
/// it at most to Shared.
pub proof fn lemma_snoop_preserves_line(
    lines: Map<usize, CacheLine>,
    id: MemoryCacheId,
    msg: BusMessage,
    b: usize,
)
    requires
        line_valid(lines, b),
        !foreign_exclusive_read(id, msg, b),
    ensures
        line_valid(snooped_lines(lines, id, msg), b),
        snooped_lines(lines, id, msg)[b].data == lines[b].data,
{
}

/// The lines of a cache after it snoops a sequence of messages, none of which
/// installs a line.
pub open spec fn snoop_all(
    lines: Map<usize, CacheLine>,
    id: MemoryCacheId,
    msgs: Seq<BusMessage>,
) -> Map<usize, CacheLine>
    decreases msgs.len(),
{
    if msgs.len() == 0 {
        lines
    } else {
        snoop_all(snooped_lines(lines, id, msgs[0]), id, msgs.skip(1))
    }
}

/// Write-read coherence under snooping: as long as no other cache asks for
/// block `b` exclusively, any amount of snooped traffic keeps a valid line
/// for `b` valid with its payload intact. A byte just written is still the
/// byte read back, and a block once cached stays a hit.
pub proof fn lemma_snoop_all_preserves_line(
    lines: Map<usize, CacheLine>,
    id: MemoryCacheId,
    msgs: Seq<BusMessage>,
    b: usize,
)
    requires
        line_valid(lines, b),
        forall|i: int| 0 <= i < msgs.len() ==> !foreign_exclusive_read(id, #[trigger] msgs[i], b),
    ensures
        line_valid(snoop_all(lines, id, msgs), b),
        snoop_all(lines, id, msgs)[b].data == lines[b].data,
    decreases msgs.len(),
{
    if msgs.len() == 0 {
    } else {
        lemma_snoop_preserves_line(lines, id, msgs[0], b);
        lemma_snoop_all_preserves_line(snooped_lines(lines, id, msgs[0]), id, msgs.skip(1), b);
    }
}

/// A response addressed to this cache that carries data: the only kind of
/// message whose handling can install a line (and, at a full cache, evict
/// another).
pub open spec fn installing_message(id: MemoryCacheId, msg: BusMessage) -> bool {
    match msg {
        BusMessage::ReadResponse { who, data, .. } => who == id && data is Some,
        BusMessage::ReadExclusiveResponse { who, data, .. } => who == id && data is Some,
        _ => false,
    }
}

/// Write-read coherence across whole calls: a run of handled messages, none
/// of which is a foreign exclusive read of `b` and none of which is a
/// data-carrying response addressed to this cache, keeps a valid line for
/// `b` valid with its payload intact. With the handled delta of `read` and
/// `write` in their contracts, this closes the gap between a write and a
/// later read of the same address.
pub proof fn lemma_transitions_preserve_line(
    pre: CacheView,
    msgs: Seq<BusMessage>,
    post: CacheView,
    b: usize,
)
    requires
        cache_transitions(pre, msgs, post),
        line_valid(pre.lines, b),
        forall|i: int|
            0 <= i < msgs.len() ==> !foreign_exclusive_read(pre.id, #[trigger] msgs[i], b)
                && !installing_message(pre.id, msgs[i]),
    ensures
        line_valid(post.lines, b),
        post.lines[b].data == pre.lines[b].data,
    decreases msgs.len(),
{
    if msgs.len() == 0 {
    } else {
        let mid = choose|mid: CacheView|
            #![auto]
            cache_transition(pre, msgs[0], mid) && cache_transitions(mid, msgs.skip(1), post);
        assert(!installs_line(pre.lines, pre.id, msgs[0]));
        lemma_snoop_preserves_line(pre.lines, pre.id, msgs[0], b);
        assert(forall|i: int|
            0 <= i < msgs.skip(1).len() ==> !foreign_exclusive_read(
                mid.id,
                #[trigger] msgs.skip(1)[i],
                b,
            ) && !installing_message(mid.id, msgs.skip(1)[i]));
        lemma_transitions_preserve_line(mid, msgs.skip(1), post, b);
    }
}

/// A run of handled messages that contains no data-carrying response
/// addressed to this cache never creates a valid line: snooping only demotes
/// or invalidates. So a cache emptied of its lines cannot hit — its next
/// read is a guaranteed miss — until a response actually arrives for it.
pub proof fn lemma_transitions_create_no_line(
    pre: CacheView,
    msgs: Seq<BusMessage>,
    post: CacheView,
    b: usize,
)
    requires
        cache_transitions(pre, msgs, post),
        !line_valid(pre.lines, b),
        forall|i: int| 0 <= i < msgs.len() ==> !installing_message(pre.id, #[trigger] msgs[i]),
    ensures
        !line_valid(post.lines, b),
    decreases msgs.len(),
{
    if msgs.len() == 0 {
    } else {
        let mid = choose|mid: CacheView|
            #![auto]
            cache_transition(pre, msgs[0], mid) && cache_transitions(mid, msgs.skip(1), post);
        assert(!installs_line(pre.lines, pre.id, msgs[0]));
        assert(!line_valid(snooped_lines(pre.lines, pre.id, msgs[0]), b));
        assert(forall|i: int|
            0 <= i < msgs.skip(1).len() ==> !installing_message(
                mid.id,
                #[trigger] msgs.skip(1)[i],
            ));
        lemma_transitions_create_no_line(mid, msgs.skip(1), post, b);
    }
}

/// Snooping another cache's exclusive-read request for a block invalidates
/// this cache's line for it: the mechanism by which a writer becomes the only
/// holder of a block.
pub proof fn lemma_foreign_exclusive_read_invalidates(
    lines: Map<usize, CacheLine>,
    id: MemoryCacheId,
    msg: BusMessage,
    b: usize,
)
    requires
        foreign_exclusive_read(id, msg, b),
    ensures
        !line_valid(snooped_lines(lines, id, msg), b),
{
}

/// Snooping another cache's plain read of a block leaves this cache's line
/// for it in a sharable state: afterwards it is never Modified nor Exclusive,
/// so a block with readers elsewhere is never claimed as this cache's own.
pub proof fn lemma_foreign_read_demotes(
    lines: Map<usize, CacheLine>,
    id: MemoryCacheId,
    who: MemoryCacheId,
    b: usize,
)
    requires
        who != id,
    ensures
        ({
            let post = snooped_lines(lines, id, (BusMessage::ReadRequest { who, block: Block(b) }));
            post.dom().contains(b) ==> (post[b].state == MesiState::Shared || post[b].state
                == MesiState::Invalid)
        }),
{
}

/// A well-formed cache has a well-formed view: it holds at most a cache's
/// worth of lines, and its misses never exceed its accesses.
pub proof fn lemma_wf_view(cache: &MemoryCache)
    requires
        cache.wf(),
    ensures
        cache@.wf(),
{
}

/// The counters never let the miss rate exceed one: the percentage computed
/// from them lies between 0 and 100.
pub proof fn lemma_miss_percent_in_range(miss: u64, total: u64)
    requires
        miss <= total,
        0 < total,
    ensures
        0 <= 100 * (miss as int) / (total as int) <= 100,
{
    assert(100 * (miss as int) <= 100 * (total as int)) by (nonlinear_arith)
        requires
            miss <= total,
    ;
    vstd::arithmetic::div_mod::lemma_div_is_ordered(
        100 * (miss as int),
        100 * (total as int),
        total as int,
    );
    vstd::arithmetic::div_mod::lemma_div_by_multiple(100, total as int);
    vstd::arithmetic::div_mod::lemma_div_pos_is_pos(100 * (miss as int), total as int);
}

/// A failed write leaves the cache exactly where its request-and-snoop run
/// ended.
proof fn lemma_write_exit_unchanged(entered: CacheView, own: BusMessage, post: CacheView, b: usize)
    requires
        exists|k: int, dr: CacheView, steps: Seq<AccessStep>|
            0 <= k <= post.rcvd.skip(entered.rcvd.len() as int).len() && #[trigger] cache_transitions(
                entered,
                post.rcvd.skip(entered.rcvd.len() as int).take(k),
                dr,
            ) && !line_valid(dr.lines, b) && #[trigger] access_run(
                missed_view(dr),
                steps,
                own,
                post,
            ),
    ensures
        exists|k: int, dr: CacheView, steps: Seq<AccessStep>, run_end: CacheView|
            0 <= k <= post.rcvd.skip(entered.rcvd.len() as int).len() && #[trigger] cache_transitions(
                entered,
                post.rcvd.skip(entered.rcvd.len() as int).take(k),
                dr,
            ) && !line_valid(dr.lines, b) && #[trigger] access_run(
                missed_view(dr),
                steps,
                own,
                run_end,
            ) && post == run_end,
{
    let (k, dr, steps) = choose|k: int, dr: CacheView, steps: Seq<AccessStep>|
        0 <= k <= post.rcvd.skip(entered.rcvd.len() as int).len() && #[trigger] cache_transitions(
            entered,
            post.rcvd.skip(entered.rcvd.len() as int).take(k),
            dr,
        ) && !line_valid(dr.lines, b) && #[trigger] access_run(missed_view(dr), steps, own, post);
    assert(0 <= k <= post.rcvd.skip(entered.rcvd.len() as int).len() && cache_transitions(
        entered,
        post.rcvd.skip(entered.rcvd.len() as int).take(k),
        dr,
    ) && !line_valid(dr.lines, b) && access_run(missed_view(dr), steps, own, post) && post == post);
}

/// A sent log that did not change is its own prefix, extended by nothing.
proof fn lemma_no_sends(pre: Seq<BusMessage>, post: Seq<BusMessage>)
    requires
        post == pre,
    ensures
        pre.is_prefix_of(post),
        post == pre + Seq::<BusMessage>::empty(),
{
    assert(pre =~= pre.subrange(0, pre.len() as int));
    assert(pre + Seq::<BusMessage>::empty() =~= pre);
}

/// A sent log extended by one message is the old log with it appended.
proof fn lemma_one_send(pre: Seq<BusMessage>, post: Seq<BusMessage>, m: BusMessage)
    requires
        post == pre.push(m),
    ensures
        pre.is_prefix_of(post),
        post == pre + seq![m],
{
    assert(pre =~= post.subrange(0, pre.len() as int));
    assert(post =~= pre + seq![m]);
}

/// A sent log extended by two messages is the old log with both appended.
proof fn lemma_two_sends(pre: Seq<BusMessage>, post: Seq<BusMessage>, m1: BusMessage, m2: BusMessage)
    requires
        post == pre.push(m1).push(m2),
    ensures
        pre.is_prefix_of(post),
        post == pre + seq![m1, m2],
{
    assert(pre =~= post.subrange(0, pre.len() as int));
    assert(post =~= pre + seq![m1, m2]);
}

/// The witnesses a missing read or write hands its caller on return: the
/// drain point where the block was found wanting, and the request-and-snoop
/// run that followed.
proof fn lemma_missing_access_exit(
    entered: CacheView,
    drained: CacheView,
    pre: CacheView,
    own: BusMessage,
    post: CacheView,
    b: usize,
)
    requires
        cache_transitions(entered, drained.rcvd.skip(entered.rcvd.len() as int), drained),
        entered.rcvd.is_prefix_of(drained.rcvd),
        pre == missed_view(drained),
        !line_valid(drained.lines, b),
        exists|steps: Seq<AccessStep>| #[trigger] access_run(pre, steps, own, post),
        entered.rcvd.is_prefix_of(post.rcvd),
        drained.rcvd.is_prefix_of(post.rcvd),
    ensures
        exists|k: int, dr: CacheView, steps: Seq<AccessStep>|
            0 <= k <= post.rcvd.skip(entered.rcvd.len() as int).len() && #[trigger] cache_transitions(
                entered,
                post.rcvd.skip(entered.rcvd.len() as int).take(k),
                dr,
            ) && !line_valid(dr.lines, b) && #[trigger] access_run(
                missed_view(dr),
                steps,
                own,
                post,
            ),
{
    let handled = post.rcvd.skip(entered.rcvd.len() as int);
    let k = drained.rcvd.len() - entered.rcvd.len();
    assert(handled.take(k as int) =~= drained.rcvd.skip(entered.rcvd.len() as int));
    let steps = choose|steps: Seq<AccessStep>| #[trigger] access_run(pre, steps, own, post);
    assert(0 <= k as int <= handled.len() && cache_transitions(
        entered,
        handled.take(k as int),
        drained,
    ) && !line_valid(drained.lines, b) && access_run(missed_view(drained), steps, own, post));
}

/// `delta` holds one write-back for each of the first `i` table entries whose
/// line is Modified, and nothing else.
spec fn wb_delta_matches(
    pre: Map<usize, CacheLine>,
    entries: Seq<(usize, CacheLine)>,
    i: int,
    delta: Seq<BusMessage>,
) -> bool {
    &&& (forall|p: int, q: int| 0 <= p < q < delta.len() ==> delta[p] != delta[q])
    &&& (forall|p: int|
        0 <= p < delta.len() ==> exists|j: int|
            0 <= j < i && entries[j].1.state == MesiState::Modified && #[trigger] delta[p]
                == write_back_of(pre, entries[j].0))
    &&& (forall|j: int|
        0 <= j < i && (#[trigger] entries[j]).1.state == MesiState::Modified ==> exists|p: int|
            0 <= p < delta.len() && delta[p] == write_back_of(pre, entries[j].0))
}

} // verus!
