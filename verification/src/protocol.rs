//! The coherence argument across caches.
//!
//! A system is one line table per cache; cache `i` carries id `i`. A bus
//! transaction is taken as serialized: the request is snooped by every peer
//! and the response installed at the requester before the next transaction
//! begins (the order every participant observes on the broadcast bus). Under
//! that serialization, the transactions preserve single-writer coherence:
//! at most one cache owns a block (Modified or Exclusive), and an owner never
//! coexists with any other valid copy, Shared ones included.
//!
//! The writer's optimistic Shared-to-Modified upgrade sends its invalidating
//! request without awaiting an answer; between the send and the peers'
//! snooping of it the real interleaving can transiently show a writer beside
//! stale Shared copies. The serialized transaction is the boundary at which
//! the invariant is stated and proved.

use vstd::prelude::*;

use crate::bus::BusMessage;
use crate::main_memory::Block;
use crate::memory_cache::line_valid;
use crate::memory_cache::snooped_lines;
use crate::memory_cache::CacheLine;
use crate::memory_cache::MesiState;

verus! {

/// Cache `lines` owns block `b`: it holds it Modified or Exclusive.
pub open spec fn owns_block(lines: Map<usize, CacheLine>, b: usize) -> bool {
    line_valid(lines, b) && (lines[b].state == MesiState::Modified || lines[b].state
        == MesiState::Exclusive)
}

/// Single-writer coherence at block `b`: whenever some cache owns the block,
/// no other cache holds any valid copy of it. Two owners are then impossible,
/// and an owner never coexists with a Shared copy.
pub open spec fn coherent_at(sys: Seq<Map<usize, CacheLine>>, b: usize) -> bool {
    forall|i: int, j: int|
        0 <= i < sys.len() && 0 <= j < sys.len() && i != j && owns_block(#[trigger] sys[i], b)
            ==> !line_valid(#[trigger] sys[j], b)
}

/// Single-writer coherence at every block.
pub open spec fn coherent(sys: Seq<Map<usize, CacheLine>>) -> bool {
    forall|b: usize| #[trigger] coherent_at(sys, b)
}

/// Every cache snoops one message; the requester (whose own echo is inert)
/// is left as the message's sender sees itself.
pub open spec fn all_snoop(
    sys: Seq<Map<usize, CacheLine>>,
    msg: BusMessage,
) -> Seq<Map<usize, CacheLine>> {
    Seq::new(sys.len(), |j: int| snooped_lines(sys[j], j as u8, msg))
}

/// A serialized read transaction: cache `i` asks for block `b`, every peer
/// snoops the request (a valid copy is demoted to Shared), and `i` installs
/// the line — Shared when some peer had a valid copy and answered, Exclusive
/// when the block came from main memory alone.
pub open spec fn read_transaction(
    sys: Seq<Map<usize, CacheLine>>,
    i: int,
    b: usize,
    data: [u8; 32],
) -> Seq<Map<usize, CacheLine>> {
    let snooped = all_snoop(sys, (BusMessage::ReadRequest { who: i as u8, block: Block(b) }));
    let shared = exists|j: int| 0 <= j < sys.len() && j != i && line_valid(#[trigger] sys[j], b);
    let state = if shared {
        MesiState::Shared
    } else {
        MesiState::Exclusive
    };
    snooped.update(i, snooped[i].insert(b, (CacheLine { state, data })))
}

/// A serialized write transaction for a cache that does not own the block
/// (a Shared upgrade or a write miss): every peer snoops the exclusive-read
/// request and invalidates its copy, and `i` holds the block Modified.
pub open spec fn write_transaction(
    sys: Seq<Map<usize, CacheLine>>,
    i: int,
    b: usize,
    data: [u8; 32],
) -> Seq<Map<usize, CacheLine>> {
    let snooped = all_snoop(
        sys,
        (BusMessage::ReadExclusiveRequest { who: i as u8, block: Block(b) }),
    );
    snooped.update(i, snooped[i].insert(b, (CacheLine { state: MesiState::Modified, data })))
}

/// Cache `post` holds at most what `pre` held: every valid line of `post` is
/// a line of `pre` in the same state. Flushes, evictions and `empty` only
/// shrink a cache this way.
pub open spec fn shrinks(post: Map<usize, CacheLine>, pre: Map<usize, CacheLine>) -> bool {
    forall|b: usize|
        #[trigger] line_valid(post, b) ==> line_valid(pre, b) && post[b].state == pre[b].state
}

/// A serialized read keeps the system coherent: afterwards the requester is
/// the sole holder (Exclusive) or every copy of the block is Shared, and no
/// other block moved.
pub proof fn lemma_read_transaction_coherent(
    sys: Seq<Map<usize, CacheLine>>,
    i: int,
    b: usize,
    data: [u8; 32],
)
    requires
        coherent(sys),
        0 <= i < sys.len(),
        sys.len() <= 256,
    ensures
        coherent(read_transaction(sys, i, b, data)),
{
    let post = read_transaction(sys, i, b, data);
    let msg = BusMessage::ReadRequest { who: i as u8, block: Block(b) };
    assert forall|bb: usize| #[trigger] coherent_at(post, bb) by {
        assert forall|p: int, q: int|
            0 <= p < post.len() && 0 <= q < post.len() && p != q && owns_block(
                #[trigger] post[p],
                bb,
            ) implies !line_valid(#[trigger] post[q], bb) by {
            if bb != b {
                assert(post[p][bb] == sys[p][bb] || !post[p].dom().contains(bb));
                assert(coherent_at(sys, bb));
            } else {
                // After the transaction nobody but possibly `i` owns `b`:
                // a peer's valid copy was demoted to Shared.
                if p != i {
                    assert(snooped_lines(sys[p], p as u8, msg)[b].state == MesiState::Shared
                        || !line_valid(snooped_lines(sys[p], p as u8, msg), b));
                    assert(false);
                } else {
                    // `i` owns `b`, so it installed Exclusive: no peer had a
                    // valid copy, and snooping a request does not create one.
                    assert(post[p][b].state == MesiState::Exclusive);
                    assert(!line_valid(sys[q], b));
                    assert(!line_valid(post[q], b));
                }
            }
        }
    }
}

/// A serialized write keeps the system coherent: afterwards the writer is
/// the sole holder of the block, Modified, and no other block moved.
pub proof fn lemma_write_transaction_coherent(
    sys: Seq<Map<usize, CacheLine>>,
    i: int,
    b: usize,
    data: [u8; 32],
)
    requires
        coherent(sys),
        0 <= i < sys.len(),
        sys.len() <= 256,
    ensures
        coherent(write_transaction(sys, i, b, data)),
        owns_block(write_transaction(sys, i, b, data)[i], b),
{
    let post = write_transaction(sys, i, b, data);
    let msg = BusMessage::ReadExclusiveRequest { who: i as u8, block: Block(b) };
    assert forall|bb: usize| #[trigger] coherent_at(post, bb) by {
        assert forall|p: int, q: int|
            0 <= p < post.len() && 0 <= q < post.len() && p != q && owns_block(
                #[trigger] post[p],
                bb,
            ) implies !line_valid(#[trigger] post[q], bb) by {
            if bb != b {
                assert(post[p][bb] == sys[p][bb] || !post[p].dom().contains(bb));
                assert(coherent_at(sys, bb));
            } else {
                // Every peer invalidated its copy of `b`, so only `i` can own
                // or even hold it.
                if p != i {
                    assert(!line_valid(snooped_lines(sys[p], p as u8, msg), b));
                    assert(false);
                } else {
                    if q != i {
                        assert(!line_valid(snooped_lines(sys[q], q as u8, msg), b));
                    }
                }
            }
        }
    }
}

/// A silent upgrade (Exclusive to Modified, no bus traffic) keeps the system
/// coherent: the writer already owned the block, so no other cache holds it.
pub proof fn lemma_silent_upgrade_coherent(
    sys: Seq<Map<usize, CacheLine>>,
    i: int,
    b: usize,
    data: [u8; 32],
)
    requires
        coherent(sys),
        0 <= i < sys.len(),
        owns_block(sys[i], b),
    ensures
        coherent(
            sys.update(i, sys[i].insert(b, (CacheLine { state: MesiState::Modified, data }))),
        ),
{
    let post = sys.update(i, sys[i].insert(b, (CacheLine { state: MesiState::Modified, data })));
    assert forall|bb: usize| #[trigger] coherent_at(post, bb) by {
        assert forall|p: int, q: int|
            0 <= p < post.len() && 0 <= q < post.len() && p != q && owns_block(
                #[trigger] post[p],
                bb,
            ) implies !line_valid(#[trigger] post[q], bb) by {
            if bb != b {
                assert(post[p][bb] == sys[p][bb] || !post[p].dom().contains(bb));
                assert(coherent_at(sys, bb));
            } else {
                assert(coherent_at(sys, b));
                if p == i {
                    assert(owns_block(sys[i], b));
                } else {
                    assert(!line_valid(sys[p], b));
                    assert(post[p] == sys[p]);
                    assert(false);
                }
            }
        }
    }
}

/// Dropping lines — a flush, an eviction, an `empty` — at any set of caches
/// keeps the system coherent: coherence only constrains the copies that are
/// still held.
pub proof fn lemma_shrinking_preserves_coherence(
    sys: Seq<Map<usize, CacheLine>>,
    post: Seq<Map<usize, CacheLine>>,
)
    requires
        coherent(sys),
        post.len() == sys.len(),
        forall|j: int| 0 <= j < sys.len() ==> shrinks(#[trigger] post[j], sys[j]),
    ensures
        coherent(post),
{
    assert forall|bb: usize| #[trigger] coherent_at(post, bb) by {
        assert forall|p: int, q: int|
            0 <= p < post.len() && 0 <= q < post.len() && p != q && owns_block(
                #[trigger] post[p],
                bb,
            ) implies !line_valid(#[trigger] post[q], bb) by {
            assert(coherent_at(sys, bb));
            assert(owns_block(sys[p], bb));
        }
    }
}

} // verus!
