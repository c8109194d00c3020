//! Event indexer: turns raw, chain-native event log query results into
//! canonical, deterministically ordered sequences.
//!
//! The transport issues the block-range query; its raw results come in as
//! plain values. On-chain integers are wider than the canonical domain
//! types, so every narrowing is range-checked: an out-of-range value is a
//! decode failure, never a silent truncation.

use vstd::prelude::*;

use crate::types::{
    ChainCommunicationError, ChainResult, Checkpoint, CheckpointMeta, CheckpointWithMeta,
    RawCommittedMessage,
};

verus! {

/// A dispatch event as the chain reports it: the leaf index still carries
/// the chain's wide integer type.
pub struct RawDispatchEvent {
    /// Position in the leaf sequence, as the wide on-chain integer.
    pub leaf_index: u64,
    /// The message's canonical wire bytes.
    pub message: Vec<u8>,
}

/// The canonical record a dispatch event narrows to, once its leaf index
/// fits the canonical width.
pub open spec fn committed_of(e: RawDispatchEvent) -> RawCommittedMessage {
    RawCommittedMessage { leaf_index: e.leaf_index as u32, message: e.message }
}

/// Ascending leaf-index order.
pub open spec fn msgs_sorted(s: Seq<RawCommittedMessage>) -> bool {
    forall|i: int, j: int|
        0 <= i < j < s.len() ==> #[trigger] s[i].leaf_index <= #[trigger] s[j].leaf_index
}

/// Strictly ascending leaf-index order.
pub open spec fn msgs_strictly_sorted(s: Seq<RawCommittedMessage>) -> bool {
    forall|i: int, j: int|
        0 <= i < j < s.len() ==> #[trigger] s[i].leaf_index < #[trigger] s[j].leaf_index
}

/// Insert `m` into `s` before the first record with a larger leaf index;
/// records with an equal index keep their place ahead of `m`, so the sort
/// built on this is stable.
pub open spec fn insert_msg(
    m: RawCommittedMessage,
    s: Seq<RawCommittedMessage>,
) -> Seq<RawCommittedMessage>
    decreases s.len(),
{
    if s.len() == 0 {
        seq![m]
    } else if m.leaf_index < s[0].leaf_index {
        seq![m] + s
    } else {
        seq![s[0]] + insert_msg(m, s.drop_first())
    }
}

/// Stable insertion sort by leaf index, folding the input left to right.
pub open spec fn sort_msgs(s: Seq<RawCommittedMessage>) -> Seq<RawCommittedMessage>
    decreases s.len(),
{
    if s.len() == 0 {
        Seq::<RawCommittedMessage>::empty()
    } else {
        insert_msg(s.last(), sort_msgs(s.drop_last()))
    }
}

proof fn lemma_insert_msg_len(m: RawCommittedMessage, s: Seq<RawCommittedMessage>)
    ensures
        insert_msg(m, s).len() == s.len() + 1,
    decreases s.len(),
{
    if s.len() > 0 && !(m.leaf_index < s[0].leaf_index) {
        lemma_insert_msg_len(m, s.drop_first());
    }
}

/// A lower bound on every leaf index survives an insert that respects it.
proof fn lemma_insert_msg_lb(m: RawCommittedMessage, s: Seq<RawCommittedMessage>, b: u32)
    requires
        b <= m.leaf_index,
        forall|i: int| 0 <= i < s.len() ==> b <= #[trigger] s[i].leaf_index,
    ensures
        forall|i: int|
            0 <= i < insert_msg(m, s).len() ==> b <= #[trigger] insert_msg(m, s)[i].leaf_index,
    decreases s.len(),
{
    lemma_insert_msg_len(m, s);
    if s.len() == 0 {
    } else if m.leaf_index < s[0].leaf_index {
        let r = seq![m] + s;
        assert forall|i: int| 0 <= i < r.len() implies b <= #[trigger] r[i].leaf_index by {
            if i > 0 {
                assert(b <= s[i - 1].leaf_index);
            }
        }
    } else {
        let t = s.drop_first();
        assert forall|i: int| 0 <= i < t.len() implies b <= #[trigger] t[i].leaf_index by {
            assert(b <= s[i + 1].leaf_index);
        }
        lemma_insert_msg_lb(m, t, b);
        let w = insert_msg(m, t);
        let r = seq![s[0]] + w;
        assert forall|i: int| 0 <= i < r.len() implies b <= #[trigger] r[i].leaf_index by {
            if i > 0 {
                assert(b <= w[i - 1].leaf_index);
            }
        }
    }
}

/// A strict lower bound survives an insert that respects it.
proof fn lemma_insert_msg_strict_lb(m: RawCommittedMessage, s: Seq<RawCommittedMessage>, b: u32)
    requires
        b < m.leaf_index,
        forall|i: int| 0 <= i < s.len() ==> b < #[trigger] s[i].leaf_index,
    ensures
        forall|i: int|
            0 <= i < insert_msg(m, s).len() ==> b < #[trigger] insert_msg(m, s)[i].leaf_index,
    decreases s.len(),
{
    lemma_insert_msg_len(m, s);
    if s.len() == 0 {
    } else if m.leaf_index < s[0].leaf_index {
        let r = seq![m] + s;
        assert forall|i: int| 0 <= i < r.len() implies b < #[trigger] r[i].leaf_index by {
            if i > 0 {
                assert(b < s[i - 1].leaf_index);
            }
        }
    } else {
        let t = s.drop_first();
        assert forall|i: int| 0 <= i < t.len() implies b < #[trigger] t[i].leaf_index by {
            assert(b < s[i + 1].leaf_index);
        }
        lemma_insert_msg_strict_lb(m, t, b);
        let w = insert_msg(m, t);
        let r = seq![s[0]] + w;
        assert forall|i: int| 0 <= i < r.len() implies b < #[trigger] r[i].leaf_index by {
            if i > 0 {
                assert(b < w[i - 1].leaf_index);
            }
        }
    }
}

/// Inserting into an ascending sequence keeps it ascending.
proof fn lemma_insert_msg_sorted(m: RawCommittedMessage, s: Seq<RawCommittedMessage>)
    requires
        msgs_sorted(s),
    ensures
        msgs_sorted(insert_msg(m, s)),
    decreases s.len(),
{
    lemma_insert_msg_len(m, s);
    if s.len() == 0 {
    } else if m.leaf_index < s[0].leaf_index {
        let r = seq![m] + s;
        assert forall|i: int, j: int| 0 <= i < j < r.len() implies #[trigger] r[i].leaf_index
            <= #[trigger] r[j].leaf_index by {
            if i == 0 {
                if j > 1 {
                    assert(s[0].leaf_index <= s[j - 1].leaf_index);
                }
            } else {
                assert(s[i - 1].leaf_index <= s[j - 1].leaf_index);
            }
        }
    } else {
        let t = s.drop_first();
        assert forall|a: int, b: int| 0 <= a < b < t.len() implies #[trigger] t[a].leaf_index
            <= #[trigger] t[b].leaf_index by {
            assert(s[a + 1].leaf_index <= s[b + 1].leaf_index);
        }
        assert forall|i: int| 0 <= i < t.len() implies s[0].leaf_index
            <= #[trigger] t[i].leaf_index by {
            assert(s[0].leaf_index <= s[i + 1].leaf_index);
        }
        lemma_insert_msg_sorted(m, t);
        lemma_insert_msg_lb(m, t, s[0].leaf_index);
        let w = insert_msg(m, t);
        let r = seq![s[0]] + w;
        assert forall|i: int, j: int| 0 <= i < j < r.len() implies #[trigger] r[i].leaf_index
            <= #[trigger] r[j].leaf_index by {
            if i == 0 {
                assert(s[0].leaf_index <= w[j - 1].leaf_index);
            } else {
                assert(w[i - 1].leaf_index <= w[j - 1].leaf_index);
            }
        }
    }
}

/// A leaf index that occurs neither in `s` nor as `m`'s does not occur in
/// the insert either.
proof fn lemma_insert_msg_free(m: RawCommittedMessage, s: Seq<RawCommittedMessage>, x: u32)
    requires
        m.leaf_index != x,
        forall|i: int| 0 <= i < s.len() ==> #[trigger] s[i].leaf_index != x,
    ensures
        forall|i: int|
            0 <= i < insert_msg(m, s).len() ==> #[trigger] insert_msg(m, s)[i].leaf_index != x,
    decreases s.len(),
{
    lemma_insert_msg_len(m, s);
    if s.len() == 0 {
    } else if m.leaf_index < s[0].leaf_index {
        let r = seq![m] + s;
        assert forall|i: int| 0 <= i < r.len() implies #[trigger] r[i].leaf_index != x by {
            if i > 0 {
                assert(s[i - 1].leaf_index != x);
            }
        }
    } else {
        let t = s.drop_first();
        assert forall|i: int| 0 <= i < t.len() implies #[trigger] t[i].leaf_index != x by {
            assert(s[i + 1].leaf_index != x);
        }
        lemma_insert_msg_free(m, t, x);
        let w = insert_msg(m, t);
        let r = seq![s[0]] + w;
        assert forall|i: int| 0 <= i < r.len() implies #[trigger] r[i].leaf_index != x by {
            if i > 0 {
                assert(w[i - 1].leaf_index != x);
            }
        }
    }
}

/// Sorting by leaf index keeps the length and yields an ascending
/// sequence.
pub proof fn lemma_sort_msgs_sorted(s: Seq<RawCommittedMessage>)
    ensures
        sort_msgs(s).len() == s.len(),
        msgs_sorted(sort_msgs(s)),
    decreases s.len(),
{
    if s.len() > 0 {
        let t = s.drop_last();
        lemma_sort_msgs_sorted(t);
        lemma_insert_msg_sorted(s.last(), sort_msgs(t));
        lemma_insert_msg_len(s.last(), sort_msgs(t));
    }
}

/// A leaf index absent from the input is absent from the sorted output.
proof fn lemma_sort_msgs_free(s: Seq<RawCommittedMessage>, x: u32)
    requires
        forall|i: int| 0 <= i < s.len() ==> #[trigger] s[i].leaf_index != x,
    ensures
        forall|i: int| 0 <= i < sort_msgs(s).len() ==> #[trigger] sort_msgs(s)[i].leaf_index != x,
    decreases s.len(),
{
    if s.len() > 0 {
        let t = s.drop_last();
        assert forall|i: int| 0 <= i < t.len() implies #[trigger] t[i].leaf_index != x by {
            assert(s[i].leaf_index != x);
        }
        lemma_sort_msgs_free(t, x);
        assert(s.last().leaf_index != x) by {
            assert(s[s.len() - 1].leaf_index != x);
        }
        lemma_insert_msg_free(s.last(), sort_msgs(t), x);
    }
}

/// Inserting a record whose leaf index occurs nowhere in a strictly
/// ascending sequence keeps it strictly ascending.
proof fn lemma_insert_msg_strict(m: RawCommittedMessage, s: Seq<RawCommittedMessage>)
    requires
        msgs_strictly_sorted(s),
        forall|i: int| 0 <= i < s.len() ==> #[trigger] s[i].leaf_index != m.leaf_index,
    ensures
        msgs_strictly_sorted(insert_msg(m, s)),
    decreases s.len(),
{
    lemma_insert_msg_len(m, s);
    if s.len() == 0 {
    } else if m.leaf_index < s[0].leaf_index {
        let r = seq![m] + s;
        assert forall|i: int, j: int| 0 <= i < j < r.len() implies #[trigger] r[i].leaf_index
            < #[trigger] r[j].leaf_index by {
            if i == 0 {
                if j > 1 {
                    assert(s[0].leaf_index < s[j - 1].leaf_index);
                }
            } else {
                assert(s[i - 1].leaf_index < s[j - 1].leaf_index);
            }
        }
    } else {
        assert(s[0].leaf_index != m.leaf_index);
        assert(s[0].leaf_index < m.leaf_index);
        let t = s.drop_first();
        assert forall|a: int, b: int| 0 <= a < b < t.len() implies #[trigger] t[a].leaf_index
            < #[trigger] t[b].leaf_index by {
            assert(s[a + 1].leaf_index < s[b + 1].leaf_index);
        }
        assert forall|i: int| 0 <= i < t.len() implies #[trigger] t[i].leaf_index
            != m.leaf_index by {
            assert(s[i + 1].leaf_index != m.leaf_index);
        }
        assert forall|i: int| 0 <= i < t.len() implies s[0].leaf_index
            < #[trigger] t[i].leaf_index by {
            assert(s[0].leaf_index < s[i + 1].leaf_index);
        }
        lemma_insert_msg_strict(m, t);
        lemma_insert_msg_strict_lb(m, t, s[0].leaf_index);
        let w = insert_msg(m, t);
        let r = seq![s[0]] + w;
        assert forall|i: int, j: int| 0 <= i < j < r.len() implies #[trigger] r[i].leaf_index
            < #[trigger] r[j].leaf_index by {
            if i == 0 {
                assert(s[0].leaf_index < w[j - 1].leaf_index);
            } else {
                assert(w[i - 1].leaf_index < w[j - 1].leaf_index);
            }
        }
    }
}

/// Strict ordering: when no two dispatch records share a leaf index — the
/// on-chain contract guarantees leaf indexes are unique — the sorted
/// sequence is strictly increasing, not merely ascending.
pub proof fn lemma_sort_msgs_strict(s: Seq<RawCommittedMessage>)
    requires
        forall|i: int, j: int|
            0 <= i < j < s.len() ==> #[trigger] s[i].leaf_index != #[trigger] s[j].leaf_index,
    ensures
        msgs_strictly_sorted(sort_msgs(s)),
    decreases s.len(),
{
    if s.len() > 0 {
        let t = s.drop_last();
        let m = s.last();
        assert forall|i: int, j: int| 0 <= i < j < t.len() implies #[trigger] t[i].leaf_index
            != #[trigger] t[j].leaf_index by {
            assert(s[i].leaf_index != s[j].leaf_index);
        }
        lemma_sort_msgs_strict(t);
        lemma_sort_msgs_sorted(t);
        assert forall|i: int| 0 <= i < t.len() implies #[trigger] t[i].leaf_index
            != m.leaf_index by {
            assert(s[i].leaf_index != s[s.len() - 1].leaf_index);
        }
        lemma_sort_msgs_free(t, m.leaf_index);
        lemma_insert_msg_strict(m, sort_msgs(t));
    }
}

/// Insertion at the found position agrees with the spec-level insert.
proof fn lemma_insert_msg_at(m: RawCommittedMessage, s: Seq<RawCommittedMessage>, j: int)
    requires
        0 <= j <= s.len(),
        forall|i: int| 0 <= i < j ==> #[trigger] s[i].leaf_index <= m.leaf_index,
        j < s.len() ==> m.leaf_index < s[j as int].leaf_index,
    ensures
        insert_msg(m, s) == s.insert(j, m),
    decreases s.len(),
{
    if s.len() == 0 {
        assert(insert_msg(m, s) =~= s.insert(j, m));
    } else if j == 0 {
        assert(m.leaf_index < s[0].leaf_index);
        assert(insert_msg(m, s) =~= s.insert(0, m));
    } else {
        assert(s[0].leaf_index <= m.leaf_index);
        let t = s.drop_first();
        assert forall|i: int| 0 <= i < j - 1 implies #[trigger] t[i].leaf_index
            <= m.leaf_index by {
            assert(s[i + 1].leaf_index <= m.leaf_index);
        }
        lemma_insert_msg_at(m, t, j - 1);
        assert(insert_msg(m, s) =~= s.insert(j, m));
    }
}

/// Sorts dispatch records ascending by leaf index: the exact stable
/// insertion sort `sort_msgs` describes.
fn sort_committed(v: Vec<RawCommittedMessage>) -> (r: Vec<RawCommittedMessage>)
    ensures
        r@ == sort_msgs(v@),
        msgs_sorted(r@),
{
    let ghost g = v@;
    let mut rest = v;
    let mut out: Vec<RawCommittedMessage> = Vec::new();
    proof {
        assert(g.take(0) =~= Seq::<RawCommittedMessage>::empty());
    }
    while rest.len() > 0
        invariant
            rest.len() <= g.len(),
            rest@ == g.skip(g.len() - rest.len()),
            out@ == sort_msgs(g.take(g.len() - rest.len())),
            msgs_sorted(out@),
        decreases rest.len(),
    {
        let ghost done = g.len() - rest.len();
        let m = rest.remove(0);
        proof {
            assert(m == g[done]);
            assert(rest@ =~= g.skip(done + 1));
        }
        let mut j: usize = 0;
        while j < out.len() && out[j].leaf_index <= m.leaf_index
            invariant
                j <= out.len(),
                forall|i: int| 0 <= i < j ==> #[trigger] out@[i].leaf_index <= m.leaf_index,
            decreases out.len() - j,
        {
            j += 1;
        }
        let ghost old_out = out@;
        proof {
            lemma_insert_msg_at(m, old_out, j as int);
            lemma_insert_msg_sorted(m, old_out);
        }
        out.insert(j, m);
        proof {
            assert(g.take(done + 1).drop_last() =~= g.take(done));
            assert(g.take(done + 1).last() == g[done]);
        }
    }
    proof {
        assert(g.take(g.len() as int) =~= g);
    }
    out
}

/// Fetches the dispatch events of one queried block range in canonical
/// order: every leaf index is range-checked into the canonical width, and
/// the records come back ascending by leaf index whatever order the
/// underlying query returned them in. An out-of-range leaf index is a
/// decode failure, never a silent truncation.
pub fn fetch_sorted_messages(events: Vec<RawDispatchEvent>) -> (r: ChainResult<
    Vec<RawCommittedMessage>,
>)
    ensures
        r matches Ok(out) ==> out@ == sort_msgs(events@.map_values(|e| committed_of(e)))
            && msgs_sorted(out@) && out@.len() == events@.len(),
        r matches Ok(out) ==> (forall|i: int, j: int|
            0 <= i < j < events@.len() ==> (#[trigger] events@[i]).leaf_index != (
            #[trigger] events@[j]).leaf_index) ==> msgs_strictly_sorted(out@),
        r matches Ok(out) ==> forall|k: int|
            0 <= k < events@.len() ==> #[trigger] events@[k].leaf_index <= u32::MAX,
        r matches Err(e) ==> e == ChainCommunicationError::DecodeError && exists|k: int|
            0 <= k < events@.len() && #[trigger] events@[k].leaf_index > u32::MAX,
        (forall|k: int| 0 <= k < events@.len() ==> #[trigger] events@[k].leaf_index <= u32::MAX)
            ==> r is Ok,
{
    let ghost g = events@;
    let mut rest = events;
    let mut converted: Vec<RawCommittedMessage> = Vec::new();
    proof {
        assert(g.take(0).map_values(|e: RawDispatchEvent| committed_of(e)) =~= Seq::<
            RawCommittedMessage,
        >::empty());
    }
    while rest.len() > 0
        invariant
            g == events@,
            rest.len() <= g.len(),
            rest@ == g.skip(g.len() - rest.len()),
            converted@ == g.take(g.len() - rest.len()).map_values(
                |e: RawDispatchEvent| committed_of(e),
            ),
            forall|k: int| 0 <= k < g.len() - rest.len() ==> #[trigger] g[k].leaf_index <= u32::MAX,
        decreases rest.len(),
    {
        let ghost done = g.len() - rest.len();
        let e = rest.remove(0);
        proof {
            assert(e == g[done]);
            assert(rest@ =~= g.skip(done + 1));
        }
        if e.leaf_index > u32::MAX as u64 {
            proof {
                assert(events@[done].leaf_index > u32::MAX);
            }
            return Err(ChainCommunicationError::DecodeError);
        }
        let m = RawCommittedMessage { leaf_index: e.leaf_index as u32, message: e.message };
        converted.push(m);
        proof {
            assert(converted@ =~= g.take(done + 1).map_values(
                |e: RawDispatchEvent| committed_of(e),
            ));
        }
    }
    proof {
        assert(g.take(g.len() as int) =~= g);
        let mapped = g.map_values(|e: RawDispatchEvent| committed_of(e));
        lemma_sort_msgs_sorted(mapped);
        if forall|i: int, j: int|
            0 <= i < j < g.len() ==> (#[trigger] g[i]).leaf_index != (#[trigger] g[j]).leaf_index {
            assert forall|i: int, j: int| 0 <= i < j < mapped.len() implies #[trigger] mapped[
                i
            ].leaf_index != #[trigger] mapped[j].leaf_index by {
                assert(g[i].leaf_index != g[j].leaf_index);
                assert(g[i].leaf_index <= u32::MAX);
                assert(g[j].leaf_index <= u32::MAX);
            }
            lemma_sort_msgs_strict(mapped);
        }
    }
    Ok(sort_committed(converted))
}

/// A checkpoint-cache event as the chain reports it: the checkpoint index
/// still carries the chain's wide integer type, and the block-level
/// metadata needed for ordering rides along.
#[derive(Clone, Copy)]
pub struct RawCheckpointEvent {
    /// Root of the message tree the event committed.
    pub root: [u8; 32],
    /// Leaf count the root commits to, as the wide on-chain integer.
    pub index: u64,
    /// Height the event was observed at.
    pub block_number: u64,
    /// Position within the block of the transaction that emitted the event.
    pub transaction_index: u64,
}

/// Ascending lexicographic order on `(block_number, transaction_index)`.
pub open spec fn ck_le(a: RawCheckpointEvent, b: RawCheckpointEvent) -> bool {
    a.block_number < b.block_number || (a.block_number == b.block_number
        && a.transaction_index <= b.transaction_index)
}

/// Strict lexicographic order on `(block_number, transaction_index)`.
pub open spec fn ck_lt(a: RawCheckpointEvent, b: RawCheckpointEvent) -> bool {
    a.block_number < b.block_number || (a.block_number == b.block_number
        && a.transaction_index < b.transaction_index)
}

/// Ascending `(block_number, transaction_index)` order.
pub open spec fn cks_sorted(s: Seq<RawCheckpointEvent>) -> bool {
    forall|i: int, j: int| 0 <= i < j < s.len() ==> ck_le(#[trigger] s[i], #[trigger] s[j])
}

/// Insert `e` into `s` before the first event with a strictly larger
/// ordering key; events with an equal key keep their place ahead of `e`,
/// so the sort built on this is stable: events of one transaction retain
/// log order.
pub open spec fn insert_ck(
    e: RawCheckpointEvent,
    s: Seq<RawCheckpointEvent>,
) -> Seq<RawCheckpointEvent>
    decreases s.len(),
{
    if s.len() == 0 {
        seq![e]
    } else if ck_lt(e, s[0]) {
        seq![e] + s
    } else {
        seq![s[0]] + insert_ck(e, s.drop_first())
    }
}

/// Stable insertion sort by `(block_number, transaction_index)`, folding
/// the input left to right.
pub open spec fn sort_cks(s: Seq<RawCheckpointEvent>) -> Seq<RawCheckpointEvent>
    decreases s.len(),
{
    if s.len() == 0 {
        Seq::<RawCheckpointEvent>::empty()
    } else {
        insert_ck(s.last(), sort_cks(s.drop_last()))
    }
}

proof fn lemma_insert_ck_len(e: RawCheckpointEvent, s: Seq<RawCheckpointEvent>)
    ensures
        insert_ck(e, s).len() == s.len() + 1,
    decreases s.len(),
{
    if s.len() > 0 && !ck_lt(e, s[0]) {
        lemma_insert_ck_len(e, s.drop_first());
    }
}

/// A lower bound on every ordering key survives an insert that respects
/// it.
proof fn lemma_insert_ck_lb(e: RawCheckpointEvent, s: Seq<RawCheckpointEvent>, b: RawCheckpointEvent)
    requires
        ck_le(b, e),
        forall|i: int| 0 <= i < s.len() ==> ck_le(b, #[trigger] s[i]),
    ensures
        forall|i: int| 0 <= i < insert_ck(e, s).len() ==> ck_le(b, #[trigger] insert_ck(e, s)[i]),
    decreases s.len(),
{
    lemma_insert_ck_len(e, s);
    if s.len() == 0 {
    } else if ck_lt(e, s[0]) {
        let r = seq![e] + s;
        assert forall|i: int| 0 <= i < r.len() implies ck_le(b, #[trigger] r[i]) by {
            if i > 0 {
                assert(ck_le(b, s[i - 1]));
            }
        }
    } else {
        let t = s.drop_first();
        assert forall|i: int| 0 <= i < t.len() implies ck_le(b, #[trigger] t[i]) by {
            assert(ck_le(b, s[i + 1]));
        }
        lemma_insert_ck_lb(e, t, b);
        let w = insert_ck(e, t);
        let r = seq![s[0]] + w;
        assert forall|i: int| 0 <= i < r.len() implies ck_le(b, #[trigger] r[i]) by {
            if i > 0 {
                assert(ck_le(b, w[i - 1]));
            }
        }
    }
}

/// Inserting into an ascending sequence keeps it ascending.
proof fn lemma_insert_ck_sorted(e: RawCheckpointEvent, s: Seq<RawCheckpointEvent>)
    requires
        cks_sorted(s),
    ensures
        cks_sorted(insert_ck(e, s)),
    decreases s.len(),
{
    lemma_insert_ck_len(e, s);
    if s.len() == 0 {
    } else if ck_lt(e, s[0]) {
        let r = seq![e] + s;
        assert forall|i: int, j: int| 0 <= i < j < r.len() implies ck_le(
            #[trigger] r[i],
            #[trigger] r[j],
        ) by {
            if i == 0 {
                if j > 1 {
                    assert(ck_le(s[0], s[j - 1]));
                }
            } else {
                assert(ck_le(s[i - 1], s[j - 1]));
            }
        }
    } else {
        let t = s.drop_first();
        assert forall|a: int, b: int| 0 <= a < b < t.len() implies ck_le(
            #[trigger] t[a],
            #[trigger] t[b],
        ) by {
            assert(ck_le(s[a + 1], s[b + 1]));
        }
        assert forall|i: int| 0 <= i < t.len() implies ck_le(s[0], #[trigger] t[i]) by {
            assert(ck_le(s[0], s[i + 1]));
        }
        lemma_insert_ck_sorted(e, t);
        lemma_insert_ck_lb(e, t, s[0]);
        let w = insert_ck(e, t);
        let r = seq![s[0]] + w;
        assert forall|i: int, j: int| 0 <= i < j < r.len() implies ck_le(
            #[trigger] r[i],
            #[trigger] r[j],
        ) by {
            if i == 0 {
                assert(ck_le(s[0], w[j - 1]));
            } else {
                assert(ck_le(w[i - 1], w[j - 1]));
            }
        }
    }
}

/// Ties among events of one block resolve by ascending transaction
/// position, whatever order the underlying query returned them in: the
/// sorted sequence is ascending in `(block_number, transaction_index)`.
pub proof fn lemma_sort_cks_sorted(s: Seq<RawCheckpointEvent>)
    ensures
        sort_cks(s).len() == s.len(),
        cks_sorted(sort_cks(s)),
        forall|i: int, j: int|
            0 <= i < j < sort_cks(s).len() && (#[trigger] sort_cks(s)[i]).block_number == (
            #[trigger] sort_cks(s)[j]).block_number ==> sort_cks(s)[i].transaction_index
                <= sort_cks(s)[j].transaction_index,
    decreases s.len(),
{
    if s.len() > 0 {
        let t = s.drop_last();
        lemma_sort_cks_sorted(t);
        lemma_insert_ck_sorted(s.last(), sort_cks(t));
        lemma_insert_ck_len(s.last(), sort_cks(t));
    }
    assert forall|i: int, j: int|
        0 <= i < j < sort_cks(s).len() && (#[trigger] sort_cks(s)[i]).block_number == (
        #[trigger] sort_cks(s)[j]).block_number implies sort_cks(s)[i].transaction_index
        <= sort_cks(s)[j].transaction_index by {
        assert(ck_le(sort_cks(s)[i], sort_cks(s)[j]));
    }
}

/// Insertion at the found position agrees with the spec-level insert.
proof fn lemma_insert_ck_at(e: RawCheckpointEvent, s: Seq<RawCheckpointEvent>, j: int)
    requires
        0 <= j <= s.len(),
        forall|i: int| 0 <= i < j ==> !ck_lt(e, #[trigger] s[i]),
        j < s.len() ==> ck_lt(e, s[j as int]),
    ensures
        insert_ck(e, s) == s.insert(j, e),
    decreases s.len(),
{
    if s.len() == 0 {
        assert(insert_ck(e, s) =~= s.insert(j, e));
    } else if j == 0 {
        assert(ck_lt(e, s[0]));
        assert(insert_ck(e, s) =~= s.insert(0, e));
    } else {
        assert(!ck_lt(e, s[0]));
        let t = s.drop_first();
        assert forall|i: int| 0 <= i < j - 1 implies !ck_lt(e, #[trigger] t[i]) by {
            assert(!ck_lt(e, s[i + 1]));
        }
        lemma_insert_ck_at(e, t, j - 1);
        assert(insert_ck(e, s) =~= s.insert(j, e));
    }
}

/// Sorts checkpoint events ascending by `(block_number,
/// transaction_index)`: the exact stable insertion sort `sort_cks`
/// describes.
fn sort_checkpoint_events(v: &Vec<RawCheckpointEvent>) -> (r: Vec<RawCheckpointEvent>)
    ensures
        r@ == sort_cks(v@),
        cks_sorted(r@),
{
    let ghost g = v@;
    let mut out: Vec<RawCheckpointEvent> = Vec::new();
    proof {
        assert(g.take(0) =~= Seq::<RawCheckpointEvent>::empty());
    }
    let mut i: usize = 0;
    while i < v.len()
        invariant
            i <= v.len(),
            v@ == g,
            out@ == sort_cks(g.take(i as int)),
            cks_sorted(out@),
        decreases v.len() - i,
    {
        let e = v[i];
        let mut j: usize = 0;
        while j < out.len() && !(e.block_number < out[j].block_number || (e.block_number
            == out[j].block_number && e.transaction_index < out[j].transaction_index))
            invariant
                j <= out.len(),
                forall|k: int| 0 <= k < j ==> !ck_lt(e, #[trigger] out@[k]),
            decreases out.len() - j,
        {
            j += 1;
        }
        let ghost old_out = out@;
        proof {
            lemma_insert_ck_at(e, old_out, j as int);
            lemma_insert_ck_sorted(e, old_out);
        }
        out.insert(j, e);
        proof {
            assert(g.take(i + 1).drop_last() =~= g.take(i as int));
            assert(g.take(i + 1).last() == g[i as int]);
        }
        i += 1;
    }
    proof {
        assert(g.take(g.len() as int) =~= g);
    }
    out
}

/// The canonical record a checkpoint event narrows to, once its index
/// fits the canonical width.
pub open spec fn checkpoint_of(e: RawCheckpointEvent, outbox_domain: u32) -> CheckpointWithMeta {
    CheckpointWithMeta {
        checkpoint: Checkpoint { outbox_domain, root: e.root, index: e.index as u32 },
        metadata: CheckpointMeta { block_number: e.block_number },
    }
}


/// The spec-level insert lands at one definite position: it is a
/// `Seq::insert` of the event there.
proof fn lemma_insert_ck_position(e: RawCheckpointEvent, u: Seq<RawCheckpointEvent>)
    ensures
        exists|j: int| 0 <= j <= u.len() && insert_ck(e, u) == u.insert(j, e),
    decreases u.len(),
{
    if u.len() == 0 {
        assert(insert_ck(e, u) =~= u.insert(0, e));
        assert(0 <= 0 <= u.len() && insert_ck(e, u) == u.insert(0, e));
    } else if ck_lt(e, u[0]) {
        assert(insert_ck(e, u) =~= u.insert(0, e));
        assert(0 <= 0 <= u.len() && insert_ck(e, u) == u.insert(0, e));
    } else {
        let t = u.drop_first();
        lemma_insert_ck_position(e, t);
        let j = choose|j: int| 0 <= j <= t.len() && insert_ck(e, t) == t.insert(j, e);
        assert(insert_ck(e, u) =~= u.insert(j + 1, e));
        assert(0 <= j + 1 <= u.len() && insert_ck(e, u) == u.insert(j + 1, e));
    }
}

/// An out-of-range index seen anywhere in the sorted sequence came from
/// some input event.
proof fn lemma_sort_cks_big_from_input(s: Seq<RawCheckpointEvent>, i: int)
    requires
        0 <= i < sort_cks(s).len(),
        sort_cks(s)[i].index > u32::MAX,
    ensures
        exists|k: int| 0 <= k < s.len() && (#[trigger] s[k]).index > u32::MAX,
    decreases s.len(),
{
    let t = s.drop_last();
    let e = s.last();
    let u = sort_cks(t);
    lemma_insert_ck_position(e, u);
    let j = choose|j: int| 0 <= j <= u.len() && insert_ck(e, u) == u.insert(j, e);
    assert(sort_cks(s) == u.insert(j, e));
    if i == j {
        assert(u.insert(j, e)[j] == e);
        assert(s[s.len() - 1].index > u32::MAX);
    } else {
        let ip = if i < j { i } else { i - 1 };
        assert(u.insert(j, e)[i] == u[ip]);
        lemma_sort_cks_big_from_input(t, ip);
        let k = choose|k: int| 0 <= k < t.len() && (#[trigger] t[k]).index > u32::MAX;
        assert(s[k].index > u32::MAX);
    }
}

/// Fetches the checkpoint-cache events of one queried block range in
/// canonical order: events are sorted ascending by `(block_number,
/// transaction_index)` — ties within a block resolve by transaction
/// position — then mapped, with the outbox's domain attached, into
/// canonical checkpoints. An out-of-range checkpoint index is a decode
/// failure, never a silent truncation.
pub fn fetch_sorted_checkpoints(events: Vec<RawCheckpointEvent>, outbox_domain: u32) -> (r:
    ChainResult<Vec<CheckpointWithMeta>>)
    ensures
        r matches Ok(out) ==> out@ == sort_cks(events@).map_values(
            |e: RawCheckpointEvent| checkpoint_of(e, outbox_domain),
        ) && out@.len() == events@.len(),
        r matches Ok(out) ==> forall|i: int, j: int|
            0 <= i < j < out@.len() ==> (#[trigger] out@[i]).metadata.block_number <= (
            #[trigger] out@[j]).metadata.block_number,
        r matches Ok(out) ==> forall|k: int|
            0 <= k < events@.len() ==> (#[trigger] events@[k]).index <= u32::MAX,
        r matches Err(e) ==> e == ChainCommunicationError::DecodeError && exists|k: int|
            0 <= k < events@.len() && (#[trigger] events@[k]).index > u32::MAX,
        (forall|k: int| 0 <= k < events@.len() ==> (#[trigger] events@[k]).index <= u32::MAX)
            ==> r is Ok,
{
    let ghost g = events@;
    let sorted = sort_checkpoint_events(&events);
    proof {
        lemma_sort_cks_sorted(g);
    }
    let mut out: Vec<CheckpointWithMeta> = Vec::new();
    let mut i: usize = 0;
    proof {
        assert(sorted@.take(0).map_values(
            |e: RawCheckpointEvent| checkpoint_of(e, outbox_domain),
        ) =~= Seq::<CheckpointWithMeta>::empty());
    }
    while i < sorted.len()
        invariant
            g == events@,
            i <= sorted.len(),
            sorted@ == sort_cks(g),
            cks_sorted(sorted@),
            sorted@.len() == g.len(),
            forall|k: int| 0 <= k < i ==> (#[trigger] sorted@[k]).index <= u32::MAX,
            out@ == sorted@.take(i as int).map_values(
                |e: RawCheckpointEvent| checkpoint_of(e, outbox_domain),
            ),
        decreases sorted.len() - i,
    {
        let e = sorted[i];
        if e.index > u32::MAX as u64 {
            proof {
                lemma_sort_cks_big_from_input(g, i as int);
                let k = choose|k: int| 0 <= k < g.len() && (#[trigger] g[k]).index > u32::MAX;
                assert(events@[k].index > u32::MAX);
            }
            return Err(ChainCommunicationError::DecodeError);
        }
        out.push(
            CheckpointWithMeta {
                checkpoint: Checkpoint {
                    outbox_domain,
                    root: e.root,
                    index: e.index as u32,
                },
                metadata: CheckpointMeta { block_number: e.block_number },
            },
        );
        proof {
            assert(out@ =~= sorted@.take(i + 1).map_values(
                |e: RawCheckpointEvent| checkpoint_of(e, outbox_domain),
            ));
        }
        i += 1;
    }
    proof {
        assert(sorted@.take(sorted@.len() as int) =~= sorted@);
        assert forall|k: int| 0 <= k < g.len() implies (#[trigger] g[k]).index <= u32::MAX by {
            if g[k].index > u32::MAX {
                lemma_sort_cks_keeps_big(g, k);
                let i0 = choose|i0: int|
                    0 <= i0 < sort_cks(g).len() && (#[trigger] sort_cks(g)[i0]).index > u32::MAX;
                assert(sorted@[i0].index <= u32::MAX);
            }
        }
        assert forall|i2: int, j2: int| 0 <= i2 < j2 < out@.len() implies (
        #[trigger] out@[i2]).metadata.block_number <= (
        #[trigger] out@[j2]).metadata.block_number by {
            assert(ck_le(sorted@[i2], sorted@[j2]));
        }
    }
    Ok(out)
}

/// An out-of-range index in the input survives into the sorted sequence.
proof fn lemma_sort_cks_keeps_big(s: Seq<RawCheckpointEvent>, k: int)
    requires
        0 <= k < s.len(),
        s[k].index > u32::MAX,
    ensures
        exists|i: int| 0 <= i < sort_cks(s).len() && (#[trigger] sort_cks(s)[i]).index > u32::MAX,
    decreases s.len(),
{
    let t = s.drop_last();
    let e = s.last();
    let u = sort_cks(t);
    lemma_insert_ck_position(e, u);
    let j = choose|j: int| 0 <= j <= u.len() && insert_ck(e, u) == u.insert(j, e);
    assert(sort_cks(s) == u.insert(j, e));
    lemma_sort_cks_sorted(t);
    if k == s.len() - 1 {
        assert(u.insert(j, e)[j] == e);
        assert(sort_cks(s)[j].index > u32::MAX);
    } else {
        assert(t[k].index > u32::MAX);
        lemma_sort_cks_keeps_big(t, k);
        let i0 = choose|i0: int|
            0 <= i0 < u.len() && (#[trigger] u[i0]).index > u32::MAX;
        let ip = if i0 < j { i0 } else { i0 + 1 };
        assert(u.insert(j, e)[ip] == u[i0]);
        assert(sort_cks(s)[ip].index > u32::MAX);
    }
}

/// An insert adds exactly the inserted record to the collection of
/// records.
proof fn lemma_insert_msg_multiset(m: RawCommittedMessage, s: Seq<RawCommittedMessage>)
    ensures
        insert_msg(m, s).to_multiset() == s.to_multiset().insert(m),
    decreases s.len(),
{
    broadcast use vstd::seq_lib::group_to_multiset_ensures;
    broadcast use vstd::multiset::group_multiset_axioms;

    if s.len() == 0 {
        assert(seq![m] =~= Seq::<RawCommittedMessage>::empty().push(m));
        assert(insert_msg(m, s).to_multiset() =~= s.to_multiset().insert(m));
    } else if m.leaf_index < s[0].leaf_index {
        vstd::seq_lib::lemma_multiset_commutative(seq![m], s);
        assert(seq![m] =~= Seq::<RawCommittedMessage>::empty().push(m));
        assert(insert_msg(m, s).to_multiset() =~= s.to_multiset().insert(m));
    } else {
        let t = s.drop_first();
        lemma_insert_msg_multiset(m, t);
        vstd::seq_lib::lemma_multiset_commutative(seq![s[0]], insert_msg(m, t));
        assert(s =~= seq![s[0]] + t);
        vstd::seq_lib::lemma_multiset_commutative(seq![s[0]], t);
        assert(seq![s[0]] =~= Seq::<RawCommittedMessage>::empty().push(s[0]));
        assert(insert_msg(m, s).to_multiset() =~= s.to_multiset().insert(m));
    }
}

/// Sorting neither drops, duplicates nor invents a record: the sorted
/// sequence holds exactly the records of the input.
pub proof fn lemma_sort_msgs_multiset(s: Seq<RawCommittedMessage>)
    ensures
        sort_msgs(s).to_multiset() == s.to_multiset(),
    decreases s.len(),
{
    broadcast use vstd::seq_lib::group_to_multiset_ensures;

    if s.len() > 0 {
        let t = s.drop_last();
        lemma_sort_msgs_multiset(t);
        lemma_insert_msg_multiset(s.last(), sort_msgs(t));
        assert(s =~= t.push(s.last()));
    }
}

/// An insert adds exactly the inserted event to the collection of
/// events.
proof fn lemma_insert_ck_multiset(e: RawCheckpointEvent, s: Seq<RawCheckpointEvent>)
    ensures
        insert_ck(e, s).to_multiset() == s.to_multiset().insert(e),
    decreases s.len(),
{
    broadcast use vstd::seq_lib::group_to_multiset_ensures;
    broadcast use vstd::multiset::group_multiset_axioms;

    if s.len() == 0 {
        assert(seq![e] =~= Seq::<RawCheckpointEvent>::empty().push(e));
        assert(insert_ck(e, s).to_multiset() =~= s.to_multiset().insert(e));
    } else if ck_lt(e, s[0]) {
        vstd::seq_lib::lemma_multiset_commutative(seq![e], s);
        assert(seq![e] =~= Seq::<RawCheckpointEvent>::empty().push(e));
        assert(insert_ck(e, s).to_multiset() =~= s.to_multiset().insert(e));
    } else {
        let t = s.drop_first();
        lemma_insert_ck_multiset(e, t);
        vstd::seq_lib::lemma_multiset_commutative(seq![s[0]], insert_ck(e, t));
        assert(s =~= seq![s[0]] + t);
        vstd::seq_lib::lemma_multiset_commutative(seq![s[0]], t);
        assert(seq![s[0]] =~= Seq::<RawCheckpointEvent>::empty().push(s[0]));
        assert(insert_ck(e, s).to_multiset() =~= s.to_multiset().insert(e));
    }
}

/// Sorting neither drops, duplicates nor invents an event: the sorted
/// sequence holds exactly the events of the input.
pub proof fn lemma_sort_cks_multiset(s: Seq<RawCheckpointEvent>)
    ensures
        sort_cks(s).to_multiset() == s.to_multiset(),
    decreases s.len(),
{
    broadcast use vstd::seq_lib::group_to_multiset_ensures;

    if s.len() > 0 {
        let t = s.drop_last();
        lemma_sort_cks_multiset(t);
        lemma_insert_ck_multiset(s.last(), sort_cks(t));
        assert(s =~= t.push(s.last()));
    }
}

/// No two events of `s` share an ordering key.
pub open spec fn cks_keys_distinct(s: Seq<RawCheckpointEvent>) -> bool {
    forall|i: int, j: int|
        0 <= i < j < s.len() ==> !((#[trigger] s[i]).block_number == (
        #[trigger] s[j]).block_number && s[i].transaction_index == s[j].transaction_index)
}

/// Two ascending sequences with pairwise-distinct keys that hold the
/// same events are the same sequence.
proof fn lemma_cks_sorted_unique(a: Seq<RawCheckpointEvent>, b: Seq<RawCheckpointEvent>)
    requires
        cks_sorted(a),
        cks_sorted(b),
        cks_keys_distinct(a),
        a.to_multiset() == b.to_multiset(),
    ensures
        a == b,
    decreases a.len(),
{
    broadcast use vstd::seq_lib::group_to_multiset_ensures;

    if a.len() == 0 {
        assert(a.to_multiset().len() == a.len());
        assert(b.to_multiset().len() == b.len());
        assert(a =~= b);
    } else {
        assert(b.to_multiset().len() == b.len());
        assert(b.len() > 0);
        assert(b[0] == b.first());
        assert(b.contains(b[0]));
        assert(a.to_multiset().count(b[0]) > 0);
        assert(a.contains(b[0]));
        let k = choose|k: int| 0 <= k < a.len() && a[k] == b[0];
        assert(a[0] == a.first());
        assert(a.contains(a[0]));
        assert(b.to_multiset().count(a[0]) > 0);
        assert(b.contains(a[0]));
        let l = choose|l: int| 0 <= l < b.len() && b[l] == a[0];
        if k != 0 {
            assert(ck_le(a[0], a[k]));
            assert(ck_le(b[0], b[l]));
            // the heads bound each other, so their keys agree — but then
            // a[0] and a[k] would share a key
            assert(a[0].block_number == a[k].block_number && a[0].transaction_index
                == a[k].transaction_index);
        }
        assert(a[0] == b[0]);
        assert(a.remove(0) =~= a.drop_first());
        assert(b.remove(0) =~= b.drop_first());
        assert(a.drop_first().to_multiset() == a.to_multiset().remove(a[0]));
        assert(b.drop_first().to_multiset() == b.to_multiset().remove(b[0]));
        let ta = a.drop_first();
        let tb = b.drop_first();
        assert(cks_sorted(ta)) by {
            assert forall|i: int, j: int| 0 <= i < j < ta.len() implies ck_le(
                #[trigger] ta[i],
                #[trigger] ta[j],
            ) by {
                assert(ck_le(a[i + 1], a[j + 1]));
            }
        }
        assert(cks_sorted(tb)) by {
            assert forall|i: int, j: int| 0 <= i < j < tb.len() implies ck_le(
                #[trigger] tb[i],
                #[trigger] tb[j],
            ) by {
                assert(ck_le(b[i + 1], b[j + 1]));
            }
        }
        assert(cks_keys_distinct(ta)) by {
            assert forall|i: int, j: int| 0 <= i < j < ta.len() implies !((
            #[trigger] ta[i]).block_number == (#[trigger] ta[j]).block_number
                && ta[i].transaction_index == ta[j].transaction_index) by {
                assert(!(a[i + 1].block_number == a[j + 1].block_number && a[i
                    + 1].transaction_index == a[j + 1].transaction_index));
            }
        }
        lemma_cks_sorted_unique(ta, tb);
        assert(a.to_multiset().len() == a.len());
        assert(a.len() == b.len());
        assert forall|i: int| 0 <= i < a.len() implies a[i] == b[i] by {
            if i > 0 {
                assert(ta[i - 1] == tb[i - 1]);
                assert(a[i] == ta[i - 1]);
                assert(b[i] == tb[i - 1]);
            }
        }
        assert(a =~= b);
    }
}

/// The canonical order does not depend on the order events arrived from
/// the underlying query: two arrival orders of the same events — with
/// no key observed twice — sort to the same sequence.
pub proof fn lemma_sort_cks_order_independent(s1: Seq<RawCheckpointEvent>, s2: Seq<RawCheckpointEvent>)
    requires
        s1.to_multiset() == s2.to_multiset(),
        cks_keys_distinct(s1),
        cks_keys_distinct(s2),
    ensures
        sort_cks(s1) == sort_cks(s2),
{
    lemma_sort_cks_sorted(s1);
    lemma_sort_cks_sorted(s2);
    lemma_sort_cks_multiset(s1);
    lemma_sort_cks_multiset(s2);
    lemma_cks_distinct_preserved(s1);
    lemma_cks_sorted_unique(sort_cks(s1), sort_cks(s2));
}

/// Sorting keeps keys pairwise distinct.
proof fn lemma_cks_distinct_preserved(s: Seq<RawCheckpointEvent>)
    requires
        cks_keys_distinct(s),
    ensures
        cks_keys_distinct(sort_cks(s)),
    decreases s.len(),
{
    if s.len() > 0 {
        let t = s.drop_last();
        let e = s.last();
        assert(cks_keys_distinct(t)) by {
            assert forall|i: int, j: int| 0 <= i < j < t.len() implies !((
            #[trigger] t[i]).block_number == (#[trigger] t[j]).block_number
                && t[i].transaction_index == t[j].transaction_index) by {
                assert(!(s[i].block_number == s[j].block_number && s[i].transaction_index
                    == s[j].transaction_index));
            }
        }
        lemma_cks_distinct_preserved(t);
        lemma_sort_cks_sorted(t);
        let u = sort_cks(t);
        assert forall|i: int| 0 <= i < u.len() implies !((#[trigger] u[i]).block_number
            == e.block_number && u[i].transaction_index == e.transaction_index) by {
            lemma_sort_cks_key_from_input(t, i);
            let k = choose|k: int|
                0 <= k < t.len() && (#[trigger] t[k]).block_number == u[i].block_number && t[
                    k
                ].transaction_index == u[i].transaction_index;
            assert(!(s[k].block_number == s[s.len() - 1].block_number && s[k].transaction_index
                == s[s.len() - 1].transaction_index));
        }
        lemma_insert_ck_position(e, u);
        let j = choose|j: int| 0 <= j <= u.len() && insert_ck(e, u) == u.insert(j, e);
        assert(sort_cks(s) == u.insert(j, e));
        let r = u.insert(j, e);
        assert forall|i1: int, j1: int| 0 <= i1 < j1 < r.len() implies !((
        #[trigger] r[i1]).block_number == (#[trigger] r[j1]).block_number
            && r[i1].transaction_index == r[j1].transaction_index) by {
            if i1 == j {
                let oj = if j1 < j { j1 } else { j1 - 1 };
                assert(r[j1] == u[oj]);
            } else if j1 == j {
                let oi = if i1 < j { i1 } else { i1 - 1 };
                assert(r[i1] == u[oi]);
            } else {
                let oi = if i1 < j { i1 } else { i1 - 1 };
                let oj = if j1 < j { j1 } else { j1 - 1 };
                assert(r[i1] == u[oi]);
                assert(r[j1] == u[oj]);
            }
        }
    }
}

/// Every key of the sorted sequence is a key of the input.
proof fn lemma_sort_cks_key_from_input(s: Seq<RawCheckpointEvent>, i: int)
    requires
        0 <= i < sort_cks(s).len(),
    ensures
        exists|k: int|
            0 <= k < s.len() && (#[trigger] s[k]).block_number == sort_cks(s)[i].block_number && s[
                k
            ].transaction_index == sort_cks(s)[i].transaction_index,
    decreases s.len(),
{
    lemma_sort_cks_sorted(s);
    let t = s.drop_last();
    let e = s.last();
    let u = sort_cks(t);
    lemma_insert_ck_position(e, u);
    let j = choose|j: int| 0 <= j <= u.len() && insert_ck(e, u) == u.insert(j, e);
    assert(sort_cks(s) == u.insert(j, e));
    if i == j {
        assert(u.insert(j, e)[j] == e);
        assert(s[s.len() - 1].block_number == sort_cks(s)[i].block_number && s[s.len()
            - 1].transaction_index == sort_cks(s)[i].transaction_index);
    } else {
        let ip = if i < j { i } else { i - 1 };
        assert(u.insert(j, e)[i] == u[ip]);
        lemma_sort_cks_key_from_input(t, ip);
        let k = choose|k: int|
            0 <= k < t.len() && (#[trigger] t[k]).block_number == u[ip].block_number && t[
                k
            ].transaction_index == u[ip].transaction_index;
        assert(s[k].block_number == sort_cks(s)[i].block_number && s[k].transaction_index
            == sort_cks(s)[i].transaction_index);
    }
}

} // verus!
