use mailbox_core::indexer::{
    fetch_sorted_checkpoints, fetch_sorted_messages, RawCheckpointEvent, RawDispatchEvent,
};
use mailbox_core::types::ChainCommunicationError;

fn dispatch(leaf_index: u64, message: &[u8]) -> RawDispatchEvent {
    RawDispatchEvent { leaf_index, message: message.to_vec() }
}

fn ck(root_tag: u8, index: u64, block_number: u64, transaction_index: u64) -> RawCheckpointEvent {
    RawCheckpointEvent { root: [root_tag; 32], index, block_number, transaction_index }
}

#[test]
fn messages_observed_out_of_order_come_back_by_leaf_index() {
    // dispatch events with leaf_index 5 and 3 in a queried range [3,5]
    let events = vec![dispatch(5, b"five"), dispatch(3, b"three")];
    let out = fetch_sorted_messages(events).unwrap();
    assert_eq!(out.len(), 2);
    assert_eq!(out[0].leaf_index, 3);
    assert_eq!(out[0].message, b"three".to_vec());
    assert_eq!(out[1].leaf_index, 5);
    assert_eq!(out[1].message, b"five".to_vec());

    // same events, the other retrieval order: same result
    let events = vec![dispatch(3, b"three"), dispatch(5, b"five")];
    let out = fetch_sorted_messages(events).unwrap();
    assert_eq!(out[0].leaf_index, 3);
    assert_eq!(out[1].leaf_index, 5);
}

#[test]
fn messages_sort_is_strictly_increasing_over_many_events() {
    let events = vec![
        dispatch(9, b"i"),
        dispatch(2, b"c"),
        dispatch(7, b"g"),
        dispatch(0, b"a"),
        dispatch(4, b"e"),
    ];
    let out = fetch_sorted_messages(events).unwrap();
    let leafs: Vec<u32> = out.iter().map(|m| m.leaf_index).collect();
    assert_eq!(leafs, vec![0, 2, 4, 7, 9]);
    for w in out.windows(2) {
        assert!(w[0].leaf_index < w[1].leaf_index);
    }
}

#[test]
fn message_leaf_index_wider_than_u32_is_a_decode_failure() {
    let events = vec![dispatch(3, b"ok"), dispatch(u32::MAX as u64 + 1, b"too wide")];
    let err = fetch_sorted_messages(events).unwrap_err();
    assert_eq!(err, ChainCommunicationError::DecodeError);

    // the boundary itself still fits
    let events = vec![dispatch(u32::MAX as u64, b"edge")];
    let out = fetch_sorted_messages(events).unwrap();
    assert_eq!(out[0].leaf_index, u32::MAX);
}

#[test]
fn empty_ranges_yield_empty_sequences() {
    assert!(fetch_sorted_messages(Vec::new()).unwrap().is_empty());
    assert!(fetch_sorted_checkpoints(Vec::new(), 1).unwrap().is_empty());
}

#[test]
fn checkpoint_ties_resolve_by_transaction_position() {
    // two checkpoint-cache events at block_number 100, transaction
    // positions 2 and 0: the position-0 event comes first
    let events = vec![ck(0xaa, 7, 100, 2), ck(0xbb, 6, 100, 0)];
    let out = fetch_sorted_checkpoints(events, 42).unwrap();
    assert_eq!(out.len(), 2);
    assert_eq!(out[0].checkpoint.root, [0xbb; 32]);
    assert_eq!(out[0].checkpoint.index, 6);
    assert_eq!(out[1].checkpoint.root, [0xaa; 32]);
    assert_eq!(out[1].checkpoint.index, 7);
    // both carry the queried domain and their own block number
    assert_eq!(out[0].checkpoint.outbox_domain, 42);
    assert_eq!(out[1].checkpoint.outbox_domain, 42);
    assert_eq!(out[0].metadata.block_number, 100);
}

#[test]
fn checkpoints_sort_by_block_then_transaction_index() {
    let events = vec![
        ck(0x01, 10, 200, 1),
        ck(0x02, 9, 100, 5),
        ck(0x03, 8, 200, 0),
        ck(0x04, 7, 50, 9),
    ];
    let out = fetch_sorted_checkpoints(events, 7).unwrap();
    let roots: Vec<u8> = out.iter().map(|c| c.checkpoint.root[0]).collect();
    assert_eq!(roots, vec![0x04, 0x02, 0x03, 0x01]);
    for w in out.windows(2) {
        assert!(w[0].metadata.block_number <= w[1].metadata.block_number);
    }
}

#[test]
fn checkpoint_sort_is_stable_for_events_of_one_transaction() {
    // equal (block_number, transaction_index): log order is kept
    let events = vec![ck(0x10, 1, 100, 3), ck(0x20, 2, 100, 3), ck(0x30, 3, 99, 0)];
    let out = fetch_sorted_checkpoints(events, 1).unwrap();
    assert_eq!(out[0].checkpoint.root, [0x30; 32]);
    assert_eq!(out[1].checkpoint.root, [0x10; 32]);
    assert_eq!(out[2].checkpoint.root, [0x20; 32]);
}

#[test]
fn checkpoint_order_does_not_depend_on_arrival_order() {
    let a = vec![ck(0x01, 1, 100, 2), ck(0x02, 2, 100, 0), ck(0x03, 3, 90, 7)];
    let b = vec![ck(0x03, 3, 90, 7), ck(0x01, 1, 100, 2), ck(0x02, 2, 100, 0)];
    let out_a = fetch_sorted_checkpoints(a, 1).unwrap();
    let out_b = fetch_sorted_checkpoints(b, 1).unwrap();
    assert_eq!(out_a, out_b);
    assert_eq!(out_a[0].checkpoint.root, [0x03; 32]);
    assert_eq!(out_a[1].checkpoint.root, [0x02; 32]);
    assert_eq!(out_a[2].checkpoint.root, [0x01; 32]);
}

#[test]
fn checkpoint_index_wider_than_u32_is_a_decode_failure() {
    let events = vec![ck(0x01, 3, 10, 0), ck(0x02, u32::MAX as u64 + 1, 11, 0)];
    let err = fetch_sorted_checkpoints(events, 3).unwrap_err();
    assert_eq!(err, ChainCommunicationError::DecodeError);
}
