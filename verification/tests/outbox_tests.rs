use mailbox_core::outbox::{
    checkpoint_from_raw, narrow_to_u32, resolve_lag_block, resolve_query_block, state_from_raw,
    tx_outcome_from_receipt, Outbox,
};
use mailbox_core::types::{ChainCommunicationError, ContractLocator, State};

fn locator() -> ContractLocator {
    ContractLocator { domain: 2000, address: [0x11; 32], name: String::from("testnet") }
}

#[test]
fn lag_beyond_the_tip_clamps_to_genesis() {
    // lag greater than the current tip resolves to block 0
    assert_eq!(resolve_lag_block(10, 11), 0);
    assert_eq!(resolve_lag_block(0, 1), 0);
    assert_eq!(resolve_lag_block(0, u64::MAX), 0);
}

#[test]
fn lag_within_the_tip_subtracts() {
    assert_eq!(resolve_lag_block(100, 30), 70);
    assert_eq!(resolve_lag_block(100, 100), 0);
    assert_eq!(resolve_lag_block(u64::MAX, 0), u64::MAX);
}

#[test]
fn no_lag_means_a_read_at_the_head() {
    assert_eq!(resolve_query_block(None, 100), None);
    assert_eq!(resolve_query_block(Some(30), 100), Some(70));
    assert_eq!(resolve_query_block(Some(200), 100), Some(0));
}

#[test]
fn state_maps_zero_and_one_and_rejects_the_rest() {
    assert_eq!(state_from_raw(0), Ok(State::Waiting));
    assert_eq!(state_from_raw(1), Ok(State::Failed));
    assert_eq!(state_from_raw(2), Err(ChainCommunicationError::InvariantViolation));
    assert_eq!(state_from_raw(255), Err(ChainCommunicationError::InvariantViolation));
}

#[test]
fn narrowing_is_loud_about_overflow() {
    assert_eq!(narrow_to_u32(7), Ok(7));
    assert_eq!(narrow_to_u32(u32::MAX as u64), Ok(u32::MAX));
    assert_eq!(
        narrow_to_u32(u32::MAX as u64 + 1),
        Err(ChainCommunicationError::DecodeError)
    );
}

#[test]
fn checkpoints_from_raw_reads_carry_the_domain() {
    let c = checkpoint_from_raw(2000, [0xcc; 32], 41).unwrap();
    assert_eq!(c.outbox_domain, 2000);
    assert_eq!(c.root, [0xcc; 32]);
    assert_eq!(c.index, 41);
    assert_eq!(
        checkpoint_from_raw(2000, [0xcc; 32], u32::MAX as u64 + 5),
        Err(ChainCommunicationError::DecodeError)
    );
}

#[test]
fn receipts_normalize_to_canonical_outcomes() {
    let ok = tx_outcome_from_receipt([0x01; 32], 1, 21000);
    assert!(ok.executed);
    assert_eq!(ok.txid, [0x01; 32]);
    assert_eq!(ok.gas_used, 21000);
    let failed = tx_outcome_from_receipt([0x02; 32], 0, 42);
    assert!(!failed.executed);
}

#[test]
fn outbox_identity_comes_from_the_locator() {
    let outbox = Outbox::new(locator());
    assert_eq!(outbox.local_domain(), 2000);
    assert_eq!(outbox.name(), "testnet");
    assert_eq!(outbox.address(), &[0x11; 32]);
    let c = outbox
        .latest_cached_checkpoint_from_raw([0xab; 32], 9)
        .unwrap();
    assert_eq!(c.outbox_domain, 2000);
    assert_eq!(c.index, 9);
}
