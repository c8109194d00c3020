//! Outbox adapter core: the chain-independent part of every outbox
//! operation. The transport performs the remote reads and submissions;
//! the functions here resolve snapshot heights, map raw on-chain values
//! into canonical ones, and range-check every narrowing.

use vstd::prelude::*;

use crate::types::{
    ChainCommunicationError, ChainResult, Checkpoint, ContractLocator, State, TxOutcome,
};

verus! {

/// The target height of a lag-based historical read: `lag` blocks behind
/// the tip, clamped to the genesis block rather than underflowing.
pub open spec fn lag_block_of(tip: u64, lag: u64) -> u64 {
    if lag > tip {
        0
    } else {
        (tip - lag) as u64
    }
}

/// Resolves the block a lagged read targets. A lag greater than the
/// current tip resolves to block 0, never a negative or wrapped value.
pub fn resolve_lag_block(tip: u64, lag: u64) -> (r: u64)
    ensures
        r == lag_block_of(tip, lag),
        lag > tip ==> r == 0,
        lag <= tip ==> r == tip - lag,
{
    if lag > tip {
        0
    } else {
        tip - lag
    }
}

/// Resolves the height a read should snapshot at: the current head when
/// no lag is given, else the lagged block. Called exactly once per read
/// so the snapshot stays consistent while the head advances.
pub fn resolve_query_block(maybe_lag: Option<u64>, tip: u64) -> (r: Option<u64>)
    ensures
        maybe_lag is None ==> r is None,
        maybe_lag matches Some(lag) ==> r == Some(lag_block_of(tip, lag)),
{
    match maybe_lag {
        None => None,
        Some(lag) => Some(resolve_lag_block(tip, lag)),
    }
}

/// Maps the raw on-chain outbox state value into the canonical lifecycle
/// flag: 0 is Waiting and 1 is Failed. Any other raw value means the
/// adapter's assumptions about the contract are stale: that is the fatal
/// invariant violation, never a silently coerced state.
pub fn state_from_raw(raw: u8) -> (r: ChainResult<State>)
    ensures
        raw == 0 ==> r == Ok::<State, ChainCommunicationError>(State::Waiting),
        raw == 1 ==> r == Ok::<State, ChainCommunicationError>(State::Failed),
        raw > 1 ==> r == Err::<State, ChainCommunicationError>(
            ChainCommunicationError::InvariantViolation,
        ),
{
    match raw {
        0 => Ok(State::Waiting),
        1 => Ok(State::Failed),
        _ => Err(ChainCommunicationError::InvariantViolation),
    }
}

/// Narrows a wide on-chain counter into the canonical 32-bit width. An
/// out-of-range value is a decode failure, never a silent truncation.
pub fn narrow_to_u32(n: u64) -> (r: ChainResult<u32>)
    ensures
        n <= u32::MAX ==> r == Ok::<u32, ChainCommunicationError>(n as u32),
        n > u32::MAX ==> r == Err::<u32, ChainCommunicationError>(
            ChainCommunicationError::DecodeError,
        ),
{
    if n > u32::MAX as u64 {
        Err(ChainCommunicationError::DecodeError)
    } else {
        Ok(n as u32)
    }
}

/// Builds the canonical checkpoint out of the raw values a state read
/// returned, range-checking the wide on-chain index.
pub fn checkpoint_from_raw(outbox_domain: u32, root: [u8; 32], index: u64) -> (r: ChainResult<
    Checkpoint,
>)
    ensures
        index <= u32::MAX ==> r == Ok::<Checkpoint, ChainCommunicationError>(
            Checkpoint { outbox_domain, root, index: index as u32 },
        ),
        index > u32::MAX ==> r == Err::<Checkpoint, ChainCommunicationError>(
            ChainCommunicationError::DecodeError,
        ),
{
    match narrow_to_u32(index) {
        Ok(i) => Ok(Checkpoint { outbox_domain, root, index: i }),
        Err(e) => Err(e),
    }
}

/// Normalizes a raw transaction receipt into the canonical outcome: a
/// receipt status of 1 is success, anything else is failure.
pub fn tx_outcome_from_receipt(txid: [u8; 32], status: u64, gas_used: u64) -> (r: TxOutcome)
    ensures
        r.txid == txid,
        r.executed == (status == 1),
        r.gas_used == gas_used,
{
    TxOutcome { txid, executed: status == 1, gas_used }
}

/// A reference to an outbox contract on some chain: the static identity
/// every adapter instance carries. The transport handle that performs the
/// remote calls lives with the caller.
pub struct Outbox {
    domain: u32,
    name: String,
    address: [u8; 32],
}

impl Outbox {
    /// The domain this outbox was located on.
    pub closed spec fn spec_domain(&self) -> u32 {
        self.domain
    }

    /// The chain name this outbox was located with.
    pub closed spec fn spec_name(&self) -> Seq<char> {
        self.name@
    }

    /// The contract address this outbox was located at.
    pub closed spec fn spec_address(&self) -> Seq<u8> {
        self.address@
    }

    /// Creates a reference to the outbox a locator names.
    pub fn new(locator: ContractLocator) -> (r: Self)
        ensures
            r.spec_domain() == locator.domain,
            r.spec_name() == locator.name@,
            r.spec_address() == locator.address@,
    {
        Outbox { domain: locator.domain, name: locator.name, address: locator.address }
    }

    /// Static identity: the local domain id; no network call.
    pub fn local_domain(&self) -> (r: u32)
        ensures
            r == self.spec_domain(),
    {
        self.domain
    }

    /// Static identity: the chain name; no network call.
    pub fn name(&self) -> (r: &str)
        ensures
            r@ == self.spec_name(),
    {
        self.name.as_str()
    }

    /// The contract address, as the canonical 32-byte identifier.
    pub fn address(&self) -> (r: &[u8; 32])
        ensures
            r@ == self.spec_address(),
    {
        &self.address
    }

    /// Builds the canonical checkpoint out of a raw latest-cached-
    /// checkpoint read against this outbox, attaching the local domain.
    pub fn latest_cached_checkpoint_from_raw(&self, root: [u8; 32], index: u64) -> (r: ChainResult<
        Checkpoint,
    >)
        ensures
            index <= u32::MAX ==> r == Ok::<Checkpoint, ChainCommunicationError>(
                Checkpoint { outbox_domain: self.spec_domain(), root, index: index as u32 },
            ),
            index > u32::MAX ==> r == Err::<Checkpoint, ChainCommunicationError>(
                ChainCommunicationError::DecodeError,
            ),
    {
        checkpoint_from_raw(self.domain, root, index)
    }
}

} // verus!
