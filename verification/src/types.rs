//! Canonical data model shared by every chain adapter.

use vstd::prelude::*;

verus! {

/// Identifies one deployed contract instance; immutable once constructed.
pub struct ContractLocator {
    /// Numeric identifier of the chain this contract lives on.
    pub domain: u32,
    /// 32-byte chain-native identifier of the contract.
    pub address: [u8; 32],
    /// Human-readable name of the chain.
    pub name: String,
}

/// Canonical wire payload; identical layout on every chain.
pub struct Message {
    /// Domain of the origin chain.
    pub origin: u32,
    /// Address of the sender on the origin chain.
    pub sender: [u8; 32],
    /// Domain of the destination chain.
    pub destination: u32,
    /// Address of the recipient on the destination chain.
    pub recipient: [u8; 32],
    /// Position of this message in the dispatch sequence.
    pub nonce: u32,
    /// Opaque message body.
    pub body: Vec<u8>,
}

/// A dispatched message together with its position in the append-only
/// leaf sequence.
#[derive(Debug, PartialEq, Eq)]
pub struct RawCommittedMessage {
    /// Position in the leaf sequence; unique per outbox.
    pub leaf_index: u32,
    /// The message's canonical wire bytes.
    pub message: Vec<u8>,
}

/// A snapshot commitment of the message tree's state at a given leaf count.
#[derive(Debug, PartialEq, Eq, Clone, Copy)]
pub struct Checkpoint {
    /// Domain of the outbox that produced this checkpoint.
    pub outbox_domain: u32,
    /// Root of the message tree at the checkpointed leaf count.
    pub root: [u8; 32],
    /// Leaf count the root commits to.
    pub index: u32,
}

/// Block-level metadata attached to an observed checkpoint event.
#[derive(Debug, PartialEq, Eq, Clone, Copy)]
pub struct CheckpointMeta {
    /// Height at which the checkpoint event was observed.
    pub block_number: u64,
}

/// A checkpoint together with the observation height used for
/// ordering and auditing.
#[derive(Debug, PartialEq, Eq, Clone, Copy)]
pub struct CheckpointWithMeta {
    /// The canonical checkpoint.
    pub checkpoint: Checkpoint,
    /// Observation metadata.
    pub metadata: CheckpointMeta,
}

/// Normalized transaction result, chain-agnostic.
#[derive(Debug, PartialEq, Eq, Clone, Copy)]
pub struct TxOutcome {
    /// Chain-native transaction identifier.
    pub txid: [u8; 32],
    /// Whether the transaction executed successfully.
    pub executed: bool,
    /// Gas spent executing the transaction.
    pub gas_used: u64,
}

/// Estimated costs of processing one message, from a read-only simulation.
#[derive(Debug, PartialEq, Eq, Clone, Copy)]
pub struct TxCostEstimate {
    /// Gas limit the submission should carry.
    pub gas_limit: u128,
    /// Gas price the estimate was made at.
    pub gas_price: u128,
}

/// One entry of an atomic multi-message submission.
pub struct BatchItem {
    /// The message to process.
    pub message: Message,
}

/// Outbox lifecycle flag, owned exclusively by on-chain contract logic.
#[derive(Debug, PartialEq, Eq, Structural, Clone, Copy)]
pub enum State {
    /// The outbox is accepting dispatches.
    Waiting,
    /// The outbox has been halted.
    Failed,
}

/// Failure taxonomy of every fallible adapter operation.
#[derive(Debug, PartialEq, Eq, Structural, Clone, Copy)]
pub enum ChainCommunicationError {
    /// Transport/RPC failure; retryable by the caller.
    TransportError,
    /// Capability-negotiation signal: atomic batching is not supported.
    BatchingFailed,
    /// Malformed or unexpected response shape; non-retryable.
    DecodeError,
    /// The adapter's assumptions about contract semantics are stale;
    /// fatal, never retried.
    InvariantViolation,
}

/// Fallible adapter operations return this.
pub type ChainResult<T> = Result<T, ChainCommunicationError>;

} // verus!
