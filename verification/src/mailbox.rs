//! Mailbox capability interface: the message-processing side of a
//! cross-chain messaging contract, abstracted over chains.
//!
//! Every chain adapter implements this trait. Operations that need the
//! chain are declared only; the domain hash and the batching default are
//! chain-independent and come with bodies.

use vstd::prelude::*;

use crate::encode::{push_address, push_u32_be, u32_be};
use crate::types::{
    BatchItem, ChainCommunicationError, ChainResult, Message, TxCostEstimate, TxOutcome,
};

verus! {

/// What Keccak-256 yields for a given input: a 32-byte digest depending
/// on the input bytes alone.
pub uninterp spec fn keccak_of(data: Seq<u8>) -> Seq<u8>;

/// Relies on sha3::Keccak256 (Digest::digest): hashes the input bytes;
/// the digest depends on them alone and is 32 bytes wide.
#[verifier::external_body]
fn keccak256(data: &[u8]) -> (r: [u8; 32])
    ensures
        r@ == keccak_of(data@),
{
    let digest = <sha3::Keccak256 as sha3::Digest>::digest(data);
    let mut out = [0u8; 32];
    out.copy_from_slice(&digest);
    out
}

/// The preimage of a mailbox's domain hash: the domain id in big-endian
/// bytes, the contract address, then the ASCII tag `HYPERLANE`.
pub open spec fn domain_hash_preimage(address: Seq<u8>, domain: u32) -> Seq<u8> {
    u32_be(domain) + address + seq![72u8, 89u8, 80u8, 69u8, 82u8, 76u8, 65u8, 78u8, 69u8]
}

/// Builds the domain-hash preimage for one mailbox contract.
pub fn domain_hash_preimage_bytes(address: &[u8; 32], domain: u32) -> (r: Vec<u8>)
    ensures
        r@ == domain_hash_preimage(address@, domain),
{
    let mut v: Vec<u8> = Vec::new();
    push_u32_be(&mut v, domain);
    push_address(&mut v, address);
    v.push(72u8);
    v.push(89u8);
    v.push(80u8);
    v.push(69u8);
    v.push(82u8);
    v.push(76u8);
    v.push(65u8);
    v.push(78u8);
    v.push(69u8);
    proof {
        assert(v@ =~= domain_hash_preimage(address@, domain));
    }
    v
}

/// The capability-negotiation default: atomic multi-message submission
/// is not supported, signalled by the batching-unsupported failure for
/// every input — nothing is ever partially executed. Callers probe batch
/// support generically by recognizing this signal and falling back to
/// sequential processing.
pub fn process_batch_unsupported(_messages: &[BatchItem]) -> (r: ChainResult<TxOutcome>)
    ensures
        r == Err::<TxOutcome, ChainCommunicationError>(ChainCommunicationError::BatchingFailed),
{
    Err(ChainCommunicationError::BatchingFailed)
}

/// The domain hash of one mailbox contract: the Keccak-256 digest of
/// the domain-hash preimage.
pub fn mailbox_domain_hash(address: &[u8; 32], domain: u32) -> (r: [u8; 32])
    ensures
        r@ == keccak_of(domain_hash_preimage(address@, domain)),
{
    let preimage = domain_hash_preimage_bytes(address, domain);
    keccak256(preimage.as_slice())
}

/// Interface for the mailbox chain contract. Allows abstraction over
/// different chains: the orchestrator holds any implementor and sees one
/// uniform contract surface. The chain-backed operations are declared
/// only — their behavior is the chain's — while the defaults delegate to
/// the verified, contract-carrying functions above.
pub trait Mailbox {
    /// The mailbox contract's address; static identity, no network call.
    fn address(&self) -> [u8; 32];

    /// The domain of the chain the mailbox lives on; static identity, no
    /// network call.
    fn domain(&self) -> u32;

    /// Return the domain hash: the Keccak-256 digest of the domain id,
    /// the contract address and the ASCII tag.
    fn domain_hash(&self) -> [u8; 32] {
        let addr = self.address();
        mailbox_domain_hash(&addr, self.domain())
    }

    /// Gets the current leaf count of the merkle tree; `lag` is how far
    /// behind the current block to query, if given.
    fn count(&self, lag: Option<u64>) -> ChainResult<u32>;

    /// Fetch the delivery status of a message by its id.
    fn delivered(&self, id: [u8; 32]) -> ChainResult<bool>;

    /// Fetch the current default interchain-security-module address.
    fn default_ism(&self) -> ChainResult<[u8; 32]>;

    /// Fetch the interchain-security-module address set for a recipient.
    fn recipient_ism(&self, recipient: [u8; 32]) -> ChainResult<[u8; 32]>;

    /// Process a message with a proof against the provided signed
    /// checkpoint.
    fn process(&self, message: &Message, metadata: &[u8], tx_gas_limit: Option<u128>) -> ChainResult<
        TxOutcome,
    >;

    /// Process several messages atomically. Batching is not supported by
    /// default: adapters that cannot batch return the recognizable
    /// batching-unsupported signal, and callers fall back to sequential
    /// `process` calls.
    fn process_batch(&self, messages: &[BatchItem]) -> ChainResult<TxOutcome> {
        process_batch_unsupported(messages)
    }

    /// Estimate transaction costs to process a message; a read-only
    /// simulation, no state mutation.
    fn process_estimate_costs(&self, message: &Message, metadata: &[u8]) -> ChainResult<
        TxCostEstimate,
    >;

    /// Get the calldata for a transaction to process a message with a
    /// proof against the provided signed checkpoint; pure local
    /// computation, no network call.
    fn process_calldata(&self, message: &Message, metadata: &[u8]) -> Vec<u8>;
}

} // verus!
