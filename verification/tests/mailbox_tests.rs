use mailbox_core::mailbox::{domain_hash_preimage_bytes, process_batch_unsupported, Mailbox};
use mailbox_core::types::{
    BatchItem, ChainCommunicationError, ChainResult, Message, TxCostEstimate, TxOutcome,
};
use sha3::Digest;

/// A minimal adapter that overrides none of the defaults.
struct PlainAdapter {
    address: [u8; 32],
    domain: u32,
}

impl Mailbox for PlainAdapter {
    fn address(&self) -> [u8; 32] {
        self.address
    }

    fn domain(&self) -> u32 {
        self.domain
    }

    fn count(&self, _lag: Option<u64>) -> ChainResult<u32> {
        Ok(0)
    }

    fn delivered(&self, _id: [u8; 32]) -> ChainResult<bool> {
        Ok(false)
    }

    fn default_ism(&self) -> ChainResult<[u8; 32]> {
        Ok([0; 32])
    }

    fn recipient_ism(&self, _recipient: [u8; 32]) -> ChainResult<[u8; 32]> {
        Ok([0; 32])
    }

    fn process(
        &self,
        _message: &Message,
        _metadata: &[u8],
        _tx_gas_limit: Option<u128>,
    ) -> ChainResult<TxOutcome> {
        Ok(TxOutcome { txid: [0; 32], executed: true, gas_used: 0 })
    }

    fn process_estimate_costs(
        &self,
        _message: &Message,
        _metadata: &[u8],
    ) -> ChainResult<TxCostEstimate> {
        Ok(TxCostEstimate { gas_limit: 0, gas_price: 0 })
    }

    fn process_calldata(&self, _message: &Message, _metadata: &[u8]) -> Vec<u8> {
        Vec::new()
    }
}

fn batch_of(n: usize) -> Vec<BatchItem> {
    (0..n)
        .map(|i| BatchItem {
            message: Message {
                origin: 1,
                sender: [0; 32],
                destination: 2,
                recipient: [0; 32],
                nonce: i as u32,
                body: Vec::new(),
            },
        })
        .collect()
}

#[test]
fn batching_is_unsupported_by_default() {
    let adapter = PlainAdapter { address: [0x33; 32], domain: 5 };
    let batch = batch_of(3);
    assert_eq!(
        adapter.process_batch(&batch).unwrap_err(),
        ChainCommunicationError::BatchingFailed
    );
    // a single-item batch signals the same way
    let one = batch_of(1);
    assert_eq!(
        adapter.process_batch(&one).unwrap_err(),
        ChainCommunicationError::BatchingFailed
    );
}

#[test]
fn the_unsupported_signal_is_the_batching_variant() {
    assert_eq!(
        process_batch_unsupported(&batch_of(2)).unwrap_err(),
        ChainCommunicationError::BatchingFailed
    );
    assert_eq!(
        process_batch_unsupported(&[]).unwrap_err(),
        ChainCommunicationError::BatchingFailed
    );
}

#[test]
fn domain_hash_preimage_is_domain_address_tag() {
    let preimage = domain_hash_preimage_bytes(&[0x44; 32], 0x01020304);
    let mut expected = vec![1u8, 2, 3, 4];
    expected.extend_from_slice(&[0x44; 32]);
    expected.extend_from_slice(b"HYPERLANE");
    assert_eq!(preimage, expected);
}

#[test]
fn domain_hash_is_the_keccak_of_the_preimage() {
    let adapter = PlainAdapter { address: [0x55; 32], domain: 7 };
    let got = adapter.domain_hash();
    let mut preimage = 7u32.to_be_bytes().to_vec();
    preimage.extend_from_slice(&[0x55; 32]);
    preimage.extend_from_slice(b"HYPERLANE");
    let expected: [u8; 32] = sha3::Keccak256::digest(&preimage).into();
    assert_eq!(got, expected);
}
