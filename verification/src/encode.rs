//! Canonical message wire layout:
//! `origin (4) | sender (32) | destination (4) | recipient (32) | nonce (4) | body`.
//! This exact byte sequence is what gets hashed and signed, so every
//! adapter must reproduce it bit for bit.

use vstd::prelude::*;

use crate::types::Message;

verus! {

/// Big-endian bytes of a 32-bit integer.
pub open spec fn u32_be(n: u32) -> Seq<u8> {
    seq![
        ((n >> 24) & 0xff) as u8,
        ((n >> 16) & 0xff) as u8,
        ((n >> 8) & 0xff) as u8,
        (n & 0xff) as u8,
    ]
}

/// The canonical wire bytes of a message.
pub open spec fn message_bytes(m: Message) -> Seq<u8> {
    u32_be(m.origin) + m.sender@ + u32_be(m.destination) + m.recipient@ + u32_be(m.nonce)
        + m.body@
}

/// Appends the big-endian bytes of `n`.
pub(crate) fn push_u32_be(v: &mut Vec<u8>, n: u32)
    ensures
        final(v)@ == old(v)@ + u32_be(n),
{
    v.push(((n >> 24) & 0xff) as u8);
    v.push(((n >> 16) & 0xff) as u8);
    v.push(((n >> 8) & 0xff) as u8);
    v.push((n & 0xff) as u8);
    proof {
        assert(v@ =~= old(v)@ + u32_be(n));
    }
}

/// Appends all 32 bytes of an address.
pub(crate) fn push_address(v: &mut Vec<u8>, a: &[u8; 32])
    ensures
        final(v)@ == old(v)@ + a@,
{
    let mut i: usize = 0;
    while i < 32
        invariant
            i <= 32,
            v@ == old(v)@ + a@.take(i as int),
        decreases 32 - i,
    {
        v.push(a[i]);
        proof {
            assert(v@ =~= old(v)@ + a@.take(i + 1));
        }
        i += 1;
    }
    proof {
        assert(a@.take(32) =~= a@);
    }
}

/// Encodes a message into its canonical wire bytes.
pub fn format_message(m: &Message) -> (r: Vec<u8>)
    ensures
        r@ == message_bytes(*m),
{
    let mut v: Vec<u8> = Vec::new();
    push_u32_be(&mut v, m.origin);
    push_address(&mut v, &m.sender);
    push_u32_be(&mut v, m.destination);
    push_address(&mut v, &m.recipient);
    push_u32_be(&mut v, m.nonce);
    let mut i: usize = 0;
    let ghost head = v@;
    while i < m.body.len()
        invariant
            i <= m.body.len(),
            v@ == head + m.body@.take(i as int),
        decreases m.body.len() - i,
    {
        v.push(m.body[i]);
        proof {
            assert(v@ =~= head + m.body@.take(i + 1));
        }
        i += 1;
    }
    proof {
        assert(m.body@.take(m.body@.len() as int) =~= m.body@);
        assert(v@ =~= message_bytes(*m));
    }
    v
}

} // verus!
