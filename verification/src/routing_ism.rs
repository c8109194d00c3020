//! Routing-ISM resolver: picks the interchain-security-module address
//! that should validate a message, by querying an on-chain routing table.
//!
//! The resolver is stateless request/response. It frames the query
//! payload — the message's canonical wire bytes, hex-encoded, inside the
//! routing envelope — and decodes the queried response: the chain-native
//! address string in the `ism` field, decoded into the canonical 32-byte
//! address. The transport issues the query itself and hands the raw
//! response bytes back in.

use vstd::prelude::*;

use crate::encode::{format_message, message_bytes};
use crate::types::{ChainCommunicationError, ChainResult, ContractLocator, Message};

verus! {

/// Lowercase hex digit of one nibble.
pub open spec fn hex_digit(n: u8) -> u8
    recommends
        n < 16,
{
    if n < 10 {
        (n + 0x30) as u8
    } else {
        (n + 0x57) as u8
    }
}

/// Lowercase hex rendering: two digits per byte, high nibble first.
pub open spec fn hex_of(s: Seq<u8>) -> Seq<u8>
    decreases s.len(),
{
    if s.len() == 0 {
        Seq::<u8>::empty()
    } else {
        seq![hex_digit(s[0] / 16), hex_digit(s[0] % 16)] + hex_of(s.drop_first())
    }
}

/// Relies on hex::encode: renders each byte as two lowercase hex digits,
/// high nibble first.
#[verifier::external_body]
fn hex_encode(b: &[u8]) -> (r: Vec<u8>)
    ensures
        r@ == hex_of(b@),
{
    hex::encode(b).into_bytes()
}

/// The routing query envelope around one hex-encoded message:
/// `{"route":{"message":"<hex>"}}`.
pub open spec fn route_request_of(hexmsg: Seq<u8>) -> Seq<u8> {
    seq![
        123u8, 34u8, 114u8, 111u8, 117u8, 116u8, 101u8, 34u8, 58u8, 123u8, 34u8, 109u8, 101u8, 115u8,
        115u8, 97u8, 103u8, 101u8, 34u8, 58u8, 34u8,
    ] + hexmsg + seq![34u8, 125u8, 125u8]
}

/// The response envelope around one chain-native address string:
/// `{"ism":"<address>"}` in its compact rendering.
pub open spec fn ism_response_of(ism: Seq<u8>) -> Seq<u8> {
    seq![123u8, 34u8, 105u8, 115u8, 109u8, 34u8, 58u8, 34u8] + ism + seq![34u8, 125u8]
}

/// Bytes allowed inside the address string: printable, no quote and no
/// escape, so the envelope stays unambiguous.
pub open spec fn ism_str_ok(s: Seq<u8>) -> bool {
    forall|i: int| 0 <= i < s.len() ==> 0x20 <= #[trigger] s[i] && s[i] != 34u8 && s[i] != 92u8
}

/// A compact response: the envelope around some valid address string,
/// with no whitespace.
pub open spec fn ism_response_wf(data: Seq<u8>) -> bool {
    data.len() >= 10 && data == ism_response_of(data.subrange(8, data.len() - 2)) && ism_str_ok(
        data.subrange(8, data.len() - 2),
    )
}

/// The address string a compact response carries.
pub open spec fn ism_of(data: Seq<u8>) -> Seq<u8> {
    data.subrange(8, data.len() - 2)
}

/// The whitespace JSON allows between tokens: space, tab, line feed,
/// carriage return.
pub open spec fn is_json_ws(b: u8) -> bool {
    b == 32u8 || b == 9u8 || b == 10u8 || b == 13u8
}

/// The bytes of `s` from position `i` on, with whitespace outside quoted
/// strings removed; `in_str` says whether position `i` sits inside a
/// quoted string. The grammar admits no escapes, so quotes alone toggle
/// that state.
pub open spec fn strip_ws_from(s: Seq<u8>, i: int, in_str: bool) -> Seq<u8>
    decreases s.len() - i,
{
    if i < 0 || i >= s.len() {
        Seq::<u8>::empty()
    } else if s[i] == 34u8 {
        seq![s[i]] + strip_ws_from(s, i + 1, !in_str)
    } else if !in_str && is_json_ws(s[i]) {
        strip_ws_from(s, i + 1, in_str)
    } else {
        seq![s[i]] + strip_ws_from(s, i + 1, in_str)
    }
}

/// A response with its token-separating whitespace removed.
pub open spec fn strip_json_ws(s: Seq<u8>) -> Seq<u8> {
    strip_ws_from(s, 0, false)
}

/// A well-formed response: whatever whitespace stands between the
/// tokens, stripping it leaves the compact envelope around some valid
/// address string.
pub open spec fn ism_response_ws_wf(data: Seq<u8>) -> bool {
    ism_response_wf(strip_json_ws(data))
}

/// The address string a well-formed response carries.
pub open spec fn ism_value_of(data: Seq<u8>) -> Seq<u8> {
    ism_of(strip_json_ws(data))
}

/// Removes the whitespace outside quoted strings.
fn strip_whitespace(data: &[u8]) -> (r: Vec<u8>)
    ensures
        r@ == strip_json_ws(data@),
{
    let mut out: Vec<u8> = Vec::new();
    let mut in_str: bool = false;
    let mut i: usize = 0;
    while i < data.len()
        invariant
            i <= data@.len(),
            out@ + strip_ws_from(data@, i as int, in_str) == strip_json_ws(data@),
        decreases data@.len() - i,
    {
        let b = data[i];
        let ghost old_out = out@;
        let ghost old_in = in_str;
        if b == 34u8 {
            out.push(b);
            in_str = !in_str;
        } else if !in_str && (b == 32u8 || b == 9u8 || b == 10u8 || b == 13u8) {
        } else {
            out.push(b);
        }
        proof {
            assert(out@ + strip_ws_from(data@, i + 1, in_str) =~= old_out + strip_ws_from(
                data@,
                i as int,
                old_in,
            ));
        }
        i += 1;
    }
    proof {
        assert(strip_ws_from(data@, data@.len() as int, in_str) =~= Seq::<u8>::empty());
        assert(out@ =~= strip_json_ws(data@));
    }
    out
}

/// What bech32 decoding yields for a given string: the data part, with
/// the human-readable part and the checksum stripped.
pub uninterp spec fn bech32_data_of(s: Seq<u8>) -> Seq<u8>;

/// Whether a byte string is UTF-8 and valid bech32 — separator, charset
/// and checksum all in order — so that decoding it succeeds. A function
/// of the string alone.
pub uninterp spec fn bech32_ok(s: Seq<u8>) -> bool;

/// Relies on bech32::decode: checks the separator, charset and checksum
/// of an address string and returns its data part; whether it succeeds,
/// and what it returns, depend on the string alone. A string that is not
/// valid bech32 (or not UTF-8) is rejected.
#[verifier::external_body]
fn bech32_decode_bytes(s: &[u8]) -> (r: ChainResult<Vec<u8>>)
    ensures
        r is Ok <==> bech32_ok(s@),
        r matches Ok(v) ==> v@ == bech32_data_of(s@),
{
    match core::str::from_utf8(s) {
        Ok(t) => match bech32::decode(t) {
            Ok((_hrp, data)) => Ok(data),
            Err(_) => Err(ChainCommunicationError::DecodeError),
        },
        Err(_) => Err(ChainCommunicationError::DecodeError),
    }
}

/// A decoded address left-padded with zeroes into the canonical 32-byte
/// width.
pub open spec fn padded_address(s: Seq<u8>) -> Seq<u8>
    recommends
        s.len() <= 32,
{
    Seq::<u8>::new((32 - s.len()) as nat, |i: int| 0u8) + s
}

/// Widens a decoded chain-native address into the canonical 32-byte
/// address, left-padded with zeroes. A decoded address longer than 32
/// bytes does not fit the canonical type: that is a decode failure.
pub fn address_from_decoded(v: &Vec<u8>) -> (r: ChainResult<[u8; 32]>)
    ensures
        v@.len() <= 32 ==> (r matches Ok(a) && a@ == padded_address(v@)),
        v@.len() > 32 ==> r == Err::<[u8; 32], ChainCommunicationError>(
            ChainCommunicationError::DecodeError,
        ),
{
    if v.len() > 32 {
        return Err(ChainCommunicationError::DecodeError);
    }
    let mut a: [u8; 32] = [0u8; 32];
    let offset: usize = 32 - v.len();
    let mut i: usize = 0;
    while i < v.len()
        invariant
            i <= v.len(),
            v@.len() <= 32,
            offset == 32 - v@.len(),
            a@.len() == 32,
            forall|k: int| 0 <= k < offset ==> #[trigger] a@[k] == 0u8,
            forall|k: int| 0 <= k < i ==> #[trigger] a@[offset + k] == v@[k],
            forall|k: int| offset + i <= k < 32 ==> #[trigger] a@[k] == 0u8,
        decreases v.len() - i,
    {
        a[offset + i] = v[i];
        i += 1;
    }
    proof {
        assert forall|j: int| 0 <= j < 32 implies a@[j] == padded_address(v@)[j] by {
            if j >= offset {
                let k = j - (offset as int);
                assert(a@[offset + k] == v@[k]);
            }
        }
        assert(a@ =~= padded_address(v@));
    }
    Ok(a)
}

/// Parses the routing response envelope and yields the address string of
/// its `ism` field. The envelope around a valid address string is
/// accepted, with any JSON whitespace between the tokens; anything else
/// is a decode failure.
pub fn parse_ism_response(data: &[u8]) -> (r: ChainResult<Vec<u8>>)
    ensures
        r matches Ok(s) ==> ism_response_ws_wf(data@) && s@ == ism_value_of(data@),
        r matches Err(e) ==> e == ChainCommunicationError::DecodeError && !ism_response_ws_wf(
            data@,
        ),
{
    let stripped = strip_whitespace(data);
    let ghost d = stripped@;
    if stripped.len() < 10 {
        proof {
            assert(!ism_response_wf(d));
        }
        return Err(ChainCommunicationError::DecodeError);
    }
    let header_ok: bool = stripped[0] == 123u8 && stripped[1] == 34u8 && stripped[2] == 105u8
        && stripped[3] == 115u8 && stripped[4] == 109u8 && stripped[5] == 34u8 && stripped[6]
        == 58u8 && stripped[7] == 34u8 && stripped[stripped.len() - 2] == 34u8
        && stripped[stripped.len() - 1] == 125u8;
    if !header_ok {
        proof {
            if ism_response_wf(d) {
                let s = ism_of(d);
                assert(d == ism_response_of(s));
                assert(d[0] == 123u8 && d[1] == 34u8 && d[2] == 105u8 && d[3] == 115u8 && d[4]
                    == 109u8 && d[5] == 34u8 && d[6] == 58u8 && d[7] == 34u8);
                assert(d[d.len() - 2] == 34u8 && d[d.len() - 1] == 125u8);
            }
        }
        return Err(ChainCommunicationError::DecodeError);
    }
    let mut s: Vec<u8> = Vec::new();
    let mut i: usize = 8;
    let stop: usize = stripped.len() - 2;
    while i < stop
        invariant
            8 <= i <= stop,
            d == stripped@,
            d == strip_json_ws(data@),
            stop == d.len() - 2,
            d.len() >= 10,
            s@ == d.subrange(8, i as int),
            ism_str_ok(s@),
        decreases stop - i,
    {
        let b = stripped[i];
        if b < 0x20 || b == 34u8 || b == 92u8 {
            proof {
                if ism_response_wf(d) {
                    assert(ism_of(d)[i - 8] == d[i as int]);
                }
            }
            return Err(ChainCommunicationError::DecodeError);
        }
        s.push(b);
        proof {
            assert(s@ =~= d.subrange(8, i + 1));
        }
        i += 1;
    }
    proof {
        assert(s@ =~= ism_of(d));
        assert(d =~= ism_response_of(ism_of(d)));
    }
    Ok(s)
}

/// A reference to a routing-ISM contract on some chain: the static
/// identity the resolver carries. The transport handle that issues the
/// query lives with the caller.
pub struct CosmosRoutingIsm {
    domain: u32,
    address: [u8; 32],
}

impl CosmosRoutingIsm {
    /// The domain of the chain the routing table lives on.
    pub closed spec fn spec_domain(&self) -> u32 {
        self.domain
    }

    /// The routing contract's address.
    pub closed spec fn spec_address(&self) -> Seq<u8> {
        self.address@
    }

    /// Creates a reference to the routing ISM a locator names.
    pub fn new(locator: &ContractLocator) -> (r: Self)
        ensures
            r.spec_domain() == locator.domain,
            r.spec_address() == locator.address@,
    {
        CosmosRoutingIsm { domain: locator.domain, address: locator.address }
    }

    /// The contract address, as the canonical 32-byte identifier.
    pub fn address(&self) -> (r: [u8; 32])
        ensures
            r@ == self.spec_address(),
    {
        self.address
    }

    /// The domain of the chain this resolver queries.
    pub fn domain(&self) -> (r: u32)
        ensures
            r == self.spec_domain(),
    {
        self.domain
    }

    /// Frames the read-only routing query for one message: the message's
    /// canonical wire bytes, hex-encoded, inside the routing envelope.
    /// The transport sends exactly these bytes.
    pub fn route_request_payload(&self, message: &Message) -> (r: Vec<u8>)
        ensures
            r@ == route_request_of(hex_of(message_bytes(*message))),
    {
        let wire = format_message(message);
        let hexmsg = hex_encode(wire.as_slice());
        let mut v: Vec<u8> = Vec::new();
        v.push(123u8);
        v.push(34u8);
        v.push(114u8);
        v.push(111u8);
        v.push(117u8);
        v.push(116u8);
        v.push(101u8);
        v.push(34u8);
        v.push(58u8);
        v.push(123u8);
        v.push(34u8);
        v.push(109u8);
        v.push(101u8);
        v.push(115u8);
        v.push(115u8);
        v.push(97u8);
        v.push(103u8);
        v.push(101u8);
        v.push(34u8);
        v.push(58u8);
        v.push(34u8);
        let ghost head = v@;
        let mut i: usize = 0;
        while i < hexmsg.len()
            invariant
                i <= hexmsg.len(),
                v@ == head + hexmsg@.take(i as int),
            decreases hexmsg.len() - i,
        {
            v.push(hexmsg[i]);
            proof {
                assert(v@ =~= head + hexmsg@.take(i + 1));
            }
            i += 1;
        }
        v.push(34u8);
        v.push(125u8);
        v.push(125u8);
        proof {
            assert(hexmsg@.take(hexmsg@.len() as int) =~= hexmsg@);
            assert(v@ =~= route_request_of(hex_of(message_bytes(*message))));
        }
        v
    }

    /// Decodes the raw bytes the routing query returned: parses the
    /// response envelope and bech32-decodes the `ism` address string into
    /// the canonical 32-byte address. A malformed envelope, an invalid
    /// address string, or a decoded address wider than 32 bytes is a
    /// decode failure.
    pub fn route_decode_response(&self, data: &[u8]) -> (r: ChainResult<[u8; 32]>)
        ensures
            r is Ok <==> ism_response_ws_wf(data@) && bech32_ok(ism_value_of(data@))
                && bech32_data_of(ism_value_of(data@)).len() <= 32,
            r matches Ok(a) ==> a@ == padded_address(bech32_data_of(ism_value_of(data@))),
            r matches Err(e) ==> e == ChainCommunicationError::DecodeError,
    {
        let ism = match parse_ism_response(data) {
            Ok(s) => s,
            Err(e) => {
                return Err(e);
            },
        };
        let decoded = match bech32_decode_bytes(ism.as_slice()) {
            Ok(v) => v,
            Err(_) => {
                return Err(ChainCommunicationError::DecodeError);
            },
        };
        address_from_decoded(&decoded)
    }
}

} // verus!
