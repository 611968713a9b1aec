//! The checksummed text address format: a one- or two-byte format code,
//! the 32-byte account identifier, and a two-byte digest checksum, all
//! rendered in base-58.
use vstd::prelude::*;

verus! {

use crate::MultisigError;
use crate::account::RawAccountId;
use crate::base58::b58_decode;
use crate::base58::b58_decode_spec;
use crate::base58::b58_encode;
use crate::base58::b58_encode_spec;
use crate::base58::lemma_b58_round_trip;
use crate::hashing::blake2_256;
use crate::hashing::blake2_256_of;

/// The domain-separation literal `SS58PRE` that prefixes every checksum
/// computation.
pub open spec fn ss58_prefix() -> Seq<u8> {
    seq![83u8, 83u8, 53u8, 56u8, 80u8, 82u8, 69u8]
}

/// Format codes are at most 14 bits wide.
pub const FORMAT_LIMIT: u16 = 16384;

/// The variable-length encoding of a format code: one byte below 64, two
/// bytes otherwise.
pub open spec fn prefix_bytes(fmt: u16) -> Seq<u8>
    recommends
        fmt < FORMAT_LIMIT,
{
    if fmt < 64 {
        seq![fmt as u8]
    } else {
        seq![(64 + (fmt / 4) % 64) as u8, ((fmt / 256) + (fmt % 4) * 64) as u8]
    }
}

/// The format code recovered from a two-byte prefix.
pub open spec fn two_byte_format(b0: u8, b1: u8) -> u16
    recommends
        64 <= b0 < 128,
{
    (((b0 - 64) * 4 + b1 / 64) + (b1 % 64) * 256) as u16
}

/// The text rendering of an identifier under a format code: prefix bytes,
/// then the identifier, then the first two bytes of the checksum digest,
/// in base-58.
pub open spec fn ss58_encode_spec(id: Seq<u8>, fmt: u16) -> Seq<u8>
    recommends
        id.len() == 32,
        fmt < FORMAT_LIMIT,
{
    let body = prefix_bytes(fmt) + id;
    let check = blake2_256_of(ss58_prefix() + body);
    b58_encode_spec(body + seq![check[0], check[1]])
}

/// The layout and checksum test on decoded bytes with a prefix of `plen`
/// bytes carrying the format code `fmt`.
pub open spec fn layout_check(bytes: Seq<u8>, plen: int, fmt: u16) -> Option<(Seq<u8>, u16)> {
    if bytes.len() != plen + 34 {
        Option::None
    } else {
        let check = blake2_256_of(ss58_prefix() + bytes.take(plen + 32));
        if bytes[plen + 32] == check[0] && bytes[plen + 33] == check[1] {
            Option::Some((bytes.subrange(plen, plen + 32), fmt))
        } else {
            Option::None
        }
    }
}

/// What a text address denotes: the identifier and the embedded format
/// code, or nothing when the text is not a well-formed address.
pub open spec fn ss58_decode_spec(s: Seq<u8>) -> Option<(Seq<u8>, u16)> {
    match b58_decode_spec(s) {
        Option::None => Option::None,
        Option::Some(bytes) => {
            if bytes.len() == 0 {
                Option::None
            } else if bytes[0] < 64 {
                layout_check(bytes, 1, bytes[0] as u16)
            } else if bytes[0] < 128 {
                if bytes.len() < 2 {
                    Option::None
                } else {
                    layout_check(bytes, 2, two_byte_format(bytes[0], bytes[1]))
                }
            } else {
                Option::None
            }
        },
    }
}

/// Which error a failed decode reports: a syntax error for text that is
/// not base-58 or has no valid layout, an integrity error for a checksum
/// mismatch.
pub open spec fn ss58_decode_err(s: Seq<u8>) -> MultisigError {
    match b58_decode_spec(s) {
        Option::None => MultisigError::AddressSyntax,
        Option::Some(bytes) => {
            if bytes.len() == 0 {
                MultisigError::AddressSyntax
            } else if bytes[0] < 64 {
                if bytes.len() != 35 {
                    MultisigError::AddressSyntax
                } else {
                    MultisigError::AddressIntegrity
                }
            } else if bytes[0] < 128 {
                if bytes.len() != 36 {
                    MultisigError::AddressSyntax
                } else {
                    MultisigError::AddressIntegrity
                }
            } else {
                MultisigError::AddressSyntax
            }
        },
    }
}

/// Renders an identifier as checksummed text under a format code.
#[verifier::loop_isolation(false)]
pub fn encode(id: &RawAccountId, fmt: u16) -> (out: Vec<u8>)
    requires
        id.wf(),
        fmt < FORMAT_LIMIT,
    ensures
        out@ == ss58_encode_spec(id@, fmt),
{
    let mut body: Vec<u8> = Vec::new();
    if fmt < 64 {
        body.push(fmt as u8);
    } else {
        body.push(64 + ((fmt / 4) % 64) as u8);
        body.push(((fmt / 256) + (fmt % 4) * 64) as u8);
    }
    proof {
        assert(body@ =~= prefix_bytes(fmt));
    }
    body.extend_from_slice(id.as_slice());
    proof {
        assert(body@ == prefix_bytes(fmt) + id@);
    }
    let mut hin: Vec<u8> = Vec::new();
    hin.push(83);
    hin.push(83);
    hin.push(53);
    hin.push(56);
    hin.push(80);
    hin.push(82);
    hin.push(69);
    proof {
        assert(hin@ =~= ss58_prefix());
    }
    hin.extend_from_slice(body.as_slice());
    let digest = blake2_256(hin.as_slice());
    let c0 = digest[0];
    let c1 = digest[1];
    body.push(c0);
    body.push(c1);
    proof {
        let pre_body = prefix_bytes(fmt) + id@;
        assert(hin@ == ss58_prefix() + pre_body);
        let check = blake2_256_of(ss58_prefix() + pre_body);
        assert(digest@ == check);
        assert(c0 == check[0] && c1 == check[1]);
        assert(body@ =~= pre_body + seq![c0, c1]);
        assert(seq![c0, c1] =~= seq![check[0], check[1]]);
    }
    b58_encode(body.as_slice())
}

/// Reads checksummed text back into an identifier and its embedded format
/// code, verifying the checksum.
#[verifier::loop_isolation(false)]
pub fn decode(s: &[u8]) -> (r: Result<(RawAccountId, u16), MultisigError>)
    ensures
        match r {
            Ok(pair) => ss58_decode_spec(s@) == Option::Some((pair.0@, pair.1)) && pair.0.wf(),
            Err(e) => ss58_decode_spec(s@) is None && e == ss58_decode_err(s@),
        },
{
    let bytes = match b58_decode(s) {
        Option::None => {
            return Err(MultisigError::AddressSyntax);
        },
        Option::Some(b) => b,
    };
    if bytes.len() == 0 {
        return Err(MultisigError::AddressSyntax);
    }
    let b0 = bytes[0];
    let plen: usize;
    let fmt: u16;
    if b0 < 64 {
        plen = 1;
        fmt = b0 as u16;
    } else if b0 < 128 {
        if bytes.len() < 2 {
            return Err(MultisigError::AddressSyntax);
        }
        let b1 = bytes[1];
        plen = 2;
        fmt = ((b0 - 64) as u16) * 4 + (b1 / 64) as u16 + ((b1 % 64) as u16) * 256;
        proof {
            assert(fmt == two_byte_format(b0, b1));
        }
    } else {
        return Err(MultisigError::AddressSyntax);
    }
    if bytes.len() != plen + 34 {
        return Err(MultisigError::AddressSyntax);
    }
    let mut hin: Vec<u8> = Vec::new();
    hin.push(83);
    hin.push(83);
    hin.push(53);
    hin.push(56);
    hin.push(80);
    hin.push(82);
    hin.push(69);
    proof {
        assert(hin@ =~= ss58_prefix());
    }
    let mut k: usize = 0;
    while k < plen + 32
        invariant
            k <= plen + 32,
            hin@.len() == 7 + k,
            hin@ == ss58_prefix() + bytes@.take(k as int),
        decreases plen + 32 - k,
    {
        hin.push(bytes[k]);
        proof {
            assert(hin@ =~= ss58_prefix() + bytes@.take(k + 1));
        }
        k += 1;
    }
    let digest = blake2_256(hin.as_slice());
    if bytes[plen + 32] == digest[0] && bytes[plen + 33] == digest[1] {
        let mut payload: Vec<u8> = Vec::new();
        let mut k2: usize = plen;
        while k2 < plen + 32
            invariant
                plen <= k2 <= plen + 32,
                payload@ == bytes@.subrange(plen as int, k2 as int),
            decreases plen + 32 - k2,
        {
            payload.push(bytes[k2]);
            proof {
                assert(bytes@.subrange(plen as int, k2 + 1).drop_last() =~= bytes@.subrange(
                    plen as int,
                    k2 as int,
                ));
                assert(payload@ =~= bytes@.subrange(plen as int, k2 + 1));
            }
            k2 += 1;
        }
        let id = RawAccountId::new(payload);
        Ok((id, fmt))
    } else {
        Err(MultisigError::AddressIntegrity)
    }
}

/// Reading a two-byte prefix back recovers the format code it was made
/// from.
proof fn lemma_two_byte_format_round_trip(fmt: u16)
    requires
        64 <= fmt < FORMAT_LIMIT,
    ensures
        64 <= prefix_bytes(fmt)[0] < 128,
        two_byte_format(prefix_bytes(fmt)[0], prefix_bytes(fmt)[1]) == fmt,
{
    let f = fmt as int;
    let q4 = f / 4;
    let m4 = f % 4;
    let hi = f / 256;
    vstd::arithmetic::div_mod::lemma_mod_bound(q4, 64);
    vstd::arithmetic::div_mod::lemma_mod_bound(f, 4);
    vstd::arithmetic::div_mod::lemma_multiply_divide_lt(f, 256, 64);
    let b0 = prefix_bytes(fmt)[0];
    let b1 = prefix_bytes(fmt)[1];
    assert(b0 as int == 64 + q4 % 64);
    assert(b1 as int == hi + m4 * 64);
    vstd::arithmetic::div_mod::lemma_fundamental_div_mod_converse(b1 as int, 64, m4, hi);
    assert(b1 / 64 == m4 && b1 % 64 == hi);
    vstd::arithmetic::div_mod::lemma_div_denominator(f, 4, 64);
    assert(q4 / 64 == hi);
    vstd::arithmetic::div_mod::lemma_fundamental_div_mod(f, 4);
    vstd::arithmetic::div_mod::lemma_fundamental_div_mod(q4, 64);
    assert(f == 4 * (64 * (q4 / 64) + q4 % 64) + m4);
    assert(4 * (64 * hi + q4 % 64) == 256 * hi + 4 * (q4 % 64)) by (nonlinear_arith);
    assert(two_byte_format(b0, b1) as int == (q4 % 64) * 4 + m4 + hi * 256);
}

/// Decoding an encoded address recovers the identifier and the format
/// code, for every identifier and every valid format code.
pub proof fn lemma_ss58_round_trip(id: Seq<u8>, fmt: u16)
    requires
        id.len() == 32,
        fmt < FORMAT_LIMIT,
    ensures
        ss58_decode_spec(ss58_encode_spec(id, fmt)) == Option::Some((id, fmt)),
{
    let body = prefix_bytes(fmt) + id;
    let check = blake2_256_of(ss58_prefix() + body);
    let full = body + seq![check[0], check[1]];
    lemma_b58_round_trip(full);
    assert(b58_decode_spec(b58_encode_spec(full)) == Option::Some(full));
    if fmt < 64 {
        assert(full.len() == 35);
        assert(full[0] == fmt as u8);
        assert(full[0] < 64 && full[0] as u16 == fmt);
        assert(full.take(33) =~= body);
        assert(full[33] == check[0] && full[34] == check[1]);
        assert(full.subrange(1, 33) =~= id);
    } else {
        let b0 = (64 + (fmt / 4) % 64) as u8;
        let b1 = ((fmt / 256) + (fmt % 4) * 64) as u8;
        assert(full.len() == 36);
        assert(full[0] == b0 && full[1] == b1);
        lemma_two_byte_format_round_trip(fmt);
        assert(64 <= b0 < 128);
        assert(full.take(34) =~= body);
        assert(full[34] == check[0] && full[35] == check[1]);
        assert(full.subrange(2, 34) =~= id);
    }
}

} // verus!
