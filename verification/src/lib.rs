//! Derives the deterministic multisignature account identifier for a
//! network from a threshold and a set of member addresses, and renders it
//! in the network's checksummed text format, entirely offline.
//!
//! The pieces, leaf first: [`num`] holds the positional-numeral lemmas,
//! [`base58`] the text alphabet codec, [`hashing`] the digest the
//! checksum and the derivation are stated through, [`account`] the raw
//! 32-byte identifier, [`ss58`] the checksummed address format, and
//! [`derivation`] the order-independent fold of members and threshold
//! into one identifier. This file ties them together: network names,
//! threshold parsing, and the whole pipeline from tokenized input to one
//! output line.
pub mod account;
pub mod base58;
pub mod derivation;
pub mod hashing;
pub mod num;
pub mod ss58;

use vstd::prelude::*;

verus! {

/// The failures the system can report, one per kind of bad input.
#[derive(Clone, Copy, PartialEq, Eq, Structural, Debug)]
pub enum MultisigError {
    /// The network name is not one of the recognized literals.
    NetworkName,
    /// The threshold is not an unsigned 16-bit integer.
    ThresholdParse,
    /// Address text outside base-58, or with no valid byte layout.
    AddressSyntax,
    /// The address checksum does not match its content.
    AddressIntegrity,
    /// The address is valid but carries another network's format code.
    AddressNetworkMismatch,
}

/// The two supported networks, each with its fixed one-byte format code.
#[derive(Clone, Copy, PartialEq, Eq, Structural, Debug)]
pub enum Network {
    Polkadot,
    Kusama,
}

impl Network {
    /// The format code embedded in this network's text addresses.
    pub fn format(&self) -> (code: u16)
        ensures
            code == self.format_code(),
    {
        match self {
            Network::Polkadot => 0,
            Network::Kusama => 2,
        }
    }

    pub open spec fn format_code(self) -> u16 {
        match self {
            Network::Polkadot => 0u16,
            Network::Kusama => 2u16,
        }
    }

    /// Parses a network name; only the exact, case-sensitive literals are
    /// recognized.
    pub fn from_str(name: &[u8]) -> (r: Result<Network, MultisigError>)
        ensures
            r == (match parse_network(name@) {
                Option::Some(n) => Ok::<Network, MultisigError>(n),
                Option::None => Err::<Network, MultisigError>(MultisigError::NetworkName),
            }),
    {
        let n = name.len();
        if n == 8 && name[0] == 112 && name[1] == 111 && name[2] == 108 && name[3] == 107
            && name[4] == 97 && name[5] == 100 && name[6] == 111 && name[7] == 116 {
            proof {
                assert(name@ =~= polkadot_name());
            }
            return Ok(Network::Polkadot);
        }
        if n == 6 && name[0] == 107 && name[1] == 117 && name[2] == 115 && name[3] == 97 && name[4]
            == 109 && name[5] == 97 {
            proof {
                assert(name@ =~= kusama_name());
            }
            return Ok(Network::Kusama);
        }
        proof {
            assert(name@ != polkadot_name());
            assert(name@ != kusama_name());
        }
        Err(MultisigError::NetworkName)
    }
}

/// The byte string `polkadot`.
pub open spec fn polkadot_name() -> Seq<u8> {
    seq![112u8, 111u8, 108u8, 107u8, 97u8, 100u8, 111u8, 116u8]
}

/// The byte string `kusama`.
pub open spec fn kusama_name() -> Seq<u8> {
    seq![107u8, 117u8, 115u8, 97u8, 109u8, 97u8]
}

/// Which network a name denotes, if any.
pub open spec fn parse_network(s: Seq<u8>) -> Option<Network> {
    if s == polkadot_name() {
        Option::Some(Network::Polkadot)
    } else if s == kusama_name() {
        Option::Some(Network::Kusama)
    } else {
        Option::None
    }
}

/// Whether every byte is a decimal digit.
pub open spec fn dec_digits(s: Seq<u8>) -> bool {
    forall|i: int| 0 <= i < s.len() ==> 48 <= #[trigger] s[i] <= 57
}

/// The digit values of decimal text.
pub open spec fn dec_digit_seq(s: Seq<u8>) -> Seq<u8> {
    s.map_values(|c: u8| (c - 48) as u8)
}

/// The number decimal text denotes.
pub open spec fn dec_val(s: Seq<u8>) -> nat {
    crate::num::be_val(dec_digit_seq(s), 10)
}

/// The digit part of threshold text: an optional leading `+` sign is
/// accepted before at least one digit.
pub open spec fn threshold_digits(s: Seq<u8>) -> Seq<u8> {
    if s.len() >= 2 && s.first() == 43 {
        s.drop_first()
    } else {
        s
    }
}

/// The threshold a text denotes: a decimal number of at most 65535, with
/// an optional leading `+`; anything else denotes nothing.
pub open spec fn parse_u16_spec(s: Seq<u8>) -> Option<u16> {
    let d = threshold_digits(s);
    if d.len() == 0 {
        Option::None
    } else if !dec_digits(d) {
        Option::None
    } else if dec_val(d) > 65535 {
        Option::None
    } else {
        Option::Some(dec_val(d) as u16)
    }
}

/// A decimal prefix never denotes more than the whole text.
proof fn lemma_dec_val_prefix(t: Seq<u8>, k: int)
    requires
        0 <= k <= t.len(),
    ensures
        dec_val(t) >= dec_val(t.take(k)),
    decreases t.len() - k,
{
    if k < t.len() {
        lemma_dec_val_prefix(t, k + 1);
        assert(dec_digit_seq(t.take(k + 1)).drop_last() =~= dec_digit_seq(t.take(k)));
        assert(dec_val(t.take(k + 1)) == dec_val(t.take(k)) * 10 + dec_digit_seq(t.take(k + 1)).last());
    } else {
        assert(t.take(k) =~= t);
    }
}

/// Parses threshold text as an unsigned 16-bit number.
#[verifier::loop_isolation(false)]
pub fn parse_u16(s: &[u8]) -> (r: Result<u16, MultisigError>)
    ensures
        r == (match parse_u16_spec(s@) {
            Option::Some(v) => Ok::<u16, MultisigError>(v),
            Option::None => Err::<u16, MultisigError>(MultisigError::ThresholdParse),
        }),
{
    let n = s.len();
    let start: usize = if n >= 2 && s[0] == 43 {
        1
    } else {
        0
    };
    let ghost d = threshold_digits(s@);
    proof {
        assert(d =~= s@.skip(start as int));
    }
    if start == n {
        return Err(MultisigError::ThresholdParse);
    }
    let mut val: u32 = 0;
    let mut j: usize = start;
    while j < n
        invariant
            start <= j <= n,
            forall|k: int| start <= k < j ==> 48 <= #[trigger] s@[k] <= 57,
            val <= 65535,
            val == dec_val(s@.subrange(start as int, j as int)),
        decreases n - j,
    {
        let c = s[j];
        if c < 48 || c > 57 {
            proof {
                assert(d[j - start] == s@[j as int]);
                assert(!dec_digits(d));
            }
            return Err(MultisigError::ThresholdParse);
        }
        let ghost before = s@.subrange(start as int, j as int);
        let nv = val * 10 + (c - 48) as u32;
        proof {
            assert(dec_digit_seq(s@.subrange(start as int, j + 1)).drop_last() =~= dec_digit_seq(
                before,
            ));
            assert(dec_digit_seq(s@.subrange(start as int, j + 1)).last() == (c - 48) as u8);
            assert(dec_val(s@.subrange(start as int, j + 1)) == dec_val(before) * 10 + ((c - 48)
                as u8));
        }
        if nv > 65535 {
            proof {
                assert(s@.subrange(start as int, j + 1) =~= d.take(j + 1 - start));
                lemma_dec_val_prefix(d, j + 1 - start);
                assert(dec_val(d) > 65535);
            }
            return Err(MultisigError::ThresholdParse);
        }
        val = nv;
        j += 1;
    }
    proof {
        assert(s@.subrange(start as int, n as int) =~= d);
        assert(dec_digits(d));
    }
    Ok(val as u16)
}

/// The identifier a valid address text denotes.
pub open spec fn decoded_id(a: Seq<u8>) -> Seq<u8> {
    (crate::ss58::ss58_decode_spec(a)->Some_0).0
}

/// The format code a valid address text carries.
pub open spec fn decoded_fmt(a: Seq<u8>) -> u16 {
    (crate::ss58::ss58_decode_spec(a)->Some_0).1
}

/// The identifiers of a list of address texts under the expected format
/// code `fmt`, or the error of the first address that fails: a decode
/// error, or a mismatch when the embedded code is not `fmt`.
pub open spec fn decode_all(addrs: Seq<Seq<u8>>, fmt: u16) -> Result<Seq<Seq<u8>>, MultisigError>
    decreases addrs.len(),
{
    if addrs.len() == 0 {
        Ok(Seq::empty())
    } else if crate::ss58::ss58_decode_spec(addrs.first()) is None {
        Err(crate::ss58::ss58_decode_err(addrs.first()))
    } else if decoded_fmt(addrs.first()) != fmt {
        Err(MultisigError::AddressNetworkMismatch)
    } else {
        match decode_all(addrs.drop_first(), fmt) {
            Ok(rest) => Ok(seq![decoded_id(addrs.first())] + rest),
            Err(e) => Err(e),
        }
    }
}

/// Splitting `decode_all` after a prefix of `i` valid, matching addresses.
proof fn lemma_decode_all_split(addrs: Seq<Seq<u8>>, fmt: u16, i: int)
    requires
        0 <= i <= addrs.len(),
        forall|j: int|
            0 <= j < i ==> crate::ss58::ss58_decode_spec(#[trigger] addrs[j]) is Some
                && decoded_fmt(addrs[j]) == fmt,
    ensures
        decode_all(addrs, fmt) == (match decode_all(addrs.skip(i), fmt) {
            Ok(rest) => Ok::<Seq<Seq<u8>>, MultisigError>(
                Seq::new(i as nat, |j: int| decoded_id(addrs[j])) + rest,
            ),
            Err(e) => Err::<Seq<Seq<u8>>, MultisigError>(e),
        }),
    decreases i,
{
    if i == 0 {
        assert(addrs.skip(0) =~= addrs);
        match decode_all(addrs, fmt) {
            Ok(rest) => {
                assert(Seq::new(0, |j: int| decoded_id(addrs[j])) + rest =~= rest);
            },
            Err(_) => {},
        }
    } else {
        assert(addrs.len() > 0);
        let tail = addrs.drop_first();
        assert forall|j: int|
            0 <= j < i - 1 implies crate::ss58::ss58_decode_spec(#[trigger] tail[j]) is Some
            && decoded_fmt(tail[j]) == fmt by {
            assert(tail[j] == addrs[j + 1]);
        }
        lemma_decode_all_split(tail, fmt, i - 1);
        assert(tail.skip(i - 1) =~= addrs.skip(i));
        match decode_all(addrs.skip(i), fmt) {
            Ok(rest) => {
                assert(seq![decoded_id(addrs.first())] + (Seq::new(
                    (i - 1) as nat,
                    |j: int| decoded_id(tail[j]),
                ) + rest) =~= Seq::new(i as nat, |j: int| decoded_id(addrs[j])) + rest);
            },
            Err(_) => {},
        }
    }
}

/// The address texts of a list of byte vectors.
pub open spec fn texts_of(s: Seq<Vec<u8>>) -> Seq<Seq<u8>> {
    s.map_values(|a: Vec<u8>| a@)
}

/// The whole computation on tokenized input: resolve the network, parse
/// the threshold, decode every address and hold it to the network's
/// format code, derive the multisignature identifier, and render it under
/// the same format code.
pub open spec fn multisig_address_spec(
    network: Seq<u8>,
    threshold_text: Seq<u8>,
    addrs: Seq<Seq<u8>>,
) -> Result<Seq<u8>, MultisigError> {
    match parse_network(network) {
        Option::None => Err(MultisigError::NetworkName),
        Option::Some(net) => match parse_u16_spec(threshold_text) {
            Option::None => Err(MultisigError::ThresholdParse),
            Option::Some(t) => match decode_all(addrs, net.format_code()) {
                Err(e) => Err(e),
                Ok(ids) => Ok(
                    crate::ss58::ss58_encode_spec(
                        crate::derivation::multi_account_spec(ids, t),
                        net.format_code(),
                    ),
                ),
            },
        },
    }
}

/// Computes the text of the multisignature address for a network name, a
/// threshold text, and one or more address texts.
#[verifier::loop_isolation(false)]
pub fn multisig_address(network: &[u8], threshold_text: &[u8], addresses: &Vec<Vec<u8>>) -> (r:
    Result<Vec<u8>, MultisigError>)
    requires
        1 <= addresses@.len() < 0x40000000,
    ensures
        r matches Ok(v) ==> multisig_address_spec(network@, threshold_text@, texts_of(addresses@))
            == Ok::<Seq<u8>, MultisigError>(v@),
        r matches Err(e) ==> multisig_address_spec(network@, threshold_text@, texts_of(addresses@))
            == Err::<Seq<u8>, MultisigError>(e),
{
    let net = match Network::from_str(network) {
        Err(e) => {
            return Err(e);
        },
        Ok(n) => n,
    };
    let threshold = match parse_u16(threshold_text) {
        Err(e) => {
            return Err(e);
        },
        Ok(t) => t,
    };
    let fmt = net.format();
    let ghost texts = texts_of(addresses@);
    let n = addresses.len();
    let mut ids: Vec<crate::account::RawAccountId> = Vec::new();
    let mut i: usize = 0;
    while i < n
        invariant
            i <= n,
            ids@.len() == i,
            forall|j: int|
                0 <= j < i ==> crate::ss58::ss58_decode_spec(#[trigger] texts[j]) is Some
                    && decoded_fmt(texts[j]) == fmt,
            forall|j: int|
                0 <= j < i ==> (#[trigger] ids@[j])@ == decoded_id(texts[j]) && ids@[j].wf(),
        decreases n - i,
    {
        match crate::ss58::decode(addresses[i].as_slice()) {
            Err(e) => {
                proof {
                    lemma_decode_all_split(texts, fmt, i as int);
                    assert(texts.skip(i as int).first() == texts[i as int]);
                    assert(texts.skip(i as int).len() > 0);
                }
                return Err(e);
            },
            Ok(pair) => {
                let (id, afmt) = pair;
                if afmt != fmt {
                    proof {
                        lemma_decode_all_split(texts, fmt, i as int);
                        assert(texts.skip(i as int).first() == texts[i as int]);
                    }
                    return Err(MultisigError::AddressNetworkMismatch);
                }
                ids.push(id);
            },
        }
        i += 1;
    }
    proof {
        lemma_decode_all_split(texts, fmt, n as int);
        assert(texts.skip(n as int).len() == 0);
        assert(decode_all(texts.skip(n as int), fmt) == Ok::<Seq<Seq<u8>>, MultisigError>(
            Seq::empty(),
        ));
        let full = Seq::new(n as nat, |j: int| decoded_id(texts[j]));
        assert(full + Seq::empty() =~= full);
        assert(crate::derivation::views_of(ids@) =~= full);
        assert(decode_all(texts, fmt) == Ok::<Seq<Seq<u8>>, MultisigError>(
            crate::derivation::views_of(ids@),
        ));
    }
    let derived = crate::derivation::multi_account_id(ids, threshold);
    let out = crate::ss58::encode(&derived, fmt);
    Ok(out)
}

} // verus!
