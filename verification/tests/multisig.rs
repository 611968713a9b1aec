use blake2::Digest;
use multisig_address::account::RawAccountId;
use multisig_address::base58::{b58_decode, b58_encode};
use multisig_address::derivation::multi_account_id;
use multisig_address::multisig_address;
use multisig_address::parse_u16;
use multisig_address::ss58::{decode, encode};
use multisig_address::{MultisigError, Network};

fn account(bytes: [u8; 32]) -> RawAccountId {
    RawAccountId::new(bytes.to_vec())
}

fn reference_blake2_256(data: &[u8]) -> Vec<u8> {
    let mut h = blake2::Blake2b256::new();
    h.update(data);
    h.finalize().to_vec()
}

#[test]
fn base58_empty_and_leading_zeros() {
    assert_eq!(b58_encode(&[]), b"".to_vec());
    assert_eq!(b58_encode(&[0, 0, 1]), b"112".to_vec());
    assert_eq!(b58_decode(b"112"), Some(vec![0, 0, 1]));
    assert_eq!(b58_decode(b""), Some(vec![]));
    assert_eq!(b58_decode(b"0"), None);
    assert_eq!(b58_decode(b"O"), None);
    assert_eq!(b58_decode(b"I"), None);
    assert_eq!(b58_decode(b"l"), None);
}

#[test]
fn base58_known_value() {
    // 0x00 0xFF: one leading '1', then 255 = 4*58 + 23 -> digits [4, 23] -> "5Q".
    assert_eq!(b58_encode(&[0, 255]), b"15Q".to_vec());
    assert_eq!(b58_decode(b"15Q"), Some(vec![0, 255]));
}

#[test]
fn round_trip_kusama_format() {
    let id = account([7; 32]);
    let text = encode(&id, 2);
    let (back, fmt) = decode(&text).expect("a fresh encoding must decode");
    assert_eq!(back.as_slice(), id.as_slice());
    assert_eq!(fmt, 2);
}

#[test]
fn round_trip_polkadot_format() {
    let mut bytes = [0u8; 32];
    bytes[0] = 1;
    bytes[31] = 255;
    let id = account(bytes);
    let text = encode(&id, 0);
    let (back, fmt) = decode(&text).expect("a fresh encoding must decode");
    assert_eq!(back.as_slice(), id.as_slice());
    assert_eq!(fmt, 0);
}

#[test]
fn round_trip_two_byte_format() {
    let id = account([42; 32]);
    let text = encode(&id, 4242);
    let (back, fmt) = decode(&text).expect("a fresh encoding must decode");
    assert_eq!(back.as_slice(), id.as_slice());
    assert_eq!(fmt, 4242);
}

#[test]
fn checksum_bit_flip_fails() {
    let id = account([13; 32]);
    let text = encode(&id, 2);
    let mut integrity_seen = 0usize;
    for pos in 0..text.len() {
        for bit in 0..8u8 {
            let mut corrupt = text.clone();
            corrupt[pos] ^= 1 << bit;
            match decode(&corrupt) {
                Ok(_) => panic!("a corrupted address must not decode"),
                Err(MultisigError::AddressIntegrity) => integrity_seen += 1,
                Err(MultisigError::AddressSyntax) => {}
                Err(e) => panic!("unexpected error kind: {:?}", e),
            }
        }
    }
    assert!(integrity_seen > 0);
}

#[test]
fn decode_rejects_bad_layout() {
    // Valid base-58, but the bytes have no valid address layout.
    assert!(matches!(decode(b""), Err(MultisigError::AddressSyntax)));
    assert!(matches!(decode(b"2"), Err(MultisigError::AddressSyntax)));
    assert!(matches!(decode(b"zzz"), Err(MultisigError::AddressSyntax)));
    // A prefix byte of 128 or more is not a valid format prefix.
    let text = b58_encode(&[200u8; 36]);
    assert!(matches!(decode(&text), Err(MultisigError::AddressSyntax)));
    // Text outside the alphabet.
    assert!(matches!(decode(b"not an address!"), Err(MultisigError::AddressSyntax)));
}

#[test]
fn derive_order_independent() {
    let one = multi_account_id(
        vec![account([0xAA; 32]), account([0x01; 32]), account([0x55; 32])],
        3,
    );
    let two = multi_account_id(
        vec![account([0x55; 32]), account([0xAA; 32]), account([0x01; 32])],
        3,
    );
    let rev = multi_account_id(
        vec![account([0x01; 32]), account([0x55; 32]), account([0xAA; 32])],
        3,
    );
    assert_eq!(one.as_slice(), two.as_slice());
    assert_eq!(one.as_slice(), rev.as_slice());
}

#[test]
fn derive_threshold_sensitive() {
    let thresholds = [1u16, 2, 3, 100, 65535];
    let mut seen: Vec<Vec<u8>> = Vec::new();
    for t in thresholds {
        let id = multi_account_id(vec![account([9; 32]), account([1; 32])], t);
        let bytes = id.as_slice().to_vec();
        assert!(!seen.contains(&bytes), "distinct thresholds must derive distinct identifiers");
        seen.push(bytes);
    }
}

#[test]
fn derive_matches_reference_digest() {
    // Two members, sorted order [0x01.., 0xAA..], threshold 2:
    // "modlpy/utilisuba" ++ compact(2) ++ members ++ threshold LE.
    let mut data = Vec::new();
    data.extend_from_slice(b"modlpy/utilisuba");
    data.push(2 << 2);
    data.extend_from_slice(&[0x01; 32]);
    data.extend_from_slice(&[0xAA; 32]);
    data.extend_from_slice(&[2, 0]);
    let expected = reference_blake2_256(&data);
    let derived = multi_account_id(vec![account([0xAA; 32]), account([0x01; 32])], 2);
    assert_eq!(derived.as_slice(), expected.as_slice());
}

#[test]
fn derive_many_members_uses_two_byte_length() {
    // 64 members: the length prefix becomes the two-byte form [0x01, 0x01].
    let mut members = Vec::new();
    let mut data = Vec::new();
    data.extend_from_slice(b"modlpy/utilisuba");
    data.extend_from_slice(&[0x01, 0x01]);
    for i in 0..64u8 {
        members.push(account([63 - i; 32]));
    }
    for i in 0..64u8 {
        data.extend_from_slice(&[i; 32]);
    }
    data.extend_from_slice(&[5, 0]);
    let expected = reference_blake2_256(&data);
    let derived = multi_account_id(members, 5);
    assert_eq!(derived.as_slice(), expected.as_slice());
}

#[test]
fn network_names() {
    assert_eq!(Network::from_str(b"polkadot"), Ok(Network::Polkadot));
    assert_eq!(Network::from_str(b"kusama"), Ok(Network::Kusama));
    assert_eq!(Network::from_str(b"Kusama"), Err(MultisigError::NetworkName));
    assert_eq!(Network::from_str(b""), Err(MultisigError::NetworkName));
    assert_eq!(Network::Polkadot.format(), 0);
    assert_eq!(Network::Kusama.format(), 2);
}

#[test]
fn threshold_parsing() {
    assert_eq!(parse_u16(b"2"), Ok(2));
    assert_eq!(parse_u16(b"0"), Ok(0));
    assert_eq!(parse_u16(b"+7"), Ok(7));
    assert_eq!(parse_u16(b"007"), Ok(7));
    assert_eq!(parse_u16(b"65535"), Ok(65535));
    assert_eq!(parse_u16(b"65536"), Err(MultisigError::ThresholdParse));
    assert_eq!(parse_u16(b"99999999999999"), Err(MultisigError::ThresholdParse));
    assert_eq!(parse_u16(b""), Err(MultisigError::ThresholdParse));
    assert_eq!(parse_u16(b"+"), Err(MultisigError::ThresholdParse));
    assert_eq!(parse_u16(b"12a"), Err(MultisigError::ThresholdParse));
    assert_eq!(parse_u16(b"-1"), Err(MultisigError::ThresholdParse));
}

#[test]
fn network_mismatch_rejected() {
    let id = account([3; 32]);
    let polkadot_text = encode(&id, 0);
    let kusama_text = encode(&id, 2);
    let r = multisig_address(b"kusama", b"1", &vec![polkadot_text.clone()]);
    assert_eq!(r, Err(MultisigError::AddressNetworkMismatch));
    let r = multisig_address(b"polkadot", b"1", &vec![kusama_text]);
    assert_eq!(r, Err(MultisigError::AddressNetworkMismatch));
    let r = multisig_address(b"polkadot", b"1", &vec![polkadot_text]);
    assert!(r.is_ok());
}

#[test]
fn concrete_kusama_scenario() {
    // B orders before A in byte order.
    let a = encode(&account([0xAA; 32]), 2);
    let b = encode(&account([0x01; 32]), 2);
    let one = multisig_address(b"kusama", b"2", &vec![a.clone(), b.clone()]).expect("valid input");
    let two = multisig_address(b"kusama", b"2", &vec![b, a]).expect("valid input");
    assert_eq!(one, two);
    let (_, fmt) = decode(&one).expect("the output must decode");
    assert_eq!(fmt, 2);
}

#[test]
fn threshold_not_bounded_by_member_count() {
    // The derivation itself accepts a zero threshold and one larger than
    // the member count; both still derive well-defined addresses.
    let a = encode(&account([1; 32]), 2);
    let low = multisig_address(b"kusama", b"0", &vec![a.clone()]).expect("valid input");
    let high = multisig_address(b"kusama", b"500", &vec![a]).expect("valid input");
    assert_ne!(low, high);
}

#[test]
fn unsupported_network_rejected() {
    let addr = encode(&account([1; 32]), 2);
    let r = multisig_address(b"westend", b"2", &vec![addr]);
    assert_eq!(r, Err(MultisigError::NetworkName));
}

#[test]
fn first_failing_address_reported() {
    let good = encode(&account([1; 32]), 2);
    let mut bad = good.clone();
    let last = bad.len() - 1;
    // Swap the final character for a different alphabet character.
    bad[last] = if bad[last] == 49 { 50 } else { 49 };
    let r = multisig_address(b"kusama", b"1", &vec![good.clone(), b"?".to_vec()]);
    assert_eq!(r, Err(MultisigError::AddressSyntax));
    let r = multisig_address(b"kusama", b"1", &vec![good, bad]);
    assert_eq!(r, Err(MultisigError::AddressIntegrity));
}
