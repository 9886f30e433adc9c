use dns_kit::dnssec::{
    any_key_accepts, check_rrset, check_rrsig, check_signature, key_fits, precedes,
    signature_verdict, signed_octets_of, sorted_rdatas, verify_rrset, Dnskey, Rrsig,
};
use dns_kit::envelope::Record;
use dns_kit::error::Error;
use dns_kit::name::DomainName;
use ed25519_dalek::Signer;

fn zone(text: &str) -> DomainName {
    DomainName::from_presentation(text).unwrap()
}

fn bytes_of(text: &str) -> Vec<u8> {
    let digits: Vec<u8> = text.bytes().map(|c| (c as char).to_digit(16).unwrap() as u8).collect();
    digits.chunks(2).map(|pair| pair[0] * 16 + pair[1]).collect()
}

// A published Ed25519 example: the MX record of example.com., signed by the
// key with tag 3613.
fn ed_key() -> Dnskey {
    Dnskey {
        owner: zone("example.com."),
        flags: 257,
        protocol: 3,
        algorithm: 15,
        public_key: bytes_of("974d96a22d224bc01adb915091477d44ccd91c9a41a11430010117d52c59240e"),
    }
}

fn ed_rrsig() -> Rrsig {
    Rrsig {
        type_covered: 15,
        algorithm: 15,
        labels: 2,
        original_ttl: 3600,
        expiration: 1440021600,
        inception: 1438207200,
        key_tag: 3613,
        signer_name: zone("example.com."),
        signature: bytes_of(
            "a0bf64ac9ba7ef17c138859c1878bb99a839fe1759aca5b0d798cf1ab1e98d07\
             9102f4ddb3368f0fe40bb377f1f00e0cddedb799167d56b6e932783072ba8d02",
        ),
    }
}

fn mx_rrset() -> Vec<Record> {
    let mut rdata = vec![0, 10];
    rdata.extend_from_slice(&zone("mail.example.com.").to_wire());
    vec![Record { name: zone("example.com."), rtype: 15, class: 1, ttl: 3600, rdata }]
}

const ED_NOW: u64 = 1439000000;

// A published ECDSA P-256 example: the A record of www.example.net., signed
// by the key with tag 55648.
fn ec_key() -> Dnskey {
    Dnskey {
        owner: zone("example.net."),
        flags: 257,
        protocol: 3,
        algorithm: 13,
        public_key: bytes_of(
            "1a88c88615d437fbb8bf9e1942a1929f28562706ae6c2bd399e7b1bfb6d1e9e7\
             5b92b4aa42917ae1c61b701ef035c3fe7be3009cbafe5a2f71316c902dcf0d00",
        ),
    }
}

fn ec_rrsig() -> Rrsig {
    Rrsig {
        type_covered: 1,
        algorithm: 13,
        labels: 3,
        original_ttl: 3600,
        expiration: 1284026679,
        inception: 1281607479,
        key_tag: 55648,
        signer_name: zone("example.net."),
        signature: bytes_of(
            "ab1eb02d8aa687e97da0229337aa8873e6f0eb26be289f28333d183f5d3b7a95\
             c0c869adfb748daee3c5286eed6682c12e5533186baced9c26c167a9ebae950b",
        ),
    }
}

fn a_rrset() -> Vec<Record> {
    vec![Record { name: zone("www.example.net."), rtype: 1, class: 1, ttl: 3600, rdata: vec![192, 0, 2, 1] }]
}

const EC_NOW: u64 = 1282000000;

/// A key pair made here, and a record set of three records signed with it.
fn own_key() -> (ed25519_dalek::SigningKey, Dnskey) {
    let secret = ed25519_dalek::SigningKey::from_bytes(&[7u8; 32]);
    let public = Dnskey {
        owner: zone("Example.ORG."),
        flags: 256,
        protocol: 3,
        algorithm: 15,
        public_key: secret.verifying_key().to_bytes().to_vec(),
    };
    (secret, public)
}

fn txt_rrset() -> Vec<Record> {
    [&b"\x03zzz"[..], &b"\x01a"[..], &b"\x02mm"[..]]
        .iter()
        .map(|rdata| Record { name: zone("Host.example.org."), rtype: 16, class: 1, ttl: 99, rdata: rdata.to_vec() })
        .collect()
}

fn own_rrsig(rrset: &[Record]) -> (Rrsig, Dnskey) {
    let (secret, public) = own_key();
    let mut rrsig = Rrsig {
        type_covered: 16,
        algorithm: 15,
        labels: 3,
        original_ttl: 300,
        expiration: 2000,
        inception: 1000,
        key_tag: public.key_tag(),
        signer_name: zone("example.org."),
        signature: vec![],
    };
    let message = signed_octets_of(rrset, &rrsig).unwrap();
    rrsig.signature = secret.sign(&message).to_bytes().to_vec();
    (rrsig, public)
}

#[test]
fn key_tags_of_known_keys() {
    assert_eq!(ed_key().key_tag(), 3613);
    assert_eq!(ec_key().key_tag(), 55648);
    assert_eq!(ed_key().rdata()[..4], [1, 1, 3, 15]);
    let empty = Dnskey { owner: zone("."), flags: 0, protocol: 0, algorithm: 0, public_key: vec![] };
    assert_eq!(empty.key_tag(), 0);
    // The carry out of the low 16 bits is added back: 0xffff + 0xffff + 0x0002
    // is 0x2_0000, and the 2 that was carried makes 0x2_0002.
    let carry = Dnskey { owner: zone("."), flags: 0xffff, protocol: 0xff, algorithm: 0xff, public_key: vec![0, 2] };
    assert_eq!(carry.key_tag(), 2);
    let carry = Dnskey { owner: zone("."), flags: 0xffff, protocol: 0, algorithm: 1, public_key: vec![] };
    assert_eq!(carry.key_tag(), 1);
    // An octet at an odd offset counts once, one at an even offset 256 times.
    let odd = Dnskey { owner: zone("."), flags: 0, protocol: 0, algorithm: 0, public_key: vec![1, 2, 3] };
    assert_eq!(odd.key_tag(), 0x0102 + 0x0300);
}

#[test]
fn ed25519_known_answer_verifies() {
    assert_eq!(verify_rrset(&mx_rrset(), &ed_rrsig(), &[ed_key()], ED_NOW), Ok(()));
    let expected = bytes_of(
        "000f0f0200000e1055d4fc6055b94ce00e1d076578616d706c6503636f6d00\
         076578616d706c6503636f6d00000f000100000e100014000a046d61696c076578616d706c6503636f6d00",
    );
    assert_eq!(signed_octets_of(&mx_rrset(), &ed_rrsig()).unwrap(), expected);
    // The owner in another case and another time to live are the same set.
    let mut shouted = mx_rrset();
    shouted[0].name = zone("EXAMPLE.com.");
    shouted[0].ttl = 5;
    assert_eq!(verify_rrset(&shouted, &ed_rrsig(), &[ec_key(), ed_key()], ED_NOW), Ok(()));
}

#[test]
fn ecdsa_known_answer_verifies() {
    assert_eq!(verify_rrset(&a_rrset(), &ec_rrsig(), &[ec_key()], EC_NOW), Ok(()));
    assert_eq!(verify_rrset(&a_rrset(), &ec_rrsig(), &[ed_key(), ec_key()], EC_NOW), Ok(()));
    let mut other = a_rrset();
    other[0].rdata[3] = 2;
    assert_eq!(verify_rrset(&other, &ec_rrsig(), &[ec_key()], EC_NOW), Err(Error::BadSignature));
    let mut rrsig = ec_rrsig();
    rrsig.signature[40] ^= 0x10;
    assert_eq!(verify_rrset(&a_rrset(), &rrsig, &[ec_key()], EC_NOW), Err(Error::BadSignature));
}

#[test]
fn any_altered_rdata_octet_is_a_bad_signature() {
    let rrset = mx_rrset();
    for at in 0..rrset[0].rdata.len() {
        for bit in [0x01u8, 0x80] {
            let mut other = mx_rrset();
            other[0].rdata[at] ^= bit;
            assert_eq!(
                verify_rrset(&other, &ed_rrsig(), &[ed_key()], ED_NOW),
                Err(Error::BadSignature)
            );
        }
    }
    let set = txt_rrset();
    let (rrsig, key) = own_rrsig(&set);
    assert_eq!(verify_rrset(&set, &rrsig, &[key], 1500), Ok(()));
    for record in 0..set.len() {
        for at in 0..set[record].rdata.len() {
            let mut other = txt_rrset();
            other[record].rdata[at] ^= 0x04;
            let (_, key) = own_key();
            assert_eq!(verify_rrset(&other, &rrsig, &[key], 1500), Err(Error::BadSignature));
        }
    }
}

#[test]
fn altered_signature_or_fields_are_a_bad_signature() {
    let mut rrsig = ed_rrsig();
    rrsig.signature[0] ^= 1;
    assert_eq!(verify_rrset(&mx_rrset(), &rrsig, &[ed_key()], ED_NOW), Err(Error::BadSignature));
    let mut rrsig = ed_rrsig();
    rrsig.signature.pop();
    assert_eq!(verify_rrset(&mx_rrset(), &rrsig, &[ed_key()], ED_NOW), Err(Error::BadSignature));
    let mut rrsig = ed_rrsig();
    rrsig.original_ttl = 3601;
    assert_eq!(verify_rrset(&mx_rrset(), &rrsig, &[ed_key()], ED_NOW), Err(Error::BadSignature));
    let mut rrsig = ed_rrsig();
    rrsig.labels = 3;
    assert_eq!(verify_rrset(&mx_rrset(), &rrsig, &[ed_key()], ED_NOW), Err(Error::BadSignature));
    let mut more = mx_rrset();
    more.push(mx_rrset().remove(0));
    assert_eq!(verify_rrset(&more, &ed_rrsig(), &[ed_key()], ED_NOW), Err(Error::BadSignature));
}

#[test]
fn key_tag_match_is_no_verification() {
    // A key with the tag, the algorithm and the owner that the signature
    // names, and another public key: the tag picks it, the signature fails.
    let mut forged = ed_key();
    forged.public_key[0] ^= 0x01;
    forged.public_key[2] ^= 0x01;
    assert_eq!(forged.key_tag(), 3613);
    assert!(key_fits(&forged, &ed_rrsig()));
    assert_eq!(verify_rrset(&mx_rrset(), &ed_rrsig(), &[forged], ED_NOW), Err(Error::BadSignature));
    // Among two keys with the tag, the one that verifies is found.
    let mut forged = ed_key();
    forged.public_key[0] ^= 0x01;
    forged.public_key[2] ^= 0x01;
    assert_eq!(verify_rrset(&mx_rrset(), &ed_rrsig(), &[forged, ed_key()], ED_NOW), Ok(()));
    let message = signed_octets_of(&mx_rrset(), &ed_rrsig()).unwrap();
    assert!(any_key_accepts(&[ed_key()], &ed_rrsig(), &message));
    assert!(!any_key_accepts(&[ec_key()], &ed_rrsig(), &message));
    assert!(!any_key_accepts(&[], &ed_rrsig(), &message));
    assert_eq!(signature_verdict(true), Ok(()));
    assert_eq!(signature_verdict(false), Err(Error::BadSignature));
}

#[test]
fn no_matching_key_is_a_bad_key() {
    assert_eq!(verify_rrset(&mx_rrset(), &ed_rrsig(), &[], ED_NOW), Err(Error::BadKey));
    assert_eq!(verify_rrset(&mx_rrset(), &ed_rrsig(), &[ec_key()], ED_NOW), Err(Error::BadKey));
    let mut rrsig = ed_rrsig();
    rrsig.key_tag = 3614;
    assert_eq!(verify_rrset(&mx_rrset(), &rrsig, &[ed_key()], ED_NOW), Err(Error::BadKey));
    let mut key = ed_key();
    key.owner = zone("example.net.");
    assert_eq!(verify_rrset(&mx_rrset(), &ed_rrsig(), &[key], ED_NOW), Err(Error::BadKey));
    let mut key = ed_key();
    key.algorithm = 13;
    assert!(!key_fits(&key, &ed_rrsig()));
    assert_eq!(verify_rrset(&mx_rrset(), &ed_rrsig(), &[key], ED_NOW), Err(Error::BadKey));
    // The owner of the key may differ in case.
    let mut key = ed_key();
    key.owner = zone("EXAMPLE.COM.");
    assert_eq!(verify_rrset(&mx_rrset(), &ed_rrsig(), &[key], ED_NOW), Ok(()));
}

#[test]
fn unsupported_signature_algorithm_is_a_bad_key_algorithm() {
    let mut key = ed_key();
    key.algorithm = 8;
    let mut rrsig = ed_rrsig();
    rrsig.algorithm = 8;
    rrsig.key_tag = key.key_tag();
    assert_eq!(verify_rrset(&mx_rrset(), &rrsig, &[key], ED_NOW), Err(Error::BadKeyAlgorithm));
    assert!(!check_signature(8, &ed_key().public_key, b"x", &ed_rrsig().signature));
}

#[test]
fn wrong_set_type_or_signer_is_a_bad_rrset() {
    assert_eq!(verify_rrset(&[], &ed_rrsig(), &[ed_key()], ED_NOW), Err(Error::BadRrset));
    let mut rrsig = ed_rrsig();
    rrsig.type_covered = 1;
    assert_eq!(verify_rrset(&mx_rrset(), &rrsig, &[ed_key()], ED_NOW), Err(Error::BadRrset));
    // A signer that is not above the owner.
    let mut below = mx_rrset();
    below[0].name = zone("com.");
    assert_eq!(verify_rrset(&below, &ed_rrsig(), &[ed_key()], ED_NOW), Err(Error::BadRrset));
    let mut beside = mx_rrset();
    beside[0].name = zone("www.example.net.");
    assert_eq!(verify_rrset(&beside, &ed_rrsig(), &[ed_key()], ED_NOW), Err(Error::BadRrset));
    // Records of two owners, two types or two classes are no set.
    let mut mixed = mx_rrset();
    mixed.push(Record { name: zone("a.example.com."), ..mx_rrset().remove(0) });
    assert!(!check_rrset(&mixed));
    assert_eq!(verify_rrset(&mixed, &ed_rrsig(), &[ed_key()], ED_NOW), Err(Error::BadRrset));
    let mut mixed = mx_rrset();
    mixed.push(Record { rtype: 16, ..mx_rrset().remove(0) });
    assert_eq!(verify_rrset(&mixed, &ed_rrsig(), &[ed_key()], ED_NOW), Err(Error::BadRrset));
    let mut mixed = mx_rrset();
    mixed.push(Record { class: 3, ..mx_rrset().remove(0) });
    assert_eq!(signed_octets_of(&mixed, &ed_rrsig()).err(), Some(Error::BadRrset));
    assert_eq!(signed_octets_of(&[], &ed_rrsig()).err(), Some(Error::BadRrset));
    assert!(check_rrset(&txt_rrset()));
    // A set below the signer is in order.
    let set = txt_rrset();
    let (rrsig, key) = own_rrsig(&set);
    assert_eq!(check_rrsig(&set, &rrsig, &[key], 1000), Ok(()));
}

#[test]
fn time_outside_the_validity_is_a_bad_time() {
    let rrsig = ed_rrsig();
    let keys = [ed_key()];
    assert_eq!(verify_rrset(&mx_rrset(), &rrsig, &keys, 1438207200), Ok(()));
    assert_eq!(verify_rrset(&mx_rrset(), &rrsig, &keys, 1440021600), Ok(()));
    assert_eq!(verify_rrset(&mx_rrset(), &rrsig, &keys, 1438207199), Err(Error::BadTime));
    assert_eq!(verify_rrset(&mx_rrset(), &rrsig, &keys, 1440021601), Err(Error::BadTime));
    assert_eq!(verify_rrset(&mx_rrset(), &rrsig, &keys, 0), Err(Error::BadTime));
    assert_eq!(verify_rrset(&mx_rrset(), &rrsig, &keys, u64::MAX), Err(Error::BadTime));
    assert_eq!(check_rrsig(&mx_rrset(), &rrsig, &keys, ED_NOW), Ok(()));
    assert_eq!(check_rrsig(&mx_rrset(), &rrsig, &keys, 1), Err(Error::BadTime));
}

#[test]
fn checks_come_in_their_order() {
    // Nothing fits: the key is missed first.
    let mut rrsig = ed_rrsig();
    rrsig.algorithm = 8;
    rrsig.type_covered = 1;
    assert_eq!(verify_rrset(&[], &rrsig, &[], 0), Err(Error::BadKey));
    let mut key = ed_key();
    key.algorithm = 8;
    rrsig.key_tag = key.key_tag();
    assert_eq!(verify_rrset(&[], &rrsig, &[key], 0), Err(Error::BadKeyAlgorithm));
    let mut rrsig = ed_rrsig();
    rrsig.type_covered = 1;
    assert_eq!(verify_rrset(&mx_rrset(), &rrsig, &[ed_key()], 0), Err(Error::BadRrset));
    let mut other = mx_rrset();
    other[0].rdata[0] = 9;
    assert_eq!(verify_rrset(&other, &ed_rrsig(), &[ed_key()], 0), Err(Error::BadTime));
}

#[test]
fn record_data_sorts_as_unsigned_octets() {
    assert!(precedes(&[], &[]));
    assert!(precedes(&[], &[0]));
    assert!(!precedes(&[0], &[]));
    assert!(precedes(&[1, 2], &[1, 2]));
    assert!(precedes(&[1, 2], &[1, 2, 0]));
    assert!(!precedes(&[1, 2, 0], &[1, 2]));
    assert!(precedes(&[1, 0xff], &[2]));
    assert!(precedes(&[0x7f], &[0x80]));
    assert!(!precedes(&[0x80], &[0x7f, 0xff]));
    let set = txt_rrset();
    assert_eq!(sorted_rdatas(&set), vec![b"\x01a".to_vec(), b"\x02mm".to_vec(), b"\x03zzz".to_vec()]);
    assert_eq!(sorted_rdatas(&[]), Vec::<Vec<u8>>::new());
    let rd = |rdata: &[u8]| Record { name: zone("a."), rtype: 1, class: 1, ttl: 0, rdata: rdata.to_vec() };
    let records = [rd(&[2]), rd(&[1, 1]), rd(&[]), rd(&[1]), rd(&[2]), rd(&[0xff]), rd(&[1, 0])];
    assert_eq!(
        sorted_rdatas(&records),
        vec![vec![], vec![1], vec![1, 0], vec![1, 1], vec![2], vec![2], vec![0xff]]
    );
}

#[test]
fn signed_octets_hold_the_set_in_canonical_form() {
    let set = txt_rrset();
    let (rrsig, key) = own_rrsig(&set);
    let message = signed_octets_of(&set, &rrsig).unwrap();
    let tag = key.key_tag();
    let mut expected = vec![0, 16, 15, 3, 0, 0, 1, 44, 0, 0, 7, 208, 0, 0, 3, 232, (tag >> 8) as u8, tag as u8];
    expected.extend_from_slice(&zone("example.org.").to_wire());
    for rdata in [&b"\x01a"[..], &b"\x02mm"[..], &b"\x03zzz"[..]] {
        expected.extend_from_slice(&zone("host.example.org.").to_wire());
        expected.extend_from_slice(&[0, 16, 0, 1, 0, 0, 1, 44, 0, rdata.len() as u8]);
        expected.extend_from_slice(rdata);
    }
    assert_eq!(message, expected);
    // The order in which the records are given does not matter.
    let mut turned = txt_rrset();
    turned.reverse();
    assert_eq!(signed_octets_of(&turned, &rrsig).unwrap(), message);
    assert_eq!(verify_rrset(&turned, &rrsig, &[key], 1000), Ok(()));
}

#[test]
fn rrsig_and_dnskey_data_are_read() {
    let mut rdata = vec![0, 15, 15, 2, 0, 0, 0x0e, 0x10, 0x55, 0xd4, 0xfc, 0x60, 0x55, 0xb9, 0x4c, 0xe0, 0x0e, 0x1d];
    rdata.extend_from_slice(&zone("example.com.").to_wire());
    rdata.extend_from_slice(&ed_rrsig().signature);
    let rrsig = Rrsig::decode(&rdata).unwrap();
    assert_eq!((rrsig.type_covered, rrsig.algorithm, rrsig.labels), (15, 15, 2));
    assert_eq!((rrsig.original_ttl, rrsig.expiration, rrsig.inception), (3600, 1440021600, 1438207200));
    assert_eq!(rrsig.key_tag, 3613);
    assert_eq!(rrsig.signer_name.to_presentation().unwrap(), "example.com.");
    assert_eq!(rrsig.signature, ed_rrsig().signature);
    assert_eq!(verify_rrset(&mx_rrset(), &rrsig, &[ed_key()], ED_NOW), Ok(()));
    assert_eq!(rrsig.signed_fields(), rdata[..31].to_vec());
    assert_eq!(Rrsig::decode(&rdata[..17]).err(), Some(Error::BadRdata));
    assert_eq!(Rrsig::decode(&rdata[..25]).err(), Some(Error::BadRdata));
    assert_eq!(Rrsig::decode(&rdata[..31]).unwrap().signature, Vec::<u8>::new());
    let mut pointed = rdata[..18].to_vec();
    pointed.extend_from_slice(&[0xc0, 0]);
    assert_eq!(Rrsig::decode(&pointed).err(), Some(Error::BadRdata));

    let key = Dnskey::decode(zone("example.com."), &ed_key().rdata()).unwrap();
    assert_eq!((key.flags, key.protocol, key.algorithm), (257, 3, 15));
    assert_eq!(key.public_key, ed_key().public_key);
    assert_eq!(key.key_tag(), 3613);
    assert_eq!(Dnskey::decode(zone("."), &[1, 0, 3]).err(), Some(Error::BadRdata));
    assert_eq!(Dnskey::decode(zone("."), &[1, 0, 3, 15]).unwrap().public_key, Vec::<u8>::new());
}

#[test]
fn signatures_are_checked_by_their_algorithm() {
    let message = signed_octets_of(&mx_rrset(), &ed_rrsig()).unwrap();
    assert!(check_signature(15, &ed_key().public_key, &message, &ed_rrsig().signature));
    assert!(!check_signature(13, &ed_key().public_key, &message, &ed_rrsig().signature));
    assert!(!check_signature(15, &ed_key().public_key[..31], &message, &ed_rrsig().signature));
    assert!(!check_signature(15, &ed_key().public_key, &message[1..], &ed_rrsig().signature));
    let message = signed_octets_of(&a_rrset(), &ec_rrsig()).unwrap();
    assert!(check_signature(13, &ec_key().public_key, &message, &ec_rrsig().signature));
    assert!(!check_signature(15, &ec_key().public_key, &message, &ec_rrsig().signature));
    assert!(!check_signature(13, &ec_key().public_key[..63], &message, &ec_rrsig().signature));
    assert!(!check_signature(13, &ec_key().public_key, &message, &[0; 64]));
    assert!(!check_signature(13, &[], &[], &[]));
}
