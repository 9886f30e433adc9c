use dns_kit::envelope::{Envelope, Header, Record};
use dns_kit::error::Error;
use dns_kit::name::DomainName;
use dns_kit::tsig::{
    begin_sign, begin_verify, check_mac, constant_time_eq, find_key, finish_sign, finish_verify,
    sign, verify, Tsig, TsigAlgorithm, TsigKey,
};

fn dn(text: &str) -> DomainName {
    DomainName::from_presentation(text).unwrap()
}

fn unhex(text: &str) -> Vec<u8> {
    let digits: Vec<u8> = text.bytes().map(|c| (c as char).to_digit(16).unwrap() as u8).collect();
    digits.chunks(2).map(|pair| pair[0] * 16 + pair[1]).collect()
}

fn key() -> TsigKey {
    TsigKey { name: dn("Transfer-Key.example."), secret: b"0123456789abcdef0123456789abcdef".to_vec() }
}

fn keys() -> Vec<TsigKey> {
    vec![TsigKey { name: dn("other.example."), secret: vec![1, 2, 3] }, key()]
}

fn query() -> Envelope {
    Envelope {
        header: Header { id: 0xbeef, flags: 0x0100, qdcount: 1, ancount: 0, nscount: 0, arcount: 0 },
        question: vec![Record { name: dn("example.com."), rtype: 6, class: 1, ttl: 0, rdata: vec![] }],
        answer: vec![],
        authority: vec![],
        additional: vec![],
    }
}

const NOW: u64 = 1_700_000_000;

fn signed() -> Envelope {
    let mut envelope = query();
    assert_eq!(sign(&mut envelope, &key(), &dn("hmac-sha256."), NOW), Ok(()));
    envelope
}

/// The envelope with the data of its TSIG record changed by `change`.
fn altered(change: fn(&mut Tsig)) -> Envelope {
    let mut envelope = signed();
    let record = envelope.additional.last_mut().unwrap();
    let mut tsig = Tsig::decode(&record.rdata).unwrap();
    change(&mut tsig);
    record.rdata = tsig.encode().unwrap();
    envelope
}

#[test]
fn hmac_known_answers() {
    let key = [0x0bu8; 20];
    assert_eq!(
        TsigAlgorithm::HmacSha1.compute(&key, b"Hi There"),
        unhex("b617318655057264e28bc0b6fb378c8ef146be00")
    );
    assert_eq!(
        TsigAlgorithm::HmacSha256.compute(&key, b"Hi There"),
        unhex("b0344c61d8db38535ca8afceaf0bf12b881dc200c9833da726e9376c2e32cff7")
    );
    assert_eq!(
        TsigAlgorithm::HmacSha512.compute(&key, b"Hi There"),
        unhex(
            "87aa7cdea5ef619d4ff0b4241a1d6cb02379f4e2ce4ec2787ad0b30545e17cde\
             daa833b7d6b8a702038b274eaea3f4e4be9d914eeb61f1702e696c203a126854"
        )
    );
    assert_eq!(
        TsigAlgorithm::HmacSha256.compute(b"Jefe", b"what do ya want for nothing?"),
        unhex("5bdcc146bf60754e6a042426089575c75a003f089d2739839dec58b964ec3843")
    );
    // A key longer than the block of the hash, and no key at all.
    assert_eq!(
        TsigAlgorithm::HmacSha256.compute(
            &[0xaa; 131],
            b"Test Using Larger Than Block-Size Key - Hash Key First"
        ),
        unhex("60e431591ee0b67f0d8a26aacbf5b77f8e0bc6213728c5140546040f0ee37f54")
    );
    assert_eq!(TsigAlgorithm::HmacSha1.compute(&[], &[]).len(), 20);
}

#[test]
fn algorithms_are_known_by_name() {
    assert_eq!(TsigAlgorithm::from_name(&dn("hmac-sha1.")), Some(TsigAlgorithm::HmacSha1));
    assert_eq!(TsigAlgorithm::from_name(&dn("hmac-sha256.")), Some(TsigAlgorithm::HmacSha256));
    assert_eq!(TsigAlgorithm::from_name(&dn("HMAC-SHA512.")), Some(TsigAlgorithm::HmacSha512));
    assert_eq!(TsigAlgorithm::from_name(&dn("hmac-md5.sig-alg.reg.int.")), None);
    assert_eq!(TsigAlgorithm::from_name(&dn("hmac-sha384.")), None);
    assert_eq!(TsigAlgorithm::from_name(&dn("hmac-sha256.example.")), None);
    assert_eq!(TsigAlgorithm::from_name(&dn(".")), None);
}

#[test]
fn signing_appends_the_tsig_record() {
    let envelope = signed();
    assert_eq!(envelope.header.arcount, 1);
    assert_eq!(envelope.header.id, 0xbeef);
    assert_eq!(envelope.additional.len(), 1);
    let record = &envelope.additional[0];
    assert_eq!(record.name.to_presentation().unwrap(), "Transfer-Key.example.");
    assert_eq!((record.rtype, record.class, record.ttl), (250, 255, 0));
    let tsig = Tsig::decode(&record.rdata).unwrap();
    assert_eq!(tsig.algorithm.to_presentation().unwrap(), "hmac-sha256.");
    assert_eq!(tsig.time_signed, NOW);
    assert_eq!(tsig.fudge, 300);
    assert_eq!(tsig.original_id, 0xbeef);
    assert_eq!(tsig.error, 0);
    assert!(tsig.other.is_empty());
    // The MAC is the keyed hash of the message as it was and the variables.
    let mut hashed = query().encode_uncompressed(512).unwrap();
    hashed.extend_from_slice(&dn("transfer-key.example.").to_wire());
    hashed.extend_from_slice(&[0, 255, 0, 0, 0, 0]);
    hashed.extend_from_slice(&dn("hmac-sha256.").to_wire());
    hashed.extend_from_slice(&[0, 0, 0x65, 0x53, 0xf1, 0x00, 0x01, 0x2c, 0, 0, 0, 0]);
    assert_eq!(tsig.mac, TsigAlgorithm::HmacSha256.compute(&key().secret, &hashed));
    assert_eq!(tsig.mac.len(), 32);
}

#[test]
fn signed_message_verifies() {
    let envelope = signed();
    assert_eq!(verify(&envelope, &keys(), NOW, 0xbeef), Ok(()));
    assert_eq!(verify(&envelope, &keys(), NOW + 300, 0xbeef), Ok(()));
    assert_eq!(verify(&envelope, &keys(), NOW - 300, 0xbeef), Ok(()));
    // Over the wire, compressed, and back.
    let bytes = envelope.encode(512).unwrap();
    let received = Envelope::decode(&bytes).unwrap();
    assert_eq!(verify(&received, &keys(), NOW + 1, 0xbeef), Ok(()));
    for algorithm in ["hmac-sha1.", "HMAC-SHA256.", "hmac-sha512."] {
        let mut other = query();
        assert_eq!(sign(&mut other, &key(), &dn(algorithm), 5), Ok(()));
        assert_eq!(verify(&other, &keys(), 5, 0xbeef), Ok(()));
    }
}

#[test]
fn flipped_mac_bit_is_a_bad_signature() {
    for bit in [0usize, 7, 100, 255] {
        let mut envelope = signed();
        let record = envelope.additional.last_mut().unwrap();
        let mut tsig = Tsig::decode(&record.rdata).unwrap();
        tsig.mac[bit / 8] ^= 1 << (bit % 8);
        record.rdata = tsig.encode().unwrap();
        assert_eq!(verify(&envelope, &keys(), NOW, 0xbeef), Err(Error::BadSignature));
    }
    assert_eq!(verify(&altered(|t| t.mac.truncate(16)), &keys(), NOW, 0xbeef), Err(Error::BadSignature));
    assert_eq!(verify(&altered(|t| t.mac.clear()), &keys(), NOW, 0xbeef), Err(Error::BadSignature));
}

#[test]
fn altered_message_is_a_bad_signature() {
    let mut envelope = signed();
    envelope.question[0].rtype = 1;
    assert_eq!(verify(&envelope, &keys(), NOW, 0xbeef), Err(Error::BadSignature));
    let mut envelope = signed();
    envelope.header.flags = 0;
    assert_eq!(verify(&envelope, &keys(), NOW, 0xbeef), Err(Error::BadSignature));
    assert_eq!(verify(&altered(|t| t.error = 16), &keys(), NOW, 0xbeef), Err(Error::BadSignature));
    assert_eq!(verify(&altered(|t| t.fudge = 301), &keys(), NOW, 0xbeef), Err(Error::BadSignature));
    assert_eq!(verify(&altered(|t| t.other = vec![0; 6]), &keys(), NOW, 0xbeef), Err(Error::BadSignature));
    // Another secret under the same name.
    let wrong = vec![TsigKey { name: dn("transfer-key.example."), secret: vec![0; 32] }];
    assert_eq!(verify(&signed(), &wrong, NOW, 0xbeef), Err(Error::BadSignature));
}

#[test]
fn time_outside_the_fudge_is_a_bad_time() {
    let envelope = signed();
    assert_eq!(verify(&envelope, &keys(), NOW + 301, 0xbeef), Err(Error::BadTime));
    assert_eq!(verify(&envelope, &keys(), NOW - 301, 0xbeef), Err(Error::BadTime));
    assert_eq!(verify(&envelope, &keys(), 0, 0xbeef), Err(Error::BadTime));
    assert_eq!(verify(&envelope, &keys(), u64::MAX, 0xbeef), Err(Error::BadTime));
    // The time signed moved out of the window, the MAC left as it was.
    assert_eq!(verify(&altered(|t| t.time_signed += 301), &keys(), NOW, 0xbeef), Err(Error::BadTime));
    assert_eq!(verify(&altered(|t| t.time_signed -= 301), &keys(), NOW, 0xbeef), Err(Error::BadTime));
    assert_eq!(verify(&altered(|t| t.time_signed = 0), &keys(), NOW, 0xbeef), Err(Error::BadTime));
    // Moved inside the window, the time is accepted and the MAC is not.
    assert_eq!(verify(&altered(|t| t.time_signed += 1), &keys(), NOW, 0xbeef), Err(Error::BadSignature));
}

#[test]
fn unknown_key_name_has_no_secrets() {
    let envelope = signed();
    assert_eq!(verify(&envelope, &vec![], NOW, 0xbeef), Err(Error::NoSecrets));
    let others = vec![TsigKey { name: dn("other.example."), secret: key().secret }];
    assert_eq!(verify(&envelope, &others, NOW, 0xbeef), Err(Error::NoSecrets));
    assert_eq!(find_key(&keys(), &dn("TRANSFER-KEY.EXAMPLE.")), Some(1));
    assert_eq!(find_key(&keys(), &dn("key.example.")), None);
    let mut renamed = signed();
    renamed.additional[0].name = dn("nobody.example.");
    assert_eq!(verify(&renamed, &keys(), NOW, 0xbeef), Err(Error::NoSecrets));
}

#[test]
fn missing_tsig_is_no_signature() {
    assert_eq!(verify(&query(), &keys(), NOW, 0xbeef), Err(Error::NoSignature));
    // A TSIG record that is not the last of the additional section.
    let mut envelope = signed();
    envelope.additional.push(Record { name: dn("."), rtype: 41, class: 512, ttl: 0, rdata: vec![] });
    envelope.header.arcount = 2;
    assert_eq!(verify(&envelope, &keys(), NOW, 0xbeef), Err(Error::NoSignature));
}

#[test]
fn other_identifier_is_an_id_mismatch() {
    assert_eq!(verify(&signed(), &keys(), NOW, 0xbeee), Err(Error::IdMismatch));
    // A response whose identifier was rewritten still verifies against the
    // original identifier that its TSIG record holds.
    let mut forwarded = signed();
    forwarded.header.id = 7;
    assert_eq!(verify(&forwarded, &keys(), NOW, 0xbeef), Ok(()));
    assert_eq!(verify(&forwarded, &keys(), NOW, 7), Err(Error::IdMismatch));
}

#[test]
fn unsupported_algorithm_is_a_bad_key_algorithm() {
    let mut envelope = query();
    assert_eq!(sign(&mut envelope, &key(), &dn("hmac-md5.sig-alg.reg.int."), NOW), Err(Error::BadKeyAlgorithm));
    assert_eq!(envelope.additional.len(), 0);
    assert_eq!(envelope.header.arcount, 0);
    let renamed = altered(|t| t.algorithm = DomainName::from_presentation("gss-tsig.").unwrap());
    assert_eq!(verify(&renamed, &keys(), NOW, 0xbeef), Err(Error::BadKeyAlgorithm));
    // The key is looked up before the algorithm.
    assert_eq!(verify(&renamed, &vec![], NOW, 0xbeef), Err(Error::NoSecrets));
}

#[test]
fn sign_rejects_what_it_cannot_sign() {
    let mut late = query();
    assert_eq!(sign(&mut late, &key(), &dn("hmac-sha256."), 1 << 48), Err(Error::BadTime));
    assert_eq!(sign(&mut late, &key(), &dn("hmac-sha256."), (1 << 48) - 1), Ok(()));
    let mut odd = query();
    odd.header.qdcount = 2;
    assert_eq!(sign(&mut odd, &key(), &dn("hmac-sha256."), NOW), Err(Error::BadRrset));
    assert_eq!(odd.additional.len(), 0);
}

#[test]
fn tsig_data_round_trips() {
    let tsig = Tsig {
        algorithm: dn("hmac-sha256."),
        time_signed: 0x0102_0304_0506,
        fudge: 0x1234,
        mac: vec![0xaa, 0xbb],
        original_id: 0xfeed,
        error: 18,
        other: vec![0, 0, 0, 0, 0, 9],
    };
    let rdata = tsig.encode().unwrap();
    let mut expected = dn("hmac-sha256.").to_wire();
    expected.extend_from_slice(&[1, 2, 3, 4, 5, 6, 0x12, 0x34, 0, 2, 0xaa, 0xbb]);
    expected.extend_from_slice(&[0xfe, 0xed, 0, 18, 0, 6, 0, 0, 0, 0, 0, 9]);
    assert_eq!(rdata, expected);
    let back = Tsig::decode(&rdata).unwrap();
    assert_eq!(back.time_signed, 0x0102_0304_0506);
    assert_eq!((back.fudge, back.original_id, back.error), (0x1234, 0xfeed, 18));
    assert_eq!(back.mac, vec![0xaa, 0xbb]);
    assert_eq!(back.other, vec![0, 0, 0, 0, 0, 9]);
    assert_eq!(back.encode().unwrap(), rdata);
}

#[test]
fn malformed_tsig_data_is_bad_rdata() {
    let rdata = signed().additional[0].rdata.clone();
    assert!(Tsig::decode(&rdata).is_ok());
    for cut in [0, 5, 13, 20, rdata.len() - 1] {
        assert_eq!(Tsig::decode(&rdata[..cut]).err(), Some(Error::BadRdata));
    }
    let mut longer = rdata.clone();
    longer.push(0);
    assert_eq!(Tsig::decode(&longer).err(), Some(Error::BadRdata));
    let mut bad_name = rdata.clone();
    bad_name[0] = 0x80;
    assert_eq!(Tsig::decode(&bad_name).err(), Some(Error::BadRdata));
    let mut envelope = signed();
    envelope.additional[0].rdata.pop();
    assert_eq!(verify(&envelope, &keys(), NOW, 0xbeef), Err(Error::BadRdata));
    let big = Tsig {
        algorithm: dn("hmac-sha256."),
        time_signed: 1 << 48,
        fudge: 0,
        mac: vec![],
        original_id: 0,
        error: 0,
        other: vec![],
    };
    assert_eq!(big.encode().err(), Some(Error::BadRdata));
    let wide = Tsig { time_signed: 0, mac: vec![0; 65536], ..big };
    assert_eq!(wide.encode().err(), Some(Error::BadRdata));
}

#[test]
fn macs_compare_in_full() {
    assert!(constant_time_eq(&[], &[]));
    assert!(constant_time_eq(&[1, 2, 3], &[1, 2, 3]));
    assert!(!constant_time_eq(&[1, 2, 3], &[1, 2, 4]));
    assert!(!constant_time_eq(&[0x80, 2, 3], &[0, 2, 3]));
    assert!(!constant_time_eq(&[1, 2, 3], &[1, 2]));
    assert!(!constant_time_eq(&[], &[0]));
    assert_eq!(check_mac(&[9; 32], &[9; 32]), Ok(()));
    assert_eq!(check_mac(&[9; 32], &[9; 31]), Err(Error::BadSignature));
    let mut other = [9u8; 32];
    other[31] = 8;
    assert_eq!(check_mac(&[9; 32], &other), Err(Error::BadSignature));
}

#[test]
fn signing_goes_through_its_states() {
    // Unsigned to being signed: the octets to hash are handed out.
    let mut envelope = query();
    let signing = begin_sign(&envelope, &key().name, &dn("hmac-sha512."), NOW).unwrap();
    assert_eq!(signing.hash, TsigAlgorithm::HmacSha512);
    assert_eq!(signing.tsig.time_signed, NOW);
    assert!(signing.tsig.mac.is_empty());
    assert_eq!(envelope.additional.len(), 0);
    let plain = query().encode_uncompressed(512).unwrap();
    assert_eq!(&signing.octets[..plain.len()], &plain[..]);
    // The MAC is computed by whoever holds the secret.
    let mac = signing.hash.compute(&key().secret, &signing.octets);
    // Being signed to signed: the record is appended.
    assert_eq!(finish_sign(&mut envelope, &key().name, signing, mac), Ok(()));
    assert_eq!(envelope.header.arcount, 1);
    assert_eq!(verify(&envelope, &keys(), NOW, 0xbeef), Ok(()));
    // The same in one step gives the same message.
    let mut direct = query();
    assert_eq!(sign(&mut direct, &key(), &dn("hmac-sha512."), NOW), Ok(()));
    assert_eq!(direct.encode(512).unwrap(), envelope.encode(512).unwrap());
}

#[test]
fn signing_cannot_end_with_what_does_not_fit() {
    let mut envelope = query();
    let signing = begin_sign(&envelope, &key().name, &dn("hmac-sha256."), NOW).unwrap();
    assert_eq!(finish_sign(&mut envelope, &key().name, signing, vec![0; 65536]), Err(Error::BadRdata));
    assert_eq!(envelope.additional.len(), 0);
    let signing = begin_sign(&envelope, &key().name, &dn("hmac-sha256."), NOW).unwrap();
    envelope.header.arcount = 0xffff;
    assert_eq!(finish_sign(&mut envelope, &key().name, signing, vec![0; 32]), Err(Error::BadRrset));
    assert_eq!(envelope.additional.len(), 0);
    assert_eq!(begin_sign(&envelope, &key().name, &dn("hmac-sha256."), NOW).err(), Some(Error::BadRrset));
    assert_eq!(begin_sign(&query(), &key().name, &dn("md5."), NOW).err(), Some(Error::BadKeyAlgorithm));
    assert_eq!(begin_sign(&query(), &key().name, &dn("hmac-sha1."), u64::MAX).err(), Some(Error::BadTime));
}

#[test]
fn verifying_goes_through_its_states() {
    // Received to being verified: all but the MAC is checked.
    let envelope = signed();
    let verifying = begin_verify(&envelope, &keys(), NOW + 10, 0xbeef).unwrap();
    assert_eq!(verifying.hash, TsigAlgorithm::HmacSha256);
    assert_eq!(verifying.key, 1);
    assert_eq!(verifying.mac.len(), 32);
    let computed = verifying.hash.compute(&keys()[verifying.key].secret, &verifying.octets);
    // Being verified to verified, or to rejected.
    assert_eq!(finish_verify(&verifying, &computed), Ok(()));
    assert_eq!(finish_verify(&verifying, &computed[..31]), Err(Error::BadSignature));
    assert_eq!(finish_verify(&verifying, &[0; 32]), Err(Error::BadSignature));
    // Received to rejected, before any hash is computed.
    assert_eq!(begin_verify(&query(), &keys(), NOW, 0xbeef).err(), Some(Error::NoSignature));
    assert_eq!(begin_verify(&envelope, &vec![], NOW, 0xbeef).err(), Some(Error::NoSecrets));
    assert_eq!(begin_verify(&envelope, &keys(), NOW + 301, 0xbeef).err(), Some(Error::BadTime));
    assert_eq!(begin_verify(&envelope, &keys(), NOW, 1).err(), Some(Error::IdMismatch));
    // A message that cannot be written in canonical form is rejected so.
    let mut odd = signed();
    odd.header.ancount = 3;
    assert_eq!(verify(&odd, &keys(), NOW, 0xbeef), Err(Error::BadRrset));
}
