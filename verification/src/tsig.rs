//! Transaction signatures: a keyed hash over a message and the variables of
//! its TSIG record, carried by that record at the end of the additional
//! section.
//!
//! A message goes out unsigned; `begin_sign` takes it to the state in which
//! it is being signed, a [`Signing`] that holds the octets to hash; and
//! `finish_sign` takes it, with the MAC, to the state in which it is signed.
//! A message comes in as received; `begin_verify` runs every check but that
//! of the MAC and takes it to the state in which it is being verified, a
//! [`Verifying`]; and `finish_verify` takes it, with the MAC that was
//! computed, to its end: verified, or rejected. `sign` and `verify` go the
//! whole way and compute the MAC themselves.

use vstd::prelude::*;
use hmac::Hmac;
use hmac::Mac;
use sha1::Sha1;
use sha2::Sha256;
use sha2::Sha512;
use crate::compress::same_octets;
use crate::cursor::Reader;
use crate::cursor::be16;
use crate::cursor::be48;
use crate::cursor::lemma_be16_of_octets;
use crate::cursor::lemma_be48_of_octets;
use crate::cursor::put_bytes;
use crate::cursor::put_u16;
use crate::cursor::put_u32;
use crate::cursor::put_u48;
use crate::cursor::u16_octets;
use crate::cursor::u32_octets;
use crate::cursor::u48_octets;
use crate::envelope::Envelope;
use crate::envelope::EnvelopeView;
use crate::envelope::Header;
use crate::envelope::Record;
use crate::envelope::RecordView;
use crate::envelope::check_envelope;
use crate::envelope::clone_records;
use crate::envelope::records_of;
use crate::envelope::plain_message;
use crate::error::Error;
use crate::name::DomainName;
use crate::name::decode_name;
use crate::name::lemma_lower_name_valid;
use crate::name::lower_bytes;
use crate::name::lemma_decode_name_valid;
use crate::name::lemma_decode_wire_form;
use crate::name::lemma_wire_form_len;
use crate::name::lower_label;
use crate::name::lower_name;
use crate::name::same_name;
use crate::name::valid_name;
use crate::name::wire_form;
use crate::name::wire_len;

verus! {

/// The record type of the TSIG record.
pub const TYPE_TSIG: u16 = 250;

/// The class ANY, which every TSIG record has.
pub const CLASS_ANY: u16 = 255;

/// The seconds by which the clocks of signer and verifier may differ, as
/// the signer writes them into the record.
pub const DEFAULT_FUDGE: u16 = 300;

/// The first time that no longer fits the 48 bits of a TSIG record.
pub const TIME_LIMIT: u64 = 0x1_0000_0000_0000;

/// The keyed hashes that can sign a message.
#[derive(Debug, Clone, Copy, PartialEq, Eq, Structural)]
pub enum TsigAlgorithm {
    HmacSha1,
    HmacSha256,
    HmacSha512,
}

/// The label `hmac-sha1`.
pub open spec fn label_hmac_sha1() -> Seq<u8> {
    seq![0x68u8, 0x6d, 0x61, 0x63, 0x2d, 0x73, 0x68, 0x61, 0x31]
}

/// The label `hmac-sha256`.
pub open spec fn label_hmac_sha256() -> Seq<u8> {
    seq![0x68u8, 0x6d, 0x61, 0x63, 0x2d, 0x73, 0x68, 0x61, 0x32, 0x35, 0x36]
}

/// The label `hmac-sha512`.
pub open spec fn label_hmac_sha512() -> Seq<u8> {
    seq![0x68u8, 0x6d, 0x61, 0x63, 0x2d, 0x73, 0x68, 0x61, 0x35, 0x31, 0x32]
}

/// The algorithm that `name` names, if it is supported: `hmac-sha1.`,
/// `hmac-sha256.` or `hmac-sha512.`, in any case of letters.
pub open spec fn algorithm_named(name: Seq<Seq<u8>>) -> Option<TsigAlgorithm> {
    if name.len() != 1 {
        None
    } else if lower_label(name[0]) == label_hmac_sha1() {
        Some(TsigAlgorithm::HmacSha1)
    } else if lower_label(name[0]) == label_hmac_sha256() {
        Some(TsigAlgorithm::HmacSha256)
    } else if lower_label(name[0]) == label_hmac_sha512() {
        Some(TsigAlgorithm::HmacSha512)
    } else {
        None
    }
}

/// What the data of a TSIG record holds.
pub struct TsigView {
    pub algorithm: Seq<Seq<u8>>,
    pub time_signed: u64,
    pub fudge: u16,
    pub mac: Seq<u8>,
    pub original_id: u16,
    pub error: u16,
    pub other: Seq<u8>,
}

/// A key by its name.
pub struct KeyView {
    pub name: Seq<Seq<u8>>,
    pub secret: Seq<u8>,
}

/// The data of a TSIG record: the algorithm name without compression, the
/// time in 48 bits, the fudge, the MAC preceded by its length, the original
/// identifier, the error, and the other data preceded by its length.
pub open spec fn tsig_rdata(t: TsigView) -> Seq<u8> {
    wire_form(t.algorithm) + u48_octets(t.time_signed as int) + u16_octets(t.fudge as int)
        + u16_octets(t.mac.len() as int) + t.mac + u16_octets(t.original_id as int) + u16_octets(
        t.error as int,
    ) + u16_octets(t.other.len() as int) + t.other
}

/// Whether the fields of a TSIG record fit their widths.
pub open spec fn tsig_fields_fit(t: TsigView) -> bool {
    &&& t.time_signed < TIME_LIMIT
    &&& t.mac.len() <= 0xffff
    &&& t.other.len() <= 0xffff
}

/// Whether the fields of a TSIG record fit their widths, and the record data
/// the 16 bits of its length.
pub open spec fn tsig_fits(t: TsigView) -> bool {
    &&& tsig_fields_fit(t)
    &&& wire_len(t.algorithm) + 16 + t.mac.len() + t.other.len() <= 0xffff
}

/// What record data holds as a TSIG record. Data that is not laid out as
/// `tsig_rdata` lays it out, to the last octet, is `BadRdata`.
pub open spec fn parse_tsig(rdata: Seq<u8>) -> Result<TsigView, Error> {
    match decode_name(rdata, 0) {
        Err(_) => Err(Error::BadRdata),
        Ok((algorithm, p)) => if p != wire_len(algorithm) {
            Err(Error::BadRdata)
        } else if p + 10 > rdata.len() {
            Err(Error::BadRdata)
        } else {
            let q = p + 10 + be16(rdata, p + 8);
            if q + 6 > rdata.len() {
                Err(Error::BadRdata)
            } else if q + 6 + be16(rdata, q + 4) != rdata.len() {
                Err(Error::BadRdata)
            } else {
                Ok(
                    TsigView {
                        algorithm,
                        time_signed: be48(rdata, p) as u64,
                        fudge: be16(rdata, p + 6) as u16,
                        mac: rdata.subrange(p + 10, q),
                        original_id: be16(rdata, q) as u16,
                        error: be16(rdata, q + 2) as u16,
                        other: rdata.subrange(q + 6, rdata.len() as int),
                    },
                )
            }
        },
    }
}

/// The variables of a TSIG record, as signer and verifier hash them: the key
/// name in lower case without compression, the class ANY, a time to live of
/// zero, the algorithm name in lower case without compression, the time in 48
/// bits, the fudge, the error, and the other data preceded by its length.
pub open spec fn tsig_variables(key_name: Seq<Seq<u8>>, t: TsigView) -> Seq<u8> {
    wire_form(lower_name(key_name)) + u16_octets(CLASS_ANY as int) + u32_octets(0) + wire_form(
        lower_name(t.algorithm),
    ) + u48_octets(t.time_signed as int) + u16_octets(t.fudge as int) + u16_octets(t.error as int)
        + u16_octets(t.other.len() as int) + t.other
}

/// The octets that are hashed: the message without its TSIG record, in
/// canonical form, and the variables of the TSIG record behind it.
pub open spec fn signed_octets(message: EnvelopeView, key_name: Seq<Seq<u8>>, t: TsigView) -> Seq<
    u8,
> {
    plain_message(message) + tsig_variables(key_name, t)
}

/// HMAC-SHA-1 of `data` under `key`.
pub uninterp spec fn hmac_sha1(key: Seq<u8>, data: Seq<u8>) -> Seq<u8>;

/// HMAC-SHA-256 of `data` under `key`.
pub uninterp spec fn hmac_sha256(key: Seq<u8>, data: Seq<u8>) -> Seq<u8>;

/// HMAC-SHA-512 of `data` under `key`.
pub uninterp spec fn hmac_sha512(key: Seq<u8>, data: Seq<u8>) -> Seq<u8>;

/// The keyed hash of `data` under `key` that `algorithm` computes.
pub open spec fn keyed_hash(algorithm: TsigAlgorithm, key: Seq<u8>, data: Seq<u8>) -> Seq<u8> {
    match algorithm {
        TsigAlgorithm::HmacSha1 => hmac_sha1(key, data),
        TsigAlgorithm::HmacSha256 => hmac_sha256(key, data),
        TsigAlgorithm::HmacSha512 => hmac_sha512(key, data),
    }
}

/// The secret of the first key among `keys` that `name` names, the case of
/// letters ignored.
pub open spec fn find_secret(keys: Seq<KeyView>, name: Seq<Seq<u8>>) -> Option<Seq<u8>>
    decreases keys.len(),
{
    if keys.len() == 0 {
        None
    } else if same_name(keys[0].name, name) {
        Some(keys[0].secret)
    } else {
        find_secret(keys.drop_first(), name)
    }
}

/// The TSIG record of the key `key_name` with the data `t`.
pub open spec fn tsig_record(key_name: Seq<Seq<u8>>, t: TsigView) -> RecordView {
    RecordView { name: key_name, rtype: TYPE_TSIG, class: CLASS_ANY, ttl: 0, rdata: tsig_rdata(t) }
}

/// The message with a TSIG record appended to its additional section and
/// counted in its header.
pub open spec fn with_signature(message: EnvelopeView, record: RecordView) -> EnvelopeView {
    EnvelopeView {
        header: Header { arcount: (message.header.arcount + 1) as u16, ..message.header },
        question: message.question,
        answer: message.answer,
        authority: message.authority,
        additional: message.additional.push(record),
    }
}

/// The message as it was hashed: without the last record of its additional
/// section, which its header no longer counts, and with `id` as its
/// identifier.
pub open spec fn without_signature(message: EnvelopeView, id: u16) -> EnvelopeView {
    EnvelopeView {
        header: Header {
            id,
            arcount: if message.header.arcount > 0 {
                (message.header.arcount - 1) as u16
            } else {
                0
            },
            ..message.header
        },
        question: message.question,
        answer: message.answer,
        authority: message.authority,
        additional: message.additional.drop_last(),
    }
}

/// The data of the TSIG record that signs `message` at the time `now`, but
/// for its MAC.
pub open spec fn unsigned_tsig(message: EnvelopeView, algorithm: Seq<Seq<u8>>, now: u64) -> TsigView {
    TsigView {
        algorithm,
        time_signed: now,
        fudge: DEFAULT_FUDGE,
        mac: Seq::empty(),
        original_id: message.header.id,
        error: 0,
        other: Seq::empty(),
    }
}

/// Whether a message can be signed at the time `now` with the algorithm that
/// is named, and the keyed hash that then signs it.
///
/// An algorithm that is not supported is `BadKeyAlgorithm`. A message that
/// cannot be written fails as `check_envelope` says. A time of more than 48
/// bits is `BadTime`. A header that cannot count one more record is
/// `BadRrset`. A canonical form that the machine cannot address is
/// `BufferTooSmall`.
pub open spec fn sign_start(message: EnvelopeView, algorithm: Seq<Seq<u8>>, now: u64) -> Result<
    TsigAlgorithm,
    Error,
> {
    match algorithm_named(algorithm) {
        None => Err(Error::BadKeyAlgorithm),
        Some(hash) => match check_envelope(message) {
            Err(e) => Err(e),
            Ok(_) => if now >= TIME_LIMIT {
                Err(Error::BadTime)
            } else if message.header.arcount == 0xffff {
                Err(Error::BadRrset)
            } else if plain_message(message).len() > usize::MAX {
                Err(Error::BufferTooSmall)
            } else {
                Ok(hash)
            },
        },
    }
}

/// What the end of signing gives: the message with the TSIG record that
/// holds `blank` and the MAC. A MAC that does not fit the record is
/// `BadRdata`; a header that cannot count one more record is `BadRrset`.
pub open spec fn sign_finish(
    message: EnvelopeView,
    key_name: Seq<Seq<u8>>,
    blank: TsigView,
    mac: Seq<u8>,
) -> Result<EnvelopeView, Error> {
    if !tsig_fits(TsigView { mac, ..blank }) {
        Err(Error::BadRdata)
    } else if message.header.arcount == 0xffff {
        Err(Error::BadRrset)
    } else {
        Ok(with_signature(message, tsig_record(key_name, TsigView { mac, ..blank })))
    }
}

/// What signing gives: what `sign_start` objects to, else the message with
/// its TSIG record, whose MAC is the keyed hash of the message as it was
/// and the variables of the record.
pub open spec fn sign_outcome(
    message: EnvelopeView,
    key_name: Seq<Seq<u8>>,
    secret: Seq<u8>,
    algorithm: Seq<Seq<u8>>,
    now: u64,
) -> Result<EnvelopeView, Error> {
    match sign_start(message, algorithm, now) {
        Err(e) => Err(e),
        Ok(hash) => {
            let blank = unsigned_tsig(message, algorithm, now);
            let mac = keyed_hash(hash, secret, signed_octets(message, key_name, blank));
            Ok(with_signature(message, tsig_record(key_name, TsigView { mac, ..blank })))
        },
    }
}

/// The seconds between two times.
pub open spec fn time_gap(a: u64, b: u64) -> int {
    if a >= b {
        a - b
    } else {
        b - a
    }
}

/// What is known of a message once all but its MAC is checked.
pub struct Pending {
    pub hash: TsigAlgorithm,
    pub secret: Seq<u8>,
    pub octets: Seq<u8>,
    pub mac: Seq<u8>,
}

/// What verification finds before it looks at the MAC, with the checks in
/// their order: the keyed hash, the secret, the octets that were hashed and
/// the MAC that the message carries.
///
/// No TSIG record at the end of the additional section is `NoSignature`.
/// Record data that is no TSIG record is `BadRdata`. No key of the record's
/// name is `NoSecrets`. An algorithm that is not supported is
/// `BadKeyAlgorithm`. A time signed that is more than the fudge away from
/// `now` is `BadTime`. An original identifier other than `expected_id` is
/// `IdMismatch`. A message that cannot be written in canonical form fails as
/// `check_envelope` says.
pub open spec fn verify_start(
    message: EnvelopeView,
    keys: Seq<KeyView>,
    now: u64,
    expected_id: u16,
) -> Result<Pending, Error> {
    if message.additional.len() == 0 || message.additional.last().rtype != TYPE_TSIG {
        Err(Error::NoSignature)
    } else {
        let record = message.additional.last();
        match parse_tsig(record.rdata) {
            Err(e) => Err(e),
            Ok(t) => match find_secret(keys, record.name) {
                None => Err(Error::NoSecrets),
                Some(secret) => match algorithm_named(t.algorithm) {
                    None => Err(Error::BadKeyAlgorithm),
                    Some(hash) => if time_gap(now, t.time_signed) > t.fudge {
                        Err(Error::BadTime)
                    } else if t.original_id != expected_id {
                        Err(Error::IdMismatch)
                    } else {
                        let signed = without_signature(message, t.original_id);
                        match check_envelope(signed) {
                            Err(e) => Err(e),
                            Ok(_) => if plain_message(signed).len() > usize::MAX {
                                Err(Error::BufferTooSmall)
                            } else {
                                Ok(
                                    Pending {
                                        hash,
                                        secret,
                                        octets: signed_octets(signed, record.name, t),
                                        mac: t.mac,
                                    },
                                )
                            },
                        }
                    },
                },
            },
        }
    }
}

/// What verification says of a message: what `verify_start` objects to, else
/// `BadSignature` unless the MAC is the keyed hash of the message as it was
/// signed.
pub open spec fn verify_outcome(
    message: EnvelopeView,
    keys: Seq<KeyView>,
    now: u64,
    expected_id: u16,
) -> Result<(), Error> {
    match verify_start(message, keys, now, expected_id) {
        Err(e) => Err(e),
        Ok(pending) => if pending.mac != keyed_hash(pending.hash, pending.secret, pending.octets) {
            Err(Error::BadSignature)
        } else {
            Ok(())
        },
    }
}

/// The message with the data of the last record of its additional section
/// replaced by the TSIG data `t`.
pub open spec fn resigned(message: EnvelopeView, t: TsigView) -> EnvelopeView {
    EnvelopeView {
        additional: message.additional.drop_last().push(
            RecordView { rdata: tsig_rdata(t), ..message.additional.last() },
        ),
        ..message
    }
}

/// A part of a run of octets is found where the parts before it end.
proof fn lemma_part(whole: Seq<u8>, before: Seq<u8>, part: Seq<u8>, behind: Seq<u8>)
    requires
        whole == before + part + behind,
    ensures
        whole.subrange(before.len() as int, before.len() as int + part.len() as int) == part,
        whole.len() == before.len() + part.len() + behind.len(),
{
    assert(whole.subrange(before.len() as int, before.len() as int + part.len() as int) =~= part);
}

/// The data of a TSIG record is read back as it was written.
#[verifier::rlimit(30)]
pub proof fn lemma_tsig_round_trip(t: TsigView)
    requires
        valid_name(t.algorithm),
        tsig_fields_fit(t),
    ensures
        parse_tsig(tsig_rdata(t)) == Ok::<TsigView, Error>(t),
{
    let rdata = tsig_rdata(t);
    let name = wire_form(t.algorithm);
    let time = u48_octets(t.time_signed as int);
    let fudge = u16_octets(t.fudge as int);
    let mac_len = u16_octets(t.mac.len() as int);
    let id = u16_octets(t.original_id as int);
    let error = u16_octets(t.error as int);
    let other_len = u16_octets(t.other.len() as int);
    let p = wire_len(t.algorithm) as int;
    let q = p + 10 + t.mac.len();
    lemma_wire_form_len(t.algorithm);
    assert(decode_name(rdata, 0) == Ok::<(Seq<Seq<u8>>, int), Error>((t.algorithm, p))) by {
        let behind = time + fudge + mac_len + t.mac + id + error + other_len + t.other;
        assert(rdata =~= Seq::<u8>::empty() + name + behind);
        lemma_decode_wire_form(Seq::empty(), t.algorithm, behind, 0, 0);
    }
    assert(rdata.len() == q + 6 + t.other.len() && be48(rdata, p) == t.time_signed) by {
        let behind = fudge + mac_len + t.mac + id + error + other_len + t.other;
        assert(rdata =~= name + time + behind);
        lemma_part(rdata, name, time, behind);
        lemma_be48_of_octets(rdata, p, t.time_signed as int);
    }
    assert(be16(rdata, p + 6) == t.fudge) by {
        let behind = mac_len + t.mac + id + error + other_len + t.other;
        assert(rdata =~= (name + time) + fudge + behind);
        lemma_part(rdata, name + time, fudge, behind);
        lemma_be16_of_octets(rdata, p + 6, t.fudge as int);
    }
    assert(be16(rdata, p + 8) == t.mac.len()) by {
        let behind = t.mac + id + error + other_len + t.other;
        assert(rdata =~= (name + time + fudge) + mac_len + behind);
        lemma_part(rdata, name + time + fudge, mac_len, behind);
        lemma_be16_of_octets(rdata, p + 8, t.mac.len() as int);
    }
    assert(rdata.subrange(p + 10, q) == t.mac) by {
        let behind = id + error + other_len + t.other;
        assert(rdata =~= (name + time + fudge + mac_len) + t.mac + behind);
        lemma_part(rdata, name + time + fudge + mac_len, t.mac, behind);
    }
    assert(be16(rdata, q) == t.original_id) by {
        let behind = error + other_len + t.other;
        assert(rdata =~= (name + time + fudge + mac_len + t.mac) + id + behind);
        lemma_part(rdata, name + time + fudge + mac_len + t.mac, id, behind);
        lemma_be16_of_octets(rdata, q, t.original_id as int);
    }
    assert(be16(rdata, q + 2) == t.error) by {
        let behind = other_len + t.other;
        assert(rdata =~= (name + time + fudge + mac_len + t.mac + id) + error + behind);
        lemma_part(rdata, name + time + fudge + mac_len + t.mac + id, error, behind);
        lemma_be16_of_octets(rdata, q + 2, t.error as int);
    }
    assert(be16(rdata, q + 4) == t.other.len()) by {
        assert(rdata =~= (name + time + fudge + mac_len + t.mac + id + error) + other_len
            + t.other);
        lemma_part(rdata, name + time + fudge + mac_len + t.mac + id + error, other_len, t.other);
        lemma_be16_of_octets(rdata, q + 4, t.other.len() as int);
    }
    assert(rdata.subrange(q + 6, rdata.len() as int) == t.other) by {
        assert(rdata =~= (name + time + fudge + mac_len + t.mac + id + error + other_len)
            + t.other + Seq::<u8>::empty());
        lemma_part(
            rdata,
            name + time + fudge + mac_len + t.mac + id + error + other_len,
            t.other,
            Seq::empty(),
        );
    }
}

/// What is read as a TSIG record has fields that fit their widths and an
/// algorithm name that is a domain name.
pub proof fn lemma_parsed_tsig_fits(rdata: Seq<u8>)
    ensures
        parse_tsig(rdata) matches Ok(t) ==> valid_name(t.algorithm) && tsig_fields_fit(t),
{
    lemma_decode_name_valid(rdata, 0);
    if let Ok(t) = parse_tsig(rdata) {
        lemma_wire_form_len(t.algorithm);
    }
}

/// The MAC that signing computes for a message.
pub open spec fn signature_of(
    message: EnvelopeView,
    key_name: Seq<Seq<u8>>,
    secret: Seq<u8>,
    algorithm: Seq<Seq<u8>>,
    now: u64,
) -> Seq<u8> {
    match algorithm_named(algorithm) {
        Some(hash) => keyed_hash(
            hash,
            secret,
            signed_octets(message, key_name, unsigned_tsig(message, algorithm, now)),
        ),
        None => Seq::empty(),
    }
}

/// Signer and verifier agree: a message that was signed is verified by
/// whoever holds the key, expects the message's identifier and looks at it
/// within the fudge. The MAC is taken to fit its length field, as that of
/// every supported hash does.
pub proof fn lemma_signed_message_verifies(
    message: EnvelopeView,
    key_name: Seq<Seq<u8>>,
    secret: Seq<u8>,
    algorithm: Seq<Seq<u8>>,
    now: u64,
    keys: Seq<KeyView>,
    later: u64,
)
    requires
        valid_name(algorithm),
        sign_outcome(message, key_name, secret, algorithm, now) is Ok,
        signature_of(message, key_name, secret, algorithm, now).len() <= 0xffff,
        find_secret(keys, key_name) == Some(secret),
        time_gap(later, now) <= DEFAULT_FUDGE,
    ensures
        sign_outcome(message, key_name, secret, algorithm, now) matches Ok(signed)
            && verify_outcome(signed, keys, later, message.header.id) == Ok::<(), Error>(()),
{
    let blank = unsigned_tsig(message, algorithm, now);
    let mac = signature_of(message, key_name, secret, algorithm, now);
    let t = TsigView { mac, ..blank };
    let signed = with_signature(message, tsig_record(key_name, t));
    assert(sign_outcome(message, key_name, secret, algorithm, now) == Ok::<EnvelopeView, Error>(
        signed,
    ));
    assert(signed.additional.last() == tsig_record(key_name, t));
    lemma_tsig_round_trip(t);
    assert(signed.additional.drop_last() =~= message.additional);
    assert(without_signature(signed, t.original_id) == message);
    assert(tsig_variables(key_name, t) == tsig_variables(key_name, blank));
}

/// A MAC that was altered is rejected: where a message verifies, the same
/// message with any other MAC of the same length in its TSIG record, one
/// that differs in a single bit included, fails with `BadSignature`.
pub proof fn lemma_altered_mac_rejected(
    message: EnvelopeView,
    keys: Seq<KeyView>,
    now: u64,
    expected_id: u16,
    mac: Seq<u8>,
)
    requires
        verify_outcome(message, keys, now, expected_id) is Ok,
        parse_tsig(message.additional.last().rdata) matches Ok(t) && mac != t.mac && mac.len()
            == t.mac.len(),
    ensures
        parse_tsig(message.additional.last().rdata) matches Ok(t) && verify_outcome(
            resigned(message, TsigView { mac, ..t }),
            keys,
            now,
            expected_id,
        ) == Err::<(), Error>(Error::BadSignature),
{
    let record = message.additional.last();
    lemma_parsed_tsig_fits(record.rdata);
    let t = parse_tsig(record.rdata).unwrap();
    let altered = TsigView { mac, ..t };
    let other = resigned(message, altered);
    lemma_tsig_round_trip(altered);
    assert(other.additional.last() == RecordView { rdata: tsig_rdata(altered), ..record });
    assert(other.additional.drop_last() =~= message.additional.drop_last());
    assert(without_signature(other, t.original_id) == without_signature(message, t.original_id));
    assert(tsig_variables(record.name, altered) == tsig_variables(record.name, t));
}

/// A time signed outside the fudge window is rejected: where a message
/// verifies, the same message with its time signed moved more than the
/// fudge away from `now` fails with `BadTime`.
pub proof fn lemma_time_outside_window_rejected(
    message: EnvelopeView,
    keys: Seq<KeyView>,
    now: u64,
    expected_id: u16,
    time: u64,
)
    requires
        verify_outcome(message, keys, now, expected_id) is Ok,
        time < TIME_LIMIT,
        parse_tsig(message.additional.last().rdata) matches Ok(t) && time_gap(now, time) > t.fudge,
    ensures
        parse_tsig(message.additional.last().rdata) matches Ok(t) && verify_outcome(
            resigned(message, TsigView { time_signed: time, ..t }),
            keys,
            now,
            expected_id,
        ) == Err::<(), Error>(Error::BadTime),
{
    let record = message.additional.last();
    lemma_parsed_tsig_fits(record.rdata);
    let t = parse_tsig(record.rdata).unwrap();
    let moved = TsigView { time_signed: time, ..t };
    let other = resigned(message, moved);
    lemma_tsig_round_trip(moved);
    assert(other.additional.last() == RecordView { rdata: tsig_rdata(moved), ..record });
}

/// A key name that is not known is rejected: a message whose TSIG record
/// names a key that is not among the keys fails with `NoSecrets`.
pub proof fn lemma_unknown_key_rejected(
    message: EnvelopeView,
    keys: Seq<KeyView>,
    now: u64,
    expected_id: u16,
)
    requires
        message.additional.len() > 0,
        message.additional.last().rtype == TYPE_TSIG,
        parse_tsig(message.additional.last().rdata) is Ok,
        find_secret(keys, message.additional.last().name) is None,
    ensures
        verify_outcome(message, keys, now, expected_id) == Err::<(), Error>(Error::NoSecrets),
{
}

/// `Hmac::<Sha1>` of the hmac crate, keyed with `key` and fed `data` in one
/// piece: the result is HMAC-SHA-1, a function of the key and the data alone,
/// of 20 octets. The crate accepts a key of any length.
#[verifier::external_body]
fn compute_hmac_sha1(key: &[u8], data: &[u8]) -> (mac: Vec<u8>)
    ensures
        mac@ == hmac_sha1(key@, data@),
        mac@.len() == 20,
{
    match Hmac::<Sha1>::new_from_slice(key) {
        Ok(mut state) => {
            state.update(data);
            state.finalize().into_bytes().to_vec()
        },
        Err(_) => Vec::new(),
    }
}

/// `Hmac::<Sha256>` of the hmac crate, keyed with `key` and fed `data` in
/// one piece: the result is HMAC-SHA-256, a function of the key and the data
/// alone, of 32 octets. The crate accepts a key of any length.
#[verifier::external_body]
fn compute_hmac_sha256(key: &[u8], data: &[u8]) -> (mac: Vec<u8>)
    ensures
        mac@ == hmac_sha256(key@, data@),
        mac@.len() == 32,
{
    match Hmac::<Sha256>::new_from_slice(key) {
        Ok(mut state) => {
            state.update(data);
            state.finalize().into_bytes().to_vec()
        },
        Err(_) => Vec::new(),
    }
}

/// `Hmac::<Sha512>` of the hmac crate, keyed with `key` and fed `data` in
/// one piece: the result is HMAC-SHA-512, a function of the key and the data
/// alone, of 64 octets. The crate accepts a key of any length.
#[verifier::external_body]
fn compute_hmac_sha512(key: &[u8], data: &[u8]) -> (mac: Vec<u8>)
    ensures
        mac@ == hmac_sha512(key@, data@),
        mac@.len() == 64,
{
    match Hmac::<Sha512>::new_from_slice(key) {
        Ok(mut state) => {
            state.update(data);
            state.finalize().into_bytes().to_vec()
        },
        Err(_) => Vec::new(),
    }
}

impl TsigAlgorithm {
    /// The algorithm that `name` names, if it is supported: see
    /// `algorithm_named`.
    pub fn from_name(name: &DomainName) -> (r: Option<TsigAlgorithm>)
        ensures
            r == algorithm_named(name@),
    {
        if name.label_count() != 1 {
            return None;
        }
        let low = lower_bytes(name.label(0));
        let sha1: Vec<u8> = vec![0x68u8, 0x6d, 0x61, 0x63, 0x2d, 0x73, 0x68, 0x61, 0x31];
        let sha256: Vec<u8> = vec![
            0x68u8,
            0x6d,
            0x61,
            0x63,
            0x2d,
            0x73,
            0x68,
            0x61,
            0x32,
            0x35,
            0x36,
        ];
        let sha512: Vec<u8> = vec![
            0x68u8,
            0x6d,
            0x61,
            0x63,
            0x2d,
            0x73,
            0x68,
            0x61,
            0x35,
            0x31,
            0x32,
        ];
        assert(sha1@ =~= label_hmac_sha1());
        assert(sha256@ =~= label_hmac_sha256());
        assert(sha512@ =~= label_hmac_sha512());
        if same_octets(low.as_slice(), sha1.as_slice()) {
            Some(TsigAlgorithm::HmacSha1)
        } else if same_octets(low.as_slice(), sha256.as_slice()) {
            Some(TsigAlgorithm::HmacSha256)
        } else if same_octets(low.as_slice(), sha512.as_slice()) {
            Some(TsigAlgorithm::HmacSha512)
        } else {
            None
        }
    }

    /// The keyed hash of `data` under `key`.
    pub fn compute(&self, key: &[u8], data: &[u8]) -> (mac: Vec<u8>)
        ensures
            mac@ == keyed_hash(*self, key@, data@),
            mac@.len() <= 64,
    {
        match self {
            TsigAlgorithm::HmacSha1 => compute_hmac_sha1(key, data),
            TsigAlgorithm::HmacSha256 => compute_hmac_sha256(key, data),
            TsigAlgorithm::HmacSha512 => compute_hmac_sha512(key, data),
        }
    }
}

/// A shared secret and the name under which both sides know it.
#[derive(Debug)]
pub struct TsigKey {
    pub name: DomainName,
    pub secret: Vec<u8>,
}

impl View for TsigKey {
    type V = KeyView;

    open spec fn view(&self) -> KeyView {
        KeyView { name: self.name@, secret: self.secret@ }
    }
}

/// What the keys of a `Vec` hold.
pub open spec fn keys_of(v: Seq<TsigKey>) -> Seq<KeyView> {
    Seq::new(v.len(), |i: int| v[i]@)
}

/// The data of a TSIG record.
#[derive(Debug)]
pub struct Tsig {
    pub algorithm: DomainName,
    pub time_signed: u64,
    pub fudge: u16,
    pub mac: Vec<u8>,
    pub original_id: u16,
    pub error: u16,
    pub other: Vec<u8>,
}

impl View for Tsig {
    type V = TsigView;

    open spec fn view(&self) -> TsigView {
        TsigView {
            algorithm: self.algorithm@,
            time_signed: self.time_signed,
            fudge: self.fudge,
            mac: self.mac@,
            original_id: self.original_id,
            error: self.error,
            other: self.other@,
        }
    }
}

impl Tsig {
    /// Reads the data of a TSIG record: see `parse_tsig`.
    pub fn decode(rdata: &[u8]) -> (r: Result<Tsig, Error>)
        ensures
            match r {
                Ok(tsig) => parse_tsig(rdata@) == Ok::<TsigView, Error>(tsig@),
                Err(e) => parse_tsig(rdata@) == Err::<TsigView, Error>(e),
            },
    {
        proof {
            lemma_decode_name_valid(rdata@, 0);
        }
        let (algorithm, p) = match DomainName::decode(rdata, 0) {
            Ok(found) => found,
            Err(_) => {
                return Err(Error::BadRdata);
            },
        };
        if p != algorithm.wire_length() {
            return Err(Error::BadRdata);
        }
        let mut reader = Reader::at(rdata, p);
        if reader.remaining() < 10 {
            return Err(Error::BadRdata);
        }
        let time_signed = match reader.read_u48() {
            Ok(v) => v,
            Err(_) => {
                return Err(Error::BadRdata);
            },
        };
        let fudge = match reader.read_u16() {
            Ok(v) => v,
            Err(_) => {
                return Err(Error::BadRdata);
            },
        };
        let mac_len = match reader.read_u16() {
            Ok(v) => v,
            Err(_) => {
                return Err(Error::BadRdata);
            },
        };
        if reader.remaining() < mac_len as usize + 6 {
            return Err(Error::BadRdata);
        }
        let mac = match reader.read_bytes(mac_len as usize) {
            Ok(v) => v,
            Err(_) => {
                return Err(Error::BadRdata);
            },
        };
        let original_id = match reader.read_u16() {
            Ok(v) => v,
            Err(_) => {
                return Err(Error::BadRdata);
            },
        };
        let error = match reader.read_u16() {
            Ok(v) => v,
            Err(_) => {
                return Err(Error::BadRdata);
            },
        };
        let other_len = match reader.read_u16() {
            Ok(v) => v,
            Err(_) => {
                return Err(Error::BadRdata);
            },
        };
        if reader.remaining() != other_len as usize {
            return Err(Error::BadRdata);
        }
        let other = match reader.read_bytes(other_len as usize) {
            Ok(v) => v,
            Err(_) => {
                return Err(Error::BadRdata);
            },
        };
        Ok(Tsig { algorithm, time_signed, fudge, mac, original_id, error, other })
    }

    /// Writes the data of a TSIG record: see `tsig_rdata`. Fails with
    /// `BadRdata` exactly if a field does not fit: see `tsig_fits`.
    pub fn encode(&self) -> (r: Result<Vec<u8>, Error>)
        ensures
            match r {
                Ok(rdata) => tsig_fits(self@) && rdata@ == tsig_rdata(self@),
                Err(e) => !tsig_fits(self@) && e == Error::BadRdata,
            },
    {
        let name = self.algorithm.to_wire();
        if self.time_signed >= TIME_LIMIT || self.mac.len() > 0xffff || self.other.len() > 0xffff
            || name.len() + 16 + self.mac.len() + self.other.len() > 0xffff {
            return Err(Error::BadRdata);
        }
        let mut out: Vec<u8> = name;
        put_u48(&mut out, self.time_signed);
        put_u16(&mut out, self.fudge);
        put_u16(&mut out, self.mac.len() as u16);
        put_bytes(&mut out, self.mac.as_slice());
        put_u16(&mut out, self.original_id);
        put_u16(&mut out, self.error);
        put_u16(&mut out, self.other.len() as u16);
        put_bytes(&mut out, self.other.as_slice());
        Ok(out)
    }

    /// The variables of the record as they are hashed: see
    /// `tsig_variables`.
    fn variables(&self, key_name: &DomainName) -> (out: Vec<u8>)
        requires
            self.time_signed < TIME_LIMIT,
            self.other@.len() <= 0xffff,
        ensures
            out@ == tsig_variables(key_name@, self@),
    {
        let mut out: Vec<u8> = key_name.to_lowercase().to_wire();
        put_u16(&mut out, CLASS_ANY);
        put_u32(&mut out, 0);
        let algorithm = self.algorithm.to_lowercase().to_wire();
        put_bytes(&mut out, algorithm.as_slice());
        put_u48(&mut out, self.time_signed);
        put_u16(&mut out, self.fudge);
        put_u16(&mut out, self.error);
        put_u16(&mut out, self.other.len() as u16);
        put_bytes(&mut out, self.other.as_slice());
        out
    }
}

/// Whether two runs of octets are equal, found in a time that depends on
/// their lengths alone: every pair of octets is looked at, wherever the
/// first difference is.
pub fn constant_time_eq(a: &[u8], b: &[u8]) -> (same: bool)
    ensures
        same == (a@ == b@),
{
    if a.len() != b.len() {
        return false;
    }
    let mut diff: u8 = 0;
    let mut i: usize = 0;
    while i < a.len()
        invariant
            i <= a.len(),
            a.len() == b.len(),
            (diff == 0) == (forall|k: int| 0 <= k < i ==> a@[k] == b@[k]),
        decreases a.len() - i,
    {
        let x: u8 = a[i];
        let y: u8 = b[i];
        let d: u8 = diff;
        assert(((d | (x ^ y)) == 0u8) == (d == 0u8 && x == y)) by (bit_vector);
        diff = diff | (x ^ y);
        i = i + 1;
    }
    if diff == 0 {
        assert(a@ =~= b@);
    }
    diff == 0
}

/// Compares the MAC that a message carries with the one that was computed
/// for it, in constant time. Fails with `BadSignature` exactly if they
/// differ.
pub fn check_mac(received: &[u8], computed: &[u8]) -> (r: Result<(), Error>)
    ensures
        r == if received@ == computed@ {
            Ok::<(), Error>(())
        } else {
            Err::<(), Error>(Error::BadSignature)
        },
{
    if constant_time_eq(received, computed) {
        Ok(())
    } else {
        Err(Error::BadSignature)
    }
}

/// The index of the first key among `keys` that `name` names, the case of
/// letters ignored.
pub fn find_key(keys: &Vec<TsigKey>, name: &DomainName) -> (r: Option<usize>)
    ensures
        match r {
            Some(i) => i < keys@.len() && find_secret(keys_of(keys@), name@) == Some(
                keys@[i as int].secret@,
            ),
            None => find_secret(keys_of(keys@), name@) is None,
        },
{
    let ghost all = keys_of(keys@);
    let mut i: usize = 0;
    assert(all.skip(0) =~= all);
    while i < keys.len()
        invariant
            i <= keys.len(),
            all == keys_of(keys@),
            find_secret(all, name@) == find_secret(all.skip(i as int), name@),
        decreases keys.len() - i,
    {
        assert(all.skip(i as int)[0] == all[i as int]);
        assert(all.skip(i as int).drop_first() =~= all.skip(i + 1));
        if keys[i].name.eq_ignore_case(name) {
            return Some(i);
        }
        i = i + 1;
    }
    None
}

/// A message on its way out whose hash is being computed: the keyed hash
/// that signs it, the TSIG record but for its MAC, and the octets to hash.
#[derive(Debug)]
pub struct Signing {
    pub hash: TsigAlgorithm,
    pub tsig: Tsig,
    pub octets: Vec<u8>,
}

/// A message on its way in of which all but its MAC is checked: the keyed
/// hash that signed it, the index of its key among the keys, the octets that
/// were hashed, and the MAC that it carries.
#[derive(Debug)]
pub struct Verifying {
    pub hash: TsigAlgorithm,
    pub key: usize,
    pub octets: Vec<u8>,
    pub mac: Vec<u8>,
}

/// Takes an unsigned message to the state in which it is being signed: see
/// `sign_start`. What comes back holds the octets whose keyed hash, under the
/// secret of the key that `key_name` names, is the MAC.
pub fn begin_sign(envelope: &Envelope, key_name: &DomainName, algorithm: &DomainName, now: u64) -> (r:
    Result<Signing, Error>)
    ensures
        match sign_start(envelope@, algorithm@, now) {
            Err(e) => r matches Err(x) && x == e,
            Ok(hash) => r matches Ok(signing) && signing.hash == hash && signing.tsig@
                == unsigned_tsig(envelope@, algorithm@, now) && signing.octets@ == signed_octets(
                envelope@,
                key_name@,
                signing.tsig@,
            ),
        },
{
    let hash = match TsigAlgorithm::from_name(algorithm) {
        Some(h) => h,
        None => {
            return Err(Error::BadKeyAlgorithm);
        },
    };
    match envelope.check() {
        Ok(()) => {},
        Err(e) => {
            return Err(e);
        },
    }
    if now >= TIME_LIMIT {
        return Err(Error::BadTime);
    }
    if envelope.header.arcount == 0xffff {
        return Err(Error::BadRrset);
    }
    let mut octets = match envelope.encode_uncompressed(usize::MAX) {
        Ok(octets) => octets,
        Err(e) => {
            return Err(e);
        },
    };
    let tsig = Tsig {
        algorithm: algorithm.clone(),
        time_signed: now,
        fudge: DEFAULT_FUDGE,
        mac: Vec::new(),
        original_id: envelope.header.id,
        error: 0,
        other: Vec::new(),
    };
    let variables = tsig.variables(key_name);
    put_bytes(&mut octets, variables.as_slice());
    Ok(Signing { hash, tsig, octets })
}

/// Takes a message that is being signed to the state in which it is signed:
/// appends the TSIG record with the MAC to its additional section. See
/// `sign_finish`; a message that cannot hold the record is left as it was.
pub fn finish_sign(envelope: &mut Envelope, key_name: &DomainName, signing: Signing, mac: Vec<u8>) -> (r:
    Result<(), Error>)
    ensures
        match sign_finish(old(envelope)@, key_name@, signing.tsig@, mac@) {
            Ok(signed) => r == Ok::<(), Error>(()) && final(envelope)@ == signed,
            Err(e) => r == Err::<(), Error>(e) && final(envelope)@ == old(envelope)@,
        },
{
    let ghost blank = signing.tsig@;
    let mut tsig = signing.tsig;
    tsig.mac = mac;
    assert(tsig@ == TsigView { mac: mac@, ..blank });
    let rdata = match tsig.encode() {
        Ok(octets) => octets,
        Err(e) => {
            return Err(e);
        },
    };
    if envelope.header.arcount == 0xffff {
        return Err(Error::BadRrset);
    }
    let record = Record { name: key_name.clone(), rtype: TYPE_TSIG, class: CLASS_ANY, ttl: 0, rdata };
    proof {
        assert(record@ == tsig_record(key_name@, tsig@));
        assert(records_of(envelope.additional@.push(record)) =~= records_of(
            envelope.additional@,
        ).push(record@));
    }
    envelope.additional.push(record);
    envelope.header.arcount = envelope.header.arcount + 1;
    Ok(())
}

/// Signs a message: appends the TSIG record of `key` to its additional
/// section, with the time `now`, a fudge of 300 seconds, the message's own
/// identifier and the keyed hash that `algorithm` names over the message as
/// it was and the variables of the record. See `sign_outcome`; a message
/// that cannot be signed is left as it was.
pub fn sign(envelope: &mut Envelope, key: &TsigKey, algorithm: &DomainName, now: u64) -> (r: Result<
    (),
    Error,
>)
    ensures
        match sign_outcome(old(envelope)@, key.name@, key.secret@, algorithm@, now) {
            Ok(signed) => r == Ok::<(), Error>(()) && final(envelope)@ == signed,
            Err(e) => r == Err::<(), Error>(e) && final(envelope)@ == old(envelope)@,
        },
{
    let signing = match begin_sign(envelope, &key.name, algorithm, now) {
        Ok(s) => s,
        Err(e) => {
            return Err(e);
        },
    };
    let mac = signing.hash.compute(key.secret.as_slice(), signing.octets.as_slice());
    proof {
        use_type_invariant(&signing.tsig.algorithm);
    }
    finish_sign(envelope, &key.name, signing, mac)
}

/// Takes a received message to the state in which it is being verified:
/// checks all but its MAC. See `verify_start`. What comes back holds the
/// octets whose keyed hash, under the secret of the key at the index given,
/// the MAC must be.
pub fn begin_verify(envelope: &Envelope, keys: &Vec<TsigKey>, now: u64, expected_id: u16) -> (r:
    Result<Verifying, Error>)
    ensures
        match verify_start(envelope@, keys_of(keys@), now, expected_id) {
            Err(e) => r matches Err(x) && x == e,
            Ok(pending) => r matches Ok(verifying) && verifying.hash == pending.hash
                && verifying.key < keys@.len() && keys@[verifying.key as int].secret@
                == pending.secret && verifying.octets@ == pending.octets && verifying.mac@
                == pending.mac,
        },
{
    let n = envelope.additional.len();
    if n == 0 {
        return Err(Error::NoSignature);
    }
    let record = &envelope.additional[n - 1];
    assert(envelope@.additional.last() == record@);
    if record.rtype != TYPE_TSIG {
        return Err(Error::NoSignature);
    }
    let tsig = match Tsig::decode(record.rdata.as_slice()) {
        Ok(t) => t,
        Err(e) => {
            return Err(e);
        },
    };
    let key = match find_key(keys, &record.name) {
        Some(i) => i,
        None => {
            return Err(Error::NoSecrets);
        },
    };
    let hash = match TsigAlgorithm::from_name(&tsig.algorithm) {
        Some(h) => h,
        None => {
            return Err(Error::BadKeyAlgorithm);
        },
    };
    let gap: u64 = if now >= tsig.time_signed {
        now - tsig.time_signed
    } else {
        tsig.time_signed - now
    };
    if gap > tsig.fudge as u64 {
        return Err(Error::BadTime);
    }
    if tsig.original_id != expected_id {
        return Err(Error::IdMismatch);
    }
    let signed = Envelope {
        header: Header {
            id: tsig.original_id,
            flags: envelope.header.flags,
            qdcount: envelope.header.qdcount,
            ancount: envelope.header.ancount,
            nscount: envelope.header.nscount,
            arcount: if envelope.header.arcount > 0 {
                envelope.header.arcount - 1
            } else {
                0
            },
        },
        question: clone_records(&envelope.question, envelope.question.len()),
        answer: clone_records(&envelope.answer, envelope.answer.len()),
        authority: clone_records(&envelope.authority, envelope.authority.len()),
        additional: clone_records(&envelope.additional, n - 1),
    };
    proof {
        let whole = envelope@;
        assert(whole.question.take(whole.question.len() as int) =~= whole.question);
        assert(whole.answer.take(whole.answer.len() as int) =~= whole.answer);
        assert(whole.authority.take(whole.authority.len() as int) =~= whole.authority);
        assert(whole.additional.take(n - 1) =~= whole.additional.drop_last());
        assert(signed@ == without_signature(whole, tsig.original_id));
    }
    let mut octets = match signed.encode_uncompressed(usize::MAX) {
        Ok(octets) => octets,
        Err(e) => {
            return Err(e);
        },
    };
    proof {
        lemma_parsed_tsig_fits(record.rdata@);
    }
    let variables = tsig.variables(&record.name);
    put_bytes(&mut octets, variables.as_slice());
    Ok(Verifying { hash, key, octets, mac: tsig.mac })
}

/// Takes a message that is being verified to its end: verified if the MAC
/// that was computed for it is the one that it carries, rejected with
/// `BadSignature` if not. The two are compared in constant time.
pub fn finish_verify(verifying: &Verifying, computed: &[u8]) -> (r: Result<(), Error>)
    ensures
        r == if verifying.mac@ == computed@ {
            Ok::<(), Error>(())
        } else {
            Err::<(), Error>(Error::BadSignature)
        },
{
    check_mac(verifying.mac.as_slice(), computed)
}

/// Verifies the signature of a message against the keys that are known, the
/// time `now` and the identifier of the request that it answers: see
/// `verify_outcome`.
pub fn verify(envelope: &Envelope, keys: &Vec<TsigKey>, now: u64, expected_id: u16) -> (r: Result<
    (),
    Error,
>)
    ensures
        r == verify_outcome(envelope@, keys_of(keys@), now, expected_id),
{
    let verifying = match begin_verify(envelope, keys, now, expected_id) {
        Ok(v) => v,
        Err(e) => {
            return Err(e);
        },
    };
    let computed = verifying.hash.compute(
        keys[verifying.key].secret.as_slice(),
        verifying.octets.as_slice(),
    );
    finish_verify(&verifying, computed.as_slice())
}

} // verus!
