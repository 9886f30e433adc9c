//! Validation of signed record sets: an RRSIG record signs the records of
//! one owner, type and class, and a DNSKEY record holds the public key that
//! verifies the signature.

use vstd::prelude::*;
use vstd::seq_lib::to_multiset_build;
use vstd::seq_lib::to_multiset_insert;
use ed25519_dalek::Verifier;
use crate::cursor::Reader;
use crate::cursor::be16;
use crate::cursor::be32;
use crate::cursor::lemma_be16_of_octets;
use crate::cursor::put_bytes;
use crate::cursor::put_u16;
use crate::cursor::put_u32;
use crate::cursor::u16_octets;
use crate::cursor::u32_octets;
use crate::envelope::Record;
use crate::envelope::RecordView;
use crate::envelope::records_of;
use crate::error::Error;
use crate::name::DomainName;
use crate::name::at_or_above;
use crate::name::decode_name;
use crate::name::lemma_decode_name_valid;
use crate::name::lower_name;
use crate::name::same_name;
use crate::name::wire_form;
use crate::name::wire_len;

verus! {

/// The number of the algorithm ECDSA on the curve P-256 with SHA-256.
pub const ALGORITHM_ECDSA_P256_SHA256: u8 = 13;

/// The number of the algorithm Ed25519.
pub const ALGORITHM_ED25519: u8 = 15;

/// What an RRSIG record holds.
pub struct RrsigView {
    pub type_covered: u16,
    pub algorithm: u8,
    pub labels: u8,
    pub original_ttl: u32,
    pub expiration: u32,
    pub inception: u32,
    pub key_tag: u16,
    pub signer_name: Seq<Seq<u8>>,
    pub signature: Seq<u8>,
}

/// What a DNSKEY record holds, with its owner.
pub struct DnskeyView {
    pub owner: Seq<Seq<u8>>,
    pub flags: u16,
    pub protocol: u8,
    pub algorithm: u8,
    pub public_key: Seq<u8>,
}

/// The signature of a record set.
#[derive(Debug)]
pub struct Rrsig {
    pub type_covered: u16,
    pub algorithm: u8,
    pub labels: u8,
    pub original_ttl: u32,
    pub expiration: u32,
    pub inception: u32,
    pub key_tag: u16,
    pub signer_name: DomainName,
    pub signature: Vec<u8>,
}

impl View for Rrsig {
    type V = RrsigView;

    open spec fn view(&self) -> RrsigView {
        RrsigView {
            type_covered: self.type_covered,
            algorithm: self.algorithm,
            labels: self.labels,
            original_ttl: self.original_ttl,
            expiration: self.expiration,
            inception: self.inception,
            key_tag: self.key_tag,
            signer_name: self.signer_name@,
            signature: self.signature@,
        }
    }
}

/// A public key of a zone.
#[derive(Debug)]
pub struct Dnskey {
    pub owner: DomainName,
    pub flags: u16,
    pub protocol: u8,
    pub algorithm: u8,
    pub public_key: Vec<u8>,
}

impl View for Dnskey {
    type V = DnskeyView;

    open spec fn view(&self) -> DnskeyView {
        DnskeyView {
            owner: self.owner@,
            flags: self.flags,
            protocol: self.protocol,
            algorithm: self.algorithm,
            public_key: self.public_key@,
        }
    }
}

/// What the keys of a `Vec` hold.
pub open spec fn dnskeys_of(v: Seq<Dnskey>) -> Seq<DnskeyView> {
    Seq::new(v.len(), |i: int| v[i]@)
}

/// The data of a DNSKEY record: flags, protocol, algorithm and the public
/// key.
pub open spec fn dnskey_rdata(key: DnskeyView) -> Seq<u8> {
    u16_octets(key.flags as int) + seq![key.protocol, key.algorithm] + key.public_key
}

/// The sum of the first `n` octets of `rdata`, those at even offsets counted
/// 256 times.
pub open spec fn tag_sum(rdata: Seq<u8>, n: int) -> int
    decreases n,
{
    if n <= 0 {
        0
    } else {
        tag_sum(rdata, n - 1) + if (n - 1) % 2 == 0 {
            rdata[n - 1] as int * 0x100
        } else {
            rdata[n - 1] as int
        }
    }
}

/// The key tag of the data of a DNSKEY record: the sum of its octets taken
/// two by two as 16-bit integers, the carry out of the low 16 bits added
/// back, in 16 bits.
pub open spec fn key_tag_of(rdata: Seq<u8>) -> int {
    let sum = tag_sum(rdata, rdata.len() as int);
    (sum + sum / 0x1_0000 % 0x1_0000) % 0x1_0000
}

/// The data of an RRSIG record before the signature: type covered, algorithm,
/// labels, original time to live, expiration, inception, key tag, and the
/// signer's name in the form `signer`.
pub open spec fn rrsig_fields(sig: RrsigView, signer: Seq<u8>) -> Seq<u8> {
    u16_octets(sig.type_covered as int) + seq![sig.algorithm, sig.labels] + u32_octets(
        sig.original_ttl as int,
    ) + u32_octets(sig.expiration as int) + u32_octets(sig.inception as int) + u16_octets(
        sig.key_tag as int,
    ) + signer
}

/// What record data holds as an RRSIG record: eighteen octets of fields, the
/// signer's name without compression, and the signature in the octets that
/// are left. Data that is not laid out so is `BadRdata`.
pub open spec fn parse_rrsig(rdata: Seq<u8>) -> Result<RrsigView, Error> {
    if rdata.len() < 18 {
        Err(Error::BadRdata)
    } else {
        match decode_name(rdata, 18) {
            Err(_) => Err(Error::BadRdata),
            Ok((signer_name, end)) => if end != 18 + wire_len(signer_name) {
                Err(Error::BadRdata)
            } else {
                Ok(
                    RrsigView {
                        type_covered: be16(rdata, 0) as u16,
                        algorithm: rdata[2],
                        labels: rdata[3],
                        original_ttl: be32(rdata, 4) as u32,
                        expiration: be32(rdata, 8) as u32,
                        inception: be32(rdata, 12) as u32,
                        key_tag: be16(rdata, 16) as u16,
                        signer_name,
                        signature: rdata.subrange(end, rdata.len() as int),
                    },
                )
            },
        }
    }
}

/// What record data holds as the DNSKEY record of `owner`: four octets of
/// fields and the public key in the octets that are left. Data of fewer than
/// four octets is `BadRdata`.
pub open spec fn parse_dnskey(owner: Seq<Seq<u8>>, rdata: Seq<u8>) -> Result<DnskeyView, Error> {
    if rdata.len() < 4 {
        Err(Error::BadRdata)
    } else {
        Ok(
            DnskeyView {
                owner,
                flags: be16(rdata, 0) as u16,
                protocol: rdata[2],
                algorithm: rdata[3],
                public_key: rdata.subrange(4, rdata.len() as int),
            },
        )
    }
}

impl Rrsig {
    /// Reads the data of an RRSIG record: see `parse_rrsig`.
    pub fn decode(rdata: &[u8]) -> (r: Result<Rrsig, Error>)
        ensures
            match r {
                Ok(sig) => parse_rrsig(rdata@) == Ok::<RrsigView, Error>(sig@),
                Err(e) => parse_rrsig(rdata@) == Err::<RrsigView, Error>(e),
            },
    {
        if rdata.len() < 18 {
            return Err(Error::BadRdata);
        }
        proof {
            lemma_decode_name_valid(rdata@, 18);
        }
        let (signer_name, end) = match DomainName::decode(rdata, 18) {
            Ok(found) => found,
            Err(_) => {
                return Err(Error::BadRdata);
            },
        };
        if end != 18 + signer_name.wire_length() {
            return Err(Error::BadRdata);
        }
        let mut reader = Reader::new(rdata);
        let type_covered = match reader.read_u16() {
            Ok(v) => v,
            Err(_) => {
                return Err(Error::BadRdata);
            },
        };
        let algorithm = rdata[2];
        let labels = rdata[3];
        reader.seek(4);
        let original_ttl = match reader.read_u32() {
            Ok(v) => v,
            Err(_) => {
                return Err(Error::BadRdata);
            },
        };
        let expiration = match reader.read_u32() {
            Ok(v) => v,
            Err(_) => {
                return Err(Error::BadRdata);
            },
        };
        let inception = match reader.read_u32() {
            Ok(v) => v,
            Err(_) => {
                return Err(Error::BadRdata);
            },
        };
        let key_tag = match reader.read_u16() {
            Ok(v) => v,
            Err(_) => {
                return Err(Error::BadRdata);
            },
        };
        reader.seek(end);
        let signature = match reader.read_bytes(rdata.len() - end) {
            Ok(v) => v,
            Err(_) => {
                return Err(Error::BadRdata);
            },
        };
        Ok(
            Rrsig {
                type_covered,
                algorithm,
                labels,
                original_ttl,
                expiration,
                inception,
                key_tag,
                signer_name,
                signature,
            },
        )
    }

    /// The data of the record before the signature, the signer's name in
    /// lower case without compression: the head of what is signed.
    pub fn signed_fields(&self) -> (out: Vec<u8>)
        ensures
            out@ == rrsig_fields(self@, wire_form(lower_name(self.signer_name@))),
    {
        let mut out: Vec<u8> = Vec::new();
        put_u16(&mut out, self.type_covered);
        out.push(self.algorithm);
        out.push(self.labels);
        put_u32(&mut out, self.original_ttl);
        put_u32(&mut out, self.expiration);
        put_u32(&mut out, self.inception);
        put_u16(&mut out, self.key_tag);
        let signer = self.signer_name.to_lowercase().to_wire();
        put_bytes(&mut out, signer.as_slice());
        assert(out@ =~= rrsig_fields(self@, wire_form(lower_name(self.signer_name@))));
        out
    }
}

impl Dnskey {
    /// Reads the data of the DNSKEY record of `owner`: see `parse_dnskey`.
    pub fn decode(owner: DomainName, rdata: &[u8]) -> (r: Result<Dnskey, Error>)
        ensures
            match r {
                Ok(key) => parse_dnskey(owner@, rdata@) == Ok::<DnskeyView, Error>(key@),
                Err(e) => parse_dnskey(owner@, rdata@) == Err::<DnskeyView, Error>(e),
            },
    {
        if rdata.len() < 4 {
            return Err(Error::BadRdata);
        }
        let flags: u16 = rdata[0] as u16 * 0x100 + rdata[1] as u16;
        let mut reader = Reader::at(rdata, 4);
        let public_key = match reader.read_bytes(rdata.len() - 4) {
            Ok(v) => v,
            Err(_) => {
                return Err(Error::BadRdata);
            },
        };
        Ok(Dnskey { owner, flags, protocol: rdata[2], algorithm: rdata[3], public_key })
    }

    /// The data of the record: see `dnskey_rdata`.
    pub fn rdata(&self) -> (out: Vec<u8>)
        ensures
            out@ == dnskey_rdata(self@),
    {
        let mut out: Vec<u8> = Vec::new();
        put_u16(&mut out, self.flags);
        out.push(self.protocol);
        out.push(self.algorithm);
        put_bytes(&mut out, self.public_key.as_slice());
        assert(out@ =~= dnskey_rdata(self@));
        out
    }

    /// The key tag: see `key_tag_of`. It narrows the keys that may have made
    /// a signature and proves nothing of itself.
    pub fn key_tag(&self) -> (tag: u16)
        ensures
            tag == key_tag_of(dnskey_rdata(self@)),
    {
        let rdata = self.rdata();
        let mut sum: u128 = 0;
        let mut i: usize = 0;
        while i < rdata.len()
            invariant
                i <= rdata.len(),
                sum == tag_sum(rdata@, i as int),
                sum <= i * 0xff00,
            decreases rdata.len() - i,
        {
            if i % 2 == 0 {
                sum = sum + rdata[i] as u128 * 0x100;
            } else {
                sum = sum + rdata[i] as u128;
            }
            i = i + 1;
        }
        ((sum + sum / 0x1_0000 % 0x1_0000) % 0x1_0000) as u16
    }
}

/// Whether `a` comes before `b` or is equal to it from offset `i` on, the
/// octets before `i` being equal: the first octet that differs decides, and
/// where one run ends first, that one comes first.
pub open spec fn le_from(a: Seq<u8>, b: Seq<u8>, i: int) -> bool
    decreases a.len() - i,
{
    if i >= a.len() {
        true
    } else if i >= b.len() {
        false
    } else if a[i] != b[i] {
        a[i] < b[i]
    } else {
        le_from(a, b, i + 1)
    }
}

/// The canonical order of record data: as runs of unsigned octets, left
/// justified.
pub open spec fn octets_le(a: Seq<u8>, b: Seq<u8>) -> bool {
    le_from(a, b, 0)
}

/// The index of the first of `sorted` that `x` does not come behind, or
/// their number.
pub open spec fn insertion_point(sorted: Seq<Seq<u8>>, x: Seq<u8>) -> int
    decreases sorted.len(),
{
    if sorted.len() == 0 {
        0
    } else if octets_le(x, sorted[0]) {
        0
    } else {
        1 + insertion_point(sorted.drop_first(), x)
    }
}

/// The runs in canonical order: each in turn is put before the first that it
/// does not come behind.
pub open spec fn canonical_order(runs: Seq<Seq<u8>>) -> Seq<Seq<u8>>
    decreases runs.len(),
{
    if runs.len() == 0 {
        Seq::empty()
    } else {
        let sorted = canonical_order(runs.drop_last());
        sorted.insert(insertion_point(sorted, runs.last()), runs.last())
    }
}

/// The record data of `records`, in their order.
pub open spec fn rdatas(records: Seq<RecordView>) -> Seq<Seq<u8>> {
    Seq::new(records.len(), |i: int| records[i].rdata)
}

/// What the runs of a `Vec` hold.
pub open spec fn runs_of(v: Seq<Vec<u8>>) -> Seq<Seq<u8>> {
    Seq::new(v.len(), |i: int| v[i]@)
}

/// Whether `records` are a record set: there is one at least, all have the
/// owner, the type and the class of the first, the case of letters ignored,
/// and the data of each fits the 16 bits of its length.
pub open spec fn is_rrset(records: Seq<RecordView>) -> bool {
    &&& records.len() > 0
    &&& forall|i: int|
        0 <= i < records.len() ==> {
            &&& same_name((#[trigger] records[i]).name, records[0].name)
            &&& records[i].rtype == records[0].rtype
            &&& records[i].class == records[0].class
            &&& records[i].rdata.len() <= 0xffff
        }
}

/// One record in the form that is signed: the owner as given, type, class,
/// the time to live as given, and the record data preceded by its length.
pub open spec fn canonical_rr(owner: Seq<u8>, rtype: u16, class: u16, ttl: u32, rdata: Seq<u8>) -> Seq<
    u8,
> {
    owner + u16_octets(rtype as int) + u16_octets(class as int) + u32_octets(ttl as int)
        + u16_octets(rdata.len() as int) + rdata
}

/// Records of one owner, type and class in the form that is signed, one
/// behind the other in the order of `data`.
pub open spec fn canonical_rrs(owner: Seq<u8>, rtype: u16, class: u16, ttl: u32, data: Seq<Seq<u8>>) -> Seq<
    u8,
>
    decreases data.len(),
{
    if data.len() == 0 {
        Seq::empty()
    } else {
        canonical_rr(owner, rtype, class, ttl, data[0]) + canonical_rrs(
            owner,
            rtype,
            class,
            ttl,
            data.drop_first(),
        )
    }
}

/// What is signed: the data of the RRSIG record without the signature, the
/// signer's name in lower case, and behind it the records of the set in
/// the canonical order of their data, each with the owner in lower case and
/// the original time to live of the RRSIG record.
pub open spec fn signed_data(rrset: Seq<RecordView>, sig: RrsigView) -> Seq<u8> {
    rrsig_fields(sig, wire_form(lower_name(sig.signer_name))) + canonical_rrs(
        wire_form(lower_name(rrset[0].name)),
        rrset[0].rtype,
        rrset[0].class,
        sig.original_ttl,
        canonical_order(rdatas(rrset)),
    )
}

/// Whether `key` may have made `sig`: its key tag, its algorithm and its
/// owner are those that the signature names.
pub open spec fn key_matches(key: DnskeyView, sig: RrsigView) -> bool {
    &&& key_tag_of(dnskey_rdata(key)) == sig.key_tag
    &&& key.algorithm == sig.algorithm
    &&& same_name(key.owner, sig.signer_name)
}

/// Whether the algorithm is one whose signatures can be verified.
pub open spec fn is_supported(algorithm: u8) -> bool {
    algorithm == ALGORITHM_ECDSA_P256_SHA256 || algorithm == ALGORITHM_ED25519
}

/// Whether Ed25519 accepts `signature` for `message` under the public key
/// `key`.
pub uninterp spec fn ed25519_accepts(key: Seq<u8>, message: Seq<u8>, signature: Seq<u8>) -> bool;

/// Whether ECDSA on P-256 with SHA-256 accepts `signature` for `message`
/// under the public key `key`, a point in SEC1 encoding.
pub uninterp spec fn ecdsa_p256_accepts(key: Seq<u8>, message: Seq<u8>, signature: Seq<u8>) -> bool;

/// Whether the algorithm accepts `signature` for `message` under the public
/// key of a DNSKEY record. A DNSKEY record holds a point of P-256 as its two
/// coordinates; the octet 4 before them makes the SEC1 encoding.
pub open spec fn signature_accepted(
    algorithm: u8,
    public_key: Seq<u8>,
    message: Seq<u8>,
    signature: Seq<u8>,
) -> bool {
    if algorithm == ALGORITHM_ED25519 {
        ed25519_accepts(public_key, message, signature)
    } else if algorithm == ALGORITHM_ECDSA_P256_SHA256 {
        ecdsa_p256_accepts(seq![4u8] + public_key, message, signature)
    } else {
        false
    }
}

/// Whether one of the keys that may have made `sig` accepts its signature
/// for `message`.
pub open spec fn some_key_accepts(keys: Seq<DnskeyView>, sig: RrsigView, message: Seq<u8>) -> bool {
    exists|i: int|
        0 <= i < keys.len() && key_matches(#[trigger] keys[i], sig) && signature_accepted(
            sig.algorithm,
            keys[i].public_key,
            message,
            sig.signature,
        )
}

/// What can be said of a signed record set before its signature is looked
/// at, with the checks in their order.
///
/// No key with the key tag, the algorithm and the signer's name of the
/// signature is `BadKey`. An algorithm that is not supported is
/// `BadKeyAlgorithm`. Records that are no record set, a type other than the
/// one that the signature covers, or a signer that is neither the owner nor
/// above it, are `BadRrset`. A time before the inception or after the
/// expiration is `BadTime`.
pub open spec fn rrsig_admissible(
    rrset: Seq<RecordView>,
    sig: RrsigView,
    keys: Seq<DnskeyView>,
    now: u64,
) -> Result<(), Error> {
    if !(exists|i: int| 0 <= i < keys.len() && key_matches(#[trigger] keys[i], sig)) {
        Err(Error::BadKey)
    } else if !is_supported(sig.algorithm) {
        Err(Error::BadKeyAlgorithm)
    } else if !is_rrset(rrset) || rrset[0].rtype != sig.type_covered || !at_or_above(
        sig.signer_name,
        rrset[0].name,
    ) {
        Err(Error::BadRrset)
    } else if now < sig.inception || now > sig.expiration {
        Err(Error::BadTime)
    } else {
        Ok(())
    }
}

/// What validation says of a signed record set: what `rrsig_admissible`
/// objects to, else `BadSignature` unless a key that may have made the
/// signature accepts it for what is signed.
pub open spec fn rrset_outcome(
    rrset: Seq<RecordView>,
    sig: RrsigView,
    keys: Seq<DnskeyView>,
    now: u64,
) -> Result<(), Error> {
    match rrsig_admissible(rrset, sig, keys, now) {
        Err(e) => Err(e),
        Ok(_) => if some_key_accepts(keys, sig, signed_data(rrset, sig)) {
            Ok(())
        } else {
            Err(Error::BadSignature)
        },
    }
}

/// `VerifyingKey::from_bytes`, `Signature::from_slice` and
/// `Verifier::verify` of ed25519-dalek: whether the key, taken as an Ed25519
/// public key, accepts the signature for the message. A key or a signature
/// that the crate cannot parse accepts nothing. The answer is a function of
/// the three arguments alone.
#[verifier::external_body]
fn ed25519_verify(key: &[u8], message: &[u8], signature: &[u8]) -> (accepted: bool)
    ensures
        accepted == ed25519_accepts(key@, message@, signature@),
{
    let key: [u8; 32] = match key.try_into() {
        Ok(k) => k,
        Err(_) => return false,
    };
    let key = match ed25519_dalek::VerifyingKey::from_bytes(&key) {
        Ok(k) => k,
        Err(_) => return false,
    };
    match ed25519_dalek::Signature::from_slice(signature) {
        Ok(signature) => key.verify(message, &signature).is_ok(),
        Err(_) => false,
    }
}

/// `VerifyingKey::from_sec1_bytes`, `Signature::from_slice` and
/// `Verifier::verify` of p256: whether the key, taken as a point of P-256 in
/// SEC1 encoding, accepts the signature, taken as the two integers of an
/// ECDSA signature one behind the other, for the SHA-256 hash of the
/// message. A key or a signature that the crate cannot parse accepts
/// nothing. The answer is a function of the three arguments alone.
#[verifier::external_body]
fn ecdsa_p256_verify(key: &[u8], message: &[u8], signature: &[u8]) -> (accepted: bool)
    ensures
        accepted == ecdsa_p256_accepts(key@, message@, signature@),
{
    let key = match p256::ecdsa::VerifyingKey::from_sec1_bytes(key) {
        Ok(k) => k,
        Err(_) => return false,
    };
    match p256::ecdsa::Signature::from_slice(signature) {
        Ok(signature) => key.verify(message, &signature).is_ok(),
        Err(_) => false,
    }
}

/// Whether `a` comes before `b` in the canonical order of record data, or
/// is equal to it.
pub fn precedes(a: &[u8], b: &[u8]) -> (le: bool)
    ensures
        le == octets_le(a@, b@),
{
    let mut i: usize = 0;
    while i < a.len()
        invariant
            i <= a.len(),
            octets_le(a@, b@) == le_from(a@, b@, i as int),
        decreases a.len() - i,
    {
        if i >= b.len() {
            return false;
        }
        if a[i] != b[i] {
            return a[i] < b[i];
        }
        i = i + 1;
    }
    true
}

/// The record data of `records` in canonical order.
pub fn sorted_rdatas(records: &[Record]) -> (sorted: Vec<Vec<u8>>)
    ensures
        runs_of(sorted@) == canonical_order(rdatas(records_of(records@))),
{
    let ghost all = rdatas(records_of(records@));
    let mut sorted: Vec<Vec<u8>> = Vec::new();
    let mut i: usize = 0;
    assert(all.take(0) =~= Seq::<Seq<u8>>::empty());
    assert(runs_of(sorted@) =~= Seq::<Seq<u8>>::empty());
    while i < records.len()
        invariant
            i <= records.len(),
            all == rdatas(records_of(records@)),
            runs_of(sorted@) == canonical_order(all.take(i as int)),
        decreases records.len() - i,
    {
        let mut x: Vec<u8> = Vec::new();
        put_bytes(&mut x, records[i].rdata.as_slice());
        assert(x@ =~= all[i as int]);
        let ghost before = runs_of(sorted@);
        let mut j: usize = 0;
        assert(before.skip(0) =~= before);
        while j < sorted.len() && !precedes(x.as_slice(), sorted[j].as_slice())
            invariant
                j <= sorted.len(),
                before == runs_of(sorted@),
                insertion_point(before, x@) == j + insertion_point(before.skip(j as int), x@),
            decreases sorted.len() - j,
        {
            assert(before.skip(j as int)[0] == before[j as int]);
            assert(before.skip(j as int).drop_first() =~= before.skip(j + 1));
            j = j + 1;
        }
        proof {
            if j < sorted.len() {
                assert(before.skip(j as int)[0] == before[j as int]);
            }
            assert(all.take(i + 1).drop_last() =~= all.take(i as int));
            assert(all.take(i + 1).last() == all[i as int]);
            assert(runs_of(sorted@.insert(j as int, x)) =~= before.insert(j as int, x@));
        }
        sorted.insert(j, x);
        i = i + 1;
    }
    assert(all.take(i as int) =~= all);
    sorted
}

/// Whether `records` are a record set: see `is_rrset`.
pub fn check_rrset(records: &[Record]) -> (ok: bool)
    ensures
        ok == is_rrset(records_of(records@)),
{
    if records.len() == 0 {
        return false;
    }
    let ghost all = records_of(records@);
    let mut i: usize = 0;
    while i < records.len()
        invariant
            i <= records.len(),
            records.len() > 0,
            all == records_of(records@),
            forall|k: int|
                0 <= k < i ==> {
                    &&& same_name((#[trigger] all[k]).name, all[0].name)
                    &&& all[k].rtype == all[0].rtype
                    &&& all[k].class == all[0].class
                    &&& all[k].rdata.len() <= 0xffff
                },
        decreases records.len() - i,
    {
        let record = &records[i];
        let first = &records[0];
        if !record.name.eq_ignore_case(&first.name) || record.rtype != first.rtype || record.class
            != first.class || record.rdata.len() > 0xffff {
            assert(all[i as int] == record@);
            return false;
        }
        i = i + 1;
    }
    true
}

/// What is signed of a record set under an RRSIG record: see `signed_data`.
/// Fails with `BadRrset` exactly if the records are no record set.
pub fn signed_octets_of(rrset: &[Record], rrsig: &Rrsig) -> (r: Result<Vec<u8>, Error>)
    ensures
        match r {
            Ok(octets) => is_rrset(records_of(rrset@)) && octets@ == signed_data(
                records_of(rrset@),
                rrsig@,
            ),
            Err(e) => !is_rrset(records_of(rrset@)) && e == Error::BadRrset,
        },
{
    if !check_rrset(rrset) {
        return Err(Error::BadRrset);
    }
    let first = &rrset[0];
    let owner = first.name.to_lowercase().to_wire();
    let sorted = sorted_rdatas(rrset);
    let mut out = rrsig.signed_fields();
    let ghost head = out@;
    let ghost data = runs_of(sorted@);
    let ghost all = records_of(rrset@);
    proof {
        // Sorting moves the runs and changes none of them, so each still
        // fits its length field.
        lemma_order_keeps_bound(rdatas(all), 0xffff);
        assert(data.skip(0) =~= data);
    }
    let ghost mut emitted = Seq::<u8>::empty();
    let mut i: usize = 0;
    assert(out@ =~= head + emitted);
    while i < sorted.len()
        invariant
            i <= sorted.len(),
            data == runs_of(sorted@),
            forall|k: int| 0 <= k < data.len() ==> (#[trigger] data[k]).len() <= 0xffff,
            out@ == head + emitted,
            canonical_rrs(owner@, first.rtype, first.class, rrsig.original_ttl, data) == emitted
                + canonical_rrs(
                owner@,
                first.rtype,
                first.class,
                rrsig.original_ttl,
                data.skip(i as int),
            ),
        decreases sorted.len() - i,
    {
        let ghost before = out@;
        let ghost rest = data.skip(i as int);
        assert(rest[0] == data[i as int]);
        assert(rest.drop_first() =~= data.skip(i + 1));
        put_bytes(&mut out, owner.as_slice());
        put_u16(&mut out, first.rtype);
        put_u16(&mut out, first.class);
        put_u32(&mut out, rrsig.original_ttl);
        put_u16(&mut out, sorted[i].len() as u16);
        put_bytes(&mut out, sorted[i].as_slice());
        proof {
            let piece = canonical_rr(
                owner@,
                first.rtype,
                first.class,
                rrsig.original_ttl,
                data[i as int],
            );
            assert(out@ =~= before + piece);
            let more = canonical_rrs(
                owner@,
                first.rtype,
                first.class,
                rrsig.original_ttl,
                data.skip(i + 1),
            );
            assert(emitted + (piece + more) =~= (emitted + piece) + more);
            emitted = emitted + piece;
            assert(out@ =~= head + emitted);
        }
        i = i + 1;
    }
    assert(data.skip(i as int) =~= Seq::<Seq<u8>>::empty());
    assert(emitted + Seq::<u8>::empty() =~= emitted);
    Ok(out)
}

/// Putting runs in canonical order leaves each as long as it was.
pub proof fn lemma_order_keeps_bound(runs: Seq<Seq<u8>>, bound: nat)
    requires
        forall|k: int| 0 <= k < runs.len() ==> (#[trigger] runs[k]).len() <= bound,
    ensures
        canonical_order(runs).len() == runs.len(),
        forall|k: int|
            0 <= k < canonical_order(runs).len() ==> (#[trigger] canonical_order(runs)[k]).len()
                <= bound,
    decreases runs.len(),
{
    if runs.len() > 0 {
        let front = runs.drop_last();
        assert forall|k: int| 0 <= k < front.len() implies (#[trigger] front[k]).len() <= bound by {
            assert(front[k] == runs[k]);
        }
        lemma_order_keeps_bound(front, bound);
        let sorted = canonical_order(front);
        lemma_insertion_point_fits(sorted, runs.last());
    }
}

/// Of two runs one comes before the other or they are equal: the order is
/// total.
pub proof fn lemma_order_total(a: Seq<u8>, b: Seq<u8>, i: int)
    requires
        0 <= i,
    ensures
        le_from(a, b, i) || le_from(b, a, i),
    decreases a.len() - i,
{
    if i < a.len() && i < b.len() && a[i] == b[i] {
        lemma_order_total(a, b, i + 1);
    }
}

/// Whether each run comes before the next or is equal to it.
pub open spec fn in_order(runs: Seq<Seq<u8>>) -> bool {
    forall|i: int| 0 <= i < runs.len() - 1 ==> octets_le(#[trigger] runs[i], runs[i + 1])
}

/// Where a run is put, the run before that place comes before it, and it
/// does not come behind the run at that place.
pub proof fn lemma_insertion_point_fits(sorted: Seq<Seq<u8>>, x: Seq<u8>)
    ensures
        0 <= insertion_point(sorted, x) <= sorted.len(),
        insertion_point(sorted, x) < sorted.len() ==> octets_le(
            x,
            sorted[insertion_point(sorted, x)],
        ),
        insertion_point(sorted, x) > 0 ==> octets_le(sorted[insertion_point(sorted, x) - 1], x),
    decreases sorted.len(),
{
    if sorted.len() > 0 && !octets_le(x, sorted[0]) {
        let rest = sorted.drop_first();
        lemma_insertion_point_fits(rest, x);
        let j = insertion_point(rest, x);
        if j < rest.len() {
            assert(rest[j] == sorted[j + 1]);
        }
        if j > 0 {
            assert(rest[j - 1] == sorted[j]);
        } else {
            lemma_order_total(x, sorted[0], 0);
        }
    }
}

/// The canonical order is an order: in what `canonical_order` gives, each
/// run comes before the next or is equal to it.
pub proof fn lemma_canonical_order_sorted(runs: Seq<Seq<u8>>)
    ensures
        in_order(canonical_order(runs)),
    decreases runs.len(),
{
    if runs.len() > 0 {
        let sorted = canonical_order(runs.drop_last());
        let x = runs.last();
        let j = insertion_point(sorted, x);
        lemma_canonical_order_sorted(runs.drop_last());
        lemma_insertion_point_fits(sorted, x);
        let out = sorted.insert(j, x);
        assert forall|i: int| 0 <= i < out.len() - 1 implies octets_le(
            #[trigger] out[i],
            out[i + 1],
        ) by {
            if i + 1 < j {
                assert(out[i] == sorted[i] && out[i + 1] == sorted[i + 1]);
            } else if i + 1 == j {
                assert(out[i] == sorted[j - 1] && out[i + 1] == x);
            } else if i == j {
                assert(out[i] == x && out[i + 1] == sorted[j]);
            } else {
                assert(out[i] == sorted[i - 1] && out[i + 1] == sorted[i]);
            }
        }
    }
}

/// The canonical order moves the runs and neither adds nor loses one: what
/// `canonical_order` gives holds each run as often as it was given.
pub proof fn lemma_canonical_order_permutes(runs: Seq<Seq<u8>>)
    ensures
        canonical_order(runs).to_multiset() == runs.to_multiset(),
    decreases runs.len(),
{
    if runs.len() > 0 {
        let front = runs.drop_last();
        let sorted = canonical_order(front);
        let x = runs.last();
        lemma_canonical_order_permutes(front);
        lemma_insertion_point_fits(sorted, x);
        to_multiset_insert(sorted, insertion_point(sorted, x), x);
        to_multiset_build(front, x);
        assert(front.push(x) =~= runs);
        assert(canonical_order(runs).to_multiset() =~= sorted.to_multiset().insert(x));
        assert(runs.to_multiset() =~= front.to_multiset().insert(x));
    } else {
        assert(runs =~= Seq::<Seq<u8>>::empty());
    }
}

/// Records in the form that is signed can be told apart: what holds two
/// runs of record data one behind the other holds them only in one way.
pub proof fn lemma_canonical_rrs_injective(
    owner: Seq<u8>,
    rtype: u16,
    class: u16,
    ttl: u32,
    a: Seq<Seq<u8>>,
    b: Seq<Seq<u8>>,
)
    requires
        forall|k: int| 0 <= k < a.len() ==> (#[trigger] a[k]).len() <= 0xffff,
        forall|k: int| 0 <= k < b.len() ==> (#[trigger] b[k]).len() <= 0xffff,
        canonical_rrs(owner, rtype, class, ttl, a) == canonical_rrs(owner, rtype, class, ttl, b),
    ensures
        a == b,
    decreases a.len(),
{
    let whole = canonical_rrs(owner, rtype, class, ttl, a);
    let at = owner.len() as int + 8;
    if a.len() == 0 {
        if b.len() > 0 {
            assert(canonical_rr(owner, rtype, class, ttl, b[0]).len() >= 10);
        }
        assert(a =~= b);
    } else if b.len() == 0 {
        assert(canonical_rr(owner, rtype, class, ttl, a[0]).len() >= 10);
    } else {
        let first_a = canonical_rr(owner, rtype, class, ttl, a[0]);
        let first_b = canonical_rr(owner, rtype, class, ttl, b[0]);
        let rest_a = canonical_rrs(owner, rtype, class, ttl, a.drop_first());
        let rest_b = canonical_rrs(owner, rtype, class, ttl, b.drop_first());
        assert(whole == first_a + rest_a);
        assert(whole == first_b + rest_b);
        assert(whole.subrange(at, at + 2) =~= u16_octets(a[0].len() as int));
        assert(whole.subrange(at, at + 2) =~= u16_octets(b[0].len() as int));
        lemma_be16_of_octets(whole, at, a[0].len() as int);
        lemma_be16_of_octets(whole, at, b[0].len() as int);
        let n = a[0].len() as int;
        assert(whole.subrange(at + 2, at + 2 + n) =~= a[0]);
        assert(whole.subrange(at + 2, at + 2 + n) =~= b[0]);
        assert(whole.skip(at + 2 + n) =~= rest_a);
        assert(whole.skip(at + 2 + n) =~= rest_b);
        assert forall|k: int| 0 <= k < a.drop_first().len() implies (
        #[trigger] a.drop_first()[k]).len() <= 0xffff by {
            assert(a.drop_first()[k] == a[k + 1]);
        }
        assert forall|k: int| 0 <= k < b.drop_first().len() implies (
        #[trigger] b.drop_first()[k]).len() <= 0xffff by {
            assert(b.drop_first()[k] == b[k + 1]);
        }
        lemma_canonical_rrs_injective(owner, rtype, class, ttl, a.drop_first(), b.drop_first());
        assert(a =~= seq![a[0]] + a.drop_first());
        assert(b =~= seq![b[0]] + b.drop_first());
    }
}

/// The signature covers every octet of the record data: a record set in
/// which the data of one record was altered, all else left as it was, is
/// signed as other octets than the set as it was. Whether a signature for
/// the one is accepted for the other is then for the algorithm to say.
pub proof fn lemma_altered_rdata_changes_signed_data(
    rrset: Seq<RecordView>,
    altered: Seq<RecordView>,
    sig: RrsigView,
    at: int,
)
    requires
        is_rrset(rrset),
        0 <= at < rrset.len(),
        altered.len() == rrset.len(),
        forall|i: int| 0 <= i < rrset.len() && i != at ==> altered[i] == rrset[i],
        altered[at].rdata != rrset[at].rdata,
        altered[at].rdata.len() <= 0xffff,
        altered[at] == (RecordView { rdata: altered[at].rdata, ..rrset[at] }),
    ensures
        signed_data(altered, sig) != signed_data(rrset, sig),
{
    broadcast use vstd::multiset::group_multiset_axioms;

    let before = rdatas(rrset);
    let after = rdatas(altered);
    let old_data = rrset[at].rdata;
    let new_data = altered[at].rdata;
    assert(after =~= before.update(at, new_data));
    vstd::seq_lib::to_multiset_update(before, at, new_data);
    assert(before.to_multiset().count(old_data) > 0) by {
        vstd::seq_lib::to_multiset_contains(before, old_data);
        assert(before[at] == old_data);
        assert(before.contains(old_data));
    }
    assert(after.to_multiset().count(old_data) != before.to_multiset().count(old_data));
    lemma_canonical_order_permutes(before);
    lemma_canonical_order_permutes(after);
    assert(canonical_order(after) != canonical_order(before));
    lemma_order_keeps_bound(before, 0xffff);
    lemma_order_keeps_bound(after, 0xffff);
    let head = rrsig_fields(sig, wire_form(lower_name(sig.signer_name)));
    let owner = wire_form(lower_name(rrset[0].name));
    let tail_before = canonical_rrs(
        owner,
        rrset[0].rtype,
        rrset[0].class,
        sig.original_ttl,
        canonical_order(before),
    );
    let tail_after = canonical_rrs(
        owner,
        rrset[0].rtype,
        rrset[0].class,
        sig.original_ttl,
        canonical_order(after),
    );
    assert(altered[0].name == rrset[0].name && altered[0].rtype == rrset[0].rtype
        && altered[0].class == rrset[0].class);
    if signed_data(altered, sig) == signed_data(rrset, sig) {
        assert((head + tail_before).skip(head.len() as int) =~= tail_before);
        assert((head + tail_after).skip(head.len() as int) =~= tail_after);
        lemma_canonical_rrs_injective(
            owner,
            rrset[0].rtype,
            rrset[0].class,
            sig.original_ttl,
            canonical_order(after),
            canonical_order(before),
        );
    }
}

/// Whether the algorithm accepts `signature` for `message` under the public
/// key of a DNSKEY record: see `signature_accepted`.
pub fn check_signature(algorithm: u8, public_key: &[u8], message: &[u8], signature: &[u8]) -> (accepted:
    bool)
    ensures
        accepted == signature_accepted(algorithm, public_key@, message@, signature@),
{
    if algorithm == ALGORITHM_ED25519 {
        ed25519_verify(public_key, message, signature)
    } else if algorithm == ALGORITHM_ECDSA_P256_SHA256 {
        let mut point: Vec<u8> = Vec::new();
        point.push(4u8);
        put_bytes(&mut point, public_key);
        assert(point@ =~= seq![4u8] + public_key@);
        ecdsa_p256_verify(point.as_slice(), message, signature)
    } else {
        false
    }
}

/// Whether `key` may have made the signature: see `key_matches`.
pub fn key_fits(key: &Dnskey, rrsig: &Rrsig) -> (fits: bool)
    ensures
        fits == key_matches(key@, rrsig@),
{
    key.algorithm == rrsig.algorithm && key.key_tag() == rrsig.key_tag && key.owner.eq_ignore_case(
        &rrsig.signer_name,
    )
}

/// Checks all of a signed record set but the signature: see
/// `rrsig_admissible`.
pub fn check_rrsig(rrset: &[Record], rrsig: &Rrsig, keys: &[Dnskey], now: u64) -> (r: Result<
    (),
    Error,
>)
    ensures
        r == rrsig_admissible(records_of(rrset@), rrsig@, dnskeys_of(keys@), now),
{
    let ghost all = dnskeys_of(keys@);
    let mut found = false;
    let mut i: usize = 0;
    while i < keys.len() && !found
        invariant
            i <= keys.len(),
            all == dnskeys_of(keys@),
            found ==> exists|k: int| 0 <= k < all.len() && key_matches(#[trigger] all[k], rrsig@),
            !found ==> forall|k: int| 0 <= k < i ==> !key_matches(#[trigger] all[k], rrsig@),
        decreases keys.len() - i,
    {
        if key_fits(&keys[i], rrsig) {
            assert(key_matches(all[i as int], rrsig@));
            found = true;
        }
        i = i + 1;
    }
    if !found {
        return Err(Error::BadKey);
    }
    if rrsig.algorithm != ALGORITHM_ECDSA_P256_SHA256 && rrsig.algorithm != ALGORITHM_ED25519 {
        return Err(Error::BadKeyAlgorithm);
    }
    if !check_rrset(rrset) {
        return Err(Error::BadRrset);
    }
    if rrset[0].rtype != rrsig.type_covered || !rrsig.signer_name.is_at_or_above(&rrset[0].name) {
        return Err(Error::BadRrset);
    }
    if now < rrsig.inception as u64 || now > rrsig.expiration as u64 {
        return Err(Error::BadTime);
    }
    Ok(())
}

/// What follows from the answer of the keys: a signature that none of them
/// accepts is `BadSignature`.
pub fn signature_verdict(accepted: bool) -> (r: Result<(), Error>)
    ensures
        r == if accepted {
            Ok::<(), Error>(())
        } else {
            Err::<(), Error>(Error::BadSignature)
        },
{
    if accepted {
        Ok(())
    } else {
        Err(Error::BadSignature)
    }
}

/// Whether one of the keys that may have made the signature accepts it for
/// `message`: see `some_key_accepts`. The key tag only picks the keys to
/// try; each of them is asked for the whole verification.
pub fn any_key_accepts(keys: &[Dnskey], rrsig: &Rrsig, message: &[u8]) -> (accepted: bool)
    ensures
        accepted == some_key_accepts(dnskeys_of(keys@), rrsig@, message@),
{
    let ghost all = dnskeys_of(keys@);
    let mut i: usize = 0;
    while i < keys.len()
        invariant
            i <= keys.len(),
            all == dnskeys_of(keys@),
            forall|k: int|
                0 <= k < i ==> !(key_matches(#[trigger] all[k], rrsig@) && signature_accepted(
                    rrsig@.algorithm,
                    all[k].public_key,
                    message@,
                    rrsig@.signature,
                )),
        decreases keys.len() - i,
    {
        if key_fits(&keys[i], rrsig) && check_signature(
            rrsig.algorithm,
            keys[i].public_key.as_slice(),
            message,
            rrsig.signature.as_slice(),
        ) {
            assert(key_matches(all[i as int], rrsig@) && signature_accepted(
                rrsig@.algorithm,
                all[i as int].public_key,
                message@,
                rrsig@.signature,
            ));
            return true;
        }
        i = i + 1;
    }
    false
}

/// Validates a record set against its signature, the keys of the zone and
/// the time `now`: see `rrset_outcome`.
pub fn verify_rrset(rrset: &[Record], rrsig: &Rrsig, keys: &[Dnskey], now: u64) -> (r: Result<
    (),
    Error,
>)
    ensures
        r == rrset_outcome(records_of(rrset@), rrsig@, dnskeys_of(keys@), now),
{
    match check_rrsig(rrset, rrsig, keys, now) {
        Ok(()) => {},
        Err(e) => {
            return Err(e);
        },
    }
    let message = match signed_octets_of(rrset, rrsig) {
        Ok(octets) => octets,
        Err(e) => {
            return Err(e);
        },
    };
    signature_verdict(any_key_accepts(keys, rrsig, message.as_slice()))
}

} // verus!
