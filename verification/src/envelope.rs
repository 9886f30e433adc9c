//! The message envelope: a header of twelve octets and four sections of
//! resource records.
//!
//! Every record of every section is an owner name, a type, a class, a
//! time to live, and record data preceded by its length. The record data is
//! opaque here.

use vstd::prelude::*;
use crate::cursor::Reader;
use crate::cursor::Writer;
use crate::compress::CompressionTable;
use crate::compress::agrees;
use crate::compress::compress_name;
use crate::compress::lemma_decode_compressed;
use crate::cursor::be16;
use crate::cursor::be32;
use crate::cursor::lemma_be16_of_octets;
use crate::cursor::lemma_be32_of_octets;
use crate::cursor::u16_octets;
use crate::cursor::u32_octets;
use crate::error::Error;
use crate::msg::MAX_COMPRESSION_POINTERS;
use crate::name::DomainName;
use crate::name::decode_name;
use crate::name::lemma_decode_name_valid;
use crate::name::lemma_decode_wire_form;
use crate::name::lemma_wire_form_len;
use crate::name::lower_name;
use crate::name::same_name;
use crate::name::valid_name;
use crate::name::wire_form;
use crate::name::wire_len;

verus! {

/// The number of octets of the header.
pub const HEADER_OCTETS: usize = 12;

/// The number of octets of a record between its name and its data.
pub const RECORD_FIXED_OCTETS: usize = 10;

/// The record type of the OPT pseudo-record.
pub const TYPE_OPT: u16 = 41;

/// The fixed part of a message: the identifier, the word of flags with the
/// opcode and the base rcode in it, and the number of records that each
/// section declares.
#[derive(Debug, Clone, Copy, PartialEq, Eq, Structural)]
pub struct Header {
    pub id: u16,
    pub flags: u16,
    pub qdcount: u16,
    pub ancount: u16,
    pub nscount: u16,
    pub arcount: u16,
}

impl Header {
    /// The opcode: bits 11 to 14 of the word of flags.
    pub open spec fn spec_opcode(self) -> int {
        self.flags as int / 0x800 % 0x10
    }

    /// The base rcode: the four low bits of the word of flags.
    pub open spec fn spec_rcode(self) -> int {
        self.flags as int % 0x10
    }

    /// The opcode: bits 11 to 14 of the word of flags.
    pub fn opcode(&self) -> (op: u8)
        ensures
            op == self.spec_opcode(),
    {
        (self.flags / 0x800 % 0x10) as u8
    }

    /// The base rcode: the four low bits of the word of flags.
    pub fn rcode(&self) -> (code: u8)
        ensures
            code == self.spec_rcode(),
    {
        (self.flags % 0x10) as u8
    }
}

/// A resource record.
#[derive(Debug)]
pub struct Record {
    pub name: DomainName,
    pub rtype: u16,
    pub class: u16,
    pub ttl: u32,
    pub rdata: Vec<u8>,
}

/// What a record holds.
pub struct RecordView {
    pub name: Seq<Seq<u8>>,
    pub rtype: u16,
    pub class: u16,
    pub ttl: u32,
    pub rdata: Seq<u8>,
}

impl View for Record {
    type V = RecordView;

    open spec fn view(&self) -> RecordView {
        RecordView {
            name: self.name@,
            rtype: self.rtype,
            class: self.class,
            ttl: self.ttl,
            rdata: self.rdata@,
        }
    }
}

impl Clone for Record {
    /// A copy that holds the same.
    fn clone(&self) -> (copy: Record)
        ensures
            copy@ == self@,
    {
        let mut rdata: Vec<u8> = Vec::new();
        rdata.extend_from_slice(self.rdata.as_slice());
        assert(rdata@ =~= self.rdata@);
        Record {
            name: self.name.clone(),
            rtype: self.rtype,
            class: self.class,
            ttl: self.ttl,
            rdata,
        }
    }
}

/// What the records of a `Vec` hold.
pub open spec fn records_of(v: Seq<Record>) -> Seq<RecordView> {
    Seq::new(v.len(), |i: int| v[i]@)
}

/// A message: its header and its four sections.
#[derive(Debug)]
pub struct Envelope {
    pub header: Header,
    pub question: Vec<Record>,
    pub answer: Vec<Record>,
    pub authority: Vec<Record>,
    pub additional: Vec<Record>,
}

/// What a message holds.
pub struct EnvelopeView {
    pub header: Header,
    pub question: Seq<RecordView>,
    pub answer: Seq<RecordView>,
    pub authority: Seq<RecordView>,
    pub additional: Seq<RecordView>,
}

impl View for Envelope {
    type V = EnvelopeView;

    open spec fn view(&self) -> EnvelopeView {
        EnvelopeView {
            header: self.header,
            question: records_of(self.question@),
            answer: records_of(self.answer@),
            authority: records_of(self.authority@),
            additional: records_of(self.additional@),
        }
    }
}

/// The header that the first twelve octets of `buf` hold.
pub open spec fn header_at(buf: Seq<u8>) -> Header {
    Header {
        id: be16(buf, 0) as u16,
        flags: be16(buf, 2) as u16,
        qdcount: be16(buf, 4) as u16,
        ancount: be16(buf, 6) as u16,
        nscount: be16(buf, 8) as u16,
        arcount: be16(buf, 10) as u16,
    }
}

/// The record that stands at `pos` in `buf`, and the offset behind it.
/// Where the buffer ends inside the record, the failure is `ShortRead`.
pub open spec fn decode_record(buf: Seq<u8>, pos: int) -> Result<(RecordView, int), Error> {
    match decode_name(buf, pos) {
        Err(e) => Err(e),
        Ok((name, p)) => if p + RECORD_FIXED_OCTETS > buf.len() {
            Err(Error::ShortRead)
        } else if p + RECORD_FIXED_OCTETS + be16(buf, p + 8) > buf.len() {
            Err(Error::ShortRead)
        } else {
            Ok(
                (
                    RecordView {
                        name,
                        rtype: be16(buf, p) as u16,
                        class: be16(buf, p + 2) as u16,
                        ttl: be32(buf, p + 4) as u32,
                        rdata: buf.subrange(
                            p + RECORD_FIXED_OCTETS,
                            p + RECORD_FIXED_OCTETS + be16(buf, p + 8),
                        ),
                    },
                    p + RECORD_FIXED_OCTETS + be16(buf, p + 8),
                ),
            )
        },
    }
}

/// The `count` records that stand at `pos` in `buf`, and the offset behind
/// them. Where the buffer ends before a record begins, the section holds
/// fewer records than were declared: `BadRrset`.
pub open spec fn decode_section(buf: Seq<u8>, pos: int, count: nat) -> Result<
    (Seq<RecordView>, int),
    Error,
>
    decreases count,
{
    if count == 0 {
        Ok((Seq::empty(), pos))
    } else if pos >= buf.len() {
        Err(Error::BadRrset)
    } else {
        match decode_record(buf, pos) {
            Err(e) => Err(e),
            Ok((record, p)) => match decode_section(buf, p, (count - 1) as nat) {
                Err(e) => Err(e),
                Ok((rest, end)) => Ok((seq![record] + rest, end)),
            },
        }
    }
}

/// The first OPT record among `records`, if there is one.
pub open spec fn find_opt(records: Seq<RecordView>) -> Option<RecordView>
    decreases records.len(),
{
    if records.len() == 0 {
        None
    } else if records[0].rtype == TYPE_OPT {
        Some(records[0])
    } else {
        find_opt(records.drop_first())
    }
}

/// The number of OPT records among `records`.
pub open spec fn count_opt(records: Seq<RecordView>) -> nat
    decreases records.len(),
{
    if records.len() == 0 {
        0
    } else {
        (if records[0].rtype == TYPE_OPT {
            1nat
        } else {
            0nat
        }) + count_opt(records.drop_first())
    }
}

/// Whether the additional section is well formed in its OPT record: there is
/// at most one, and the root owns it.
pub open spec fn opt_well_formed(additional: Seq<RecordView>) -> bool {
    &&& count_opt(additional) <= 1
    &&& find_opt(additional) matches Some(opt) ==> opt.name.len() == 0
}

/// The 12-bit rcode of a message: the base rcode of the header in the four
/// low bits and, above them, the eight bits that the OPT record of the
/// additional section carries at the top of its time to live.
pub open spec fn extended_rcode(header: Header, additional: Seq<RecordView>) -> int {
    match find_opt(additional) {
        Some(opt) => (opt.ttl as int / 0x100_0000) * 0x10 + header.spec_rcode(),
        None => header.spec_rcode(),
    }
}

/// Whether the registry of rcodes assigns `code`: 0 to 11 and 16 to 23.
pub open spec fn is_assigned_rcode(code: int) -> bool {
    0 <= code <= 11 || 16 <= code <= 23
}

/// The message that `buf` holds.
///
/// A buffer of fewer than twelve octets is `ShortRead`. The four sections
/// follow the header, each with as many records as the header declares;
/// octets left behind the last record are more records than were declared:
/// `BadRrset`. A malformed OPT record is `BadExtendedRcode`. Under strict
/// validation a 12-bit rcode that is not assigned is `BadRcode`.
pub open spec fn decode_message(buf: Seq<u8>, strict: bool) -> Result<EnvelopeView, Error> {
    if buf.len() < HEADER_OCTETS {
        Err(Error::ShortRead)
    } else {
        let header = header_at(buf);
        match decode_section(buf, HEADER_OCTETS as int, header.qdcount as nat) {
            Err(e) => Err(e),
            Ok((question, q_end)) => match decode_section(buf, q_end, header.ancount as nat) {
                Err(e) => Err(e),
                Ok((answer, an_end)) => match decode_section(buf, an_end, header.nscount as nat) {
                    Err(e) => Err(e),
                    Ok((authority, ns_end)) => match decode_section(buf, ns_end, header.arcount as nat) {
                        Err(e) => Err(e),
                        Ok((additional, end)) => if end != buf.len() {
                            Err(Error::BadRrset)
                        } else if !opt_well_formed(additional) {
                            Err(Error::BadExtendedRcode)
                        } else if strict && !is_assigned_rcode(
                            extended_rcode(header, additional),
                        ) {
                            Err(Error::BadRcode)
                        } else {
                            Ok(EnvelopeView { header, question, answer, authority, additional })
                        },
                    },
                },
            },
        }
    }
}

/// What `decode_record` accepts ends inside the buffer, behind where it
/// began.
pub proof fn lemma_decode_record_end(buf: Seq<u8>, pos: int)
    ensures
        decode_record(buf, pos) matches Ok((record, end)) ==> pos < end <= buf.len()
            && valid_name(record.name) && record.rdata.len() < 0x1_0000,
{
    lemma_decode_name_valid(buf, pos);
}

/// The result of reading a section that has read `done` and goes on with
/// `rest`.
spec fn continued(done: Seq<RecordView>, rest: Result<(Seq<RecordView>, int), Error>) -> Result<
    (Seq<RecordView>, int),
    Error,
> {
    match rest {
        Ok((more, end)) => Ok((done + more, end)),
        Err(e) => Err(e),
    }
}

impl Record {
    /// Decodes the record that stands at `offset` in `buf` and gives the
    /// offset behind it: see `decode_record`.
    pub fn decode(buf: &[u8], offset: usize) -> (r: Result<(Record, usize), Error>)
        ensures
            match r {
                Ok((record, end)) => decode_record(buf@, offset as int) == Ok::<
                    (RecordView, int),
                    Error,
                >((record@, end as int)),
                Err(e) => decode_record(buf@, offset as int) == Err::<(RecordView, int), Error>(e),
            },
    {
        proof {
            lemma_decode_name_valid(buf@, offset as int);
        }
        let (name, p) = match DomainName::decode(buf, offset) {
            Ok(found) => found,
            Err(e) => {
                return Err(e);
            },
        };
        let mut reader = Reader::at(buf, p);
        if reader.remaining() < RECORD_FIXED_OCTETS {
            return Err(Error::ShortRead);
        }
        let rtype = match reader.read_u16() {
            Ok(v) => v,
            Err(e) => {
                return Err(e);
            },
        };
        let class = match reader.read_u16() {
            Ok(v) => v,
            Err(e) => {
                return Err(e);
            },
        };
        let ttl = match reader.read_u32() {
            Ok(v) => v,
            Err(e) => {
                return Err(e);
            },
        };
        let rdlength = match reader.read_u16() {
            Ok(v) => v,
            Err(e) => {
                return Err(e);
            },
        };
        let rdata = match reader.read_bytes(rdlength as usize) {
            Ok(v) => v,
            Err(e) => {
                return Err(e);
            },
        };
        Ok((Record { name, rtype, class, ttl, rdata }, reader.position()))
    }
}

/// Decodes the `count` records that stand at `offset` in `buf` and gives the
/// offset behind them: see `decode_section`.
pub fn decode_records(buf: &[u8], offset: usize, count: u16) -> (r: Result<
    (Vec<Record>, usize),
    Error,
>)
    ensures
        match r {
            Ok((records, end)) => decode_section(buf@, offset as int, count as nat) == Ok::<
                (Seq<RecordView>, int),
                Error,
            >((records_of(records@), end as int)),
            Err(e) => decode_section(buf@, offset as int, count as nat) == Err::<
                (Seq<RecordView>, int),
                Error,
            >(e),
        },
{
    let mut records: Vec<Record> = Vec::new();
    let mut pos: usize = offset;
    let mut left: u16 = count;
    proof {
        assert(records_of(records@) =~= Seq::<RecordView>::empty());
        if let Ok((more, end)) = decode_section(buf@, offset as int, count as nat) {
            assert(Seq::<RecordView>::empty() + more =~= more);
        }
    }
    while left > 0
        invariant
            decode_section(buf@, offset as int, count as nat) == continued(
                records_of(records@),
                decode_section(buf@, pos as int, left as nat),
            ),
        decreases left,
    {
        if pos >= buf.len() {
            return Err(Error::BadRrset);
        }
        let (record, next) = match Record::decode(buf, pos) {
            Ok(found) => found,
            Err(e) => {
                return Err(e);
            },
        };
        proof {
            if let Ok((more, end)) = decode_section(buf@, next as int, (left - 1) as nat) {
                assert(records_of(records@) + (seq![record@] + more) =~= records_of(
                    records@.push(record),
                ) + more);
            }
        }
        records.push(record);
        pos = next;
        left = left - 1;
    }
    assert(records_of(records@) + Seq::<RecordView>::empty() =~= records_of(records@));
    Ok((records, pos))
}

/// The index of the first OPT record among `records`, if there is one.
pub fn first_opt(records: &Vec<Record>) -> (r: Option<usize>)
    ensures
        match r {
            Some(i) => i < records@.len() && find_opt(records_of(records@)) == Some(records@[i as int]@),
            None => find_opt(records_of(records@)) is None,
        },
{
    let ghost all = records_of(records@);
    let mut i: usize = 0;
    assert(all.skip(0) =~= all);
    while i < records.len()
        invariant
            i <= records.len(),
            all == records_of(records@),
            find_opt(all) == find_opt(all.skip(i as int)),
        decreases records.len() - i,
    {
        assert(all.skip(i as int)[0] == all[i as int]);
        assert(all.skip(i as int).drop_first() =~= all.skip(i + 1));
        if records[i].rtype == TYPE_OPT {
            return Some(i);
        }
        i = i + 1;
    }
    None
}

/// Whether the additional section is well formed in its OPT record: see
/// `opt_well_formed`.
pub fn check_opt(additional: &Vec<Record>) -> (ok: bool)
    ensures
        ok == opt_well_formed(records_of(additional@)),
{
    let ghost all = records_of(additional@);
    let mut seen: usize = 0;
    let mut i: usize = 0;
    assert(all.skip(0) =~= all);
    while i < additional.len()
        invariant
            i <= additional.len(),
            all == records_of(additional@),
            seen <= i,
            count_opt(all) == seen + count_opt(all.skip(i as int)),
        decreases additional.len() - i,
    {
        assert(all.skip(i as int)[0] == all[i as int]);
        assert(all.skip(i as int).drop_first() =~= all.skip(i + 1));
        if additional[i].rtype == TYPE_OPT {
            seen = seen + 1;
        }
        i = i + 1;
    }
    if seen > 1 {
        return false;
    }
    match first_opt(additional) {
        Some(at) => additional[at].name.label_count() == 0,
        None => true,
    }
}

/// Whether the registry of rcodes assigns `code`: see `is_assigned_rcode`.
pub fn assigned_rcode(code: u16) -> (known: bool)
    ensures
        known == is_assigned_rcode(code as int),
{
    code <= 11 || (16 <= code && code <= 23)
}

impl Header {
    /// Reads the header from the first twelve octets of `buf`. Fails with
    /// `ShortRead` exactly if there are fewer.
    pub fn decode(buf: &[u8]) -> (r: Result<Header, Error>)
        ensures
            buf@.len() >= HEADER_OCTETS ==> r == Ok::<Header, Error>(header_at(buf@)),
            buf@.len() < HEADER_OCTETS ==> r == Err::<Header, Error>(Error::ShortRead),
    {
        if buf.len() < HEADER_OCTETS {
            return Err(Error::ShortRead);
        }
        let id: u16 = buf[0] as u16 * 0x100 + buf[1] as u16;
        let flags: u16 = buf[2] as u16 * 0x100 + buf[3] as u16;
        let qdcount: u16 = buf[4] as u16 * 0x100 + buf[5] as u16;
        let ancount: u16 = buf[6] as u16 * 0x100 + buf[7] as u16;
        let nscount: u16 = buf[8] as u16 * 0x100 + buf[9] as u16;
        let arcount: u16 = buf[10] as u16 * 0x100 + buf[11] as u16;
        Ok(Header { id, flags, qdcount, ancount, nscount, arcount })
    }
}

impl Envelope {
    /// The 12-bit rcode of the message: see `extended_rcode`.
    pub fn extended_rcode(&self) -> (code: u16)
        ensures
            code == extended_rcode(self.header, records_of(self.additional@)),
    {
        let base: u16 = self.header.flags % 0x10;
        match first_opt(&self.additional) {
            Some(at) => ((self.additional[at].ttl / 0x100_0000) as u16) * 0x10 + base,
            None => base,
        }
    }

    /// Decodes a message: see `decode_message`, without strict validation.
    pub fn decode(buf: &[u8]) -> (r: Result<Envelope, Error>)
        ensures
            match r {
                Ok(envelope) => decode_message(buf@, false) == Ok::<EnvelopeView, Error>(envelope@),
                Err(e) => decode_message(buf@, false) == Err::<EnvelopeView, Error>(e),
            },
    {
        Envelope::decode_with(buf, false)
    }

    /// Decodes a message under strict validation: see `decode_message`. A
    /// 12-bit rcode that the registry does not assign is `BadRcode`.
    pub fn decode_strict(buf: &[u8]) -> (r: Result<Envelope, Error>)
        ensures
            match r {
                Ok(envelope) => decode_message(buf@, true) == Ok::<EnvelopeView, Error>(envelope@),
                Err(e) => decode_message(buf@, true) == Err::<EnvelopeView, Error>(e),
            },
    {
        Envelope::decode_with(buf, true)
    }

    /// Decodes a message: see `decode_message`.
    fn decode_with(buf: &[u8], strict: bool) -> (r: Result<Envelope, Error>)
        ensures
            match r {
                Ok(envelope) => decode_message(buf@, strict) == Ok::<EnvelopeView, Error>(
                    envelope@,
                ),
                Err(e) => decode_message(buf@, strict) == Err::<EnvelopeView, Error>(e),
            },
    {
        let header = match Header::decode(buf) {
            Ok(h) => h,
            Err(e) => {
                return Err(e);
            },
        };
        let (question, q_end) = match decode_records(buf, HEADER_OCTETS, header.qdcount) {
            Ok(found) => found,
            Err(e) => {
                return Err(e);
            },
        };
        let (answer, an_end) = match decode_records(buf, q_end, header.ancount) {
            Ok(found) => found,
            Err(e) => {
                return Err(e);
            },
        };
        let (authority, ns_end) = match decode_records(buf, an_end, header.nscount) {
            Ok(found) => found,
            Err(e) => {
                return Err(e);
            },
        };
        let (additional, end) = match decode_records(buf, ns_end, header.arcount) {
            Ok(found) => found,
            Err(e) => {
                return Err(e);
            },
        };
        if end != buf.len() {
            return Err(Error::BadRrset);
        }
        if !check_opt(&additional) {
            return Err(Error::BadExtendedRcode);
        }
        let envelope = Envelope { header, question, answer, authority, additional };
        if strict && !assigned_rcode(envelope.extended_rcode()) {
            return Err(Error::BadRcode);
        }
        Ok(envelope)
    }
}

/// The octets of a record behind its name: type, class, time to live, and
/// the record data preceded by its length.
pub open spec fn record_tail(record: RecordView) -> Seq<u8> {
    u16_octets(record.rtype as int) + u16_octets(record.class as int) + u32_octets(
        record.ttl as int,
    ) + u16_octets(record.rdata.len() as int) + record.rdata
}

/// A record in wire format, its name without compression.
pub open spec fn plain_record(record: RecordView) -> Seq<u8> {
    wire_form(record.name) + record_tail(record)
}

/// Records in wire format, one behind the other, their names without
/// compression.
pub open spec fn plain_records(records: Seq<RecordView>) -> Seq<u8>
    decreases records.len(),
{
    if records.len() == 0 {
        Seq::empty()
    } else {
        plain_record(records[0]) + plain_records(records.drop_first())
    }
}

/// The twelve octets of a header.
pub open spec fn header_octets(header: Header) -> Seq<u8> {
    u16_octets(header.id as int) + u16_octets(header.flags as int) + u16_octets(
        header.qdcount as int,
    ) + u16_octets(header.ancount as int) + u16_octets(header.nscount as int) + u16_octets(
        header.arcount as int,
    )
}

/// A message in wire format without compression: its canonical form.
pub open spec fn plain_message(envelope: EnvelopeView) -> Seq<u8> {
    header_octets(envelope.header) + plain_records(envelope.question) + plain_records(
        envelope.answer,
    ) + plain_records(envelope.authority) + plain_records(envelope.additional)
}

/// What writing `records` at offset `at` appends when names are compressed
/// against `table`, and what the table holds afterwards.
pub open spec fn packed_records(
    records: Seq<RecordView>,
    at: int,
    table: Seq<(Seq<Seq<u8>>, int)>,
) -> (Seq<u8>, Seq<(Seq<Seq<u8>>, int)>)
    decreases records.len(),
{
    if records.len() == 0 {
        (Seq::empty(), table)
    } else {
        let (name, grown) = compress_name(records[0].name, at, table);
        let first = name + record_tail(records[0]);
        let (rest, last) = packed_records(records.drop_first(), at + first.len(), grown);
        (first + rest, last)
    }
}

/// A message in wire format with its owner names compressed: one table,
/// empty at the start, serves all four sections in turn.
pub open spec fn packed_message(envelope: EnvelopeView) -> Seq<u8> {
    let head = header_octets(envelope.header);
    let (q, t1) = packed_records(envelope.question, head.len() as int, Seq::empty());
    let (an, t2) = packed_records(envelope.answer, (head + q).len() as int, t1);
    let (ns, t3) = packed_records(envelope.authority, (head + q + an).len() as int, t2);
    let (ar, t4) = packed_records(envelope.additional, (head + q + an + ns).len() as int, t3);
    head + q + an + ns + ar
}

/// Whether the data of every record fits the 16 bits of its length.
pub open spec fn records_fit(records: Seq<RecordView>) -> bool {
    forall|i: int| 0 <= i < records.len() ==> (#[trigger] records[i]).rdata.len() <= 0xffff
}

/// Whether every record is owned by a domain name.
pub open spec fn records_named(records: Seq<RecordView>) -> bool {
    forall|i: int| 0 <= i < records.len() ==> valid_name((#[trigger] records[i]).name)
}

/// Whether a message can be written, and why not: `BadRrset` where a section
/// does not hold as many records as the header declares, else `BadRdata`
/// where the data of a record exceeds 65535 octets, else `BadExtendedRcode`
/// where the OPT record is malformed.
pub open spec fn check_envelope(envelope: EnvelopeView) -> Result<(), Error> {
    if envelope.question.len() != envelope.header.qdcount || envelope.answer.len()
        != envelope.header.ancount || envelope.authority.len() != envelope.header.nscount
        || envelope.additional.len() != envelope.header.arcount {
        Err(Error::BadRrset)
    } else if !records_fit(envelope.question) || !records_fit(envelope.answer) || !records_fit(
        envelope.authority,
    ) || !records_fit(envelope.additional) {
        Err(Error::BadRdata)
    } else if !opt_well_formed(envelope.additional) {
        Err(Error::BadExtendedRcode)
    } else {
        Ok(())
    }
}

/// Whether every record of the message is owned by a domain name. It holds
/// of what every `Envelope` holds.
pub open spec fn envelope_named(envelope: EnvelopeView) -> bool {
    &&& records_named(envelope.question)
    &&& records_named(envelope.answer)
    &&& records_named(envelope.authority)
    &&& records_named(envelope.additional)
}

/// The length of a record in wire format without compression.
pub proof fn lemma_plain_record_len(record: RecordView)
    ensures
        plain_record(record).len() == wire_len(record.name) + RECORD_FIXED_OCTETS
            + record.rdata.len(),
        record_tail(record).len() == RECORD_FIXED_OCTETS + record.rdata.len(),
{
    lemma_wire_form_len(record.name);
}

/// Decoding reads back a record that was written without compression,
/// whatever stands before and behind it.
pub proof fn lemma_decode_plain_record(before: Seq<u8>, record: RecordView, behind: Seq<u8>)
    requires
        valid_name(record.name),
        record.rdata.len() <= 0xffff,
    ensures
        decode_record(before + plain_record(record) + behind, before.len() as int) == Ok::<
            (RecordView, int),
            Error,
        >((record, before.len() as int + plain_record(record).len() as int)),
{
    let buf = before + plain_record(record) + behind;
    let tail = record_tail(record);
    let p = before.len() as int + wire_len(record.name) as int;
    lemma_wire_form_len(record.name);
    lemma_plain_record_len(record);
    assert(buf =~= before + wire_form(record.name) + (tail + behind));
    lemma_decode_wire_form(before, record.name, tail + behind, 0, 0);
    assert(buf.subrange(p, p + 2) =~= u16_octets(record.rtype as int));
    assert(buf.subrange(p + 2, p + 4) =~= u16_octets(record.class as int));
    assert(buf.subrange(p + 4, p + 8) =~= u32_octets(record.ttl as int));
    assert(buf.subrange(p + 8, p + 10) =~= u16_octets(record.rdata.len() as int));
    assert(buf.subrange(p + 10, p + 10 + record.rdata.len()) =~= record.rdata);
    lemma_be16_of_octets(buf, p, record.rtype as int);
    lemma_be16_of_octets(buf, p + 2, record.class as int);
    lemma_be32_of_octets(buf, p + 4, record.ttl as int);
    lemma_be16_of_octets(buf, p + 8, record.rdata.len() as int);
}

/// Decoding reads back records that were written without compression,
/// whatever stands before and behind them.
pub proof fn lemma_decode_plain_records(
    before: Seq<u8>,
    records: Seq<RecordView>,
    behind: Seq<u8>,
)
    requires
        records_named(records),
        records_fit(records),
    ensures
        decode_section(
            before + plain_records(records) + behind,
            before.len() as int,
            records.len(),
        ) == Ok::<(Seq<RecordView>, int), Error>(
            (records, before.len() as int + plain_records(records).len() as int),
        ),
    decreases records.len(),
{
    let buf = before + plain_records(records) + behind;
    if records.len() == 0 {
        assert(records =~= Seq::<RecordView>::empty());
    } else {
        let first = records[0];
        let rest = records.drop_first();
        let head = before + plain_record(first);
        lemma_plain_record_len(first);
        assert(buf =~= before + plain_record(first) + (plain_records(rest) + behind));
        assert(buf =~= head + plain_records(rest) + behind);
        lemma_decode_plain_record(before, first, plain_records(rest) + behind);
        assert(records_named(rest)) by {
            assert forall|i: int| 0 <= i < rest.len() implies valid_name(
                (#[trigger] rest[i]).name,
            ) by {
                assert(rest[i] == records[i + 1]);
            }
        }
        assert(records_fit(rest)) by {
            assert forall|i: int| 0 <= i < rest.len() implies (#[trigger] rest[i]).rdata.len()
                <= 0xffff by {
                assert(rest[i] == records[i + 1]);
            }
        }
        lemma_decode_plain_records(head, rest, behind);
        assert(seq![first] + rest =~= records);
    }
}

/// Reading the header back from its twelve octets gives the header.
pub proof fn lemma_header_round_trip(header: Header, behind: Seq<u8>)
    ensures
        header_at(header_octets(header) + behind) == header,
        header_octets(header).len() == HEADER_OCTETS,
{
    let buf = header_octets(header) + behind;
    assert(buf.subrange(0, 2) =~= u16_octets(header.id as int));
    assert(buf.subrange(2, 4) =~= u16_octets(header.flags as int));
    assert(buf.subrange(4, 6) =~= u16_octets(header.qdcount as int));
    assert(buf.subrange(6, 8) =~= u16_octets(header.ancount as int));
    assert(buf.subrange(8, 10) =~= u16_octets(header.nscount as int));
    assert(buf.subrange(10, 12) =~= u16_octets(header.arcount as int));
    lemma_be16_of_octets(buf, 0, header.id as int);
    lemma_be16_of_octets(buf, 2, header.flags as int);
    lemma_be16_of_octets(buf, 4, header.qdcount as int);
    lemma_be16_of_octets(buf, 6, header.ancount as int);
    lemma_be16_of_octets(buf, 8, header.nscount as int);
    lemma_be16_of_octets(buf, 10, header.arcount as int);
}

/// A message is what its header and its four sections are, where they
/// stand one behind the other and fill the buffer.
pub proof fn lemma_message_of_sections(
    buf: Seq<u8>,
    question: Seq<RecordView>,
    answer: Seq<RecordView>,
    authority: Seq<RecordView>,
    additional: Seq<RecordView>,
    q_end: int,
    an_end: int,
    ns_end: int,
)
    requires
        buf.len() >= HEADER_OCTETS,
        decode_section(buf, HEADER_OCTETS as int, header_at(buf).qdcount as nat) == Ok::<
            (Seq<RecordView>, int),
            Error,
        >((question, q_end)),
        decode_section(buf, q_end, header_at(buf).ancount as nat) == Ok::<
            (Seq<RecordView>, int),
            Error,
        >((answer, an_end)),
        decode_section(buf, an_end, header_at(buf).nscount as nat) == Ok::<
            (Seq<RecordView>, int),
            Error,
        >((authority, ns_end)),
        decode_section(buf, ns_end, header_at(buf).arcount as nat) == Ok::<
            (Seq<RecordView>, int),
            Error,
        >((additional, buf.len() as int)),
        opt_well_formed(additional),
    ensures
        decode_message(buf, false) == Ok::<EnvelopeView, Error>(
            EnvelopeView { header: header_at(buf), question, answer, authority, additional },
        ),
{
}

/// Octets put together one behind the other are the same however they are
/// grouped.
pub proof fn lemma_joined(a: Seq<u8>, b: Seq<u8>, c: Seq<u8>)
    ensures
        (a + b) + c == a + (b + c),
{
    assert((a + b) + c =~= a + (b + c));
}

/// A message that is written without compression and decoded is the same
/// message: so decoding such octets and writing the result without
/// compression gives the octets back.
pub proof fn lemma_message_round_trip(envelope: EnvelopeView)
    requires
        envelope_named(envelope),
        check_envelope(envelope) is Ok,
    ensures
        decode_message(plain_message(envelope), false) == Ok::<EnvelopeView, Error>(envelope),
        decode_message(plain_message(envelope), false) matches Ok(decoded) && plain_message(
            decoded,
        ) == plain_message(envelope),
{
    let head = header_octets(envelope.header);
    let q = plain_records(envelope.question);
    let an = plain_records(envelope.answer);
    let ns = plain_records(envelope.authority);
    let ar = plain_records(envelope.additional);
    let buf = plain_message(envelope);
    let start = HEADER_OCTETS as int;
    let q_end = start + q.len();
    let an_end = q_end + an.len();
    let ns_end = an_end + ns.len();
    lemma_plain_sections(envelope);
    lemma_message_of_sections(
        buf,
        envelope.question,
        envelope.answer,
        envelope.authority,
        envelope.additional,
        q_end,
        an_end,
        ns_end,
    );
}

/// The sections of a message that was written without compression are read
/// back where they stand.
pub proof fn lemma_plain_sections(envelope: EnvelopeView)
    requires
        envelope_named(envelope),
        check_envelope(envelope) is Ok,
    ensures
        ({
            let buf = plain_message(envelope);
            let q_end = HEADER_OCTETS + plain_records(envelope.question).len();
            let an_end = q_end + plain_records(envelope.answer).len();
            let ns_end = an_end + plain_records(envelope.authority).len();
            let ar_end = ns_end + plain_records(envelope.additional).len();
            &&& buf.len() == ar_end
            &&& header_at(buf) == envelope.header
            &&& decode_section(buf, HEADER_OCTETS as int, envelope.question.len()) == Ok::<
                (Seq<RecordView>, int),
                Error,
            >((envelope.question, q_end))
            &&& decode_section(buf, q_end, envelope.answer.len()) == Ok::<
                (Seq<RecordView>, int),
                Error,
            >((envelope.answer, an_end))
            &&& decode_section(buf, an_end, envelope.authority.len()) == Ok::<
                (Seq<RecordView>, int),
                Error,
            >((envelope.authority, ns_end))
            &&& decode_section(buf, ns_end, envelope.additional.len()) == Ok::<
                (Seq<RecordView>, int),
                Error,
            >((envelope.additional, ar_end))
        }),
{
    let head = header_octets(envelope.header);
    let q = plain_records(envelope.question);
    let an = plain_records(envelope.answer);
    let ns = plain_records(envelope.authority);
    let ar = plain_records(envelope.additional);
    let buf = plain_message(envelope);
    assert(buf == head + q + an + ns + ar);
    lemma_joined(head + q, an, ns);
    lemma_joined(head + q, an + ns, ar);
    lemma_joined(head, q, an + ns + ar);
    lemma_joined(head + q + an, ns, ar);
    lemma_header_round_trip(envelope.header, q + an + ns + ar);
    lemma_decode_plain_records(head, envelope.question, an + ns + ar);
    lemma_decode_plain_records(head + q, envelope.answer, ns + ar);
    lemma_decode_plain_records(head + q + an, envelope.authority, ar);
    assert(buf + Seq::<u8>::empty() =~= buf);
    lemma_decode_plain_records(head + q + an + ns, envelope.additional, Seq::empty());
}

/// Whether two records hold the same, the case of letters in the owner
/// name apart.
pub open spec fn same_record(a: RecordView, b: RecordView) -> bool {
    &&& same_name(a.name, b.name)
    &&& a.rtype == b.rtype
    &&& a.class == b.class
    &&& a.ttl == b.ttl
    &&& a.rdata == b.rdata
}

/// Whether two sections hold the same records in the same order, the case
/// of letters in the owner names apart.
pub open spec fn same_records(a: Seq<RecordView>, b: Seq<RecordView>) -> bool {
    &&& a.len() == b.len()
    &&& forall|i: int| 0 <= i < a.len() ==> same_record(#[trigger] a[i], b[i])
}

/// Whether two messages hold the same, the case of letters in the owner
/// names apart.
pub open spec fn same_message(a: EnvelopeView, b: EnvelopeView) -> bool {
    &&& a.header == b.header
    &&& same_records(a.question, b.question)
    &&& same_records(a.answer, b.answer)
    &&& same_records(a.authority, b.authority)
    &&& same_records(a.additional, b.additional)
}

/// Whether no owner name has more labels than pointers may be followed.
pub open spec fn records_short(records: Seq<RecordView>) -> bool {
    forall|i: int|
        0 <= i < records.len() ==> (#[trigger] records[i]).name.len() <= MAX_COMPRESSION_POINTERS
}

/// Decoding reads back a record that was written with compression, the
/// case of letters in its owner name apart, whatever stands behind it; and
/// the table then agrees with what was written.
pub proof fn lemma_decode_packed_record(
    buf: Seq<u8>,
    record: RecordView,
    table: Seq<(Seq<Seq<u8>>, int)>,
    behind: Seq<u8>,
)
    requires
        valid_name(record.name),
        record.name.len() <= MAX_COMPRESSION_POINTERS,
        record.rdata.len() <= 0xffff,
        agrees(buf, table),
    ensures
        ({
            let packed = compress_name(record.name, buf.len() as int, table);
            let piece = packed.0 + record_tail(record);
            &&& decode_record(buf + piece + behind, buf.len() as int) matches Ok((read, end))
                && same_record(read, record) && end == buf.len() + piece.len()
            &&& agrees(buf + piece, packed.1)
        }),
{
    let packed = compress_name(record.name, buf.len() as int, table);
    let tail = record_tail(record);
    let piece = packed.0 + tail;
    let whole = buf + piece + behind;
    let p = buf.len() as int + packed.0.len() as int;
    lemma_plain_record_len(record);
    assert(whole =~= buf + packed.0 + (tail + behind));
    lemma_decode_compressed(buf, record.name, table, tail + behind);
    assert(agrees(buf + piece, packed.1)) by {
        lemma_decode_compressed(buf, record.name, table, tail);
        assert(buf + piece =~= buf + packed.0 + tail);
    }
    assert(whole.subrange(p, p + 2) =~= u16_octets(record.rtype as int));
    assert(whole.subrange(p + 2, p + 4) =~= u16_octets(record.class as int));
    assert(whole.subrange(p + 4, p + 8) =~= u32_octets(record.ttl as int));
    assert(whole.subrange(p + 8, p + 10) =~= u16_octets(record.rdata.len() as int));
    assert(whole.subrange(p + 10, p + 10 + record.rdata.len()) =~= record.rdata);
    lemma_be16_of_octets(whole, p, record.rtype as int);
    lemma_be16_of_octets(whole, p + 2, record.class as int);
    lemma_be32_of_octets(whole, p + 4, record.ttl as int);
    lemma_be16_of_octets(whole, p + 8, record.rdata.len() as int);
}

/// Decoding reads back records that were written with compression, the
/// case of letters in their owner names apart, whatever stands behind them;
/// and the table then agrees with what was written.
pub proof fn lemma_decode_packed_records(
    buf: Seq<u8>,
    records: Seq<RecordView>,
    table: Seq<(Seq<Seq<u8>>, int)>,
    behind: Seq<u8>,
)
    requires
        records_named(records),
        records_fit(records),
        records_short(records),
        agrees(buf, table),
    ensures
        ({
            let packed = packed_records(records, buf.len() as int, table);
            &&& decode_section(buf + packed.0 + behind, buf.len() as int, records.len())
                matches Ok((read, end)) && same_records(read, records) && end == buf.len()
                + packed.0.len()
            &&& agrees(buf + packed.0, packed.1)
        }),
    decreases records.len(),
{
    let packed = packed_records(records, buf.len() as int, table);
    let whole = buf + packed.0 + behind;
    if records.len() == 0 {
        assert(buf + packed.0 =~= buf);
    } else {
        let first = records[0];
        let rest = records.drop_first();
        let name = compress_name(first.name, buf.len() as int, table);
        let piece = name.0 + record_tail(first);
        let begun = buf + piece;
        let more = packed_records(rest, begun.len() as int, name.1);
        lemma_plain_record_len(first);
        assert(packed.0 == piece + more.0);
        assert(whole =~= buf + piece + (more.0 + behind));
        assert(whole =~= begun + more.0 + behind);
        assert(buf + packed.0 =~= begun + more.0);
        lemma_decode_packed_record(buf, first, table, more.0 + behind);
        assert(records_named(rest) && records_fit(rest) && records_short(rest)) by {
            assert forall|i: int| 0 <= i < rest.len() implies valid_name(
                (#[trigger] rest[i]).name,
            ) && rest[i].rdata.len() <= 0xffff && rest[i].name.len()
                <= MAX_COMPRESSION_POINTERS by {
                assert(rest[i] == records[i + 1]);
            }
        }
        lemma_decode_packed_records(begun, rest, name.1, behind);
        let head = decode_record(whole, buf.len() as int).unwrap().0;
        let tail = decode_section(whole, begun.len() as int, rest.len()).unwrap().0;
        let read = seq![head] + tail;
        assert forall|i: int| 0 <= i < read.len() implies same_record(
            #[trigger] read[i],
            records[i],
        ) by {
            if i > 0 {
                assert(read[i] == tail[i - 1]);
                assert(records[i] == rest[i - 1]);
            }
        }
    }
}

/// Whether a section is well formed in its OPT record depends on the types
/// of its records and on which of them the root owns.
pub proof fn lemma_same_records_opt(a: Seq<RecordView>, b: Seq<RecordView>)
    requires
        same_records(a, b),
    ensures
        count_opt(a) == count_opt(b),
        find_opt(a) is Some == find_opt(b) is Some,
        find_opt(a) matches Some(x) ==> x.name.len() == find_opt(b).unwrap().name.len(),
        opt_well_formed(a) == opt_well_formed(b),
    decreases a.len(),
{
    if a.len() > 0 {
        assert(same_record(a[0], b[0]));
        assert(lower_name(a[0].name).len() == lower_name(b[0].name).len());
        assert(same_records(a.drop_first(), b.drop_first())) by {
            assert forall|i: int| 0 <= i < a.drop_first().len() implies same_record(
                #[trigger] a.drop_first()[i],
                b.drop_first()[i],
            ) by {
                assert(same_record(a[i + 1], b[i + 1]));
            }
        }
        lemma_same_records_opt(a.drop_first(), b.drop_first());
    }
}

/// A message that is written with compression and decoded is the same
/// message, the case of letters in the owner names apart: a name that was
/// written as a pointer reads in the case of the name that the pointer
/// names.
pub proof fn lemma_packed_round_trip(envelope: EnvelopeView)
    requires
        envelope_named(envelope),
        check_envelope(envelope) is Ok,
        records_short(envelope.question),
        records_short(envelope.answer),
        records_short(envelope.authority),
        records_short(envelope.additional),
    ensures
        decode_message(packed_message(envelope), false) matches Ok(read) && same_message(
            read,
            envelope,
        ),
{
    let head = header_octets(envelope.header);
    let none = Seq::<(Seq<Seq<u8>>, int)>::empty();
    let q = packed_records(envelope.question, head.len() as int, none);
    let an = packed_records(envelope.answer, (head + q.0).len() as int, q.1);
    let ns = packed_records(envelope.authority, (head + q.0 + an.0).len() as int, an.1);
    let ar = packed_records(envelope.additional, (head + q.0 + an.0 + ns.0).len() as int, ns.1);
    let buf = packed_message(envelope);
    assert(buf == head + q.0 + an.0 + ns.0 + ar.0);
    lemma_joined(head + q.0, an.0, ns.0);
    lemma_joined(head + q.0, an.0 + ns.0, ar.0);
    lemma_joined(head, q.0, an.0 + ns.0 + ar.0);
    lemma_joined(head + q.0 + an.0, ns.0, ar.0);
    lemma_header_round_trip(envelope.header, q.0 + an.0 + ns.0 + ar.0);
    assert(agrees(head, none));
    lemma_decode_packed_records(head, envelope.question, none, an.0 + ns.0 + ar.0);
    lemma_decode_packed_records(head + q.0, envelope.answer, q.1, ns.0 + ar.0);
    lemma_decode_packed_records(head + q.0 + an.0, envelope.authority, an.1, ar.0);
    assert(buf + Seq::<u8>::empty() =~= buf);
    lemma_decode_packed_records(head + q.0 + an.0 + ns.0, envelope.additional, ns.1, Seq::empty());
    let start = HEADER_OCTETS as int;
    let first = decode_section(buf, start, envelope.question.len()).unwrap();
    let second = decode_section(buf, first.1, envelope.answer.len()).unwrap();
    let third = decode_section(buf, second.1, envelope.authority.len()).unwrap();
    let fourth = decode_section(buf, third.1, envelope.additional.len()).unwrap();
    lemma_same_records_opt(fourth.0, envelope.additional);
    lemma_message_of_sections(
        buf,
        first.0,
        second.0,
        third.0,
        fourth.0,
        first.1,
        second.1,
        third.1,
    );
}

/// What `decode_section` accepts has as many records as were asked for, and
/// each can be written again.
pub proof fn lemma_decode_section_sound(buf: Seq<u8>, pos: int, count: nat)
    ensures
        decode_section(buf, pos, count) matches Ok((records, end)) ==> {
            &&& records.len() == count
            &&& records_fit(records)
            &&& records_named(records)
        },
    decreases count,
{
    if count > 0 && pos < buf.len() {
        lemma_decode_record_end(buf, pos);
        if let Ok((record, p)) = decode_record(buf, pos) {
            lemma_decode_section_sound(buf, p, (count - 1) as nat);
            if let Ok((rest, end)) = decode_section(buf, p, (count - 1) as nat) {
                let all = seq![record] + rest;
                assert forall|i: int| 0 <= i < all.len() implies (#[trigger] all[i]).rdata.len()
                    <= 0xffff && valid_name(all[i].name) by {
                    if i > 0 {
                        assert(all[i] == rest[i - 1]);
                    }
                }
            }
        }
    }
}

/// A message that was decoded can be written again.
pub proof fn lemma_decoded_checks(buf: Seq<u8>, strict: bool)
    ensures
        decode_message(buf, strict) matches Ok(envelope) ==> check_envelope(envelope) is Ok
            && envelope_named(envelope),
{
    if buf.len() >= HEADER_OCTETS {
        let header = header_at(buf);
        lemma_decode_section_sound(buf, HEADER_OCTETS as int, header.qdcount as nat);
        if let Ok((question, q_end)) = decode_section(buf, HEADER_OCTETS as int, header.qdcount as nat) {
            lemma_decode_section_sound(buf, q_end, header.ancount as nat);
            if let Ok((answer, an_end)) = decode_section(buf, q_end, header.ancount as nat) {
                lemma_decode_section_sound(buf, an_end, header.nscount as nat);
                if let Ok((authority, ns_end)) = decode_section(buf, an_end, header.nscount as nat) {
                    lemma_decode_section_sound(buf, ns_end, header.arcount as nat);
                }
            }
        }
    }
}

/// The first record of what is left accounts for its share of the octets.
pub proof fn lemma_plain_records_step(records: Seq<RecordView>, i: int)
    requires
        0 <= i < records.len(),
    ensures
        plain_records(records.skip(i)) == plain_record(records[i]) + plain_records(
            records.skip(i + 1),
        ),
{
    assert(records.skip(i).drop_first() =~= records.skip(i + 1));
}

/// Whether the data of every record fits the 16 bits of its length.
pub fn all_fit(records: &Vec<Record>) -> (fit: bool)
    ensures
        fit == records_fit(records_of(records@)),
{
    let mut i: usize = 0;
    while i < records.len()
        invariant
            i <= records.len(),
            forall|k: int| 0 <= k < i ==> (#[trigger] records_of(records@)[k]).rdata.len() <= 0xffff,
        decreases records.len() - i,
    {
        if records[i].rdata.len() > 0xffff {
            assert(records_of(records@)[i as int].rdata.len() > 0xffff);
            return false;
        }
        i = i + 1;
    }
    true
}

/// Copies the first `count` records.
pub fn clone_records(records: &Vec<Record>, count: usize) -> (copy: Vec<Record>)
    requires
        count <= records@.len(),
    ensures
        records_of(copy@) == records_of(records@).take(count as int),
{
    let mut copy: Vec<Record> = Vec::new();
    let mut i: usize = 0;
    while i < count
        invariant
            i <= count <= records@.len(),
            copy@.len() == i,
            forall|k: int| 0 <= k < i ==> (#[trigger] copy@[k])@ == records@[k]@,
        decreases count - i,
    {
        copy.push(records[i].clone());
        i = i + 1;
    }
    assert(records_of(copy@) =~= records_of(records@).take(count as int));
    copy
}

impl Clone for Envelope {
    /// A copy that holds the same.
    fn clone(&self) -> (copy: Envelope)
        ensures
            copy@ == self@,
    {
        let question = clone_records(&self.question, self.question.len());
        let answer = clone_records(&self.answer, self.answer.len());
        let authority = clone_records(&self.authority, self.authority.len());
        let additional = clone_records(&self.additional, self.additional.len());
        proof {
            assert(records_of(self.question@).take(self.question@.len() as int) =~= records_of(
                self.question@,
            ));
            assert(records_of(self.answer@).take(self.answer@.len() as int) =~= records_of(
                self.answer@,
            ));
            assert(records_of(self.authority@).take(self.authority@.len() as int) =~= records_of(
                self.authority@,
            ));
            assert(records_of(self.additional@).take(self.additional@.len() as int)
                =~= records_of(self.additional@));
        }
        Envelope { header: self.header, question, answer, authority, additional }
    }
}

/// Appends the twelve octets of a header. Fails with `BufferTooSmall` exactly
/// if they do not fit; nothing is written then.
fn write_header(w: &mut Writer, header: &Header) -> (r: Result<(), Error>)
    ensures
        final(w).capacity() == old(w).capacity(),
        old(w)@.len() + HEADER_OCTETS <= old(w).capacity() ==> r.is_ok() && final(w)@ == old(w)@
            + header_octets(*header),
        old(w)@.len() + HEADER_OCTETS > old(w).capacity() ==> r == Err::<(), Error>(
            Error::BufferTooSmall,
        ) && final(w)@ == old(w)@,
{
    if !w.fits(HEADER_OCTETS) {
        return Err(Error::BufferTooSmall);
    }
    let _ = w.write_u16(header.id);
    let _ = w.write_u16(header.flags);
    let _ = w.write_u16(header.qdcount);
    let _ = w.write_u16(header.ancount);
    let _ = w.write_u16(header.nscount);
    let _ = w.write_u16(header.arcount);
    assert(w@ =~= old(w)@ + header_octets(*header));
    Ok(())
}

/// Appends what stands behind the name of a record. Fails with
/// `BufferTooSmall` exactly if it does not fit; nothing is written then.
fn write_tail(w: &mut Writer, record: &Record) -> (r: Result<(), Error>)
    requires
        record.rdata@.len() <= 0xffff,
    ensures
        final(w).capacity() == old(w).capacity(),
        old(w)@.len() + record_tail(record@).len() <= old(w).capacity() ==> r.is_ok() && final(w)@ == old(w)@ + record_tail(record@),
        old(w)@.len() + record_tail(record@).len() > old(w).capacity() ==> r == Err::<(), Error>(
            Error::BufferTooSmall,
        ) && final(w)@ == old(w)@,
{
    proof {
        lemma_plain_record_len(record@);
    }
    if !w.fits(RECORD_FIXED_OCTETS + record.rdata.len()) {
        return Err(Error::BufferTooSmall);
    }
    let _ = w.write_u16(record.rtype);
    let _ = w.write_u16(record.class);
    let _ = w.write_u32(record.ttl);
    let _ = w.write_u16(record.rdata.len() as u16);
    let _ = w.write_bytes(record.rdata.as_slice());
    assert(w@ =~= old(w)@ + record_tail(record@));
    Ok(())
}

/// Appends records, their names without compression. Fails with
/// `BufferTooSmall` exactly if they do not fit; nothing is written then.
fn write_plain_records(w: &mut Writer, records: &Vec<Record>) -> (r: Result<(), Error>)
    requires
        records_fit(records_of(records@)),
    ensures
        final(w).capacity() == old(w).capacity(),
        old(w)@.len() + plain_records(records_of(records@)).len() <= old(w).capacity()
            ==> r.is_ok() && final(w)@ == old(w)@ + plain_records(records_of(records@)),
        old(w)@.len() + plain_records(records_of(records@)).len() > old(w).capacity() ==> r
            == Err::<(), Error>(Error::BufferTooSmall) && final(w)@ == old(w)@,
{
    let ghost all = records_of(records@);
    let ghost mut emitted = Seq::<u8>::empty();
    let start = w.position();
    let mut i: usize = 0;
    proof {
        assert(all.skip(0) =~= all);
        assert(emitted + plain_records(all) =~= plain_records(all));
        assert(w@ =~= old(w)@ + emitted);
    }
    while i < records.len()
        invariant
            i <= records.len(),
            all == records_of(records@),
            records_fit(all),
            start == old(w)@.len(),
            w.capacity() == old(w).capacity(),
            w@ == old(w)@ + emitted,
            w@.len() <= w.capacity() || i == 0,
            plain_records(all) == emitted + plain_records(all.skip(i as int)),
        decreases records.len() - i,
    {
        let record = &records[i];
        proof {
            lemma_plain_records_step(all, i as int);
            lemma_plain_record_len(all[i as int]);
            lemma_wire_form_len(all[i as int].name);
        }
        let ghost before = w@;
        match record.name.encode_uncompressed(w) {
            Ok(_) => {},
            Err(e) => {
                w.rewind(start);
                assert(w@ =~= old(w)@);
                return Err(e);
            },
        }
        match write_tail(w, record) {
            Ok(()) => {},
            Err(e) => {
                w.rewind(start);
                assert(w@ =~= old(w)@);
                return Err(e);
            },
        }
        proof {
            let piece = plain_record(all[i as int]);
            assert(w@ =~= before + piece);
            assert(emitted + (piece + plain_records(all.skip(i + 1))) =~= (emitted + piece)
                + plain_records(all.skip(i + 1)));
            emitted = emitted + piece;
            assert(w@ =~= old(w)@ + emitted);
        }
        i = i + 1;
    }
    assert(plain_records(all.skip(i as int)) =~= Seq::<u8>::empty());
    assert(emitted + Seq::<u8>::empty() =~= emitted);
    if !w.fits(0) {
        w.rewind(start);
        assert(w@ =~= old(w)@);
        return Err(Error::BufferTooSmall);
    }
    Ok(())
}

/// Appends records, their names compressed against `table`. Fails with
/// `BufferTooSmall` exactly if they do not fit.
fn write_packed_records(w: &mut Writer, records: &Vec<Record>, table: &mut CompressionTable) -> (r:
    Result<(), Error>)
    requires
        records_fit(records_of(records@)),
        old(table).wf(),
    ensures
        final(table).wf(),
        final(w).capacity() == old(w).capacity(),
        old(w)@.len() + packed_records(
            records_of(records@),
            old(w)@.len() as int,
            old(table)@,
        ).0.len() <= old(w).capacity() ==> {
            &&& r.is_ok()
            &&& final(w)@ == old(w)@ + packed_records(
                records_of(records@),
                old(w)@.len() as int,
                old(table)@,
            ).0
            &&& final(table)@ == packed_records(
                records_of(records@),
                old(w)@.len() as int,
                old(table)@,
            ).1
        },
        old(w)@.len() + packed_records(
            records_of(records@),
            old(w)@.len() as int,
            old(table)@,
        ).0.len() > old(w).capacity() ==> r == Err::<(), Error>(Error::BufferTooSmall),
{
    let ghost all = records_of(records@);
    let ghost goal = packed_records(all, old(w)@.len() as int, old(table)@);
    let ghost mut emitted = Seq::<u8>::empty();
    let mut i: usize = 0;
    proof {
        assert(all.skip(0) =~= all);
        assert(emitted + goal.0 =~= goal.0);
        assert(w@ =~= old(w)@ + emitted);
    }
    while i < records.len()
        invariant
            i <= records.len(),
            all == records_of(records@),
            records_fit(all),
            table.wf(),
            w.capacity() == old(w).capacity(),
            w@ == old(w)@ + emitted,
            w@.len() <= w.capacity() || i == 0,
            goal == packed_records(all, old(w)@.len() as int, old(table)@),
            goal.0 == emitted + packed_records(all.skip(i as int), w@.len() as int, table@).0,
            goal.1 == packed_records(all.skip(i as int), w@.len() as int, table@).1,
        decreases records.len() - i,
    {
        let record = &records[i];
        let ghost rest = all.skip(i as int);
        let ghost at = w@.len() as int;
        let ghost name = compress_name(rest[0].name, at, table@);
        proof {
            assert(rest[0] == all[i as int]);
            assert(rest.drop_first() =~= all.skip(i + 1));
            lemma_plain_record_len(all[i as int]);
        }
        let ghost before = w@;
        match record.name.encode(w, table) {
            Ok(_) => {},
            Err(e) => {
                return Err(e);
            },
        }
        match write_tail(w, record) {
            Ok(()) => {},
            Err(e) => {
                return Err(e);
            },
        }
        proof {
            let piece = name.0 + record_tail(all[i as int]);
            assert(w@ =~= before + piece);
            let more = packed_records(all.skip(i + 1), w@.len() as int, table@).0;
            assert(emitted + (piece + more) =~= (emitted + piece) + more);
            emitted = emitted + piece;
            assert(w@ =~= old(w)@ + emitted);
        }
        i = i + 1;
    }
    assert(all.skip(i as int) =~= Seq::<RecordView>::empty());
    assert(emitted + Seq::<u8>::empty() =~= emitted);
    if !w.fits(0) {
        return Err(Error::BufferTooSmall);
    }
    Ok(())
}

impl Envelope {
    /// Whether the message can be written, and why not: see
    /// `check_envelope`.
    pub fn check(&self) -> (r: Result<(), Error>)
        ensures
            r == check_envelope(self@),
    {
        if self.question.len() != self.header.qdcount as usize || self.answer.len()
            != self.header.ancount as usize || self.authority.len()
            != self.header.nscount as usize || self.additional.len()
            != self.header.arcount as usize {
            return Err(Error::BadRrset);
        }
        if !all_fit(&self.question) || !all_fit(&self.answer) || !all_fit(&self.authority)
            || !all_fit(&self.additional) {
            return Err(Error::BadRdata);
        }
        if !check_opt(&self.additional) {
            return Err(Error::BadExtendedRcode);
        }
        Ok(())
    }

    /// Writes the message into a buffer of `capacity` octets, its owner
    /// names compressed: see `packed_message`. A message that cannot be
    /// written fails as `check_envelope` says; one that does not fit fails
    /// with `BufferTooSmall`.
    pub fn encode(&self, capacity: usize) -> (r: Result<Vec<u8>, Error>)
        ensures
            match check_envelope(self@) {
                Err(e) => r == Err::<Vec<u8>, Error>(e),
                Ok(_) => if packed_message(self@).len() <= capacity {
                    r matches Ok(octets) && octets@ == packed_message(self@)
                } else {
                    r == Err::<Vec<u8>, Error>(Error::BufferTooSmall)
                },
            },
    {
        match self.check() {
            Ok(()) => {},
            Err(e) => {
                return Err(e);
            },
        }
        let mut w = Writer::new(capacity);
        let mut table = CompressionTable::new();
        match write_header(&mut w, &self.header) {
            Ok(()) => {},
            Err(e) => {
                return Err(e);
            },
        }
        match write_packed_records(&mut w, &self.question, &mut table) {
            Ok(()) => {},
            Err(e) => {
                return Err(e);
            },
        }
        match write_packed_records(&mut w, &self.answer, &mut table) {
            Ok(()) => {},
            Err(e) => {
                return Err(e);
            },
        }
        match write_packed_records(&mut w, &self.authority, &mut table) {
            Ok(()) => {},
            Err(e) => {
                return Err(e);
            },
        }
        match write_packed_records(&mut w, &self.additional, &mut table) {
            Ok(()) => {},
            Err(e) => {
                return Err(e);
            },
        }
        Ok(w.into_bytes())
    }

    /// Writes the message into a buffer of `capacity` octets without
    /// compression: see `plain_message`. A message that cannot be written
    /// fails as `check_envelope` says; one that does not fit fails with
    /// `BufferTooSmall`.
    pub fn encode_uncompressed(&self, capacity: usize) -> (r: Result<Vec<u8>, Error>)
        ensures
            match check_envelope(self@) {
                Err(e) => r == Err::<Vec<u8>, Error>(e),
                Ok(_) => if plain_message(self@).len() <= capacity {
                    r matches Ok(octets) && octets@ == plain_message(self@)
                } else {
                    r == Err::<Vec<u8>, Error>(Error::BufferTooSmall)
                },
            },
    {
        match self.check() {
            Ok(()) => {},
            Err(e) => {
                return Err(e);
            },
        }
        let mut w = Writer::new(capacity);
        match write_header(&mut w, &self.header) {
            Ok(()) => {},
            Err(e) => {
                return Err(e);
            },
        }
        match write_plain_records(&mut w, &self.question) {
            Ok(()) => {},
            Err(e) => {
                return Err(e);
            },
        }
        match write_plain_records(&mut w, &self.answer) {
            Ok(()) => {},
            Err(e) => {
                return Err(e);
            },
        }
        match write_plain_records(&mut w, &self.authority) {
            Ok(()) => {},
            Err(e) => {
                return Err(e);
            },
        }
        match write_plain_records(&mut w, &self.additional) {
            Ok(()) => {},
            Err(e) => {
                return Err(e);
            },
        }
        Ok(w.into_bytes())
    }
}

/// The canonical form of a message: every compressed name expanded, all
/// else as it was. It depends on what the message holds, not on how its
/// names were compressed.
///
/// Fails as decoding does, and with `BufferTooSmall` where the canonical
/// form exceeds `capacity` octets.
pub fn canonicalize(message: &[u8], capacity: usize) -> (r: Result<Vec<u8>, Error>)
    ensures
        match decode_message(message@, false) {
            Err(e) => r == Err::<Vec<u8>, Error>(e),
            Ok(envelope) => if plain_message(envelope).len() <= capacity {
                r matches Ok(octets) && octets@ == plain_message(envelope)
            } else {
                r == Err::<Vec<u8>, Error>(Error::BufferTooSmall)
            },
        },
{
    proof {
        lemma_decoded_checks(message@, false);
    }
    match Envelope::decode(message) {
        Ok(envelope) => envelope.encode_uncompressed(capacity),
        Err(e) => Err(e),
    }
}

} // verus!
