//! Domain names: their wire format with compression, and case-insensitive
//! comparison.
//!
//! A name is a sequence of labels, the label next to the root last. On the
//! wire each label is preceded by its length; the root, a zero octet, ends
//! the name. A length octet whose two top bits are set is, with the octet
//! behind it, a pointer to the offset where the rest of the name stands.

use vstd::prelude::*;
use vstd::slice::slice_subrange;
use vstd::slice::slice_to_vec;
use vstd::std_specs::cmp::PartialEqSpecImpl;
use crate::cursor::Writer;
use crate::error::Error;
use crate::msg::MAX_COMPRESSION_POINTERS;
use crate::msg::MAX_DOMAIN_NAME_WIRE_OCTETS;
use crate::msg::MAX_LABEL_OCTETS;

verus! {

/// The number of octets that `labels` take in wire format without
/// compression, the root included.
pub open spec fn wire_len(labels: Seq<Seq<u8>>) -> nat
    decreases labels.len(),
{
    if labels.len() == 0 {
        1
    } else {
        1 + labels[0].len() + wire_len(labels.drop_first())
    }
}

/// The wire format of `labels` without compression.
pub open spec fn wire_form(labels: Seq<Seq<u8>>) -> Seq<u8>
    decreases labels.len(),
{
    if labels.len() == 0 {
        seq![0u8]
    } else {
        seq![labels[0].len() as u8] + labels[0] + wire_form(labels.drop_first())
    }
}

/// Whether `labels` are a domain name: every label has 1 to 63 octets, and
/// the wire format at most 255.
pub open spec fn valid_name(labels: Seq<Seq<u8>>) -> bool {
    &&& forall|i: int| 0 <= i < labels.len() ==> 1 <= #[trigger] labels[i].len() <= MAX_LABEL_OCTETS
    &&& wire_len(labels) <= MAX_DOMAIN_NAME_WIRE_OCTETS
}

/// The octet with an upper-case ASCII letter turned into lower case.
pub open spec fn lower_octet(b: u8) -> u8 {
    if 0x41 <= b <= 0x5a {
        (b + 0x20) as u8
    } else {
        b
    }
}

/// The label in lower case.
pub open spec fn lower_label(label: Seq<u8>) -> Seq<u8> {
    Seq::new(label.len(), |i: int| lower_octet(label[i]))
}

/// The name in lower case: its canonical form.
pub open spec fn lower_name(labels: Seq<Seq<u8>>) -> Seq<Seq<u8>> {
    Seq::new(labels.len(), |i: int| lower_label(labels[i]))
}

/// Whether two names are equal when the case of ASCII letters is ignored.
pub open spec fn same_name(a: Seq<Seq<u8>>, b: Seq<Seq<u8>>) -> bool {
    lower_name(a) == lower_name(b)
}

/// Whether `ancestor` is `name` or one of the names above it.
pub open spec fn at_or_above(ancestor: Seq<Seq<u8>>, name: Seq<Seq<u8>>) -> bool {
    &&& ancestor.len() <= name.len()
    &&& same_name(name.skip(name.len() - ancestor.len()), ancestor)
}

/// What decoding finds at `pos` in `buf`, after `hops` pointers were followed
/// and `used` octets of the expanded name were read: the labels from `pos`
/// on, and the offset behind the name where it began.
///
/// A length octet of zero is the root and ends the name. One below 64 is the
/// length of a label that follows. One of 192 or more is, with its low six
/// bits and the next octet, a pointer, which must point before itself. The
/// others are reserved.
pub open spec fn decode_at(buf: Seq<u8>, pos: int, hops: int, used: int) -> Result<
    (Seq<Seq<u8>>, int),
    Error,
>
    decreases MAX_COMPRESSION_POINTERS - hops, buf.len() - pos,
{
    if pos < 0 || pos >= buf.len() {
        Err(Error::ShortRead)
    } else {
        let b = buf[pos] as int;
        if b == 0 {
            Ok((Seq::empty(), pos + 1))
        } else if b < 0x40 {
            if pos + 1 + b > buf.len() {
                Err(Error::ShortRead)
            } else if used + 1 + b >= MAX_DOMAIN_NAME_WIRE_OCTETS {
                Err(Error::LongDomain)
            } else {
                match decode_at(buf, pos + 1 + b, hops, used + 1 + b) {
                    Ok((rest, end)) => Ok((seq![buf.subrange(pos + 1, pos + 1 + b)] + rest, end)),
                    Err(e) => Err(e),
                }
            }
        } else if b >= 0xc0 {
            if pos + 1 >= buf.len() {
                Err(Error::ShortRead)
            } else {
                let target = (b - 0xc0) * 0x100 + buf[pos + 1] as int;
                if target >= pos {
                    Err(Error::BadRdata)
                } else if hops >= MAX_COMPRESSION_POINTERS {
                    Err(Error::LongDomain)
                } else {
                    match decode_at(buf, target, hops + 1, used) {
                        Ok((rest, _)) => Ok((rest, pos + 2)),
                        Err(e) => Err(e),
                    }
                }
            }
        } else {
            Err(Error::BadRdata)
        }
    }
}

/// The name that stands at `offset` in `buf`, and the offset behind it.
pub open spec fn decode_name(buf: Seq<u8>, offset: int) -> Result<(Seq<Seq<u8>>, int), Error> {
    decode_at(buf, offset, 0, 0)
}

/// What `decode_at` accepts is a domain name, and it ends inside the buffer.
pub proof fn lemma_decode_at_valid(buf: Seq<u8>, pos: int, hops: int, used: int)
    requires
        0 <= used < MAX_DOMAIN_NAME_WIRE_OCTETS,
    ensures
        decode_at(buf, pos, hops, used) matches Ok((labels, end)) ==> {
            &&& forall|i: int|
                0 <= i < labels.len() ==> 1 <= #[trigger] labels[i].len() <= MAX_LABEL_OCTETS
            &&& used + wire_len(labels) <= MAX_DOMAIN_NAME_WIRE_OCTETS
            &&& pos < end <= buf.len()
        },
    decreases MAX_COMPRESSION_POINTERS - hops, buf.len() - pos,
{
    if 0 <= pos < buf.len() {
        let b = buf[pos] as int;
        if 0 < b < 0x40 && pos + 1 + b <= buf.len() && used + 1 + b < MAX_DOMAIN_NAME_WIRE_OCTETS {
            lemma_decode_at_valid(buf, pos + 1 + b, hops, used + 1 + b);
            match decode_at(buf, pos + 1 + b, hops, used + 1 + b) {
                Ok((rest, end)) => {
                    let all = seq![buf.subrange(pos + 1, pos + 1 + b)] + rest;
                    assert(all.drop_first() =~= rest);
                    assert forall|i: int| 0 <= i < all.len() implies 1 <= #[trigger] all[i].len()
                        <= MAX_LABEL_OCTETS by {
                        if i > 0 {
                            assert(all[i] == rest[i - 1]);
                        }
                    }
                },
                Err(_) => {},
            }
        } else if b >= 0xc0 && pos + 1 < buf.len() {
            let target = (b - 0xc0) * 0x100 + buf[pos + 1] as int;
            if target < pos && hops < MAX_COMPRESSION_POINTERS {
                lemma_decode_at_valid(buf, target, hops + 1, used);
            }
        }
    }
}

/// What decoding accepts is a domain name.
pub proof fn lemma_decode_name_valid(buf: Seq<u8>, offset: int)
    ensures
        decode_name(buf, offset) matches Ok((labels, end)) ==> valid_name(labels) && offset < end
            <= buf.len(),
{
    lemma_decode_at_valid(buf, offset, 0, 0);
}

/// Whether a decoding that stands at `start`, with `hops0` pointers followed
/// and `used0` octets read, comes to stand at `pos` with `hops` and `used`.
pub open spec fn arrives(
    buf: Seq<u8>,
    start: int,
    hops0: int,
    used0: int,
    pos: int,
    hops: int,
    used: int,
) -> bool
    decreases MAX_COMPRESSION_POINTERS - hops0, buf.len() - start,
{
    ||| (start == pos && hops0 == hops && used0 == used)
    ||| {
        &&& 0 <= start < buf.len()
        &&& {
            let b = buf[start] as int;
            if 0 < b < 0x40 {
                &&& start + 1 + b <= buf.len()
                &&& used0 + 1 + b < MAX_DOMAIN_NAME_WIRE_OCTETS
                &&& arrives(buf, start + 1 + b, hops0, used0 + 1 + b, pos, hops, used)
            } else if b >= 0xc0 {
                &&& start + 1 < buf.len()
                &&& pointer_target(buf, start) < start
                &&& hops0 < MAX_COMPRESSION_POINTERS
                &&& arrives(buf, pointer_target(buf, start), hops0 + 1, used0, pos, hops, used)
            } else {
                false
            }
        }
    }
}

/// The offset that the pointer at `pos` names.
pub open spec fn pointer_target(buf: Seq<u8>, pos: int) -> int {
    (buf[pos] as int - 0xc0) * 0x100 + buf[pos + 1] as int
}

/// Whether a whole compression pointer stands at `pos`.
pub open spec fn pointer_at(buf: Seq<u8>, pos: int) -> bool {
    0 <= pos && pos + 1 < buf.len() && buf[pos] >= 0xc0
}

/// A failure at a place that the decoding comes to is the failure of the
/// whole decoding.
pub proof fn lemma_failure_carries(
    buf: Seq<u8>,
    start: int,
    hops0: int,
    used0: int,
    pos: int,
    hops: int,
    used: int,
)
    requires
        arrives(buf, start, hops0, used0, pos, hops, used),
        decode_at(buf, pos, hops, used) is Err,
    ensures
        decode_at(buf, start, hops0, used0) == decode_at(buf, pos, hops, used),
    decreases MAX_COMPRESSION_POINTERS - hops0, buf.len() - start,
{
    if !(start == pos && hops0 == hops && used0 == used) {
        let b = buf[start] as int;
        if 0 < b < 0x40 {
            lemma_failure_carries(buf, start + 1 + b, hops0, used0 + 1 + b, pos, hops, used);
        } else {
            lemma_failure_carries(
                buf,
                pointer_target(buf, start),
                hops0 + 1,
                used0,
                pos,
                hops,
                used,
            );
        }
    }
}

/// A pointer that names its own offset or a later one makes the decoding fail
/// with `BadRdata`, wherever in the name it stands and whatever the buffer
/// holds.
pub proof fn lemma_forward_pointer_rejected(
    buf: Seq<u8>,
    offset: int,
    pos: int,
    hops: int,
    used: int,
)
    requires
        arrives(buf, offset, 0, 0, pos, hops, used),
        pointer_at(buf, pos),
        pointer_target(buf, pos) >= pos,
    ensures
        decode_name(buf, offset) == Err::<(Seq<Seq<u8>>, int), Error>(Error::BadRdata),
{
    lemma_failure_carries(buf, offset, 0, 0, pos, hops, used);
}

/// A name that needs more pointers than the limit allows makes the decoding
/// fail with `LongDomain`: so it ends where it comes to a pointer after it
/// has followed 126.
pub proof fn lemma_pointer_limit(buf: Seq<u8>, offset: int, pos: int, hops: int, used: int)
    requires
        arrives(buf, offset, 0, 0, pos, hops, used),
        pointer_at(buf, pos),
        pointer_target(buf, pos) < pos,
        hops >= MAX_COMPRESSION_POINTERS,
    ensures
        decode_name(buf, offset) == Err::<(Seq<Seq<u8>>, int), Error>(Error::LongDomain),
{
    lemma_failure_carries(buf, offset, 0, 0, pos, hops, used);
}

/// A length octet whose two top bits are `01` or `10` makes the decoding fail
/// with `BadRdata`.
pub proof fn lemma_reserved_length_rejected(
    buf: Seq<u8>,
    offset: int,
    pos: int,
    hops: int,
    used: int,
)
    requires
        arrives(buf, offset, 0, 0, pos, hops, used),
        0 <= pos < buf.len(),
        0x40 <= buf[pos] < 0xc0,
    ensures
        decode_name(buf, offset) == Err::<(Seq<Seq<u8>>, int), Error>(Error::BadRdata),
{
    lemma_failure_carries(buf, offset, 0, 0, pos, hops, used);
}

/// The wire format has the length that `wire_len` gives.
pub proof fn lemma_wire_form_len(labels: Seq<Seq<u8>>)
    ensures
        wire_form(labels).len() == wire_len(labels),
    decreases labels.len(),
{
    if labels.len() > 0 {
        lemma_wire_form_len(labels.drop_first());
    }
}

/// Decoding reads back a name that was written without compression,
/// whatever stands before and behind it.
pub proof fn lemma_decode_wire_form(
    before: Seq<u8>,
    labels: Seq<Seq<u8>>,
    behind: Seq<u8>,
    hops: int,
    used: int,
)
    requires
        forall|i: int| 0 <= i < labels.len() ==> 1 <= #[trigger] labels[i].len() <= MAX_LABEL_OCTETS,
        0 <= used,
        used + wire_len(labels) <= MAX_DOMAIN_NAME_WIRE_OCTETS,
    ensures
        decode_at(before + wire_form(labels) + behind, before.len() as int, hops, used) == Ok::<
            (Seq<Seq<u8>>, int),
            Error,
        >((labels, before.len() as int + wire_len(labels) as int)),
    decreases labels.len(),
{
    let buf = before + wire_form(labels) + behind;
    let pos = before.len() as int;
    lemma_wire_form_len(labels);
    assert(buf[pos] == wire_form(labels)[0]);
    if labels.len() > 0 {
        let first = labels[0];
        let rest = labels.drop_first();
        let n = first.len() as int;
        let head = before + seq![n as u8] + first;
        lemma_wire_form_len(rest);
        assert(buf =~= head + wire_form(rest) + behind);
        assert(buf.subrange(pos + 1, pos + 1 + n) =~= first);
        assert forall|i: int| 0 <= i < rest.len() implies 1 <= #[trigger] rest[i].len()
            <= MAX_LABEL_OCTETS by {
            assert(rest[i] == labels[i + 1]);
        }
        lemma_decode_wire_form(head, rest, behind, hops, used + 1 + n);
        assert(seq![first] + rest =~= labels);
    } else {
        assert(labels =~= Seq::<Seq<u8>>::empty());
    }
}

/// The first label of what is left of a name accounts for its share of the
/// wire length.
pub proof fn lemma_wire_len_step(labels: Seq<Seq<u8>>, i: int)
    requires
        0 <= i < labels.len(),
    ensures
        wire_len(labels.skip(i)) == 1 + labels[i].len() + wire_len(labels.skip(i + 1)),
        wire_form(labels.skip(i)) == seq![labels[i].len() as u8] + labels[i] + wire_form(
            labels.skip(i + 1),
        ),
{
    assert(labels.skip(i).drop_first() =~= labels.skip(i + 1));
}

/// Lower case changes no length.
pub proof fn lemma_lower_name_valid(labels: Seq<Seq<u8>>)
    ensures
        wire_len(lower_name(labels)) == wire_len(labels),
        valid_name(labels) ==> valid_name(lower_name(labels)),
    decreases labels.len(),
{
    if labels.len() > 0 {
        assert(lower_name(labels).drop_first() =~= lower_name(labels.drop_first()));
        lemma_lower_name_valid(labels.drop_first());
    }
}

/// Whether `labels` may become a domain name, and why not: `BadRdata` where
/// a label is empty or longer than 63 octets, else `LongDomain` where the wire
/// format exceeds 255 octets.
pub open spec fn check_labels(labels: Seq<Seq<u8>>) -> Result<(), Error> {
    if exists|i: int| 0 <= i < labels.len() && !(1 <= #[trigger] labels[i].len() <= MAX_LABEL_OCTETS) {
        Err(Error::BadRdata)
    } else if wire_len(labels) > MAX_DOMAIN_NAME_WIRE_OCTETS {
        Err(Error::LongDomain)
    } else {
        Ok(())
    }
}

/// The labels of a `Vec` of labels.
pub open spec fn labels_of(v: Seq<Vec<u8>>) -> Seq<Seq<u8>> {
    Seq::new(v.len(), |i: int| v[i]@)
}

/// The result of a decoding that has read `done` and goes on with `rest`.
spec fn resumed(done: Seq<Seq<u8>>, first_end: Option<usize>, rest: Result<
    (Seq<Seq<u8>>, int),
    Error,
>) -> Result<(Seq<Seq<u8>>, int), Error> {
    match rest {
        Ok((labels, end)) => Ok(
            (
                done + labels,
                match first_end {
                    Some(e) => e as int,
                    None => end,
                },
            ),
        ),
        Err(e) => Err(e),
    }
}

/// A domain name: a sequence of labels of 1 to 63 octets each, at most 255
/// octets in wire format. The case of its octets is kept; comparison ignores
/// it.
#[derive(Debug)]
pub struct DomainName {
    labels: Vec<Vec<u8>>,
}

impl View for DomainName {
    type V = Seq<Seq<u8>>;

    /// The labels, the one next to the root last.
    closed spec fn view(&self) -> Seq<Seq<u8>> {
        labels_of(self.labels@)
    }
}

impl DomainName {
    /// Every value of the type is a domain name.
    #[verifier::type_invariant]
    pub open spec fn is_valid(&self) -> bool {
        valid_name(self@)
    }

    /// The root: the name without labels.
    pub fn root() -> (name: DomainName)
        ensures
            name@ == Seq::<Seq<u8>>::empty(),
    {
        let labels: Vec<Vec<u8>> = Vec::new();
        assert(labels_of(labels@) =~= Seq::<Seq<u8>>::empty());
        DomainName { labels }
    }

    /// The number of labels.
    pub fn label_count(&self) -> (n: usize)
        ensures
            n == self@.len(),
    {
        self.labels.len()
    }

    /// The label at `index`, counted from the one farthest from the root.
    pub fn label(&self, index: usize) -> (l: &[u8])
        requires
            index < self@.len(),
        ensures
            l@ == self@[index as int],
    {
        self.labels[index].as_slice()
    }

    /// Makes a name of `labels`, if they are one: see `check_labels`.
    pub fn from_labels(labels: Vec<Vec<u8>>) -> (r: Result<DomainName, Error>)
        ensures
            match r {
                Ok(name) => name@ == labels_of(labels@) && check_labels(labels_of(labels@)) is Ok,
                Err(e) => check_labels(labels_of(labels@)) == Err::<(), Error>(e),
            },
    {
        let ghost all = labels_of(labels@);
        let mut i: usize = 0;
        while i < labels.len()
            invariant
                i <= labels.len(),
                all == labels_of(labels@),
                forall|k: int| 0 <= k < i ==> 1 <= #[trigger] all[k].len() <= MAX_LABEL_OCTETS,
            decreases labels.len() - i,
        {
            let n = labels[i].len();
            if n < 1 || n > MAX_LABEL_OCTETS {
                assert(!(1 <= all[i as int].len() <= MAX_LABEL_OCTETS));
                return Err(Error::BadRdata);
            }
            i = i + 1;
        }
        let mut total: usize = 0;
        let mut j: usize = 0;
        assert(all.skip(0) =~= all);
        while j < labels.len()
            invariant
                j <= labels.len(),
                all == labels_of(labels@),
                forall|k: int| 0 <= k < all.len() ==> 1 <= #[trigger] all[k].len() <= MAX_LABEL_OCTETS,
                total < MAX_DOMAIN_NAME_WIRE_OCTETS,
                wire_len(all) == total + wire_len(all.skip(j as int)),
            decreases labels.len() - j,
        {
            proof {
                lemma_wire_len_step(all, j as int);
            }
            total = total + 1 + labels[j].len();
            if total >= MAX_DOMAIN_NAME_WIRE_OCTETS {
                return Err(Error::LongDomain);
            }
            j = j + 1;
        }
        assert(all.skip(j as int) =~= Seq::<Seq<u8>>::empty());
        Ok(DomainName { labels })
    }

    /// The number of octets of the name in wire format without compression.
    pub fn wire_length(&self) -> (n: usize)
        ensures
            n == wire_len(self@),
            n <= MAX_DOMAIN_NAME_WIRE_OCTETS,
    {
        proof {
            use_type_invariant(self);
        }
        let ghost all = self@;
        let mut total: usize = 0;
        let mut j: usize = 0;
        assert(all.skip(0) =~= all);
        while j < self.labels.len()
            invariant
                j <= self.labels.len(),
                all == labels_of(self.labels@),
                valid_name(all),
                wire_len(all) == total + wire_len(all.skip(j as int)),
            decreases self.labels.len() - j,
        {
            proof {
                lemma_wire_len_step(all, j as int);
            }
            total = total + 1 + self.labels[j].len();
            j = j + 1;
        }
        assert(all.skip(j as int) =~= Seq::<Seq<u8>>::empty());
        total + 1
    }

    /// The name in wire format without compression.
    pub fn to_wire(&self) -> (out: Vec<u8>)
        ensures
            out@ == wire_form(self@),
            out@.len() == wire_len(self@),
            out@.len() <= MAX_DOMAIN_NAME_WIRE_OCTETS,
    {
        proof {
            use_type_invariant(self);
            lemma_wire_form_len(self@);
        }
        let ghost all = self@;
        let mut out: Vec<u8> = Vec::new();
        let mut j: usize = 0;
        assert(all.skip(0) =~= all);
        assert(out@ + wire_form(all) =~= wire_form(all));
        while j < self.labels.len()
            invariant
                j <= self.labels.len(),
                all == labels_of(self.labels@),
                valid_name(all),
                wire_form(all) == out@ + wire_form(all.skip(j as int)),
            decreases self.labels.len() - j,
        {
            proof {
                lemma_wire_len_step(all, j as int);
            }
            let ghost before = out@;
            let label = &self.labels[j];
            out.push(label.len() as u8);
            out.extend_from_slice(label.as_slice());
            assert(out@ =~= before + seq![all[j as int].len() as u8] + all[j as int]);
            j = j + 1;
        }
        assert(all.skip(j as int) =~= Seq::<Seq<u8>>::empty());
        out.push(0u8);
        out
    }

    /// The name in lower case: its canonical form.
    pub fn to_lowercase(&self) -> (low: DomainName)
        ensures
            low@ == lower_name(self@),
    {
        proof {
            use_type_invariant(self);
            lemma_lower_name_valid(self@);
        }
        let mut labels: Vec<Vec<u8>> = Vec::new();
        let mut j: usize = 0;
        while j < self.labels.len()
            invariant
                j <= self.labels.len(),
                labels@.len() == j,
                forall|k: int| 0 <= k < j ==> (#[trigger] labels@[k])@ == lower_label(self.labels@[k]@),
            decreases self.labels.len() - j,
        {
            labels.push(lower_bytes(self.labels[j].as_slice()));
            j = j + 1;
        }
        assert(labels_of(labels@) =~= lower_name(labels_of(self.labels@)));
        DomainName { labels }
    }

    /// Whether the two names are equal when the case of ASCII letters is
    /// ignored.
    pub fn eq_ignore_case(&self, other: &DomainName) -> (b: bool)
        ensures
            b == same_name(self@, other@),
    {
        if self.labels.len() != other.labels.len() {
            assert(lower_name(self@).len() != lower_name(other@).len());
            return false;
        }
        let mut j: usize = 0;
        while j < self.labels.len()
            invariant
                j <= self.labels.len(),
                self.labels.len() == other.labels.len(),
                forall|k: int|
                    0 <= k < j ==> lower_label(#[trigger] self@[k]) == lower_label(other@[k]),
            decreases self.labels.len() - j,
        {
            if !same_label(self.labels[j].as_slice(), other.labels[j].as_slice()) {
                assert(lower_name(self@)[j as int] != lower_name(other@)[j as int]);
                return false;
            }
            j = j + 1;
        }
        assert(lower_name(self@) =~= lower_name(other@));
        true
    }

    /// Whether this name is `name` or one of the names above it, the case of
    /// ASCII letters ignored.
    pub fn is_at_or_above(&self, name: &DomainName) -> (b: bool)
        ensures
            b == at_or_above(self@, name@),
    {
        if self.labels.len() > name.labels.len() {
            return false;
        }
        let skip: usize = name.labels.len() - self.labels.len();
        let ghost tail = name@.skip(skip as int);
        let mut j: usize = 0;
        while j < self.labels.len()
            invariant
                j <= self.labels.len(),
                skip + self.labels.len() == name.labels.len(),
                tail == name@.skip(skip as int),
                forall|k: int| 0 <= k < j ==> lower_label(#[trigger] self@[k]) == lower_label(tail[k]),
            decreases self.labels.len() - j,
        {
            if !same_label(self.labels[j].as_slice(), name.labels[skip + j].as_slice()) {
                assert(lower_name(self@)[j as int] != lower_name(tail)[j as int]);
                return false;
            }
            j = j + 1;
        }
        assert(lower_name(tail) =~= lower_name(self@));
        true
    }

    /// Appends the name in wire format without compression and gives the
    /// offset behind it. Fails with `BufferTooSmall` exactly if the name does
    /// not fit; nothing is written then.
    pub fn encode_uncompressed(&self, w: &mut Writer) -> (r: Result<usize, Error>)
        ensures
            final(w).capacity() == old(w).capacity(),
            old(w)@.len() + wire_len(self@) <= old(w).capacity() ==> final(w)@ == old(w)@
                + wire_form(self@) && r == Ok::<usize, Error>(final(w)@.len() as usize),
            old(w)@.len() + wire_len(self@) > old(w).capacity() ==> final(w)@ == old(w)@ && r
                == Err::<usize, Error>(Error::BufferTooSmall),
    {
        let wire = self.to_wire();
        match w.write_bytes(wire.as_slice()) {
            Ok(()) => Ok(w.position()),
            Err(e) => Err(e),
        }
    }

    /// Decodes the name that stands at `offset` in `buf`, following
    /// compression pointers, and gives the offset behind the name where it
    /// began.
    ///
    /// Fails with `ShortRead` where the buffer ends inside the name, with
    /// `BadRdata` on a reserved length octet or a pointer that does not point
    /// before itself, and with `LongDomain` where the expanded name exceeds
    /// 255 octets or needs more than 126 pointers.
    pub fn decode(buf: &[u8], offset: usize) -> (r: Result<(DomainName, usize), Error>)
        ensures
            match r {
                Ok((name, end)) => decode_name(buf@, offset as int) == Ok::<
                    (Seq<Seq<u8>>, int),
                    Error,
                >((name@, end as int)),
                Err(e) => decode_name(buf@, offset as int) == Err::<(Seq<Seq<u8>>, int), Error>(e),
            },
    {
        let mut labels: Vec<Vec<u8>> = Vec::new();
        let mut pos: usize = offset;
        let mut hops: usize = 0;
        let mut used: usize = 0;
        let mut first_end: Option<usize> = None;
        assert(labels_of(labels@) + Seq::<Seq<u8>>::empty() =~= Seq::<Seq<u8>>::empty());
        loop
            invariant
                hops <= MAX_COMPRESSION_POINTERS,
                used < MAX_DOMAIN_NAME_WIRE_OCTETS,
                decode_name(buf@, offset as int) == resumed(
                    labels_of(labels@),
                    first_end,
                    decode_at(buf@, pos as int, hops as int, used as int),
                ),
            decreases MAX_COMPRESSION_POINTERS - hops, buf@.len() - pos,
        {
            if pos >= buf.len() {
                return Err(Error::ShortRead);
            }
            let b: u8 = buf[pos];
            if b == 0 {
                let end: usize = match first_end {
                    Some(e) => e,
                    None => pos + 1,
                };
                proof {
                    assert(labels_of(labels@) + Seq::<Seq<u8>>::empty() =~= labels_of(labels@));
                    lemma_decode_name_valid(buf@, offset as int);
                }
                return Ok((DomainName { labels }, end));
            } else if b < 0x40 {
                let n: usize = b as usize;
                if buf.len() - pos - 1 < n {
                    return Err(Error::ShortRead);
                }
                if used + 1 + n >= MAX_DOMAIN_NAME_WIRE_OCTETS {
                    return Err(Error::LongDomain);
                }
                let label = slice_to_vec(slice_subrange(buf, pos + 1, pos + 1 + n));
                proof {
                    let rest = decode_at(buf@, pos + 1 + n, hops as int, used + 1 + n);
                    if let Ok((more, end)) = rest {
                        assert(labels_of(labels@.push(label)) + more =~= labels_of(labels@) + (
                        seq![buf@.subrange(pos + 1, pos + 1 + n)] + more));
                    }
                }
                labels.push(label);
                used = used + 1 + n;
                pos = pos + 1 + n;
            } else if b >= 0xc0 {
                if buf.len() - pos < 2 {
                    return Err(Error::ShortRead);
                }
                let target: usize = (b - 0xc0) as usize * 0x100 + buf[pos + 1] as usize;
                if target >= pos {
                    return Err(Error::BadRdata);
                }
                if hops >= MAX_COMPRESSION_POINTERS {
                    return Err(Error::LongDomain);
                }
                if first_end.is_none() {
                    first_end = Some(pos + 2);
                }
                hops = hops + 1;
                pos = target;
            } else {
                return Err(Error::BadRdata);
            }
        }
    }
}

impl PartialEq for DomainName {
    /// Names are equal when they are the same but for the case of ASCII
    /// letters.
    fn eq(&self, other: &DomainName) -> (same: bool) {
        self.eq_ignore_case(other)
    }
}

impl PartialEqSpecImpl for DomainName {
    open spec fn obeys_eq_spec() -> bool {
        true
    }

    open spec fn eq_spec(&self, other: &DomainName) -> bool {
        same_name(self@, other@)
    }
}

impl Clone for DomainName {
    /// A copy with the same labels.
    fn clone(&self) -> (copy: DomainName)
        ensures
            copy@ == self@,
    {
        proof {
            use_type_invariant(self);
        }
        let mut labels: Vec<Vec<u8>> = Vec::new();
        let mut j: usize = 0;
        while j < self.labels.len()
            invariant
                j <= self.labels.len(),
                labels@.len() == j,
                forall|k: int| 0 <= k < j ==> (#[trigger] labels@[k])@ == self.labels@[k]@,
            decreases self.labels.len() - j,
        {
            labels.push(slice_to_vec(self.labels[j].as_slice()));
            j = j + 1;
        }
        assert(labels_of(labels@) =~= labels_of(self.labels@));
        DomainName { labels }
    }
}

/// The octet with an upper-case ASCII letter turned into lower case.
pub fn to_lower_octet(b: u8) -> (low: u8)
    ensures
        low == lower_octet(b),
{
    if 0x41 <= b && b <= 0x5a {
        b + 0x20
    } else {
        b
    }
}

/// The octets in lower case.
pub fn lower_bytes(label: &[u8]) -> (low: Vec<u8>)
    ensures
        low@ == lower_label(label@),
{
    let mut low: Vec<u8> = Vec::new();
    let mut i: usize = 0;
    while i < label.len()
        invariant
            i <= label.len(),
            low@.len() == i,
            forall|k: int| 0 <= k < i ==> #[trigger] low@[k] == lower_octet(label@[k]),
        decreases label.len() - i,
    {
        low.push(to_lower_octet(label[i]));
        i = i + 1;
    }
    assert(low@ =~= lower_label(label@));
    low
}

/// Whether two labels are equal when the case of ASCII letters is ignored.
pub fn same_label(a: &[u8], b: &[u8]) -> (same: bool)
    ensures
        same == (lower_label(a@) == lower_label(b@)),
{
    if a.len() != b.len() {
        assert(lower_label(a@).len() != lower_label(b@).len());
        return false;
    }
    let mut i: usize = 0;
    while i < a.len()
        invariant
            i <= a.len(),
            a.len() == b.len(),
            forall|k: int| 0 <= k < i ==> lower_octet(#[trigger] a@[k]) == lower_octet(b@[k]),
        decreases a.len() - i,
    {
        if to_lower_octet(a[i]) != to_lower_octet(b[i]) {
            assert(lower_label(a@)[i as int] != lower_label(b@)[i as int]);
            return false;
        }
        i = i + 1;
    }
    assert(lower_label(a@) =~= lower_label(b@));
    true
}

} // verus!
