//! Domain names as text.
//!
//! In text a name is its labels, each followed by a dot; the root alone is a
//! single dot. A dot, a semicolon or a backslash inside a label is preceded by
//! a backslash. An octet that is not a printable ASCII character is written
//! as a backslash and its value in three decimal digits.

use vstd::prelude::*;
use crate::error::Error;
use crate::msg::MAX_DOMAIN_NAME_PRESENTATION_LENGTH;
use crate::msg::MAX_DOMAIN_NAME_WIRE_OCTETS;
use crate::msg::MAX_LABEL_OCTETS;
use crate::name::DomainName;
use crate::name::check_labels;
use crate::name::labels_of;
use crate::name::valid_name;
use crate::name::wire_len;

verus! {

/// The dot that ends a label.
pub const DOT: u8 = 0x2e;

/// The backslash that begins an escape.
pub const BACKSLASH: u8 = 0x5c;

/// The semicolon, which begins a comment where names are written in files.
pub const SEMICOLON: u8 = 0x3b;

/// Whether `c` is a decimal digit.
pub open spec fn is_digit(c: u8) -> bool {
    0x30 <= c <= 0x39
}

/// Whether `b` is written as a backslash and itself.
pub open spec fn is_special(b: u8) -> bool {
    b == DOT || b == SEMICOLON || b == BACKSLASH
}

/// Whether `b` is a printable ASCII character other than the space.
pub open spec fn is_printable(b: u8) -> bool {
    0x21 <= b <= 0x7e
}

/// The text of one octet of a label.
pub open spec fn escape_octet(b: u8) -> Seq<u8> {
    if is_special(b) {
        seq![BACKSLASH, b]
    } else if is_printable(b) {
        seq![b]
    } else {
        seq![
            BACKSLASH,
            (0x30 + b / 100) as u8,
            (0x30 + b / 10 % 10) as u8,
            (0x30 + b % 10) as u8,
        ]
    }
}

/// The text of one label, without the dot behind it.
pub open spec fn present_label(label: Seq<u8>) -> Seq<u8>
    decreases label.len(),
{
    if label.len() == 0 {
        Seq::empty()
    } else {
        escape_octet(label[0]) + present_label(label.drop_first())
    }
}

/// The text of `labels`, each with the dot behind it.
pub open spec fn present_labels(labels: Seq<Seq<u8>>) -> Seq<u8>
    decreases labels.len(),
{
    if labels.len() == 0 {
        Seq::empty()
    } else {
        present_label(labels[0]) + seq![DOT] + present_labels(labels.drop_first())
    }
}

/// The text of a name: its labels with their dots, or one dot for the root.
pub open spec fn present_name(labels: Seq<Seq<u8>>) -> Seq<u8> {
    if labels.len() == 0 {
        seq![DOT]
    } else {
        present_labels(labels)
    }
}

/// The octet that stands at the start of `rest`, which is not empty, and the
/// number of characters that it takes: one for a character that is not a
/// backslash, two for a backslash and a character that is no digit, four for
/// a backslash and three digits that give a value up to 255. Any other
/// escape is `BadRdata`.
pub open spec fn unescape(rest: Seq<u8>) -> Result<(u8, int), Error> {
    if rest[0] != BACKSLASH {
        Ok((rest[0], 1))
    } else if rest.len() < 2 {
        Err(Error::BadRdata)
    } else if !is_digit(rest[1]) {
        Ok((rest[1], 2))
    } else if rest.len() < 4 || !is_digit(rest[2]) || !is_digit(rest[3]) {
        Err(Error::BadRdata)
    } else {
        let v = (rest[1] - 0x30) * 100 + (rest[2] - 0x30) * 10 + (rest[3] - 0x30);
        if v > 255 {
            Err(Error::BadRdata)
        } else {
            Ok((v as u8, 4))
        }
    }
}

/// The labels that `rest` holds behind the octets `current` of a label that
/// has begun.
///
/// A dot ends the label; an empty label is `BadRdata`, and so is one of more
/// than 63 octets. Text that ends inside a label lacks the closing dot:
/// `NotFqdn`.
pub open spec fn parse_labels(rest: Seq<u8>, current: Seq<u8>) -> Result<Seq<Seq<u8>>, Error>
    decreases rest.len(),
{
    if rest.len() == 0 {
        if current.len() == 0 {
            Ok(Seq::empty())
        } else {
            Err(Error::NotFqdn)
        }
    } else if rest[0] == DOT {
        if current.len() == 0 {
            Err(Error::BadRdata)
        } else {
            match parse_labels(rest.skip(1), Seq::empty()) {
                Ok(more) => Ok(seq![current] + more),
                Err(e) => Err(e),
            }
        }
    } else {
        match unescape(rest) {
            Err(e) => Err(e),
            Ok((b, n)) => if current.len() >= MAX_LABEL_OCTETS {
                Err(Error::BadRdata)
            } else {
                parse_labels(rest.skip(n), current.push(b))
            },
        }
    }
}

/// The name that the octets `text` present.
///
/// Text of more than 513 characters is `LongDomain`. A single dot is the
/// root. Empty text is `NotFqdn`. Otherwise the labels are parsed, and a name
/// of more than 255 octets in wire format is `LongDomain`.
pub open spec fn parse_name(text: Seq<u8>) -> Result<Seq<Seq<u8>>, Error> {
    if text.len() > MAX_DOMAIN_NAME_PRESENTATION_LENGTH {
        Err(Error::LongDomain)
    } else if text.len() == 0 {
        Err(Error::NotFqdn)
    } else if text.len() == 1 && text[0] == DOT {
        Ok(Seq::empty())
    } else {
        match parse_labels(text, Seq::empty()) {
            Ok(labels) => if wire_len(labels) > MAX_DOMAIN_NAME_WIRE_OCTETS {
                Err(Error::LongDomain)
            } else {
                Ok(labels)
            },
            Err(e) => Err(e),
        }
    }
}

/// The characters that stand for ASCII octets.
pub open spec fn chars_of(octets: Seq<u8>) -> Seq<char> {
    Seq::new(octets.len(), |i: int| octets[i] as char)
}

/// The octets of ASCII characters.
pub open spec fn octets_of(text: Seq<char>) -> Seq<u8> {
    Seq::new(text.len(), |i: int| text[i] as u8)
}

/// Whether every octet is below 128.
pub open spec fn all_ascii(octets: Seq<u8>) -> bool {
    forall|i: int| 0 <= i < octets.len() ==> #[trigger] octets[i] < 0x80
}

/// The name that `text` presents: text with a character that is not ASCII is
/// `BadRdata`; other text is parsed by `parse_name`.
pub open spec fn parse_text(text: Seq<char>) -> Result<Seq<Seq<u8>>, Error> {
    if !vstd::utf8::is_ascii_chars(text) {
        Err(Error::BadRdata)
    } else {
        parse_name(octets_of(text))
    }
}

/// The text of an octet is read back as that octet.
pub proof fn lemma_unescape_escape(b: u8, behind: Seq<u8>)
    ensures
        unescape(escape_octet(b) + behind) == Ok::<(u8, int), Error>(
            (b, escape_octet(b).len() as int),
        ),
        escape_octet(b)[0] != DOT,
        1 <= escape_octet(b).len() <= 4,
        all_ascii(escape_octet(b)),
{
    let text = escape_octet(b) + behind;
    if is_special(b) {
        assert(text[0] == BACKSLASH);
        assert(text[1] == b);
    } else if is_printable(b) {
        assert(text[0] == b);
    } else {
        assert(text[0] == BACKSLASH);
        assert(text[1] == (0x30 + b / 100) as u8);
        assert(text[2] == (0x30 + b / 10 % 10) as u8);
        assert(text[3] == (0x30 + b % 10) as u8);
    }
}

/// The text of a name is ASCII.
pub proof fn lemma_present_ascii(labels: Seq<Seq<u8>>)
    ensures
        all_ascii(present_labels(labels)),
        all_ascii(present_name(labels)),
    decreases labels.len(),
{
    if labels.len() > 0 {
        lemma_present_label_ascii(labels[0]);
        lemma_present_ascii(labels.drop_first());
    }
}

/// The text of a label is ASCII.
pub proof fn lemma_present_label_ascii(label: Seq<u8>)
    ensures
        all_ascii(present_label(label)),
    decreases label.len(),
{
    if label.len() > 0 {
        lemma_unescape_escape(label[0], Seq::empty());
        lemma_present_label_ascii(label.drop_first());
    }
}

/// Parsing reads back the text of labels: what is left of a label and the
/// labels behind it, after the octets `current` of that label.
pub proof fn lemma_parse_present(current: Seq<u8>, left: Seq<u8>, more: Seq<Seq<u8>>)
    requires
        1 <= current.len() + left.len() <= MAX_LABEL_OCTETS,
        forall|i: int| 0 <= i < more.len() ==> 1 <= #[trigger] more[i].len() <= MAX_LABEL_OCTETS,
    ensures
        parse_labels(present_label(left) + seq![DOT] + present_labels(more), current) == Ok::<
            Seq<Seq<u8>>,
            Error,
        >(seq![current + left] + more),
    decreases more.len(), left.len(),
{
    let text = present_label(left) + seq![DOT] + present_labels(more);
    let goal = Ok::<Seq<Seq<u8>>, Error>(seq![current + left] + more);
    if left.len() == 0 {
        assert(present_label(left) =~= Seq::<u8>::empty());
        assert(text =~= seq![DOT] + present_labels(more));
        assert(text[0] == DOT);
        assert(text.skip(1) =~= present_labels(more));
        assert(current + left =~= current);
        assert(current.len() > 0);
        if more.len() == 0 {
            assert(present_labels(more) =~= Seq::<u8>::empty());
            assert(parse_labels(text.skip(1), Seq::empty()) == Ok::<Seq<Seq<u8>>, Error>(
                Seq::empty(),
            ));
            assert(seq![current] + Seq::<Seq<u8>>::empty() =~= seq![current + left] + more);
            assert(parse_labels(text, current) == goal);
        } else {
            let next = more[0];
            let others = more.drop_first();
            assert forall|i: int| 0 <= i < others.len() implies 1 <= #[trigger] others[i].len()
                <= MAX_LABEL_OCTETS by {
                assert(others[i] == more[i + 1]);
            }
            lemma_parse_present(Seq::empty(), next, others);
            assert(Seq::<u8>::empty() + next =~= next);
            assert(seq![next] + others =~= more);
            assert(parse_labels(text.skip(1), Seq::empty()) == Ok::<Seq<Seq<u8>>, Error>(more));
            assert(parse_labels(text, current) == goal);
        }
    } else {
        let b = left[0];
        let tail = present_label(left.drop_first()) + seq![DOT] + present_labels(more);
        lemma_unescape_escape(b, tail);
        assert(text =~= escape_octet(b) + tail);
        assert(text[0] == escape_octet(b)[0]);
        assert(text.skip(escape_octet(b).len() as int) =~= tail);
        lemma_parse_present(current.push(b), left.drop_first(), more);
        assert(current.push(b) + left.drop_first() =~= current + left);
        assert(unescape(text) == Ok::<(u8, int), Error>((b, escape_octet(b).len() as int)));
        assert(parse_labels(tail, current.push(b)) == goal);
        assert(parse_labels(text, current) == goal);
    }
}

/// A name that is written as text and read back is the same name, as far as
/// its text has at most 513 characters.
pub proof fn lemma_presentation_round_trip(labels: Seq<Seq<u8>>)
    requires
        valid_name(labels),
        present_name(labels).len() <= MAX_DOMAIN_NAME_PRESENTATION_LENGTH,
    ensures
        parse_name(present_name(labels)) == Ok::<Seq<Seq<u8>>, Error>(labels),
        parse_text(chars_of(present_name(labels))) == Ok::<Seq<Seq<u8>>, Error>(labels),
{
    let text = present_name(labels);
    lemma_present_ascii(labels);
    assert(octets_of(chars_of(text)) =~= text);
    assert(vstd::utf8::is_ascii_chars(chars_of(text)));
    if labels.len() > 0 {
        let first = labels[0];
        let more = labels.drop_first();
        assert forall|i: int| 0 <= i < more.len() implies 1 <= #[trigger] more[i].len()
            <= MAX_LABEL_OCTETS by {
            assert(more[i] == labels[i + 1]);
        }
        lemma_parse_present(Seq::empty(), first, more);
        assert(Seq::<u8>::empty() + first =~= first);
        assert(seq![first] + more =~= labels);
        lemma_unescape_escape(first[0], Seq::empty());
        let head = escape_octet(first[0]);
        let tail = present_label(first.drop_first()) + seq![DOT] + present_labels(more);
        assert(text =~= head + tail);
        assert(text[0] == head[0]);
        assert(parse_labels(text, Seq::empty()) == Ok::<Seq<Seq<u8>>, Error>(labels));
    } else {
        assert(labels =~= Seq::<Seq<u8>>::empty());
    }
}

/// `String::from_utf8` of std, on octets that are all below 128. Such octets
/// are valid UTF-8 in which every octet is one character, the one with the
/// octet's value: so the conversion succeeds and gives those characters.
#[verifier::external_body]
fn ascii_string(octets: Vec<u8>) -> (text: String)
    requires
        all_ascii(octets@),
    ensures
        text@ == chars_of(octets@),
{
    match String::from_utf8(octets) {
        Ok(text) => text,
        Err(_) => String::new(),
    }
}

/// Appends the text of one octet of a label.
fn push_escaped(out: &mut Vec<u8>, b: u8)
    ensures
        final(out)@ == old(out)@ + escape_octet(b),
{
    if b == DOT || b == SEMICOLON || b == BACKSLASH {
        out.push(BACKSLASH);
        out.push(b);
    } else if 0x21 <= b && b <= 0x7e {
        out.push(b);
    } else {
        out.push(BACKSLASH);
        out.push(0x30 + b / 100);
        out.push(0x30 + b / 10 % 10);
        out.push(0x30 + b % 10);
    }
    assert(out@ =~= old(out)@ + escape_octet(b));
}

/// Appends the text of one label, without the dot behind it.
fn push_label(out: &mut Vec<u8>, label: &[u8])
    ensures
        final(out)@ == old(out)@ + present_label(label@),
{
    let mut i: usize = 0;
    assert(label@.skip(0) =~= label@);
    while i < label.len()
        invariant
            i <= label.len(),
            old(out)@ + present_label(label@) == out@ + present_label(label@.skip(i as int)),
        decreases label.len() - i,
    {
        let ghost before = out@;
        let ghost rest = label@.skip(i as int);
        assert(rest[0] == label@[i as int]);
        assert(rest.drop_first() =~= label@.skip(i + 1));
        push_escaped(out, label[i]);
        assert(before + (escape_octet(rest[0]) + present_label(rest.drop_first())) =~= out@
            + present_label(rest.drop_first()));
        i = i + 1;
    }
    assert(present_label(label@.skip(i as int)) =~= Seq::<u8>::empty());
    assert(out@ + Seq::<u8>::empty() =~= out@);
}

/// Reads the octet that stands at `i` in `text`: see `unescape`.
fn unescape_at(text: &[u8], i: usize) -> (r: Result<(u8, usize), Error>)
    requires
        i < text@.len(),
    ensures
        match r {
            Ok((b, n)) => unescape(text@.skip(i as int)) == Ok::<(u8, int), Error>((b, n as int))
                && 1 <= n && i + n <= text@.len(),
            Err(e) => unescape(text@.skip(i as int)) == Err::<(u8, int), Error>(e),
        },
{
    let ghost rest = text@.skip(i as int);
    assert(rest[0] == text@[i as int]);
    let left = text.len() - i;
    if text[i] != BACKSLASH {
        return Ok((text[i], 1));
    }
    if left < 2 {
        return Err(Error::BadRdata);
    }
    assert(rest[1] == text@[i + 1]);
    let d1 = text[i + 1];
    if !(0x30 <= d1 && d1 <= 0x39) {
        return Ok((d1, 2));
    }
    if left < 4 {
        return Err(Error::BadRdata);
    }
    assert(rest[2] == text@[i + 2]);
    assert(rest[3] == text@[i + 3]);
    let d2 = text[i + 2];
    let d3 = text[i + 3];
    if !(0x30 <= d2 && d2 <= 0x39) || !(0x30 <= d3 && d3 <= 0x39) {
        return Err(Error::BadRdata);
    }
    let v: u16 = (d1 - 0x30) as u16 * 100 + (d2 - 0x30) as u16 * 10 + (d3 - 0x30) as u16;
    if v > 255 {
        return Err(Error::BadRdata);
    }
    Ok((v as u8, 4))
}

/// The result of a parse that has read `done` and goes on with `rest`.
spec fn spliced(done: Seq<Seq<u8>>, rest: Result<Seq<Seq<u8>>, Error>) -> Result<
    Seq<Seq<u8>>,
    Error,
> {
    match rest {
        Ok(more) => Ok(done + more),
        Err(e) => Err(e),
    }
}

/// The result of a parse once the labels are read: the name, if it is not
/// too long.
spec fn finished(parsed: Result<Seq<Seq<u8>>, Error>) -> Result<Seq<Seq<u8>>, Error> {
    match parsed {
        Ok(labels) => if wire_len(labels) > MAX_DOMAIN_NAME_WIRE_OCTETS {
            Err(Error::LongDomain)
        } else {
            Ok(labels)
        },
        Err(e) => Err(e),
    }
}

impl DomainName {
    /// The name as text: see `present_name`. Fails with `LongDomain` exactly
    /// if the text would have more than 513 characters.
    pub fn to_presentation(&self) -> (r: Result<String, Error>)
        ensures
            match r {
                Ok(text) => text@ == chars_of(present_name(self@)) && present_name(self@).len()
                    <= MAX_DOMAIN_NAME_PRESENTATION_LENGTH,
                Err(e) => e == Error::LongDomain && present_name(self@).len()
                    > MAX_DOMAIN_NAME_PRESENTATION_LENGTH,
            },
    {
        let ghost all = self@;
        let count = self.label_count();
        let mut out: Vec<u8> = Vec::new();
        if count == 0 {
            out.push(DOT);
            assert(out@ =~= present_name(all));
        } else {
            let mut i: usize = 0;
            assert(all.skip(0) =~= all);
            assert(out@ + present_labels(all) =~= present_labels(all));
            while i < count
                invariant
                    i <= count,
                    count == self@.len(),
                    all == self@,
                    present_labels(all) == out@ + present_labels(all.skip(i as int)),
                decreases count - i,
            {
                let ghost before = out@;
                let ghost rest = all.skip(i as int);
                assert(rest[0] == all[i as int]);
                assert(rest.drop_first() =~= all.skip(i + 1));
                push_label(&mut out, self.label(i));
                out.push(DOT);
                assert(before + (present_label(rest[0]) + seq![DOT] + present_labels(
                    rest.drop_first(),
                )) =~= out@ + present_labels(rest.drop_first()));
                i = i + 1;
            }
            assert(present_labels(all.skip(i as int)) =~= Seq::<u8>::empty());
            assert(out@ + Seq::<u8>::empty() =~= out@);
        }
        if out.len() > MAX_DOMAIN_NAME_PRESENTATION_LENGTH {
            return Err(Error::LongDomain);
        }
        proof {
            lemma_present_ascii(all);
        }
        Ok(ascii_string(out))
    }

    /// Reads a name from text: see `parse_text`. The name must end in a dot.
    ///
    /// Fails with `BadRdata` on a character that is not ASCII, a malformed
    /// escape, an empty label or one of more than 63 octets; with `NotFqdn`
    /// where the closing dot is missing; with `LongDomain` on text of more
    /// than 513 characters or a name of more than 255 octets.
    pub fn from_presentation(text: &str) -> (r: Result<DomainName, Error>)
        ensures
            match r {
                Ok(name) => parse_text(text@) == Ok::<Seq<Seq<u8>>, Error>(name@),
                Err(e) => parse_text(text@) == Err::<Seq<Seq<u8>>, Error>(e),
            },
    {
        if !text.is_ascii() {
            return Err(Error::BadRdata);
        }
        let octets = text.as_bytes();
        proof {
            vstd::string::is_ascii_spec_bytes(text);
            assert(octets@ =~= octets_of(text@));
        }
        if octets.len() > MAX_DOMAIN_NAME_PRESENTATION_LENGTH {
            return Err(Error::LongDomain);
        }
        if octets.len() == 0 {
            return Err(Error::NotFqdn);
        }
        if octets.len() == 1 && octets[0] == DOT {
            return Ok(DomainName::root());
        }
        let mut labels: Vec<Vec<u8>> = Vec::new();
        let mut current: Vec<u8> = Vec::new();
        let mut i: usize = 0;
        proof {
            assert(octets@.skip(0) =~= octets@);
            assert(labels_of(labels@) =~= Seq::<Seq<u8>>::empty());
            let first = parse_labels(octets@, Seq::empty());
            if let Ok(more) = first {
                assert(Seq::<Seq<u8>>::empty() + more =~= more);
            }
        }
        while i < octets.len()
            invariant
                i <= octets.len(),
                current@.len() <= MAX_LABEL_OCTETS,
                parse_text(text@) == finished(parse_labels(octets@, Seq::empty())),
                forall|k: int|
                    0 <= k < labels@.len() ==> 1 <= (#[trigger] labels@[k])@.len()
                        <= MAX_LABEL_OCTETS,
                parse_labels(octets@, Seq::empty()) == spliced(
                    labels_of(labels@),
                    parse_labels(octets@.skip(i as int), current@),
                ),
            decreases octets.len() - i,
        {
            let ghost rest = octets@.skip(i as int);
            assert(rest[0] == octets@[i as int]);
            if octets[i] == DOT {
                if current.len() == 0 {
                    return Err(Error::BadRdata);
                }
                proof {
                    assert(rest.skip(1) =~= octets@.skip(i + 1));
                    if let Ok(more) = parse_labels(rest.skip(1), Seq::empty()) {
                        assert(labels_of(labels@) + (seq![current@] + more) =~= labels_of(
                            labels@.push(current),
                        ) + more);
                    }
                }
                labels.push(current);
                current = Vec::new();
                i = i + 1;
            } else {
                match unescape_at(octets, i) {
                    Err(e) => {
                        return Err(e);
                    },
                    Ok((b, n)) => {
                        if current.len() >= MAX_LABEL_OCTETS {
                            return Err(Error::BadRdata);
                        }
                        assert(rest.skip(n as int) =~= octets@.skip(i + n));
                        current.push(b);
                        i = i + n;
                    },
                }
            }
        }
        assert(octets@.skip(i as int).len() == 0);
        if current.len() != 0 {
            return Err(Error::NotFqdn);
        }
        proof {
            assert(labels_of(labels@) + Seq::<Seq<u8>>::empty() =~= labels_of(labels@));
            assert forall|k: int| 0 <= k < labels_of(labels@).len() implies 1 <= (
            #[trigger] labels_of(labels@)[k]).len() <= MAX_LABEL_OCTETS by {
                assert(labels_of(labels@)[k] == labels@[k]@);
            }
        }
        DomainName::from_labels(labels)
    }
}

} // verus!
