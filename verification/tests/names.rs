use dns_kit::compress::CompressionTable;
use dns_kit::cursor::Writer;
use dns_kit::error::Error;
use dns_kit::name::DomainName;

fn name(text: &str) -> DomainName {
    DomainName::from_presentation(text).unwrap()
}

#[test]
fn decodes_an_uncompressed_name() {
    let buf = [3, b'w', b'w', b'w', 7, b'e', b'x', b'a', b'm', b'p', b'l', b'e', 3, b'c', b'o', b'm', 0, 9, 9];
    let (decoded, end) = DomainName::decode(&buf, 0).unwrap();
    assert_eq!(end, 17);
    assert_eq!(decoded.label_count(), 3);
    assert_eq!(decoded.label(0), b"www");
    assert_eq!(decoded.label(1), b"example");
    assert_eq!(decoded.label(2), b"com");
    assert_eq!(decoded.to_presentation().unwrap(), "www.example.com.");
    assert_eq!(decoded.wire_length(), 17);
    assert_eq!(decoded.to_wire(), buf[..17].to_vec());
}

#[test]
fn decodes_the_root() {
    let buf = [0u8];
    let (decoded, end) = DomainName::decode(&buf, 0).unwrap();
    assert_eq!(end, 1);
    assert_eq!(decoded.label_count(), 0);
    assert_eq!(decoded.to_presentation().unwrap(), ".");
}

#[test]
fn follows_a_backward_pointer() {
    // "com." at 0, "example" + pointer to 0 at 5, "www" + pointer to 5 at 15.
    let mut buf = vec![3, b'c', b'o', b'm', 0];
    buf.extend_from_slice(&[7, b'e', b'x', b'a', b'm', b'p', b'l', b'e', 0xc0, 0]);
    buf.extend_from_slice(&[3, b'w', b'w', b'w', 0xc0, 5]);
    let (decoded, end) = DomainName::decode(&buf, 15).unwrap();
    assert_eq!(end, 21);
    assert_eq!(decoded.to_presentation().unwrap(), "www.example.com.");
    let (middle, end) = DomainName::decode(&buf, 5).unwrap();
    assert_eq!(end, 15);
    assert_eq!(middle.to_presentation().unwrap(), "example.com.");
}

#[test]
fn rejects_a_pointer_to_itself() {
    let buf = [0xc0u8, 0];
    assert_eq!(DomainName::decode(&buf, 0).err(), Some(Error::BadRdata));
}

#[test]
fn rejects_a_forward_pointer() {
    let buf = [0xc0u8, 2, 0];
    assert_eq!(DomainName::decode(&buf, 0).err(), Some(Error::BadRdata));
    let reached = [1u8, b'a', 0xc0, 5, 0, 0];
    assert_eq!(DomainName::decode(&reached, 0).err(), Some(Error::BadRdata));
}

#[test]
fn rejects_reserved_length_octets() {
    assert_eq!(DomainName::decode(&[0x40u8, 0], 0).err(), Some(Error::BadRdata));
    assert_eq!(DomainName::decode(&[0x7fu8, 0], 0).err(), Some(Error::BadRdata));
    assert_eq!(DomainName::decode(&[0x80u8, 0], 0).err(), Some(Error::BadRdata));
    assert_eq!(DomainName::decode(&[0xbfu8, 0], 0).err(), Some(Error::BadRdata));
    assert_eq!(DomainName::decode(&[1u8, b'a', 0x41, 0], 0).err(), Some(Error::BadRdata));
}

#[test]
fn rejects_truncated_names() {
    assert_eq!(DomainName::decode(&[], 0).err(), Some(Error::ShortRead));
    assert_eq!(DomainName::decode(&[0u8], 1).err(), Some(Error::ShortRead));
    assert_eq!(DomainName::decode(&[0u8], 7).err(), Some(Error::ShortRead));
    assert_eq!(DomainName::decode(&[3u8, b'a', b'b'], 0).err(), Some(Error::ShortRead));
    assert_eq!(DomainName::decode(&[3u8, b'a', b'b', b'c'], 0).err(), Some(Error::ShortRead));
    assert_eq!(DomainName::decode(&[0xc0u8], 0).err(), Some(Error::ShortRead));
}

/// A chain of pointers, each to the one before it, that ends at the root at
/// offset 0: decoding from the last of `hops` pointers follows them all.
fn pointer_chain(hops: usize) -> (Vec<u8>, usize) {
    let mut buf = vec![0u8];
    let mut target = 0usize;
    for _ in 0..hops {
        let at = buf.len();
        buf.push(0xc0 | (target >> 8) as u8);
        buf.push((target & 0xff) as u8);
        target = at;
    }
    (buf, target)
}

#[test]
fn follows_126_pointers_and_no_more() {
    let (buf, start) = pointer_chain(126);
    let (decoded, end) = DomainName::decode(&buf, start).unwrap();
    assert_eq!(decoded.label_count(), 0);
    assert_eq!(end, start + 2);
    let (buf, start) = pointer_chain(127);
    assert_eq!(DomainName::decode(&buf, start).err(), Some(Error::LongDomain));
    let (buf, start) = pointer_chain(300);
    assert_eq!(DomainName::decode(&buf, start).err(), Some(Error::LongDomain));
}

#[test]
fn rejects_an_expanded_name_over_255_octets() {
    // Four labels of 63 octets are 4 * 64 + 1 = 257 octets.
    let mut buf = Vec::new();
    for _ in 0..4 {
        buf.push(63u8);
        buf.extend_from_slice(&[b'a'; 63]);
    }
    buf.push(0);
    assert_eq!(DomainName::decode(&buf, 0).err(), Some(Error::LongDomain));
    // 63 + 63 + 63 + 61 octets of labels are exactly 255 octets.
    let mut buf = Vec::new();
    for _ in 0..3 {
        buf.push(63u8);
        buf.extend_from_slice(&[b'a'; 63]);
    }
    buf.push(61u8);
    buf.extend_from_slice(&[b'b'; 61]);
    buf.push(0);
    let (decoded, end) = DomainName::decode(&buf, 0).unwrap();
    assert_eq!(end, 255);
    assert_eq!(decoded.wire_length(), 255);
    // One octet more in the last label is too much.
    let mut buf = Vec::new();
    for _ in 0..3 {
        buf.push(63u8);
        buf.extend_from_slice(&[b'a'; 63]);
    }
    buf.push(62u8);
    buf.extend_from_slice(&[b'b'; 62]);
    buf.push(0);
    assert_eq!(DomainName::decode(&buf, 0).err(), Some(Error::LongDomain));
}

#[test]
fn long_name_through_pointers_is_rejected() {
    // A name of 200 octets, then a prefix of 100 octets that points to it.
    let mut buf = Vec::new();
    for _ in 0..4 {
        buf.push(49u8);
        buf.extend_from_slice(&[b'x'; 49]);
    }
    buf.push(0);
    let second = buf.len();
    for _ in 0..2 {
        buf.push(49u8);
        buf.extend_from_slice(&[b'y'; 49]);
    }
    buf.push(0xc0);
    buf.push(0);
    assert!(DomainName::decode(&buf, 0).is_ok());
    assert_eq!(DomainName::decode(&buf, second).err(), Some(Error::LongDomain));
}

#[test]
fn presentation_round_trip() {
    for text in [".", "com.", "www.example.com.", "a\\.b.c.", "semi\\;colon.org.", "back\\\\slash.", "\\000\\255.x.", "sp\\032ace."] {
        let parsed = name(text);
        assert_eq!(parsed.to_presentation().unwrap(), text);
    }
    let parsed = name("a\\.b.c.");
    assert_eq!(parsed.label_count(), 2);
    assert_eq!(parsed.label(0), b"a.b");
    let parsed = name("\\000\\255.x.");
    assert_eq!(parsed.label(0), &[0u8, 255]);
    let parsed = name("\\a\\065.");
    assert_eq!(parsed.label(0), b"aA");
    assert_eq!(parsed.to_presentation().unwrap(), "aA.");
}

#[test]
fn presentation_of_decoded_names_reads_back() {
    let buf = [2, 0, b'.', 3, b';', b'\\', 200, 1, b' ', 0];
    let (decoded, _) = DomainName::decode(&buf, 0).unwrap();
    let text = decoded.to_presentation().unwrap();
    assert_eq!(text, "\\000\\..\\;\\\\\\200.\\032.");
    let back = DomainName::from_presentation(&text).unwrap();
    assert_eq!(back.to_wire(), buf.to_vec());
}

#[test]
fn presentation_errors() {
    assert_eq!(DomainName::from_presentation("").err(), Some(Error::NotFqdn));
    assert_eq!(DomainName::from_presentation("www.example.com").err(), Some(Error::NotFqdn));
    assert_eq!(DomainName::from_presentation("com").err(), Some(Error::NotFqdn));
    assert_eq!(DomainName::from_presentation("a..b.").err(), Some(Error::BadRdata));
    assert_eq!(DomainName::from_presentation(".com.").err(), Some(Error::BadRdata));
    assert_eq!(DomainName::from_presentation("..").err(), Some(Error::BadRdata));
    assert_eq!(DomainName::from_presentation("a\\").err(), Some(Error::BadRdata));
    assert_eq!(DomainName::from_presentation("a\\1.").err(), Some(Error::BadRdata));
    assert_eq!(DomainName::from_presentation("a\\12x.").err(), Some(Error::BadRdata));
    assert_eq!(DomainName::from_presentation("a\\256.").err(), Some(Error::BadRdata));
    assert_eq!(DomainName::from_presentation("caf\u{e9}.").err(), Some(Error::BadRdata));
    let long_label = format!("{}.", "a".repeat(64));
    assert_eq!(DomainName::from_presentation(&long_label).err(), Some(Error::BadRdata));
    let full_label = format!("{}.", "a".repeat(63));
    assert_eq!(name(&full_label).wire_length(), 65);
}

#[test]
fn presentation_length_limits() {
    let label = "a".repeat(63);
    let fits = format!("{l}.{l}.{l}.{}.", "b".repeat(61), l = label);
    assert_eq!(fits.len(), 254);
    assert_eq!(name(&fits).wire_length(), 255);
    let too_long = format!("{l}.{l}.{l}.{}.", "b".repeat(62), l = label);
    assert_eq!(DomainName::from_presentation(&too_long).err(), Some(Error::LongDomain));
    // 513 characters are read, 514 are not, whatever they hold.
    let escaped = format!("{}.", "\\097".repeat(63));
    assert_eq!(name(&escaped).label(0), "a".repeat(63).as_bytes());
    let at_limit = format!("{}{}.", "\\097".repeat(60).repeat(2), "a".repeat(32));
    assert_eq!(at_limit.len(), 513);
    assert_eq!(DomainName::from_presentation(&at_limit).err(), Some(Error::BadRdata));
    let over = format!("{}.", "\\097.".repeat(103));
    assert!(over.len() > 513);
    assert_eq!(DomainName::from_presentation(&over).err(), Some(Error::LongDomain));
    // A name whose text exceeds 513 characters cannot be presented.
    let mut labels = Vec::new();
    for _ in 0..3 {
        labels.push(vec![0u8; 63]);
    }
    let binary = DomainName::from_labels(labels).unwrap();
    assert_eq!(binary.to_presentation().err(), Some(Error::LongDomain));
}

#[test]
fn from_labels_checks_lengths() {
    assert_eq!(DomainName::from_labels(vec![vec![]]).err(), Some(Error::BadRdata));
    assert_eq!(DomainName::from_labels(vec![vec![b'a'], vec![b'b'; 64]]).err(), Some(Error::BadRdata));
    assert_eq!(DomainName::from_labels(vec![vec![b'a'; 63]; 4]).err(), Some(Error::LongDomain));
    assert_eq!(DomainName::from_labels(vec![vec![b'a'; 64]; 5]).err(), Some(Error::BadRdata));
    let ok = DomainName::from_labels(vec![b"www".to_vec(), b"example".to_vec()]).unwrap();
    assert_eq!(ok.to_presentation().unwrap(), "www.example.");
    assert_eq!(DomainName::from_labels(vec![]).unwrap().label_count(), 0);
    assert_eq!(DomainName::root().wire_length(), 1);
}

#[test]
fn comparison_ignores_case() {
    let lower = name("www.example.com.");
    let mixed = name("WWW.eXample.COM.");
    assert!(lower.eq_ignore_case(&mixed));
    assert!(!lower.eq_ignore_case(&name("www.example.org.")));
    assert!(!lower.eq_ignore_case(&name("example.com.")));
    assert_eq!(mixed.to_presentation().unwrap(), "WWW.eXample.COM.");
    assert_eq!(mixed.to_lowercase().to_presentation().unwrap(), "www.example.com.");
    assert_eq!(name("a[Z@`{.").to_lowercase().to_presentation().unwrap(), "a[z@`{.");
    assert_eq!(mixed.clone().to_presentation().unwrap(), "WWW.eXample.COM.");
}

#[test]
fn ancestors() {
    let host = name("www.Example.com.");
    assert!(name("example.COM.").is_at_or_above(&host));
    assert!(name("com.").is_at_or_above(&host));
    assert!(name(".").is_at_or_above(&host));
    assert!(name("www.example.com.").is_at_or_above(&host));
    assert!(!name("a.www.example.com.").is_at_or_above(&host));
    assert!(!name("example.org.").is_at_or_above(&host));
    assert!(!name("www.example.").is_at_or_above(&host));
}

#[test]
fn encode_compresses_against_the_table() {
    let mut w = Writer::new(512);
    let mut table = CompressionTable::new();
    assert_eq!(w.write_bytes(&[0u8; 12]), Ok(()));
    let first = name("www.example.com.");
    assert_eq!(first.encode(&mut w, &mut table), Ok(29));
    assert_eq!(table.len(), 3);
    assert_eq!(table.lookup(&name("WWW.EXAMPLE.COM.")), Some(12));
    assert_eq!(table.lookup(&name("example.com.")), Some(16));
    assert_eq!(table.lookup(&name("com.")), Some(24));
    assert_eq!(table.lookup(&name("org.")), None);
    assert_eq!(table.lookup(&name(".")), None);
    // The same name again, in another case, is one pointer.
    assert_eq!(name("WWW.Example.Com.").encode(&mut w, &mut table), Ok(31));
    assert_eq!(&w.as_slice()[29..], &[0xc0, 12]);
    assert_eq!(table.len(), 3);
    // A name that shares a suffix is its new labels and a pointer.
    assert_eq!(name("mail.example.com.").encode(&mut w, &mut table), Ok(38));
    assert_eq!(&w.as_slice()[31..], &[4, b'm', b'a', b'i', b'l', 0xc0, 16]);
    assert_eq!(table.lookup(&name("mail.example.com.")), Some(31));
    // The root is a zero octet and is never entered.
    assert_eq!(name(".").encode(&mut w, &mut table), Ok(39));
    assert_eq!(table.len(), 4);
    let (decoded, end) = DomainName::decode(w.as_slice(), 31).unwrap();
    assert_eq!(end, 38);
    assert_eq!(decoded.to_presentation().unwrap(), "mail.example.com.");
    let (decoded, _) = DomainName::decode(w.as_slice(), 29).unwrap();
    assert_eq!(decoded.to_presentation().unwrap(), "www.example.com.");
}

#[test]
fn encode_leaves_all_as_it_was_when_the_buffer_is_too_small() {
    let mut w = Writer::new(10);
    let mut table = CompressionTable::new();
    assert_eq!(name("www.example.com.").encode(&mut w, &mut table), Err(Error::BufferTooSmall));
    assert_eq!(w.position(), 0);
    assert_eq!(table.len(), 0);
    assert_eq!(name("www.example.com.").encode_uncompressed(&mut w), Err(Error::BufferTooSmall));
    assert_eq!(w.position(), 0);
    assert_eq!(name("a.bc.").encode(&mut w, &mut table), Ok(6));
    assert_eq!(name("x.a.bc.").encode(&mut w, &mut table), Ok(10));
    assert_eq!(name("y.bc.").encode(&mut w, &mut table), Err(Error::BufferTooSmall));
    assert_eq!(w.position(), 10);
    assert_eq!(table.len(), 3);
}

#[test]
fn offsets_from_16384_on_are_not_entered() {
    let mut w = Writer::new(20000);
    let mut table = CompressionTable::new();
    assert_eq!(w.write_bytes(&vec![0u8; 16382]), Ok(()));
    // "ab." begins at 16382 and is entered; "cd." would begin at 16385.
    assert_eq!(name("a.cd.").encode(&mut w, &mut table), Ok(16388));
    assert_eq!(table.lookup(&name("A.CD.")), Some(16382));
    assert_eq!(table.lookup(&name("cd.")), None);
    assert_eq!(table.len(), 1);
    assert_eq!(name("cd.").encode(&mut w, &mut table), Ok(16392));
    assert_eq!(&w.as_slice()[16388..], &[2, b'c', b'd', 0]);
    assert_eq!(name("a.cd.").encode(&mut w, &mut table), Ok(16394));
    assert_eq!(&w.as_slice()[16392..], &[0xc0 | 0x3f, 0xfe]);
}

#[test]
fn names_are_equal_whatever_their_case() {
    assert!(name("www.example.com.") == name("WWW.Example.COM."));
    assert!(name("www.example.com.") != name("www.example.org."));
    assert!(name(".") == DomainName::root());
    assert!(name("a.") != name("."));
    assert_eq!(name("Host.Example."), name("hOST.eXAMPLE."));
    assert_ne!(name("a.b."), name("ab."));
}

#[test]
fn compressed_names_read_back_where_they_were_written() {
    let mut w = Writer::new(4096);
    let mut table = CompressionTable::new();
    let names = ["a.b.c.d.", "x.B.C.D.", "y.x.b.c.d.", ".", "D.", "y.X.b.C.d.", "q.", "c.d.q.", "a.b.c.d."];
    let mut starts = Vec::new();
    for text in names {
        starts.push(w.position());
        name(text).encode(&mut w, &mut table).unwrap();
        assert_eq!(w.write_u16(0xffff), Ok(()));
    }
    for (text, start) in names.iter().zip(starts) {
        let (decoded, end) = DomainName::decode(w.as_slice(), start).unwrap();
        assert!(decoded == name(text));
        assert_eq!(&w.as_slice()[end..end + 2], &[0xff, 0xff]);
    }
    // A name that came again is one pointer to where it first was written.
    assert_eq!(table.lookup(&name("A.B.C.D.")), Some(0));
    assert_eq!(&w.as_slice()[w.position() - 4..], &[0xc0, 0, 0xff, 0xff]);
}
