use dns_kit::cursor::{put_bytes, put_u16, put_u32, put_u48, Reader, Writer};
use dns_kit::error::Error;

#[test]
fn reader_reads_big_endian() {
    let buf = [0x12, 0x34, 0x56, 0x78, 0x9a, 0xbc, 0xde, 0xf0, 1, 2, 3, 4, 5, 6, 7];
    let mut r = Reader::new(&buf);
    assert_eq!(r.position(), 0);
    assert_eq!(r.remaining(), 15);
    assert_eq!(r.read_u8(), Ok(0x12));
    assert_eq!(r.read_u16(), Ok(0x3456));
    assert_eq!(r.read_u32(), Ok(0x789a_bcde));
    assert_eq!(r.position(), 7);
    assert_eq!(r.read_u48(), Ok(0xf001_0203_0405));
    assert_eq!(r.read_bytes(2), Ok(vec![6, 7]));
    assert_eq!(r.remaining(), 0);
    assert_eq!(r.read_bytes(0), Ok(vec![]));
    assert_eq!(r.buffer(), &buf);
}

#[test]
fn reader_fails_short_and_stays() {
    let buf = [1u8, 2, 3];
    let mut r = Reader::at(&buf, 1);
    assert_eq!(r.read_u32(), Err(Error::ShortRead));
    assert_eq!(r.read_u48(), Err(Error::ShortRead));
    assert_eq!(r.read_bytes(3), Err(Error::ShortRead));
    assert_eq!(r.position(), 1);
    assert_eq!(r.read_u16(), Ok(0x0203));
    assert_eq!(r.read_u8(), Err(Error::ShortRead));
    assert_eq!(r.read_u16(), Err(Error::ShortRead));
    assert_eq!(r.position(), 3);
    r.seek(9);
    assert_eq!(r.remaining(), 0);
    assert_eq!(r.read_u8(), Err(Error::ShortRead));
    assert_eq!(r.read_bytes(0), Err(Error::ShortRead));
    assert_eq!(r.position(), 9);
    r.seek(0);
    assert_eq!(r.read_u8(), Ok(1));
}

#[test]
fn writer_writes_big_endian() {
    let mut w = Writer::new(32);
    assert_eq!(w.limit(), 32);
    assert_eq!(w.write_u8(0xab), Ok(()));
    assert_eq!(w.write_u16(0x0102), Ok(()));
    assert_eq!(w.write_u32(0xdead_beef), Ok(()));
    assert_eq!(w.write_u48(0x0102_0304_0506), Ok(()));
    assert_eq!(w.write_bytes(&[9, 8]), Ok(()));
    assert_eq!(w.position(), 15);
    assert_eq!(
        w.as_slice(),
        &[0xab, 1, 2, 0xde, 0xad, 0xbe, 0xef, 1, 2, 3, 4, 5, 6, 9, 8]
    );
    w.rewind(3);
    assert_eq!(w.as_slice(), &[0xab, 1, 2]);
    w.rewind(7);
    assert_eq!(w.position(), 3);
    assert_eq!(w.into_bytes(), vec![0xab, 1, 2]);
}

#[test]
fn writer_fails_when_full_and_writes_nothing() {
    let mut w = Writer::new(5);
    assert!(w.fits(5));
    assert!(!w.fits(6));
    assert_eq!(w.write_u48(1), Err(Error::BufferTooSmall));
    assert_eq!(w.write_bytes(&[0; 6]), Err(Error::BufferTooSmall));
    assert_eq!(w.position(), 0);
    assert_eq!(w.write_u32(7), Ok(()));
    assert_eq!(w.write_u16(7), Err(Error::BufferTooSmall));
    assert_eq!(w.write_u32(7), Err(Error::BufferTooSmall));
    assert_eq!(w.write_u8(7), Ok(()));
    assert_eq!(w.write_u8(7), Err(Error::BufferTooSmall));
    assert_eq!(w.write_bytes(&[]), Ok(()));
    assert_eq!(w.as_slice(), &[0, 0, 0, 7, 7]);
    let mut none = Writer::new(0);
    assert_eq!(none.write_u8(1), Err(Error::BufferTooSmall));
}

#[test]
fn integers_are_put_most_significant_octet_first() {
    let mut out = vec![0xffu8];
    put_u16(&mut out, 0xfffe);
    put_u32(&mut out, 0x0001_0203);
    put_u48(&mut out, 0xffff_ffff_ffff);
    put_u48(&mut out, 0);
    put_bytes(&mut out, &[1, 2, 3]);
    assert_eq!(
        out,
        vec![0xff, 0xff, 0xfe, 0, 1, 2, 3, 0xff, 0xff, 0xff, 0xff, 0xff, 0xff, 0, 0, 0, 0, 0, 0, 1, 2, 3]
    );
    let mut r = Reader::at(&out, 7);
    assert_eq!(r.read_u48(), Ok(0xffff_ffff_ffff));
}
