use ingest::buf::Buf;
use ingest::stream::{decode_plain, Decode, GzipDecoder, GzipPhase, StreamDecoder};
use flate2::write::GzEncoder;
use flate2::Compression;
use std::io::Write;

fn gzip(data: &[u8]) -> Vec<u8> {
    let mut e = GzEncoder::new(Vec::new(), Compression::default());
    e.write_all(data).unwrap();
    e.finish().unwrap()
}

fn check_positions(b: &Buf) {
    assert!(b.read_pos() <= b.write_pos());
    assert!(b.write_pos() <= b.len());
}

#[test]
fn buf_starts_empty_and_grows_from_512() {
    let mut b = Buf::new();
    assert!(b.is_empty());
    assert_eq!(b.read().len(), 0);
    b.ensure_writeable();
    assert_eq!(b.len(), 1024);
    check_positions(&b);
    b.grow();
    assert_eq!(b.len(), 2048);
}

#[test]
fn buf_write_then_read() {
    let mut b = Buf::new();
    b.ensure_writeable();
    b.write()[..5].copy_from_slice(b"hello");
    b.advance_write_pos(5);
    assert_eq!(b.read(), &b"hello"[..]);
    b.advance_read_pos(2);
    assert_eq!(b.read(), &b"llo"[..]);
    check_positions(&b);
}

#[test]
fn buf_compacts_when_half_consumed() {
    let mut b = Buf::new();
    b.resize(8);
    b.write().copy_from_slice(b"abcdefgh");
    b.advance_write_pos(8);
    b.advance_read_pos(6);
    b.ensure_writeable();
    assert_eq!(b.read(), &b"gh"[..]);
    assert_eq!(b.read_pos(), 0);
    assert_eq!(b.write_pos(), 2);
    assert_eq!(b.len(), 8);
    check_positions(&b);
}

#[test]
fn buf_grows_without_compacting_when_little_consumed() {
    let mut b = Buf::new();
    b.resize(8);
    b.write().copy_from_slice(b"abcdefgh");
    b.advance_write_pos(8);
    b.advance_read_pos(2);
    b.ensure_writeable();
    assert_eq!(b.read_pos(), 2);
    assert_eq!(b.read(), &b"cdefgh"[..]);
    assert_eq!(b.len(), 1024);
}

#[test]
fn buf_compact_and_clear() {
    let mut b = Buf::new();
    b.resize(4);
    b.write().copy_from_slice(b"wxyz");
    b.advance_write_pos(4);
    b.advance_read_pos(1);
    b.compact();
    assert_eq!(b.read(), &b"xyz"[..]);
    assert_eq!(b.len(), 4);
    b.resize(2);
    assert_eq!(b.write_pos(), 2);
    assert_eq!(b.read(), &b"xy"[..]);
    b.clear();
    assert_eq!(b.len(), 0);
    assert_eq!(b.read_pos(), 0);
}

#[test]
fn plain_copies_min_of_lengths() {
    let mut out = [0u8; 3];
    let r = decode_plain(b"abcde", &mut out);
    assert_eq!(r, Decode { read: 3, written: 3 });
    assert_eq!(&out, b"abc");
    let mut out = [9u8; 6];
    let r = decode_plain(b"ab", &mut out);
    assert_eq!(r, Decode { read: 2, written: 2 });
    assert_eq!(&out, &[b'a', b'b', 9, 9, 9, 9]);
    assert!(Decode { read: 0, written: 0 }.needs_more_input());
    assert!(!r.needs_more_input());
}

fn gunzip_chunked(data: &[u8], chunk: usize) -> Vec<u8> {
    let mut dec = StreamDecoder::Gzip(GzipDecoder::new());
    let mut pending: Vec<u8> = Vec::new();
    let mut out = Vec::new();
    let mut fed = 0;
    loop {
        if fed < data.len() {
            let end = std::cmp::min(fed + chunk, data.len());
            pending.extend_from_slice(&data[fed..end]);
            fed = end;
        }
        let mut buf = [0u8; 7];
        let r = dec.decode(&pending, &mut buf).ok().unwrap();
        pending.drain(..r.read);
        out.extend_from_slice(&buf[..r.written]);
        if r.needs_more_input() && fed == data.len() {
            break;
        }
    }
    assert!(pending.is_empty());
    out
}

#[test]
fn gzip_single_member() {
    let z = gzip(b"hello gzip world");
    assert_eq!(gunzip_chunked(&z, 1000), b"hello gzip world".to_vec());
}

#[test]
fn gzip_members_concatenate_payloads() {
    let mut z = gzip(b"first member\n");
    z.extend(gzip(b"second member\n"));
    assert_eq!(gunzip_chunked(&z, 1000), b"first member\nsecond member\n".to_vec());
}

#[test]
fn gzip_output_does_not_depend_on_chunking() {
    let mut z = gzip(b"alpha beta gamma delta");
    z.extend(gzip(b""));
    z.extend(gzip(b"epsilon"));
    for chunk in [1, 2, 3, 5, 11, 64] {
        assert_eq!(gunzip_chunked(&z, chunk), b"alpha beta gamma deltaepsilon".to_vec());
    }
}

#[test]
fn gzip_header_waits_for_ten_bytes() {
    let z = gzip(b"x");
    let mut dec = GzipDecoder::new();
    let mut out = [0u8; 4];
    let r = dec.decode(&z[..9], &mut out).ok().unwrap();
    assert_eq!(r, Decode { read: 0, written: 0 });
    assert_eq!(dec.phase_now(), GzipPhase::Header);
    let r = dec.decode(&z, &mut out).ok().unwrap();
    assert_eq!(r.read, 10);
    assert_eq!(dec.phase_now(), GzipPhase::Body);
}

#[test]
fn gzip_rejects_bad_magic() {
    let mut dec = GzipDecoder::new();
    let mut out = [0u8; 4];
    let r = dec.decode(b"not a gzip stream", &mut out);
    assert!(r.is_err());
    assert_eq!(r.err().unwrap().id(), ingest::error::ErrorId::Io);
}

#[test]
fn gzip_header_with_name_is_read_whole() {
    let mut z = vec![0x1f, 0x8b, 8, 8, 0, 0, 0, 0, 0, 3];
    z.extend_from_slice(b"name.log\0");
    let body = gzip(b"payload");
    z.extend_from_slice(&body[10..]);
    let mut dec = GzipDecoder::new();
    let mut out = [0u8; 64];
    let r = dec.decode(&z, &mut out).ok().unwrap();
    assert_eq!(r, Decode { read: 19, written: 0 });
    assert_eq!(dec.phase_now(), GzipPhase::Body);
    let r = dec.decode(&z[19..], &mut out).ok().unwrap();
    assert_eq!(&out[..r.written], b"payload");
}
