use ingest::decoder::BufDecoder;
use ingest::event::{check_charset, decode_text, Event, FrameEventDecoder};
use ingest::frame::{Delimiter, FrameDecoder};
use ingest::stream::{GzipDecoder, StreamDecoder};
use ingest::value::Value;
use flate2::write::GzEncoder;
use flate2::Compression;
use std::io::Write;

fn message(e: &Event) -> String {
    match e.field("message") {
        Some(Value::String(s)) => s.clone(),
        _ => panic!("no message"),
    }
}

fn lines() -> FrameEventDecoder {
    FrameEventDecoder::new(FrameDecoder::new(Delimiter::Line, None))
}

#[test]
fn text_event_is_lossy_utf8() {
    let mut out = Vec::new();
    assert_eq!(decode_text(b"caf\xc3\xa9 \xff!", &mut out), 1);
    assert_eq!(message(&out[0]), "caf\u{e9} \u{fffd}!");
    assert!(out[0].field("path").is_none());
}

#[test]
fn charset_must_be_utf8() {
    assert!(check_charset(None).is_ok());
    assert!(check_charset(Some("UTF-8")).is_ok());
    assert!(check_charset(Some("latin1")).is_err());
}

#[test]
fn frame_events_in_order() {
    let mut dec = lines();
    let mut out = Vec::new();
    let r = dec.decode(b"one\ntwo\nthr", &mut out);
    assert_eq!((r.read, r.written), (8, 2));
    let r = dec.finish(b"thr", &mut out);
    assert_eq!((r.read, r.written), (3, 1));
    let msgs: Vec<String> = out.iter().map(message).collect();
    assert_eq!(msgs, vec!["one", "two", "thr"]);
}

#[test]
fn buf_decoder_plain() {
    let mut dec = BufDecoder::new(StreamDecoder::Plain, lines());
    assert!(dec.is_empty());
    assert_eq!(dec.feed(b"a b\nc d\ne"), 9);
    assert!(!dec.is_empty());
    let mut out = Vec::new();
    let n = dec.decode(&mut out).ok().unwrap();
    assert_eq!(n, 2);
    let n = dec.decode(&mut out).ok().unwrap();
    assert_eq!(n, 0);
    let n = dec.flush(&mut out).ok().unwrap();
    assert_eq!(n, 1);
    let msgs: Vec<String> = out.iter().map(message).collect();
    assert_eq!(msgs, vec!["a b", "c d", "e"]);
    assert!(dec.is_empty());
}

#[test]
fn buf_decoder_gzip() {
    let mut e = GzEncoder::new(Vec::new(), Compression::default());
    e.write_all(b"a#x\nb#y\n").unwrap();
    let z = e.finish().unwrap();
    let mut dec = BufDecoder::new(StreamDecoder::Gzip(GzipDecoder::new()), lines());
    assert_eq!(dec.feed(&z), z.len());
    let mut out = Vec::new();
    while dec.decode(&mut out).ok().unwrap() > 0 {}
    let msgs: Vec<String> = out.iter().map(message).collect();
    assert_eq!(msgs, vec!["a#x", "b#y"]);
}

#[test]
fn buf_decoder_clear_and_writeable_buf() {
    let mut dec = BufDecoder::new(StreamDecoder::Plain, lines());
    {
        let b = dec.writeable_buf().unwrap();
        b.write()[..3].copy_from_slice(b"xy\n");
        b.advance_write_pos(3);
    }
    assert!(!dec.is_empty());
    dec.clear();
    assert!(dec.is_empty());
}
