use ingest::frame::{Decode, FrameDecoder};

fn decode(read: usize, written: usize) -> Decode {
    Decode { read, written }
}

fn line_any() -> FrameDecoder {
    FrameDecoder::from_config(None, None, None).ok().unwrap()
}

fn with_str(s: &str) -> FrameDecoder {
    FrameDecoder::from_config(Some(s), None, None).ok().unwrap()
}

fn glued(on: &str, to: &str) -> FrameDecoder {
    FrameDecoder::from_config(None, None, Some((on, to))).ok().unwrap()
}

#[test]
fn delimited_empty() {
    let mut dec = line_any();
    let mut frames: Vec<&[u8]> = Vec::new();
    assert_eq!(dec.decode(&b""[..], &mut frames), decode(0, 0));
    assert_eq!(frames.len(), 0);
    assert_eq!(dec.finish(&b""[..], &mut frames), decode(0, 1));
    assert_eq!(&frames[..], &[&b""[..]]);

    let mut dec = with_str("~!~");
    let mut frames: Vec<&[u8]> = Vec::new();
    assert_eq!(dec.decode(&b""[..], &mut frames), decode(0, 0));
    assert_eq!(frames.len(), 0);
    assert_eq!(dec.finish(&b""[..], &mut frames), decode(0, 1));
    assert_eq!(&frames[..], &[&b""[..]]);
}

#[test]
fn trailing() {
    let mut dec = line_any();
    let mut frames: Vec<&[u8]> = Vec::new();
    assert_eq!(dec.decode(&b"test\x00"[..], &mut frames), decode(0, 0));
    assert_eq!(frames.len(), 0);
    assert_eq!(dec.finish(&b"test\x00"[..], &mut frames), decode(5, 1));
    assert_eq!(&frames[..], &[&b"test\x00"[..]]);
}

#[test]
fn lf() {
    let mut dec = line_any();
    let mut frames: Vec<&[u8]> = Vec::new();
    assert_eq!(dec.decode(&b"\n"[..], &mut frames), decode(1, 1));
    assert_eq!(&frames[..], &[&b""[..]]);
}

#[test]
fn cr() {
    let mut dec = line_any();
    let mut frames: Vec<&[u8]> = Vec::new();
    assert_eq!(dec.decode(&b"\r"[..], &mut frames), decode(0, 0));
    assert_eq!(frames.len(), 0);
    assert_eq!(dec.finish(&b"\r"[..], &mut frames), decode(1, 2));
    assert_eq!(&frames[..], &[&b""[..], &b""[..]]);
}

#[test]
fn cr_lf() {
    let mut dec = line_any();
    let mut frames: Vec<&[u8]> = Vec::new();
    assert_eq!(dec.decode(&b"\r"[..], &mut frames), decode(0, 0));
    assert_eq!(frames.len(), 0);
    assert_eq!(dec.finish(&b"\r\n"[..], &mut frames), decode(2, 2));
    assert_eq!(&frames[..], &[&b""[..], &b""[..]]);
}

#[test]
fn mixed_empty() {
    let mut dec = line_any();
    let mut frames: Vec<&[u8]> = Vec::new();

    assert_eq!(dec.decode(&b"\n\n"[..], &mut frames), decode(2, 2));
    assert_eq!(&frames[..], &[&b""[..], &b""[..]]);

    assert_eq!(dec.decode(&b"\r\n"[..], &mut frames), decode(2, 1));
    assert_eq!(&frames[2..], &[&b""[..]]);

    assert_eq!(dec.decode(&b"\r\n\r\n"[..], &mut frames), decode(4, 2));
    assert_eq!(&frames[3..], &[&b""[..], &b""[..]]);

    assert_eq!(dec.decode(&b"\r\n\n\r\r\n"[..], &mut frames), decode(6, 4));
    assert_eq!(&frames[5..], &[&b""[..], &b""[..], &b""[..], &b""[..]]);

    assert_eq!(dec.decode(&b"\n\r\n"[..], &mut frames), decode(3, 2));
    assert_eq!(&frames[9..], &[&b""[..], &b""[..]]);
}

#[test]
fn mixed() {
    let mut dec = line_any();
    let mut frames: Vec<&[u8]> = Vec::new();

    let s = &b"line 1\r\nline 2\nline 3\r\nline 4"[..];
    assert_eq!(dec.decode(&s[..22], &mut frames), decode(15, 2));
    assert_eq!(&frames[..], &[&b"line 1"[..], &b"line 2"[..]]);

    assert_eq!(dec.decode(&s[15..], &mut frames), decode(8, 1));
    assert_eq!(&frames[2..], &[&b"line 3"[..]]);

    assert_eq!(dec.finish(&s[23..], &mut frames), decode(6, 1));
    assert_eq!(&frames[3..], &[&b"line 4"[..]]);

    assert_eq!(
        &frames[..],
        &[&b"line 1"[..], &b"line 2"[..], &b"line 3"[..], &b"line 4"[..]]
    );
}

#[test]
fn one() {
    let mut dec = with_str("~!~");
    let mut frames: Vec<&[u8]> = Vec::new();
    assert_eq!(dec.decode(&b"test\x00~!~"[..], &mut frames), decode(8, 1));
    assert_eq!(&frames[..], &[&b"test\x00"[..]]);
    assert_eq!(dec.finish(&b""[..], &mut frames), decode(0, 1));
    assert_eq!(&frames[..], &[&b"test\x00"[..], &b""[..]]);
}

#[test]
fn two() {
    let mut dec = with_str("~!~");
    let mut frames: Vec<&[u8]> = Vec::new();
    assert_eq!(dec.decode(&b"test\x01~!~test\x02~!~"[..], &mut frames), decode(16, 2));
    assert_eq!(&frames[..], &[&b"test\x01"[..], &b"test\x02"[..]]);
    assert_eq!(dec.finish(&b""[..], &mut frames), decode(0, 1));
    assert_eq!(&frames[..], &[&b"test\x01"[..], &b"test\x02"[..], &b""[..]]);
}

#[test]
fn long() {
    let mut dec = with_str("ddddelim");
    let mut frames: Vec<&[u8]> = Vec::new();
    assert_eq!(dec.decode(&b"line1_dddddelim_line2_ddddelim"[..], &mut frames), decode(30, 2));
    assert_eq!(&frames[..], &[&b"line1_d"[..], &b"_line2_"[..]]);
}

#[test]
fn resets_after_finish() {
    let mut dec = glued("^!", "previous");
    let mut frames: Vec<&[u8]> = Vec::new();

    assert_eq!(dec.decode(&b"line1\nline2\n"[..], &mut frames), decode(6, 1));
    assert_eq!(dec.finish(&b"line2\n"[..], &mut frames), decode(6, 2));
    assert_eq!(dec.decode(&b"line3\n\n"[..], &mut frames), decode(6, 1));

    assert_eq!(
        &frames[..],
        &[&b"line1"[..], &b"line2"[..], &b""[..], &b"line3"[..]]
    );
}

#[test]
fn line_to_previous() {
    let mut dec = glued("^[\\s!]", "previous");
    let inp = &b"line0\r\nline1\n line1.2\n! line1.3\nline2\n\tline2.1\r"[..];

    let mut frames: Vec<&[u8]> = Vec::new();
    assert_eq!(dec.decode(&inp[..13], &mut frames), decode(7, 1));
    assert_eq!(&frames[..], &[&b"line0"[..]]);

    let mut frames: Vec<&[u8]> = Vec::new();
    assert_eq!(dec.decode(&inp[7..21], &mut frames), decode(0, 0));
    assert_eq!(frames.len(), 0);

    assert_eq!(dec.decode(&inp[7..31], &mut frames), decode(0, 0));
    assert_eq!(frames.len(), 0);

    assert_eq!(dec.decode(&inp[7..38], &mut frames), decode(25, 1));
    assert_eq!(&frames[..], &[&b"line1\n line1.2\n! line1.3"[..]]);

    let mut frames: Vec<&[u8]> = Vec::new();
    assert_eq!(dec.finish(&inp[32..], &mut frames), decode(15, 2));
    assert_eq!(&frames[..], &[&b"line2\n\tline2.1"[..], &b""[..]]);
}

#[test]
fn line_to_next() {
    let mut dec = glued("[~!]$", "next");
    let inp = &b"line1\rline2 ~\nline2.1 !\nline2.2\nline3!\rline3.1~\r"[..];

    let mut frames: Vec<&[u8]> = Vec::new();
    assert_eq!(dec.decode(&inp[..10], &mut frames), decode(6, 1));
    assert_eq!(&frames[..], &[&b"line1"[..]]);

    let mut frames: Vec<&[u8]> = Vec::new();
    assert_eq!(dec.decode(&inp[6..35], &mut frames), decode(26, 1));
    assert_eq!(&frames[..], &[&b"line2 ~\nline2.1 !\nline2.2"[..]]);

    let mut frames: Vec<&[u8]> = Vec::new();
    assert_eq!(dec.decode(&inp[32..], &mut frames), decode(0, 0));
    assert_eq!(frames.len(), 0);

    assert_eq!(dec.finish(&inp[32..], &mut frames), decode(16, 2));
    assert_eq!(&frames[..], &[&b"line3!\rline3.1~"[..], &b""[..]]);
}
