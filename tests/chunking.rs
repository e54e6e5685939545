use ingest::frame::FrameDecoder;

fn frames_whole(dec: &mut FrameDecoder, b: &[u8]) -> Vec<Vec<u8>> {
    let mut frames: Vec<&[u8]> = Vec::new();
    let r = dec.decode(b, &mut frames);
    dec.finish(&b[r.read..], &mut frames);
    frames.iter().map(|f| f.to_vec()).collect()
}

fn frames_chunked(dec: &mut FrameDecoder, b: &[u8], cuts: &[usize]) -> Vec<Vec<u8>> {
    let mut out: Vec<Vec<u8>> = Vec::new();
    let mut from = 0;
    for &c in cuts {
        let mut frames: Vec<&[u8]> = Vec::new();
        let r = dec.decode(&b[from..c], &mut frames);
        out.extend(frames.iter().map(|f| f.to_vec()));
        from += r.read;
    }
    let mut frames: Vec<&[u8]> = Vec::new();
    dec.finish(&b[from..], &mut frames);
    out.extend(frames.iter().map(|f| f.to_vec()));
    out
}

fn pseudo_random(seed: u64, n: usize, alphabet: &[u8]) -> Vec<u8> {
    let mut x = seed;
    (0..n)
        .map(|_| {
            x = x.wrapping_mul(6364136223846793005).wrapping_add(1442695040888963407);
            alphabet[((x >> 33) as usize) % alphabet.len()]
        })
        .collect()
}

#[test]
fn chunking_keeps_frames_for_each_delimiter_mode() {
    let configs: Vec<(Option<&str>, Option<&str>)> = vec![
        (None, None),
        (None, Some("dos")),
        (None, Some("unix")),
        (None, Some("mac")),
        (Some("ab"), None),
        (Some("abba"), None),
    ];
    for (seed, (string, line)) in configs.iter().enumerate() {
        for round in 0..20u64 {
            let b = pseudo_random(seed as u64 * 100 + round, 64, b"ab\r\nx");
            let mut whole = FrameDecoder::from_config(*string, *line, None).ok().unwrap();
            let expected = frames_whole(&mut whole, &b);
            let cut_bytes = pseudo_random(round + 7, 4, b"0123456789");
            let mut cuts: Vec<usize> = cut_bytes.iter().map(|c| ((*c - b'0') as usize) * 6).collect();
            cuts.sort();
            cuts.push(b.len());
            let mut chunked = FrameDecoder::from_config(*string, *line, None).ok().unwrap();
            assert_eq!(frames_chunked(&mut chunked, &b, &cuts), expected);
        }
    }
}

#[test]
fn config_rejects_bad_options() {
    assert!(FrameDecoder::from_config(Some("x"), Some("any"), None).is_err());
    assert!(FrameDecoder::from_config(None, Some("windows"), None).is_err());
    assert!(FrameDecoder::from_config(None, None, Some(("^x", "sideways"))).is_err());
    assert!(FrameDecoder::from_config(None, None, Some(("(", "next"))).is_err());
    assert!(FrameDecoder::from_config(None, Some("dos"), Some(("^x", "next"))).is_ok());
}

#[test]
fn dos_line_needs_cr_lf() {
    let mut dec = FrameDecoder::from_config(None, Some("dos"), None).ok().unwrap();
    let mut frames: Vec<&[u8]> = Vec::new();
    let r = dec.decode(&b"a\nb\r\nc"[..], &mut frames);
    assert_eq!(r.read, 5);
    assert_eq!(&frames[..], &[&b"a\nb"[..]]);
}

#[test]
fn empty_string_delimiter_takes_everything() {
    let mut dec = FrameDecoder::from_config(Some(""), None, None).ok().unwrap();
    let mut frames: Vec<&[u8]> = Vec::new();
    let r = dec.decode(&b"a\nb"[..], &mut frames);
    assert_eq!((r.read, r.written), (3, 1));
    assert_eq!(&frames[..], &[&b"a\nb"[..]]);
}

#[test]
fn chunking_keeps_glued_frames() {
    for (on, to) in [("^ ", "previous"), ("x$", "next")] {
        for round in 0..30u64 {
            let b = pseudo_random(round + 1000, 60, b"a x\n\r");
            let mut whole = FrameDecoder::from_config(None, None, Some((on, to))).ok().unwrap();
            let expected = frames_whole(&mut whole, &b);
            let cut_bytes = pseudo_random(round + 77, 3, b"0123456789");
            let mut cuts: Vec<usize> = cut_bytes.iter().map(|c| ((*c - b'0') as usize) * 6).collect();
            cuts.sort();
            cuts.push(b.len());
            let mut chunked = FrameDecoder::from_config(None, None, Some((on, to))).ok().unwrap();
            assert_eq!(frames_chunked(&mut chunked, &b, &cuts), expected);
        }
    }
}
