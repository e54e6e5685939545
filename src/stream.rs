use vstd::prelude::*;
use crate::error::{Error, ErrorId};

verus! {

/// Result of one stream decoding call.
#[derive(Clone, Copy, Debug, PartialEq, Eq, Structural)]
pub struct Decode {
    /// Number of bytes read from the input.
    pub read: usize,
    /// Number of bytes written to the output.
    pub written: usize,
}

impl Decode {
    /// Nothing was read and nothing written: the decoder waits for input.
    pub fn needs_more_input(&self) -> (r: bool)
        ensures
            r == (self.read == 0 && self.written == 0),
    {
        self.read == 0 && self.written == 0
    }
}

/// The first `n` bytes of `inp` copied over the start of `out`.
pub open spec fn copied(inp: Seq<u8>, out: Seq<u8>, n: int) -> Seq<u8> {
    inp.subrange(0, n) + out.subrange(n, out.len() as int)
}

/// Copies `min(|inp|, |out|)` bytes straight through.
pub fn decode_plain(inp: &[u8], out: &mut [u8]) -> (r: Decode)
    ensures
        r.read == r.written,
        r.read as int == if inp@.len() <= old(out)@.len() { inp@.len() as int } else { old(out)@.len() as int },
        final(out)@ == copied(inp@, old(out)@, r.read as int),
{
    let n: usize = if inp.len() <= out.len() { inp.len() } else { out.len() };
    let mut i: usize = 0;
    while i < n
        invariant
            n <= inp@.len(),
            n <= out@.len(),
            out@.len() == old(out)@.len(),
            i <= n,
            forall|k: int| 0 <= k < i ==> out@[k] == inp@[k],
            forall|k: int| i <= k < out@.len() ==> out@[k] == old(out)@[k],
        decreases n - i,
    {
        out[i] = inp[i];
        i = i + 1;
    }
    proof {
        assert(out@ =~= copied(inp@, old(out)@, n as int));
    }
    Decode { read: n, written: n }
}

// ---------------------------------------------------------------------------
// gzip
// ---------------------------------------------------------------------------

/// Outcome of parsing a gzip member header at the start of some bytes.
pub enum HeaderParse {
    /// A whole header of this many bytes.
    Complete(usize),
    /// The bytes end before the header does.
    Incomplete,
    /// The bytes are no gzip header.
    Invalid,
}

/// The first zero byte at or after `p`.
pub open spec fn zero_from(b: Seq<u8>, p: int) -> Option<int>
    decreases b.len() - p,
{
    if p < 0 || p >= b.len() {
        None
    } else if b[p] == 0 {
        Some(p)
    } else {
        zero_from(b, p + 1)
    }
}

/// Where a zero-terminated field starting at `p` ends, when `b` holds it.
pub open spec fn after_zero(b: Seq<u8>, p: int) -> int {
    match zero_from(b, p) {
        Some(z) => z + 1,
        None => -1,
    }
}

/// Length of the gzip member header at the start of `b`, when `b` holds
/// all of it: ten fixed bytes, then the optional extra field (`FLG` bit 2),
/// name (bit 3), comment (bit 4) and header CRC (bit 1).
pub open spec fn gz_header_len(b: Seq<u8>) -> Option<int> {
    if b.len() < 10 {
        None
    } else {
        let flg = b[3];
        let p1 = if flg & 4u8 != 0u8 {
            if b.len() < 12 { -1 } else { 12 + b[10] as int + 256 * (b[11] as int) }
        } else {
            10
        };
        let p2 = if p1 < 0 || p1 > b.len() { -1 } else if flg & 8u8 != 0u8 { after_zero(b, p1) } else { p1 };
        let p3 = if p2 < 0 { -1 } else if flg & 16u8 != 0u8 { after_zero(b, p2) } else { p2 };
        let p4 = if p3 < 0 { -1 } else if flg & 2u8 != 0u8 { p3 + 2 } else { p3 };
        if p4 < 0 || p4 > b.len() { None } else { Some(p4) }
    }
}

/// The magic number and the DEFLATE method.
pub open spec fn gz_magic(b: Seq<u8>) -> bool {
    b.len() >= 3 && b[0] == 0x1f && b[1] == 0x8b && b[2] == 8
}

/// Note: `read_gz_header` reads a file name or comment that the input cuts
/// short up to the end of the input and succeeds, so such a prefix counts
/// as a complete header.
///
/// Relies on `gzip_header::read_gz_header` over a cursor: it reads the fixed
/// ten-byte part first (an early end is `UnexpectedEof`), rejects a wrong
/// magic number or method with another error kind, and on success has
/// consumed the whole header.
#[verifier::external_body]
fn read_header(inp: &[u8]) -> (r: HeaderParse)
    ensures
        inp@.len() < 10 ==> r is Incomplete,
        inp@.len() >= 10 && (inp@[0] != 0x1f || inp@[1] != 0x8b || inp@[2] != 8) ==> r is Invalid,
        r matches HeaderParse::Complete(n) ==> 10 <= n <= inp@.len(),
        gz_magic(inp@) && inp@.len() >= 10 && inp@[3] & 4u8 != 0u8 && (inp@.len() < 12 || inp@.len() < 12 + inp@[10] as int
            + 256 * (inp@[11] as int)) ==> r is Incomplete,
        gz_magic(inp@) && inp@[3] & 2u8 == 0u8 && gz_header_len(inp@) is Some ==> r == HeaderParse::Complete(
            gz_header_len(inp@).unwrap() as usize,
        ),
{
    let mut cursor = std::io::Cursor::new(inp);
    match gzip_header::read_gz_header(&mut cursor) {
        Ok(_) => HeaderParse::Complete(cursor.position() as usize),
        Err(e) if e.kind() == std::io::ErrorKind::UnexpectedEof => HeaderParse::Incomplete,
        Err(_) => HeaderParse::Invalid,
    }
}

/// `flate2::Decompress`, a DEFLATE decompressor with its own state, held
/// opaque.
#[verifier::external_type_specification]
#[verifier::external_body]
pub struct ExDecompress(flate2::Decompress);

/// The bytes that raw DEFLATE data `b` decodes to, as far as `b`
/// determines them.
pub uninterp spec fn inflate_raw(b: Seq<u8>) -> Seq<u8>;

/// Whether `b` holds a whole raw DEFLATE stream, its final block included.
pub uninterp spec fn deflate_complete(b: Seq<u8>) -> bool;

/// The DEFLATE bytes that decompressor `d` has consumed so far.
pub uninterp spec fn inflater_fed(d: flate2::Decompress) -> Seq<u8>;

/// The bytes that decompressor `d` has written out so far.
pub uninterp spec fn inflater_produced(d: flate2::Decompress) -> Seq<u8>;

/// Relies on `flate2::Decompress::new`: a raw DEFLATE decompressor, without
/// zlib header, that has consumed and produced nothing.
#[verifier::external_body]
fn new_inflater() -> (r: flate2::Decompress)
    ensures
        inflater_fed(r).len() == 0,
        inflater_produced(r).len() == 0,
{
    flate2::Decompress::new(false)
}

/// Relies on `flate2::Decompress::total_in`: the number of input bytes
/// consumed so far.
#[verifier::external_body]
fn total_in(d: &flate2::Decompress) -> (r: u64)
    ensures
        r as int == inflater_fed(*d).len(),
{
    d.total_in()
}

/// Relies on `flate2::Decompress::total_out`: the number of output bytes
/// produced so far.
#[verifier::external_body]
fn total_out(d: &flate2::Decompress) -> (r: u64)
    ensures
        r as int == inflater_produced(*d).len(),
{
    d.total_out()
}

/// Relies on `flate2::Decompress::decompress` without flushing: it consumes
/// a prefix of `inp` and writes a prefix of `out`, continuing the output of
/// everything it was fed; `Ok(true)` for `StreamEnd`, once the whole stream
/// is decoded; `Err` on corrupt input. With input and room for output and
/// the stream not ended, it moves forward: `BufError`, no progress, comes
/// only when one of the two is empty.
#[verifier::external_body]
fn inflate(d: &mut flate2::Decompress, inp: &[u8], out: &mut [u8]) -> (r: Result<bool, ()>)
    ensures
        final(out)@.len() == old(out)@.len(),
        r matches Ok(ended) ==> {
            let k = inflater_fed(*final(d)).len() - inflater_fed(*old(d)).len();
            let w = inflater_produced(*final(d)).len() - inflater_produced(*old(d)).len();
            &&& 0 <= k <= inp@.len()
            &&& 0 <= w <= old(out)@.len()
            &&& inflater_fed(*final(d)) == inflater_fed(*old(d)) + inp@.subrange(0, k)
            &&& inflater_produced(*final(d)) == inflater_produced(*old(d)) + final(out)@.subrange(0, w)
            &&& inflater_produced(*final(d)).is_prefix_of(inflate_raw(inflater_fed(*final(d))))
            &&& ended ==> inflater_produced(*final(d)) == inflate_raw(inflater_fed(*final(d)))
                && deflate_complete(inflater_fed(*final(d)))
            &&& !ended && inp@.len() > 0 && old(out)@.len() > 0 ==> k > 0 || w > 0
        },
{
    match d.decompress(inp, out, flate2::FlushDecompress::None) {
        Ok(st) => Ok(matches!(st, flate2::Status::StreamEnd)),
        Err(_) => Err(()),
    }
}

/// Where a gzip decoder stands in the current member.
#[derive(Clone, Copy, Debug, PartialEq, Eq, Structural)]
pub enum GzipPhase {
    Header,
    Body,
    Footer,
}

enum GzipState {
    Header,
    Body(flate2::Decompress),
    Footer,
}

/// Decompresses a stream of concatenated gzip members.
pub struct GzipDecoder {
    state: GzipState,
}

/// Bytes of the footer of a member: CRC32 and ISIZE.
pub const FOOTER_LEN: usize = 8;

impl GzipDecoder {
    /// The DEFLATE bytes of the current member fed so far.
    pub closed spec fn body_fed(&self) -> Seq<u8> {
        match self.state {
            GzipState::Body(d) => inflater_fed(d),
            _ => seq![],
        }
    }

    /// The bytes of the current member produced so far.
    pub closed spec fn body_produced(&self) -> Seq<u8> {
        match self.state {
            GzipState::Body(d) => inflater_produced(d),
            _ => seq![],
        }
    }

    pub closed spec fn phase(&self) -> GzipPhase {
        match self.state {
            GzipState::Header => GzipPhase::Header,
            GzipState::Body(_) => GzipPhase::Body,
            GzipState::Footer => GzipPhase::Footer,
        }
    }

    pub fn new() -> (r: GzipDecoder)
        ensures
            r.phase() == GzipPhase::Header,
    {
        GzipDecoder { state: GzipState::Header }
    }

    pub fn phase_now(&self) -> (r: GzipPhase)
        ensures
            r == self.phase(),
    {
        match &self.state {
            GzipState::Header => GzipPhase::Header,
            GzipState::Body(_) => GzipPhase::Body,
            GzipState::Footer => GzipPhase::Footer,
        }
    }

    pub fn decode(&mut self, inp: &[u8], out: &mut [u8]) -> (r: Result<Decode, Error>)
        ensures
            final(out)@.len() == old(out)@.len(),
            r matches Ok(d) ==> d.read <= inp@.len() && d.written <= old(out)@.len(),
            r matches Err(e) ==> e.spec_id() == ErrorId::Io,
            match old(self).phase() {
                GzipPhase::Header => {
                    &&& final(out)@ == old(out)@
                    &&& inp@.len() < 10 ==> r == Ok::<Decode, Error>(Decode { read: 0, written: 0 })
                        && final(self).phase() == GzipPhase::Header
                    &&& inp@.len() >= 10 && (inp@[0] != 0x1f || inp@[1] != 0x8b || inp@[2] != 8) ==> r is Err
                    &&& r matches Ok(d) ==> d.written == 0 && (if d.read == 0 {
                        final(self).phase() == GzipPhase::Header
                    } else {
                        10 <= d.read && final(self).phase() == GzipPhase::Body
                    })
                },
                GzipPhase::Footer => {
                    &&& final(out)@ == old(out)@
                    &&& if inp@.len() >= FOOTER_LEN {
                        r == Ok::<Decode, Error>(Decode { read: FOOTER_LEN, written: 0 })
                            && final(self).phase() == GzipPhase::Header
                    } else {
                        r == Ok::<Decode, Error>(Decode { read: 0, written: 0 })
                            && final(self).phase() == GzipPhase::Footer
                    }
                },
                GzipPhase::Body => final(self).phase() != GzipPhase::Header && (r matches Ok(d) ==> {
                    let fed = old(self).body_fed() + inp@.subrange(0, d.read as int);
                    let produced = old(self).body_produced() + final(out)@.subrange(0, d.written as int);
                    &&& produced.is_prefix_of(inflate_raw(fed))
                    &&& final(self).phase() == GzipPhase::Body ==> final(self).body_fed() == fed
                        && final(self).body_produced() == produced
                    &&& final(self).phase() == GzipPhase::Footer ==> produced == inflate_raw(fed) && deflate_complete(fed)
                    &&& final(self).phase() == GzipPhase::Body && inp@.len() > 0 && old(out)@.len() > 0 ==> d.read > 0
                        || d.written > 0
                }),
            },
            old(self).phase() == GzipPhase::Header && gz_magic(inp@) && inp@[3] & 2u8 == 0u8 && gz_header_len(inp@) is Some
                ==> r == Ok::<Decode, Error>(Decode { read: gz_header_len(inp@).unwrap() as usize, written: 0 })
                && final(self).phase() == GzipPhase::Body && final(self).body_fed().len() == 0
                && final(self).body_produced().len() == 0,
    {
        match &mut self.state {
            GzipState::Header => {
                match read_header(inp) {
                    HeaderParse::Complete(n) => {
                        let inf = new_inflater();
                        self.state = GzipState::Body(inf);
                        Ok(Decode { read: n, written: 0 })
                    },
                    HeaderParse::Incomplete => Ok(Decode { read: 0, written: 0 }),
                    HeaderParse::Invalid => Err(Error::without_details(ErrorId::Io)),
                }
            },
            GzipState::Footer => {
                if inp.len() >= FOOTER_LEN {
                    self.state = GzipState::Header;
                    Ok(Decode { read: FOOTER_LEN, written: 0 })
                } else {
                    Ok(Decode { read: 0, written: 0 })
                }
            },
            GzipState::Body(dec) => {
                let n_in = inp.len();
                let n_out = out.len();
                let in_before = total_in(dec);
                let out_before = total_out(dec);
                let ended = match inflate(dec, inp, out) {
                    Ok(e) => e,
                    Err(()) => {
                        return Err(Error::without_details(ErrorId::Io));
                    },
                };
                let in_after = total_in(dec);
                let out_after = total_out(dec);
                let read = (in_after - in_before) as usize;
                let written = (out_after - out_before) as usize;
                if ended {
                    self.state = GzipState::Footer;
                }
                Ok(Decode { read, written })
            },
        }
    }
}

/// A byte-to-byte transform in front of framing.
pub enum StreamDecoder {
    Plain,
    Gzip(GzipDecoder),
}

impl StreamDecoder {
    pub open spec fn is_plain(&self) -> bool {
        self matches StreamDecoder::Plain
    }

    /// Decodes from `inp` into `out`; `(0, 0)` means more input is needed.
    pub fn decode(&mut self, inp: &[u8], out: &mut [u8]) -> (r: Result<Decode, Error>)
        ensures
            final(out)@.len() == old(out)@.len(),
            r matches Ok(d) ==> d.read <= inp@.len() && d.written <= old(out)@.len(),
            r matches Err(e) ==> e.spec_id() == ErrorId::Io,
            old(self).is_plain() ==> final(self).is_plain() && (r matches Ok(d) && d.read == d.written
                && d.read as int == (if inp@.len() <= old(out)@.len() { inp@.len() as int } else { old(out)@.len() as int })
                && final(out)@ == copied(inp@, old(out)@, d.read as int)),
            !old(self).is_plain() ==> !final(self).is_plain(),
    {
        match self {
            StreamDecoder::Plain => Ok(decode_plain(inp, out)),
            StreamDecoder::Gzip(g) => g.decode(inp, out),
        }
    }
}

} // verus!
