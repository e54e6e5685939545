use vstd::prelude::*;
use vstd::string::StringSliceAdditionalSpecFns;
use crate::error::{Error, ErrorDetails, ErrorId, Span};
use crate::text::str_eq;
use crate::value::{Spanned, Value};

verus! {

broadcast use vstd::string::group_string_axioms;

pub const CR: u8 = 13;
pub const LF: u8 = 10;

/// How frames are delimited.
#[derive(Clone, Debug)]
pub enum Delimiter {
    /// `\r\n`, `\r` or `\n`, whichever comes first.
    Line,
    /// A literal byte string; empty means no delimiter at all.
    Bytes(Vec<u8>),
}

/// Plain model of a [`Delimiter`].
pub enum DelimSpec {
    Line,
    Bytes(Seq<u8>),
}

impl Delimiter {
    pub open spec fn spec(&self) -> DelimSpec {
        match self {
            Delimiter::Line => DelimSpec::Line,
            Delimiter::Bytes(s) => DelimSpec::Bytes(s@),
        }
    }

    /// A literal delimiter made of the bytes of `s`.
    pub fn string(s: &str) -> (r: Delimiter)
        ensures
            r.spec() == DelimSpec::Bytes(s.spec_bytes()),
    {
        Delimiter::Bytes(vstd::slice::slice_to_vec(s.as_bytes()))
    }
}

/// Which neighbour a glued frame is attached to.
#[derive(Clone, Copy, Debug, PartialEq, Eq, Structural)]
pub enum GlueTo {
    Previous,
    Next,
}

/// Whether the regular expression `pattern` matches somewhere in `hay`.
pub uninterp spec fn regex_is_match(pattern: Seq<char>, hay: Seq<u8>) -> bool;

/// `regex::bytes::Regex`, a compiled regular expression over bytes, held
/// opaque.
#[verifier::external_type_specification]
#[verifier::external_body]
pub struct ExRegex(regex::bytes::Regex);

/// Whether `pattern` is a valid regular expression for
/// `regex::bytes::Regex`.
pub uninterp spec fn bytes_regex_valid(pattern: Seq<char>) -> bool;

/// Relies on `regex::bytes::Regex::new`: compiles `pattern`, `None` when it
/// is not a valid regular expression.
#[verifier::external_body]
fn compile_regex(pattern: &str) -> (r: Option<regex::bytes::Regex>)
    ensures
        r is Some <==> bytes_regex_valid(pattern@),
{
    regex::bytes::Regex::new(pattern).ok()
}

/// Multi-line policy: frames whose content matches `pattern` are glued to
/// their neighbour on the `to` side.
pub struct Glue {
    re: regex::bytes::Regex,
    pattern: String,
    to: GlueTo,
}

/// Relies on `regex::bytes::Regex::is_match`; `glue.re` is the compiled form
/// of `glue.pattern`, as `Glue::new`, the only constructor, makes it.
#[verifier::external_body]
fn glue_matches(glue: &Glue, frame: &[u8]) -> (r: bool)
    ensures
        r == regex_is_match(glue.pattern@, frame@),
{
    glue.re.is_match(frame)
}

impl Glue {
    pub closed spec fn spec_pattern(&self) -> Seq<char> {
        self.pattern@
    }

    pub closed spec fn spec_to(&self) -> GlueTo {
        self.to
    }

    /// `None` when `pattern` is not a valid regular expression.
    pub fn new(pattern: &str, to: GlueTo) -> (r: Option<Glue>)
        ensures
            r is Some <==> bytes_regex_valid(pattern@),
            r matches Some(g) ==> g.spec_pattern() == pattern@ && g.spec_to() == to,
    {
        match compile_regex(pattern) {
            Some(re) => Some(Glue { re, pattern: pattern.to_string(), to }),
            None => None,
        }
    }

    pub fn to(&self) -> (r: GlueTo)
        ensures
            r == self.spec_to(),
    {
        self.to
    }
}

/// Result of one frame decoding call.
#[derive(Clone, Copy, Debug, PartialEq, Eq, Structural)]
pub struct Decode {
    /// Number of bytes consumed from the input.
    pub read: usize,
    /// Number of frames appended to the output.
    pub written: usize,
}

// ---------------------------------------------------------------------------
// Model of delimiter scanning
// ---------------------------------------------------------------------------

/// The first line ending at or after `p`: `(position, length)`. A `\r` as
/// the last byte is not yet a line ending, as it may become `\r\n`.
pub open spec fn line_delim_from(b: Seq<u8>, p: int) -> Option<(int, int)>
    decreases b.len() - p,
{
    if p < 0 || p >= b.len() {
        None
    } else if b[p] == LF {
        Some((p, 1))
    } else if b[p] == CR {
        if p + 1 >= b.len() {
            None
        } else if b[p + 1] == LF {
            Some((p, 2))
        } else {
            Some((p, 1))
        }
    } else {
        line_delim_from(b, p + 1)
    }
}

pub open spec fn needle_at(b: Seq<u8>, i: int, s: Seq<u8>) -> bool {
    0 <= i && i + s.len() <= b.len() && b.subrange(i, i + s.len()) == s
}

/// The first occurrence of `s` at or after `p`.
pub open spec fn needle_from(b: Seq<u8>, s: Seq<u8>, p: int) -> Option<(int, int)>
    decreases b.len() - p,
{
    if p < 0 || p >= b.len() || p + s.len() > b.len() {
        None
    } else if needle_at(b, p, s) {
        Some((p, s.len() as int))
    } else {
        needle_from(b, s, p + 1)
    }
}

/// The first delimiter at or after `p`, for a mode that has delimiters.
pub open spec fn delim_from(d: DelimSpec, b: Seq<u8>, p: int) -> Option<(int, int)> {
    match d {
        DelimSpec::Line => line_delim_from(b, p),
        DelimSpec::Bytes(s) => needle_from(b, s, p),
    }
}

pub open spec fn has_delims(d: DelimSpec) -> bool {
    match d {
        DelimSpec::Line => true,
        DelimSpec::Bytes(s) => s.len() > 0,
    }
}

/// A found delimiter lies inside the input, after the scan start.
pub open spec fn delim_ok(b: Seq<u8>, p: int, f: (int, int)) -> bool {
    p <= f.0 && 1 <= f.1 && f.0 + f.1 <= b.len()
}

/// Frames completed at or after `p` when no glue is configured, and the
/// position after the last delimiter.
pub open spec fn split_from(d: DelimSpec, b: Seq<u8>, p: int) -> (Seq<Seq<u8>>, int)
    decreases b.len() - p,
{
    match delim_from(d, b, p) {
        Some(f) => if delim_ok(b, p, f) {
            let rest = split_from(d, b, f.0 + f.1);
            (seq![b.subrange(p, f.0)] + rest.0, rest.1)
        } else {
            (seq![], p)
        },
        None => (seq![], p),
    }
}

/// The frames of a plain (unglued) decode call and the bytes it consumes.
pub open spec fn split(d: DelimSpec, b: Seq<u8>) -> (Seq<Seq<u8>>, int) {
    if has_delims(d) {
        split_from(d, b, 0)
    } else {
        (seq![b], b.len() as int)
    }
}

/// Length of the line ending that closes `b`: `\r\n` wins over a lone `\r`.
pub open spec fn trailing_eol(b: Seq<u8>) -> int {
    if b.len() >= 2 && b[b.len() - 2] == CR && b[b.len() - 1] == LF {
        2
    } else if b.len() >= 1 && (b[b.len() - 1] == CR || b[b.len() - 1] == LF) {
        1
    } else {
        0
    }
}

/// Frames emitted by `finish` on the remaining input `b`.
pub open spec fn finish_frames(d: DelimSpec, b: Seq<u8>) -> Seq<Seq<u8>> {
    match d {
        DelimSpec::Line => {
            let t = trailing_eol(b);
            if t > 0 {
                seq![b.subrange(0, b.len() - t), Seq::<u8>::empty()]
            } else {
                seq![b]
            }
        },
        DelimSpec::Bytes(_) => seq![b],
    }
}

/// All frames of a complete input: those of one decode call, then those of
/// `finish` on what it left.
pub open spec fn all_frames(d: DelimSpec, b: Seq<u8>) -> Seq<Seq<u8>> {
    let s = split(d, b);
    s.0 + finish_frames(d, b.subrange(s.1, b.len() as int))
}

// ---------------------------------------------------------------------------
// Model of glue
// ---------------------------------------------------------------------------

/// Glue state: `start` begins the frame being accumulated, `pos` is where
/// the next frame begins, `delim_len` is the length of the delimiter that
/// ends at `pos`.
pub struct GlueModel {
    pub start: nat,
    pub pos: nat,
    pub delim_len: nat,
}

impl GlueModel {
    pub open spec fn wf(self) -> bool {
        self.start <= self.pos && (self.start == self.pos || self.start + self.delim_len <= self.pos)
    }

    pub open spec fn zero() -> GlueModel {
        GlueModel { start: 0, pos: 0, delim_len: 0 }
    }

    /// Indices shifted so that the accumulated frame begins at 0.
    pub open spec fn rebased(self) -> GlueModel {
        GlueModel { start: 0, pos: (self.pos - self.start) as nat, delim_len: self.delim_len }
    }
}

/// One glue decision for a frame that ends (delimiter included) at `e`,
/// with a delimiter of length `d`; returns the new state and the flushed
/// range, if any.
pub open spec fn glue_step(to: GlueTo, st: GlueModel, e: nat, d: nat, matched: bool) -> (
    GlueModel,
    Option<(int, int)>,
) {
    if matched {
        (GlueModel { start: st.start, pos: e, delim_len: d }, None)
    } else {
        match to {
            GlueTo::Previous => (
                GlueModel { start: st.pos, pos: e, delim_len: d },
                if st.pos == st.start {
                    None
                } else {
                    Some((st.start as int, st.pos - st.delim_len))
                },
            ),
            GlueTo::Next => (
                GlueModel { start: e, pos: e, delim_len: d },
                Some((st.start as int, e - d)),
            ),
        }
    }
}

/// Runs glue over every delimiter found from `st.pos` on; returns the final
/// state and the flushed frames.
pub open spec fn glue_scan(pattern: Seq<char>, to: GlueTo, d: DelimSpec, b: Seq<u8>, st: GlueModel) -> (
    GlueModel,
    Seq<Seq<u8>>,
)
    decreases b.len() - st.pos,
{
    match delim_from(d, b, st.pos as int) {
        Some(f) => if delim_ok(b, st.pos as int, f) {
            let step = glue_step(
                to,
                st,
                (f.0 + f.1) as nat,
                f.1 as nat,
                regex_is_match(pattern, b.subrange(st.pos as int, f.0)),
            );
            let rest = glue_scan(pattern, to, d, b, step.0);
            match step.1 {
                Some(r) => (rest.0, seq![b.subrange(r.0, r.1)] + rest.1),
                None => rest,
            }
        } else {
            (st, seq![])
        },
        None => (st, seq![]),
    }
}

pub open spec fn frames_view(v: Seq<&[u8]>) -> Seq<Seq<u8>> {
    v.map_values(|f: &[u8]| f@)
}

// ---------------------------------------------------------------------------
// Lemmas on scanning
// ---------------------------------------------------------------------------

proof fn lemma_line_delim_ok(b: Seq<u8>, p: int)
    ensures
        line_delim_from(b, p) matches Some(f) ==> delim_ok(b, p, f),
    decreases b.len() - p,
{
    if 0 <= p < b.len() && b[p] != LF && b[p] != CR {
        lemma_line_delim_ok(b, p + 1);
    }
}

proof fn lemma_needle_ok(b: Seq<u8>, s: Seq<u8>, p: int)
    requires
        s.len() > 0,
    ensures
        needle_from(b, s, p) matches Some(f) ==> delim_ok(b, p, f),
    decreases b.len() - p,
{
    if !(p < 0 || p >= b.len() || p + s.len() > b.len()) && !needle_at(b, p, s) {
        lemma_needle_ok(b, s, p + 1);
    }
}

pub proof fn lemma_delim_ok(d: DelimSpec, b: Seq<u8>, p: int)
    requires
        has_delims(d),
    ensures
        delim_from(d, b, p) matches Some(f) ==> delim_ok(b, p, f),
{
    match d {
        DelimSpec::Line => lemma_line_delim_ok(b, p),
        DelimSpec::Bytes(s) => lemma_needle_ok(b, s, p),
    }
}

/// Skipping bytes that are no line ending does not change the result.
proof fn lemma_line_skip(b: Seq<u8>, p: int, q: int)
    requires
        0 <= p <= q <= b.len(),
        forall|k: int| p <= k < q ==> b[k] != CR && b[k] != LF,
    ensures
        line_delim_from(b, p) == line_delim_from(b, q),
    decreases q - p,
{
    if p < q {
        lemma_line_skip(b, p + 1, q);
    }
}

/// Skipping positions that do not start with the needle's first byte.
proof fn lemma_needle_skip(b: Seq<u8>, s: Seq<u8>, p: int, q: int)
    requires
        s.len() > 0,
        0 <= p <= q,
        forall|k: int| p <= k < q && k < b.len() ==> b[k] != s[0],
    ensures
        needle_from(b, s, p) == needle_from(b, s, q),
    decreases q - p,
{
    if p < q {
        if !(p >= b.len() || p + s.len() > b.len()) {
            assert(b.subrange(p, p + s.len())[0] == b[p]);
            assert(!needle_at(b, p, s));
        } else {
            lemma_needle_none_past(b, s, q);
        }
        lemma_needle_skip(b, s, p + 1, q);
    }
}

proof fn lemma_needle_none_past(b: Seq<u8>, s: Seq<u8>, p: int)
    requires
        p + s.len() > b.len(),
    ensures
        needle_from(b, s, p) is None,
{
}

/// Skipping a rejected candidate.
proof fn lemma_needle_step(b: Seq<u8>, s: Seq<u8>, p: int)
    requires
        0 <= p,
        p + s.len() <= b.len(),
        !needle_at(b, p, s),
    ensures
        needle_from(b, s, p) == needle_from(b, s, p + 1),
{
}

// ---------------------------------------------------------------------------
// Trusted byte scanning
// ---------------------------------------------------------------------------

/// `memchr::memchr`: the first position of `needle`, as its documentation
/// states.
pub assume_specification[ memchr::memchr ](needle: u8, haystack: &[u8]) -> (r: Option<usize>)
    ensures
        match r {
            Some(i) => i < haystack@.len() && haystack@[i as int] == needle && forall|j: int|
                0 <= j < i ==> haystack@[j] != needle,
            None => forall|j: int| 0 <= j < haystack@.len() ==> haystack@[j] != needle,
        },
;

/// `memchr::memchr2`: the first position of either needle, as its
/// documentation states.
pub assume_specification[ memchr::memchr2 ](needle1: u8, needle2: u8, haystack: &[u8]) -> (r:
    Option<usize>)
    ensures
        match r {
            Some(i) => i < haystack@.len() && (haystack@[i as int] == needle1 || haystack@[i as int]
                == needle2) && forall|j: int|
                0 <= j < i ==> haystack@[j] != needle1 && haystack@[j] != needle2,
            None => forall|j: int|
                0 <= j < haystack@.len() ==> haystack@[j] != needle1 && haystack@[j] != needle2,
        },
;

// ---------------------------------------------------------------------------
// Executable scanning
// ---------------------------------------------------------------------------

/// The first line ending at or after `p`.
fn find_line_delim(b: &[u8], p: usize) -> (r: Option<(usize, usize)>)
    requires
        p <= b@.len(),
    ensures
        match r {
            Some(f) => line_delim_from(b@, p as int) == Some((f.0 as int, f.1 as int)),
            None => line_delim_from(b@, p as int) is None,
        },
{
    let rest = &b[p..b.len()];
    match memchr::memchr2(CR, LF, rest) {
        None => {
            proof {
                assert forall|k: int| p <= k < b@.len() implies b@[k] != CR && b@[k] != LF by {
                    assert(rest@[k - p] == b@[k]);
                }
                lemma_line_skip(b@, p as int, b@.len() as int);
            }
            None
        },
        Some(j) => {
            let i = p + j;
            proof {
                assert forall|k: int| p <= k < i implies b@[k] != CR && b@[k] != LF by {
                    assert(rest@[k - p] == b@[k]);
                }
                assert(rest@[j as int] == b@[i as int]);
                lemma_line_skip(b@, p as int, i as int);
            }
            if b[i] == LF {
                Some((i, 1))
            } else if i + 1 >= b.len() {
                None
            } else if b[i + 1] == LF {
                Some((i, 2))
            } else {
                Some((i, 1))
            }
        },
    }
}

/// Whether `s` occurs in `b` at `i`.
fn bytes_at(b: &[u8], i: usize, s: &[u8]) -> (r: bool)
    requires
        i + s@.len() <= b@.len(),
    ensures
        r == needle_at(b@, i as int, s@),
{
    let n = b.len();
    let mut k: usize = 0;
    while k < s.len()
        invariant
            n == b@.len(),
            i + s@.len() <= b@.len(),
            k <= s@.len(),
            forall|m: int| 0 <= m < k ==> b@[i + m] == s@[m],
        decreases s@.len() - k,
    {
        if b[i + k] != s[k] {
            proof {
                assert(b@.subrange(i as int, i + s@.len())[k as int] != s@[k as int]);
            }
            return false;
        }
        k = k + 1;
    }
    proof {
        assert(b@.subrange(i as int, i + s@.len()) =~= s@);
    }
    true
}

/// The first occurrence of the non-empty `s` at or after `p`: a byte scan
/// for its first byte, each candidate then checked in full.
fn find_needle(b: &[u8], s: &[u8], p: usize) -> (r: Option<(usize, usize)>)
    requires
        s@.len() > 0,
        p <= b@.len(),
    ensures
        match r {
            Some(f) => needle_from(b@, s@, p as int) == Some((f.0 as int, f.1 as int)),
            None => needle_from(b@, s@, p as int) is None,
        },
{
    let mut q: usize = p;
    while q < b.len()
        invariant
            s@.len() > 0,
            p <= q <= b@.len(),
            needle_from(b@, s@, p as int) == needle_from(b@, s@, q as int),
        decreases b@.len() - q,
    {
        let rest = &b[q..b.len()];
        match memchr::memchr(s[0], rest) {
            None => {
                proof {
                    assert forall|k: int| q <= k < b@.len() && k < b@.len() implies b@[k] != s@[0] by {
                        assert(rest@[k - q] == b@[k]);
                    }
                    assert forall|k: int| q <= k < b@.len() + 1 && k < b@.len() implies b@[k] != s@[0] by {
                        assert(rest@[k - q] == b@[k]);
                    }
                    lemma_needle_skip(b@, s@, q as int, b@.len() as int);
                }
                return None;
            },
            Some(j) => {
                let i = q + j;
                proof {
                    assert forall|k: int| q <= k < i && k < b@.len() implies b@[k] != s@[0] by {
                        assert(rest@[k - q] == b@[k]);
                    }
                    lemma_needle_skip(b@, s@, q as int, i as int);
                }
                if s.len() > b.len() - i {
                    return None;
                }
                if bytes_at(b, i, s) {
                    return Some((i, s.len()));
                }
                proof {
                    lemma_needle_step(b@, s@, i as int);
                }
                q = i + 1;
            },
        }
    }
    None
}

fn find_delim(d: &Delimiter, b: &[u8], p: usize) -> (r: Option<(usize, usize)>)
    requires
        has_delims(d.spec()),
        p <= b@.len(),
    ensures
        match r {
            Some(f) => delim_from(d.spec(), b@, p as int) == Some((f.0 as int, f.1 as int)),
            None => delim_from(d.spec(), b@, p as int) is None,
        },
{
    match d {
        Delimiter::Line => find_line_delim(b, p),
        Delimiter::Bytes(s) => find_needle(b, s.as_slice(), p),
    }
}

// ---------------------------------------------------------------------------
// The decoder
// ---------------------------------------------------------------------------

/// Plain model of the glue part of a decoder.
pub struct GlueSpec {
    pub pattern: Seq<char>,
    pub to: GlueTo,
    pub st: GlueModel,
}

/// What one `decode` call does: the frames it emits, the bytes it consumes
/// and the glue state it leaves.
pub open spec fn decode_result(d: DelimSpec, g: Option<GlueSpec>, b: Seq<u8>) -> (
    Seq<Seq<u8>>,
    int,
    Option<GlueSpec>,
) {
    match g {
        Some(g) => if has_delims(d) {
            let r = glue_scan(g.pattern, g.to, d, b, g.st);
            (r.1, r.0.start as int, Some(GlueSpec { st: r.0.rebased(), ..g }))
        } else {
            (seq![b], b.len() as int, Some(g))
        },
        None => {
            let s = split(d, b);
            (s.0, s.1, None)
        },
    }
}

struct GlueState {
    glue: Glue,
    start: usize,
    pos: usize,
    delim_len: usize,
}

/// Splits a byte stream into frames by a delimiter, optionally gluing
/// consecutive frames into multi-line records. Frames are borrowed from the
/// input.
pub struct FrameDecoder {
    delimiter: Delimiter,
    glue: Option<GlueState>,
}

impl FrameDecoder {
    pub closed spec fn spec_delim(&self) -> DelimSpec {
        self.delimiter.spec()
    }

    pub closed spec fn spec_glue(&self) -> Option<GlueSpec> {
        match self.glue {
            Some(g) => Some(
                GlueSpec {
                    pattern: g.glue.spec_pattern(),
                    to: g.glue.spec_to(),
                    st: GlueModel {
                        start: g.start as nat,
                        pos: g.pos as nat,
                        delim_len: g.delim_len as nat,
                    },
                },
            ),
            None => None,
        }
    }

    /// Between calls the accumulated frame always begins at offset 0.
    pub open spec fn wf(&self) -> bool {
        self.spec_glue() matches Some(g) ==> {
            &&& g.st.wf()
            &&& g.st.start == 0
            &&& !has_delims(self.spec_delim()) ==> g.st == GlueModel::zero()
        }
    }

    /// Whether `decode` may be handed `n` bytes: the input must still hold
    /// what the previous call left unconsumed.
    pub open spec fn accepts(&self, n: nat) -> bool {
        self.spec_glue() matches Some(g) ==> g.st.pos <= n
    }

    pub fn new(delimiter: Delimiter, glue: Option<Glue>) -> (r: FrameDecoder)
        ensures
            r.spec_delim() == delimiter.spec(),
            r.wf(),
            match glue {
                Some(g) => r.spec_glue() == Some(
                    GlueSpec { pattern: g.spec_pattern(), to: g.spec_to(), st: GlueModel::zero() },
                ),
                None => r.spec_glue() is None,
            },
    {
        let glue = match glue {
            Some(g) => Some(GlueState { glue: g, start: 0, pos: 0, delim_len: 0 }),
            None => None,
        };
        FrameDecoder { delimiter, glue }
    }

    /// Appends the frames completed in `inp` to `out`. With glue, the
    /// positions are rebased at the end of the call so that the accumulated
    /// frame begins at 0; the length of the last delimiter is kept across
    /// the rebase, since the next flush of the accumulated frame still has
    /// to strip it, and resetting it would make the frames depend on how the
    /// input is chunked.
    pub fn decode<'a>(&mut self, inp: &'a [u8], out: &mut Vec<&'a [u8]>) -> (r: Decode)
        requires
            old(self).wf(),
            old(self).accepts(inp@.len()),
        ensures
            final(self).wf(),
            final(self).spec_delim() == old(self).spec_delim(),
            ({
                let res = decode_result(old(self).spec_delim(), old(self).spec_glue(), inp@);
                &&& frames_view(final(out)@) == frames_view(old(out)@) + res.0
                &&& r.read == res.1
                &&& r.written == res.0.len()
                &&& final(self).spec_glue() == res.2
            }),
            r.read <= inp@.len(),
            final(self).spec_glue() matches Some(g) ==> g.st.start == 0 && g.st.pos + r.read
                <= inp@.len(),
    {
        if !self.has_delims() {
            let ghost before = out@;
            out.push(inp);
            proof {
                lemma_frames_push(before, inp);
            }
            return Decode { read: inp.len(), written: 1 };
        }
        match &mut self.glue {
            None => decode_plain(&self.delimiter, inp, out),
            Some(g) => decode_glued(&self.delimiter, g, inp, out),
        }
    }

    /// Appends the frames of the end of the input, trailing partial frame
    /// included, and resets glue for the next input.
    pub fn finish<'a>(&mut self, inp: &'a [u8], out: &mut Vec<&'a [u8]>) -> (r: Decode)
        requires
            old(self).wf(),
        ensures
            final(self).wf(),
            final(self).spec_delim() == old(self).spec_delim(),
            frames_view(final(out)@) == frames_view(old(out)@) + finish_frames(old(self).spec_delim(), inp@),
            r.read == inp@.len(),
            r.written == finish_frames(old(self).spec_delim(), inp@).len(),
            match old(self).spec_glue() {
                Some(g) => final(self).spec_glue() == Some(GlueSpec { st: GlueModel::zero(), ..g }),
                None => final(self).spec_glue() is None,
            },
    {
        match &mut self.glue {
            Some(g) => {
                g.start = 0;
                g.pos = 0;
                g.delim_len = 0;
            },
            None => {},
        }
        let ghost before = out@;
        match &self.delimiter {
            Delimiter::Line => finish_line(inp, out),
            Delimiter::Bytes(_) => {
                out.push(inp);
                proof {
                    lemma_frames_push(before, inp);
                }
                Decode { read: inp.len(), written: 1 }
            },
        }
    }

    fn has_delims(&self) -> (r: bool)
        ensures
            r == has_delims(self.spec_delim()),
    {
        match &self.delimiter {
            Delimiter::Line => true,
            Delimiter::Bytes(s) => s.len() > 0,
        }
    }
}

proof fn lemma_frames_push<'a>(v: Seq<&'a [u8]>, x: &'a [u8])
    ensures
        frames_view(v.push(x)) == frames_view(v) + seq![x@],
{
    assert(frames_view(v.push(x)) =~= frames_view(v) + seq![x@]);
}

fn finish_line<'a>(inp: &'a [u8], out: &mut Vec<&'a [u8]>) -> (r: Decode)
    ensures
        frames_view(final(out)@) == frames_view(old(out)@) + finish_frames(DelimSpec::Line, inp@),
        r.read == inp@.len(),
        r.written == finish_frames(DelimSpec::Line, inp@).len(),
{
    let n = inp.len();
    let trailing: usize = if n >= 2 && inp[n - 2] == CR && inp[n - 1] == LF {
        2
    } else if n >= 1 && (inp[n - 1] == CR || inp[n - 1] == LF) {
        1
    } else {
        0
    };
    let ghost before = out@;
    let body = &inp[0..n - trailing];
    out.push(body);
    proof {
        lemma_frames_push(before, body);
    }
    if trailing > 0 {
        let ghost mid = out@;
        let empty = &inp[n..n];
        out.push(empty);
        proof {
            lemma_frames_push(mid, empty);
            assert(empty@ =~= Seq::<u8>::empty());
            assert(frames_view(out@) =~= frames_view(before) + finish_frames(DelimSpec::Line, inp@));
        }
        Decode { read: n, written: 2 }
    } else {
        proof {
            assert(body@ =~= inp@);
        }
        Decode { read: n, written: 1 }
    }
}

fn decode_plain<'a>(d: &Delimiter, inp: &'a [u8], out: &mut Vec<&'a [u8]>) -> (r: Decode)
    requires
        has_delims(d.spec()),
    ensures
        frames_view(final(out)@) == frames_view(old(out)@) + split(d.spec(), inp@).0,
        r.read == split(d.spec(), inp@).1,
        r.written == split(d.spec(), inp@).0.len(),
        r.read <= inp@.len(),
{
    let ghost b = inp@;
    let ghost emitted: Seq<Seq<u8>> = seq![];
    let n = inp.len();
    let mut read: usize = 0;
    let mut written: usize = 0;
    loop
        invariant
            has_delims(d.spec()),
            n == b.len(),
            written <= read,
            read <= b.len(),
            b == inp@,
            written == emitted.len(),
            frames_view(out@) == frames_view(old(out)@) + emitted,
            split_from(d.spec(), b, 0) == (emitted + split_from(d.spec(), b, read as int).0, split_from(d.spec(), b, read as int).1),
        decreases b.len() - read,
    {
        match find_delim(d, inp, read) {
            None => {
                return Decode { read, written };
            },
            Some((i, l)) => {
                proof {
                    lemma_delim_ok(d.spec(), b, read as int);
                }
                let ghost before = out@;
                let frame = &inp[read..i];
                out.push(frame);
                proof {
                    lemma_frames_push(before, frame);
                    let rest = split_from(d.spec(), b, (i + l) as int);
                    assert(split_from(d.spec(), b, read as int) == (seq![frame@] + rest.0, rest.1));
                    assert(emitted + seq![frame@] + rest.0 =~= emitted + (seq![frame@] + rest.0));
                    emitted = emitted + seq![frame@];
                }
                read = i + l;
                written = written + 1;
            },
        }
    }
}

/// The final glue state lies within the input and stays well formed.
proof fn lemma_glue_scan_bounds(pattern: Seq<char>, to: GlueTo, d: DelimSpec, b: Seq<u8>, st: GlueModel)
    requires
        has_delims(d),
        st.wf(),
        st.pos <= b.len(),
    ensures
        glue_scan(pattern, to, d, b, st).0.wf(),
        glue_scan(pattern, to, d, b, st).0.pos <= b.len(),
    decreases b.len() - st.pos,
{
    lemma_delim_ok(d, b, st.pos as int);
    match delim_from(d, b, st.pos as int) {
        Some(f) => if delim_ok(b, st.pos as int, f) {
            let step = glue_step(
                to,
                st,
                (f.0 + f.1) as nat,
                f.1 as nat,
                regex_is_match(pattern, b.subrange(st.pos as int, f.0)),
            );
            lemma_glue_scan_bounds(pattern, to, d, b, step.0);
        },
        None => {},
    }
}

fn decode_glued<'a>(d: &Delimiter, g: &mut GlueState, inp: &'a [u8], out: &mut Vec<&'a [u8]>) -> (r: Decode)
    requires
        has_delims(d.spec()),
        old(g).start == 0,
        (GlueModel { start: old(g).start as nat, pos: old(g).pos as nat, delim_len: old(g).delim_len as nat }).wf(),
        old(g).pos <= inp@.len(),
    ensures
        ({
            let st0 = GlueModel { start: old(g).start as nat, pos: old(g).pos as nat, delim_len: old(g).delim_len as nat };
            let res = glue_scan(old(g).glue.spec_pattern(), old(g).glue.spec_to(), d.spec(), inp@, st0);
            &&& frames_view(final(out)@) == frames_view(old(out)@) + res.1
            &&& r.read == res.0.start
            &&& r.written == res.1.len()
            &&& final(g).start == 0
            &&& final(g).pos == res.0.rebased().pos
            &&& final(g).delim_len == res.0.rebased().delim_len
            &&& final(g).glue == old(g).glue
            &&& res.0.wf()
            &&& res.0.pos <= inp@.len()
        }),
{
    let ghost b = inp@;
    let ghost pattern = g.glue.spec_pattern();
    let ghost to = g.glue.spec_to();
    let ghost st0 = GlueModel { start: g.start as nat, pos: g.pos as nat, delim_len: g.delim_len as nat };
    let ghost res = glue_scan(pattern, to, d.spec(), b, st0);
    proof {
        lemma_glue_scan_bounds(pattern, to, d.spec(), b, st0);
    }
    let ghost emitted: Seq<Seq<u8>> = seq![];
    let n = inp.len();
    let mut written: usize = 0;
    loop
        invariant
            has_delims(d.spec()),
            n == b.len(),
            written <= g.pos,
            b == inp@,
            pattern == g.glue.spec_pattern(),
            to == g.glue.spec_to(),
            g.glue == old(g).glue,
            st0 == (GlueModel { start: old(g).start as nat, pos: old(g).pos as nat, delim_len: old(g).delim_len as nat }),
            pattern == old(g).glue.spec_pattern(),
            to == old(g).glue.spec_to(),
            res == glue_scan(pattern, to, d.spec(), b, st0),
            ({
                let cur = GlueModel { start: g.start as nat, pos: g.pos as nat, delim_len: g.delim_len as nat };
                &&& cur.wf()
                &&& cur.pos <= b.len()
                &&& glue_scan(pattern, to, d.spec(), b, cur).0 == res.0
                &&& res.1 == emitted + glue_scan(pattern, to, d.spec(), b, cur).1
            }),
            written == emitted.len(),
            frames_view(out@) == frames_view(old(out)@) + emitted,
        decreases b.len() - g.pos,
    {
        let ghost cur = GlueModel { start: g.start as nat, pos: g.pos as nat, delim_len: g.delim_len as nat };
        match find_delim(d, inp, g.pos) {
            None => {
                proof {
                    assert(glue_scan(pattern, to, d.spec(), b, cur) == (cur, Seq::<Seq<u8>>::empty()));
                    assert(res.1 =~= emitted);
                }
                let read = g.start;
                g.pos = g.pos - g.start;
                g.start = 0;
                return Decode { read, written };
            },
            Some((i, l)) => {
                proof {
                    lemma_delim_ok(d.spec(), b, g.pos as int);
                }
                let matched = glue_matches(&g.glue, &inp[g.pos..i]);
                let e = i + l;
                let ghost step = glue_step(to, cur, e as nat, l as nat, matched);
                let ghost rest = glue_scan(pattern, to, d.spec(), b, step.0);
                if matched {
                    g.pos = e;
                    g.delim_len = l;
                } else {
                    match g.glue.to {
                        GlueTo::Previous => {
                            if g.pos != g.start {
                                let ghost before = out@;
                                let frame = &inp[g.start..g.pos - g.delim_len];
                                out.push(frame);
                                proof {
                                    lemma_frames_push(before, frame);
                                    assert(emitted + seq![frame@] + rest.1 =~= emitted + (seq![frame@] + rest.1));
                                    emitted = emitted + seq![frame@];
                                }
                                written = written + 1;
                            }
                            g.start = g.pos;
                            g.pos = e;
                            g.delim_len = l;
                        },
                        GlueTo::Next => {
                            let ghost before = out@;
                            let frame = &inp[g.start..i];
                            out.push(frame);
                            proof {
                                lemma_frames_push(before, frame);
                                assert(emitted + seq![frame@] + rest.1 =~= emitted + (seq![frame@] + rest.1));
                                emitted = emitted + seq![frame@];
                            }
                            written = written + 1;
                            g.start = e;
                            g.pos = e;
                            g.delim_len = l;
                        },
                    }
                }
            },
        }
    }
}

// ---------------------------------------------------------------------------
// Chunking does not change the frames
// ---------------------------------------------------------------------------

proof fn lemma_line_prefix(b: Seq<u8>, k: int, p: int)
    requires
        0 <= k <= b.len(),
    ensures
        line_delim_from(b.subrange(0, k), p) matches Some(f) ==> line_delim_from(b, p) == Some(f),
    decreases k - p,
{
    let c = b.subrange(0, k);
    if 0 <= p < k && c[p] != LF && c[p] != CR {
        lemma_line_prefix(b, k, p + 1);
    }
}

proof fn lemma_needle_prefix(b: Seq<u8>, s: Seq<u8>, k: int, p: int)
    requires
        0 <= k <= b.len(),
    ensures
        needle_from(b.subrange(0, k), s, p) matches Some(f) ==> needle_from(b, s, p) == Some(f),
    decreases k - p,
{
    let c = b.subrange(0, k);
    if !(p < 0 || p >= k || p + s.len() > k) {
        assert(c.subrange(p, p + s.len()) =~= b.subrange(p, p + s.len()));
        if !needle_at(c, p, s) {
            lemma_needle_prefix(b, s, k, p + 1);
        }
    }
}

proof fn lemma_delim_prefix(d: DelimSpec, b: Seq<u8>, k: int, p: int)
    requires
        0 <= k <= b.len(),
    ensures
        delim_from(d, b.subrange(0, k), p) matches Some(f) ==> delim_from(d, b, p) == Some(f),
{
    match d {
        DelimSpec::Line => lemma_line_prefix(b, k, p),
        DelimSpec::Bytes(s) => lemma_needle_prefix(b, s, k, p),
    }
}

proof fn lemma_split_bounds(d: DelimSpec, b: Seq<u8>, p: int)
    requires
        has_delims(d),
        0 <= p <= b.len(),
    ensures
        p <= split_from(d, b, p).1 <= b.len(),
    decreases b.len() - p,
{
    match delim_from(d, b, p) {
        Some(f) => if delim_ok(b, p, f) {
            lemma_split_bounds(d, b, f.0 + f.1);
        },
        None => {},
    }
}

/// Frames completed in a prefix are the first frames of the whole input.
proof fn lemma_split_prefix(d: DelimSpec, b: Seq<u8>, k: int, p: int)
    requires
        has_delims(d),
        0 <= p <= k <= b.len(),
    ensures
        ({
            let sp = split_from(d, b.subrange(0, k), p);
            split_from(d, b, p) == (sp.0 + split_from(d, b, sp.1).0, split_from(d, b, sp.1).1)
        }),
    decreases k - p,
{
    let c = b.subrange(0, k);
    lemma_delim_prefix(d, b, k, p);
    lemma_delim_ok(d, c, p);
    match delim_from(d, c, p) {
        Some(f) => {
            lemma_split_prefix(d, b, k, f.0 + f.1);
            assert(c.subrange(p, f.0) =~= b.subrange(p, f.0));
            let sp = split_from(d, c, f.0 + f.1);
            let rest = split_from(d, b, sp.1);
            assert(seq![b.subrange(p, f.0)] + (sp.0 + rest.0) =~= seq![b.subrange(p, f.0)] + sp.0 + rest.0);
        },
        None => {
            assert(Seq::<Seq<u8>>::empty() + split_from(d, b, p).0 =~= split_from(d, b, p).0);
        },
    }
}

proof fn lemma_line_shift(b: Seq<u8>, r: int, q: int)
    requires
        0 <= r <= b.len(),
        0 <= q,
    ensures
        line_delim_from(b, r + q) == (match line_delim_from(b.subrange(r, b.len() as int), q) {
            Some(f) => Some((f.0 + r, f.1)),
            None => None,
        }),
    decreases b.len() - r - q,
{
    let c = b.subrange(r, b.len() as int);
    if q < c.len() {
        assert(c[q] == b[r + q]);
        if q + 1 < c.len() {
            assert(c[q + 1] == b[r + q + 1]);
        }
        if c[q] != LF && c[q] != CR {
            lemma_line_shift(b, r, q + 1);
            assert(r + q + 1 == r + (q + 1));
        }
    }
}

proof fn lemma_needle_shift(b: Seq<u8>, s: Seq<u8>, r: int, q: int)
    requires
        0 <= r <= b.len(),
        0 <= q,
    ensures
        needle_from(b, s, r + q) == (match needle_from(b.subrange(r, b.len() as int), s, q) {
            Some(f) => Some((f.0 + r, f.1)),
            None => None,
        }),
    decreases b.len() - r - q,
{
    let c = b.subrange(r, b.len() as int);
    if !(q >= c.len() || q + s.len() > c.len()) {
        assert(c.subrange(q, q + s.len()) =~= b.subrange(r + q, r + q + s.len()));
        if !needle_at(c, q, s) {
            lemma_needle_shift(b, s, r, q + 1);
            assert(r + q + 1 == r + (q + 1));
        }
    }
}

proof fn lemma_delim_shift(d: DelimSpec, b: Seq<u8>, r: int, q: int)
    requires
        0 <= r <= b.len(),
        0 <= q,
    ensures
        delim_from(d, b, r + q) == (match delim_from(d, b.subrange(r, b.len() as int), q) {
            Some(f) => Some((f.0 + r, f.1)),
            None => None,
        }),
{
    match d {
        DelimSpec::Line => lemma_line_shift(b, r, q),
        DelimSpec::Bytes(s) => lemma_needle_shift(b, s, r, q),
    }
}

/// Splitting from `r` is splitting what follows `r`, read counted from `r`.
proof fn lemma_split_shift(d: DelimSpec, b: Seq<u8>, r: int, q: int)
    requires
        has_delims(d),
        0 <= r <= b.len(),
        0 <= q <= b.len() - r,
    ensures
        ({
            let c = b.subrange(r, b.len() as int);
            split_from(d, b, r + q) == (split_from(d, c, q).0, split_from(d, c, q).1 + r)
        }),
    decreases b.len() - r - q,
{
    let c = b.subrange(r, b.len() as int);
    lemma_delim_shift(d, b, r, q);
    lemma_delim_ok(d, c, q);
    match delim_from(d, c, q) {
        Some(f) => {
            lemma_split_shift(d, b, r, f.0 + f.1);
            assert(r + (f.0 + f.1) == (f.0 + r) + f.1);
            assert(c.subrange(q, f.0) =~= b.subrange(r + q, f.0 + r));
        },
        None => {},
    }
}

/// Feeding a decoder without glue a prefix of the input first, and then
/// everything from where that call stopped, yields the same frames, in the
/// same order, as feeding it the whole input at once; `finish` runs on what
/// is left at the end either way. Applied again to the rest, this covers
/// any split of the input into chunks.
pub proof fn lemma_chunking_keeps_frames(d: DelimSpec, b: Seq<u8>, k: int)
    requires
        has_delims(d),
        0 <= k <= b.len(),
    ensures
        ({
            let first = split(d, b.subrange(0, k));
            &&& 0 <= first.1 <= k
            &&& all_frames(d, b) == first.0 + all_frames(d, b.subrange(first.1, b.len() as int))
        }),
{
    let c0 = b.subrange(0, k);
    let first = split_from(d, c0, 0);
    lemma_split_bounds(d, c0, 0);
    lemma_split_prefix(d, b, k, 0);
    let r = first.1;
    let c = b.subrange(r, b.len() as int);
    lemma_split_shift(d, b, r, 0);
    lemma_split_bounds(d, c, 0);
    let sc = split_from(d, c, 0);
    assert(c.subrange(sc.1, c.len() as int) =~= b.subrange(sc.1 + r, b.len() as int));
    assert(r + 0 == r);
    assert(first.0 + sc.0 + finish_frames(d, c.subrange(sc.1, c.len() as int)) =~= first.0 + (sc.0
        + finish_frames(d, c.subrange(sc.1, c.len() as int))));
}

// ---------------------------------------------------------------------------
// Configuration
// ---------------------------------------------------------------------------

/// The delimiter named by a `line` option.
pub open spec fn line_option(v: Seq<char>) -> Option<DelimSpec> {
    if v == seq!['a', 'n', 'y'] {
        Some(DelimSpec::Line)
    } else if v == seq!['d', 'o', 's'] {
        Some(DelimSpec::Bytes(seq![CR, LF]))
    } else if v == seq!['u', 'n', 'i', 'x'] {
        Some(DelimSpec::Bytes(seq![LF]))
    } else if v == seq!['m', 'a', 'c'] {
        Some(DelimSpec::Bytes(seq![CR]))
    } else {
        None
    }
}

/// The glue side named by a `to` option.
pub open spec fn glue_to_option(v: Seq<char>) -> Option<GlueTo> {
    if v == seq!['p', 'r', 'e', 'v', 'i', 'o', 'u', 's'] {
        Some(GlueTo::Previous)
    } else if v == seq!['n', 'e', 'x', 't'] {
        Some(GlueTo::Next)
    } else {
        None
    }
}

/// The delimiter that the `string` and `line` options select; `line: any`
/// when neither is given.
pub open spec fn delimiter_option(string: Option<Seq<u8>>, line: Option<Seq<char>>) -> Option<DelimSpec> {
    match (string, line) {
        (Some(_), Some(_)) => None,
        (Some(s), None) => Some(DelimSpec::Bytes(s)),
        (None, Some(l)) => line_option(l),
        (None, None) => Some(DelimSpec::Line),
    }
}

fn parse_error(msg: &str) -> (r: Error)
    ensures
        r.spec_id() == ErrorId::Parse,
{
    Error::new(ErrorId::Parse, ErrorDetails::new(msg.to_string(), Span::none()))
}

fn parse_line_option(v: &str) -> (r: Option<Delimiter>)
    ensures
        match r {
            Some(d) => line_option(v@) == Some(d.spec()),
            None => line_option(v@) is None,
        },
{
    proof {
        reveal_strlit("any");
        reveal_strlit("dos");
        reveal_strlit("unix");
        reveal_strlit("mac");
        assert("any"@ =~= seq!['a', 'n', 'y']);
        assert("dos"@ =~= seq!['d', 'o', 's']);
        assert("unix"@ =~= seq!['u', 'n', 'i', 'x']);
        assert("mac"@ =~= seq!['m', 'a', 'c']);
    }
    if str_eq(v, "any") {
        Some(Delimiter::Line)
    } else if str_eq(v, "dos") {
        let r = Delimiter::Bytes(vec![CR, LF]);
        proof {
            assert(r.spec() == DelimSpec::Bytes(seq![CR, LF]));
        }
        Some(r)
    } else if str_eq(v, "unix") {
        let v = vec![LF];
        proof {
            assert(v@ =~= seq![LF]);
        }
        Some(Delimiter::Bytes(v))
    } else if str_eq(v, "mac") {
        let v = vec![CR];
        proof {
            assert(v@ =~= seq![CR]);
        }
        Some(Delimiter::Bytes(v))
    } else {
        None
    }
}

fn parse_glue_to(v: &str) -> (r: Option<GlueTo>)
    ensures
        r == glue_to_option(v@),
{
    proof {
        reveal_strlit("previous");
        reveal_strlit("next");
        assert("previous"@ =~= seq!['p', 'r', 'e', 'v', 'i', 'o', 'u', 's']);
        assert("next"@ =~= seq!['n', 'e', 'x', 't']);
    }
    if str_eq(v, "previous") {
        Some(GlueTo::Previous)
    } else if str_eq(v, "next") {
        Some(GlueTo::Next)
    } else {
        None
    }
}

impl FrameDecoder {
    /// Builds a decoder from its options: at most one of `string` (a literal
    /// delimiter) and `line` (`any`, `dos`, `unix` or `mac`), and optionally
    /// `glue` as the pair `(on, to)` of a regular expression and `previous`
    /// or `next`.
    pub fn from_config(string: Option<&str>, line: Option<&str>, glue: Option<(&str, &str)>) -> (r: Result<FrameDecoder, Error>)
        ensures
            ({
                let sd = match string { Some(s) => Some(s.spec_bytes()), None => None };
                let ld = match line { Some(l) => Some(l@), None => None };
                let bad = delimiter_option(sd, ld) is None || (glue matches Some(g) && glue_to_option(g.1@) is None);
                &&& bad ==> r is Err
                &&& r matches Err(e) ==> e.spec_id() == ErrorId::Parse
                &&& r is Ok <==> !bad && (glue matches Some(g) ==> bytes_regex_valid(g.0@))
                &&& (r matches Ok(dec) ==> {
                    &&& !bad
                    &&& delimiter_option(sd, ld) == Some(dec.spec_delim())
                    &&& dec.wf()
                    &&& match glue {
                        Some(g) => dec.spec_glue() == Some(GlueSpec {
                            pattern: g.0@,
                            to: glue_to_option(g.1@).unwrap(),
                            st: GlueModel::zero(),
                        }),
                        None => dec.spec_glue() is None,
                    }
                })
            }),
    {
        let delimiter = match (string, line) {
            (Some(_), Some(_)) => {
                return Err(parse_error("only one of `string` and `line` may be given"));
            },
            (Some(s), None) => Delimiter::string(s),
            (None, Some(l)) => match parse_line_option(l) {
                Some(d) => d,
                None => {
                    return Err(parse_error("`line` must be one of [\"any\", \"dos\", \"unix\", \"mac\"]"));
                },
            },
            (None, None) => Delimiter::Line,
        };
        let glue = match glue {
            Some((on, to)) => {
                let to = match parse_glue_to(to) {
                    Some(t) => t,
                    None => {
                        return Err(parse_error("`to` must be one of [\"previous\", \"next\"]"));
                    },
                };
                match Glue::new(on, to) {
                    Some(g) => Some(g),
                    None => {
                        return Err(parse_error("invalid regular expression"));
                    },
                }
            },
            None => None,
        };
        Ok(FrameDecoder::new(delimiter, glue))
    }
}

/// The characters of a string option.
pub open spec fn text_of(v: Spanned<Value>) -> Option<Seq<char>> {
    match v.value {
        Value::String(s) => Some(s@),
        _ => None,
    }
}

/// The span of the first offending frame option, the validity of the glue
/// regular expression aside.
pub open spec fn options_error(
    string: Option<Spanned<Value>>,
    line: Option<Spanned<Value>>,
    glue: Option<(Spanned<Value>, Spanned<Value>)>,
) -> Option<Span> {
    if string is Some && line is Some {
        Some(line.unwrap().span)
    } else if string matches Some(v) && text_of(v) is None {
        Some(string.unwrap().span)
    } else if line matches Some(v) && (text_of(v) is None || line_option(text_of(v).unwrap()) is None) {
        Some(line.unwrap().span)
    } else if glue matches Some(g) && text_of(g.0) is None {
        Some(glue.unwrap().0.span)
    } else if glue matches Some(g) && (text_of(g.1) is None || glue_to_option(text_of(g.1).unwrap()) is None) {
        Some(glue.unwrap().1.span)
    } else {
        None
    }
}

fn error_at(msg: &str, span: Span) -> (r: Error)
    ensures
        r.spec_id() == ErrorId::Parse,
        r.spec_details() is Some && r.spec_details().unwrap().1 == span,
{
    Error::new(ErrorId::Parse, ErrorDetails::new(msg.to_string(), span))
}

impl FrameDecoder {
    /// Builds a decoder from option values as parsed from configuration,
    /// each with its source span; an error names the span of the first
    /// offending value.
    pub fn from_options(
        string: Option<&Spanned<Value>>,
        line: Option<&Spanned<Value>>,
        glue: Option<(&Spanned<Value>, &Spanned<Value>)>,
    ) -> (r: Result<FrameDecoder, Error>)
        ensures
            ({
                let so = match string { Some(v) => Some(*v), None => None };
                let lo = match line { Some(v) => Some(*v), None => None };
                let go = match glue { Some(g) => Some((*g.0, *g.1)), None => None };
                match options_error(so, lo, go) {
                    Some(sp) => r matches Err(e) && e.spec_id() == ErrorId::Parse && e.spec_details() is Some
                        && e.spec_details().unwrap().1 == sp,
                    None => {
                        &&& r is Ok <==> (go matches Some(g) ==> bytes_regex_valid(text_of(g.0).unwrap()))
                        &&& r matches Err(e) ==> e.spec_id() == ErrorId::Parse && e.spec_details() is Some
                            && e.spec_details().unwrap().1 == go.unwrap().0.span
                        &&& r matches Ok(dec) ==> {
                            &&& dec.wf()
                            &&& dec.spec_delim() == match (so, lo) {
                                (Some(v), _) => DelimSpec::Bytes(vstd::utf8::encode_utf8(text_of(v).unwrap())),
                                (None, Some(v)) => line_option(text_of(v).unwrap()).unwrap(),
                                (None, None) => DelimSpec::Line,
                            }
                            &&& match go {
                                Some(g) => dec.spec_glue() == Some(GlueSpec {
                                    pattern: text_of(g.0).unwrap(),
                                    to: glue_to_option(text_of(g.1).unwrap()).unwrap(),
                                    st: GlueModel::zero(),
                                }),
                                None => dec.spec_glue() is None,
                            }
                        }
                    },
                }
            }),
    {
        let delimiter = match (string, line) {
            (Some(_), Some(l)) => {
                return Err(error_at("only one of `string` and `line` may be given", l.span));
            },
            (Some(s), None) => match s.as_str() {
                Ok(t) => Delimiter::string(t),
                Err(e) => {
                    return Err(e);
                },
            },
            (None, Some(l)) => {
                let t = match l.as_str() {
                    Ok(t) => t,
                    Err(e) => {
                        return Err(e);
                    },
                };
                match parse_line_option(t) {
                    Some(d) => d,
                    None => {
                        return Err(error_at("`line` must be one of [\"any\", \"dos\", \"unix\", \"mac\"]", l.span));
                    },
                }
            },
            (None, None) => Delimiter::Line,
        };
        let glue = match glue {
            Some((on, to)) => {
                let pattern = match on.as_str() {
                    Ok(t) => t,
                    Err(e) => {
                        return Err(e);
                    },
                };
                let to_text = match to.as_str() {
                    Ok(t) => t,
                    Err(e) => {
                        return Err(e);
                    },
                };
                let side = match parse_glue_to(to_text) {
                    Some(t) => t,
                    None => {
                        return Err(error_at("`to` must be one of [\"previous\", \"next\"]", to.span));
                    },
                };
                match Glue::new(pattern, side) {
                    Some(g) => Some(g),
                    None => {
                        return Err(error_at("invalid regular expression", on.span));
                    },
                }
            },
            None => None,
        };
        Ok(FrameDecoder::new(delimiter, glue))
    }
}

// ---------------------------------------------------------------------------
// A call that emits no frame consumes nothing
// ---------------------------------------------------------------------------

proof fn lemma_split_empty_reads_nothing(d: DelimSpec, b: Seq<u8>, p: int)
    requires
        has_delims(d),
    ensures
        split_from(d, b, p).0.len() == 0 ==> split_from(d, b, p).1 == p,
{
    match delim_from(d, b, p) {
        Some(f) => if delim_ok(b, p, f) {
            assert(split_from(d, b, p).0.len() >= 1);
        },
        None => {},
    }
}

proof fn lemma_glue_empty_keeps_start(pattern: Seq<char>, to: GlueTo, d: DelimSpec, b: Seq<u8>, st: GlueModel)
    requires
        has_delims(d),
    ensures
        glue_scan(pattern, to, d, b, st).1.len() == 0 ==> glue_scan(pattern, to, d, b, st).0.start == st.start,
    decreases b.len() - st.pos,
{
    match delim_from(d, b, st.pos as int) {
        Some(f) => if delim_ok(b, st.pos as int, f) {
            let step = glue_step(
                to,
                st,
                (f.0 + f.1) as nat,
                f.1 as nat,
                regex_is_match(pattern, b.subrange(st.pos as int, f.0)),
            );
            lemma_glue_empty_keeps_start(pattern, to, d, b, step.0);
        },
        None => {},
    }
}

/// A decode call that emits no frame consumes no byte.
pub proof fn lemma_no_frame_no_read(d: DelimSpec, g: Option<GlueSpec>, b: Seq<u8>)
    requires
        g matches Some(gs) ==> gs.st.start == 0,
    ensures
        decode_result(d, g, b).0.len() == 0 ==> decode_result(d, g, b).1 == 0,
{
    if has_delims(d) {
        match g {
            Some(gs) => lemma_glue_empty_keeps_start(gs.pattern, gs.to, d, b, gs.st),
            None => lemma_split_empty_reads_nothing(d, b, 0),
        }
    }
}

// ---------------------------------------------------------------------------
// Any number of chunks
// ---------------------------------------------------------------------------

/// Cut points that only move forward, within the input.
pub open spec fn cuts_ok(b: Seq<u8>, from: int, cuts: Seq<int>) -> bool {
    &&& forall|i: int| 0 <= i < cuts.len() ==> from <= #[trigger] cuts[i] <= b.len()
    &&& forall|i: int, j: int| 0 <= i <= j < cuts.len() ==> cuts[i] <= cuts[j]
}

/// Frames of a decoder without glue fed chunk by chunk: before call `i`
/// the input ends at `cuts[i]`, and each call sees everything not yet
/// consumed; `finish` then runs on what is left.
pub open spec fn fed_frames(d: DelimSpec, b: Seq<u8>, from: int, cuts: Seq<int>) -> Seq<Seq<u8>>
    decreases cuts.len(),
{
    if cuts.len() == 0 {
        finish_frames(d, b.subrange(from, b.len() as int))
    } else {
        let s = split(d, b.subrange(from, cuts[0]));
        s.0 + fed_frames(d, b, from + s.1, cuts.drop_first())
    }
}

/// However the input is split into chunks, a decoder without glue emits
/// the frames it emits for the whole input fed at once, provided the last
/// call sees the whole input.
pub proof fn lemma_any_chunking_keeps_frames(d: DelimSpec, b: Seq<u8>, cuts: Seq<int>)
    requires
        has_delims(d),
        cuts_ok(b, 0, cuts),
        cuts.len() > 0,
        cuts.last() == b.len(),
    ensures
        fed_frames(d, b, 0, cuts) == all_frames(d, b),
{
    lemma_fed_frames(d, b, 0, cuts);
    assert(b.subrange(0, b.len() as int) =~= b);
}

proof fn lemma_fed_frames(d: DelimSpec, b: Seq<u8>, from: int, cuts: Seq<int>)
    requires
        has_delims(d),
        0 <= from <= b.len(),
        cuts_ok(b, from, cuts),
        cuts.len() > 0,
        cuts.last() == b.len(),
    ensures
        fed_frames(d, b, from, cuts) == all_frames(d, b.subrange(from, b.len() as int)),
    decreases cuts.len(),
{
    let c = b.subrange(from, b.len() as int);
    let k = cuts[0] - from;
    assert(c.subrange(0, k) =~= b.subrange(from, cuts[0]));
    lemma_chunking_keeps_frames(d, c, k);
    let s = split(d, b.subrange(from, cuts[0]));
    assert(c.subrange(s.1, c.len() as int) =~= b.subrange(from + s.1, b.len() as int));
    assert(split(d, c.subrange(0, k)) == s);
    if cuts.len() == 1 {
        assert(cuts.drop_first().len() == 0);
        assert(fed_frames(d, b, from + s.1, cuts.drop_first()) == finish_frames(d, b.subrange(from + s.1, b.len() as int)));
        assert(k == c.len());
        assert(c.subrange(0, k) =~= c);
        assert(all_frames(d, c) == s.0 + finish_frames(d, c.subrange(s.1, c.len() as int)));
    } else {
        let tail = cuts.drop_first();
        assert(cuts_ok(b, from + s.1, tail)) by {
            assert forall|i: int| 0 <= i < tail.len() implies from + s.1 <= #[trigger] tail[i] <= b.len() by {
                assert(tail[i] == cuts[i + 1]);
                assert(cuts[0] <= cuts[i + 1]);
            }
            assert forall|i: int, j: int| 0 <= i <= j < tail.len() implies tail[i] <= tail[j] by {
                assert(tail[i] == cuts[i + 1]);
                assert(tail[j] == cuts[j + 1]);
            }
        }
        assert(tail.last() == cuts.last());
        lemma_fed_frames(d, b, from + s.1, tail);
    }
}

// ---------------------------------------------------------------------------
// A second call on what is left finds nothing new
// ---------------------------------------------------------------------------

proof fn lemma_glue_scan_done(pattern: Seq<char>, to: GlueTo, d: DelimSpec, b: Seq<u8>, st: GlueModel)
    requires
        has_delims(d),
    ensures
        glue_scan(pattern, to, d, b, glue_scan(pattern, to, d, b, st).0) == (glue_scan(pattern, to, d, b, st).0, Seq::<Seq<u8>>::empty()),
    decreases b.len() - st.pos,
{
    match delim_from(d, b, st.pos as int) {
        Some(f) => if delim_ok(b, st.pos as int, f) {
            let step = glue_step(
                to,
                st,
                (f.0 + f.1) as nat,
                f.1 as nat,
                regex_is_match(pattern, b.subrange(st.pos as int, f.0)),
            );
            lemma_glue_scan_done(pattern, to, d, b, step.0);
        },
        None => {},
    }
}

/// When a decode call emits no frame, calling it again on the same bytes
/// from the state it left emits none either.
pub proof fn lemma_no_frame_stays_no_frame(d: DelimSpec, g: Option<GlueSpec>, b: Seq<u8>)
    requires
        g matches Some(gs) ==> gs.st.start == 0,
        decode_result(d, g, b).0.len() == 0,
    ensures
        decode_result(d, decode_result(d, g, b).2, b).0.len() == 0,
{
    if has_delims(d) {
        match g {
            Some(gs) => {
                lemma_glue_empty_keeps_start(gs.pattern, gs.to, d, b, gs.st);
                lemma_glue_scan_done(gs.pattern, gs.to, d, b, gs.st);
                let r = glue_scan(gs.pattern, gs.to, d, b, gs.st);
                assert(r.0.rebased() == r.0);
            },
            None => {},
        }
    }
}

// ---------------------------------------------------------------------------
// Chunking does not change glued frames either
// ---------------------------------------------------------------------------

/// A glue state with its indices counted from `r`.
pub open spec fn shifted(st: GlueModel, r: nat) -> GlueModel {
    GlueModel { start: (st.start - r) as nat, pos: (st.pos - r) as nat, delim_len: st.delim_len }
}

/// All frames of a complete input with glue: those of one decode call from
/// state `st`, then those of `finish` on what it left.
pub open spec fn all_glued_frames(pattern: Seq<char>, to: GlueTo, d: DelimSpec, b: Seq<u8>, st: GlueModel) -> Seq<Seq<u8>> {
    let r = glue_scan(pattern, to, d, b, st);
    r.1 + finish_frames(d, b.subrange(r.0.start as int, b.len() as int))
}

proof fn lemma_glue_prefix(pattern: Seq<char>, to: GlueTo, d: DelimSpec, b: Seq<u8>, k: int, st: GlueModel)
    requires
        has_delims(d),
        st.wf(),
        st.pos <= k <= b.len(),
    ensures
        ({
            let sp = glue_scan(pattern, to, d, b.subrange(0, k), st);
            let rest = glue_scan(pattern, to, d, b, sp.0);
            glue_scan(pattern, to, d, b, st) == (rest.0, sp.1 + rest.1)
        }),
    decreases k - st.pos,
{
    let c = b.subrange(0, k);
    lemma_delim_prefix(d, b, k, st.pos as int);
    lemma_delim_ok(d, c, st.pos as int);
    match delim_from(d, c, st.pos as int) {
        Some(f) => {
            assert(c.subrange(st.pos as int, f.0) =~= b.subrange(st.pos as int, f.0));
            let m = regex_is_match(pattern, b.subrange(st.pos as int, f.0));
            let step = glue_step(to, st, (f.0 + f.1) as nat, f.1 as nat, m);
            lemma_glue_prefix(pattern, to, d, b, k, step.0);
            let sp = glue_scan(pattern, to, d, c, step.0);
            let rest = glue_scan(pattern, to, d, b, sp.0);
            match step.1 {
                Some(r) => {
                    assert(c.subrange(r.0, r.1) =~= b.subrange(r.0, r.1));
                    assert(seq![b.subrange(r.0, r.1)] + (sp.1 + rest.1) =~= seq![b.subrange(r.0, r.1)] + sp.1 + rest.1);
                },
                None => {},
            }
        },
        None => {
            let rest = glue_scan(pattern, to, d, b, st);
            assert(Seq::<Seq<u8>>::empty() + rest.1 =~= rest.1);
        },
    }
}

proof fn lemma_glue_step_shift(to: GlueTo, st: GlueModel, e: nat, dl: nat, m: bool, r: nat)
    requires
        r <= st.start <= st.pos <= e,
    ensures
        shifted(glue_step(to, st, e, dl, m).0, r) == glue_step(to, shifted(st, r), (e - r) as nat, dl, m).0,
        glue_step(to, st, e, dl, m).0.start >= r,
        glue_step(to, st, e, dl, m).1 matches Some(x) ==> x.0 >= r && glue_step(to, shifted(st, r), (e - r) as nat, dl, m).1
            == Some((x.0 - r, x.1 - r)),
        glue_step(to, st, e, dl, m).1 is None ==> glue_step(to, shifted(st, r), (e - r) as nat, dl, m).1 is None,
{
}

proof fn lemma_glue_shift(pattern: Seq<char>, to: GlueTo, d: DelimSpec, b: Seq<u8>, r: nat, st: GlueModel)
    requires
        has_delims(d),
        st.wf(),
        r <= st.start,
        st.pos <= b.len(),
    ensures
        ({
            let c = b.subrange(r as int, b.len() as int);
            let rb = glue_scan(pattern, to, d, b, st);
            let rc = glue_scan(pattern, to, d, c, shifted(st, r));
            &&& shifted(rb.0, r) == rc.0
            &&& rb.0.start >= r
            &&& rb.1 == rc.1
        }),
    decreases b.len() - st.pos,
{
    let c = b.subrange(r as int, b.len() as int);
    let q = st.pos - r;
    lemma_delim_shift(d, b, r as int, q);
    assert(r + q == st.pos);
    lemma_delim_ok(d, b, st.pos as int);
    lemma_delim_ok(d, c, q);
    match delim_from(d, c, q) {
        Some(fc) => {
            let f = (fc.0 + r, fc.1);
            assert(c.subrange(q, fc.0) =~= b.subrange(st.pos as int, f.0));
            let m = regex_is_match(pattern, b.subrange(st.pos as int, f.0));
            let step = glue_step(to, st, (f.0 + f.1) as nat, f.1 as nat, m);
            lemma_glue_step_shift(to, st, (f.0 + f.1) as nat, f.1 as nat, m, r);
            assert((f.0 + f.1 - r) as nat == (fc.0 + fc.1) as nat);
            lemma_glue_shift(pattern, to, d, b, r, step.0);
            match step.1 {
                Some(x) => {
                    assert(c.subrange(x.0 - r, x.1 - r) =~= b.subrange(x.0, x.1));
                },
                None => {},
            }
        },
        None => {},
    }
}

/// With glue too, feeding a prefix first and then everything from where
/// that call stopped yields the same frames, in the same order, as feeding
/// the whole input at once, `finish` running on what is left either way.
pub proof fn lemma_glued_chunking_keeps_frames(pattern: Seq<char>, to: GlueTo, d: DelimSpec, b: Seq<u8>, k: int, st: GlueModel)
    requires
        has_delims(d),
        st.wf(),
        st.start == 0,
        st.pos <= k <= b.len(),
    ensures
        ({
            let g = GlueSpec { pattern, to, st };
            let first = decode_result(d, Some(g), b.subrange(0, k));
            &&& 0 <= first.1 <= k
            &&& first.2 matches Some(g2) && all_glued_frames(pattern, to, d, b, st) == first.0
                + all_glued_frames(pattern, to, d, b.subrange(first.1, b.len() as int), g2.st)
        }),
{
    let c0 = b.subrange(0, k);
    let sp = glue_scan(pattern, to, d, c0, st);
    lemma_glue_scan_bounds(pattern, to, d, c0, st);
    lemma_glue_prefix(pattern, to, d, b, k, st);
    let r = sp.0.start;
    lemma_glue_shift(pattern, to, d, b, r, sp.0);
    let c = b.subrange(r as int, b.len() as int);
    let rb = glue_scan(pattern, to, d, b, sp.0);
    let rc = glue_scan(pattern, to, d, c, sp.0.rebased());
    assert(shifted(sp.0, r) == sp.0.rebased());
    lemma_glue_scan_bounds(pattern, to, d, b, sp.0);
    assert(c.subrange(rc.0.start as int, c.len() as int) =~= b.subrange(rb.0.start as int, b.len() as int));
    assert(sp.1 + rb.1 + finish_frames(d, b.subrange(rb.0.start as int, b.len() as int)) =~= sp.1 + (rc.1
        + finish_frames(d, c.subrange(rc.0.start as int, c.len() as int))));
}

/// Frames of a glued decoder fed chunk by chunk from glue state `st`:
/// before call `i` the input ends at `cuts[i]`, and each call sees
/// everything not yet consumed; `finish` then runs on what is left.
pub open spec fn fed_glued_frames(
    pattern: Seq<char>,
    to: GlueTo,
    d: DelimSpec,
    b: Seq<u8>,
    from: int,
    st: GlueModel,
    cuts: Seq<int>,
) -> Seq<Seq<u8>>
    decreases cuts.len(),
{
    if cuts.len() == 0 {
        finish_frames(d, b.subrange(from, b.len() as int))
    } else {
        let r = decode_result(d, Some(GlueSpec { pattern, to, st }), b.subrange(from, cuts[0]));
        r.0 + fed_glued_frames(pattern, to, d, b, from + r.1, r.2.unwrap().st, cuts.drop_first())
    }
}

/// However the input is split into chunks, a glued decoder emits the frames
/// it emits for the whole input fed at once, provided each call sees what
/// the previous one left and the last call sees the whole input.
pub proof fn lemma_any_glued_chunking_keeps_frames(pattern: Seq<char>, to: GlueTo, d: DelimSpec, b: Seq<u8>, cuts: Seq<int>)
    requires
        has_delims(d),
        cuts_ok(b, 0, cuts),
        cuts.len() > 0,
        cuts.last() == b.len(),
    ensures
        fed_glued_frames(pattern, to, d, b, 0, GlueModel::zero(), cuts) == all_glued_frames(pattern, to, d, b, GlueModel::zero()),
{
    lemma_fed_glued_frames(pattern, to, d, b, 0, GlueModel::zero(), cuts);
    assert(b.subrange(0, b.len() as int) =~= b);
}

proof fn lemma_fed_glued_frames(pattern: Seq<char>, to: GlueTo, d: DelimSpec, b: Seq<u8>, from: int, st: GlueModel, cuts: Seq<int>)
    requires
        has_delims(d),
        0 <= from <= b.len(),
        st.wf(),
        st.start == 0,
        cuts_ok(b, from + st.pos, cuts),
        cuts.len() > 0,
        cuts.last() == b.len(),
    ensures
        fed_glued_frames(pattern, to, d, b, from, st, cuts) == all_glued_frames(pattern, to, d, b.subrange(from, b.len() as int), st),
    decreases cuts.len(),
{
    let c = b.subrange(from, b.len() as int);
    let k = cuts[0] - from;
    assert(c.subrange(0, k) =~= b.subrange(from, cuts[0]));
    lemma_glued_chunking_keeps_frames(pattern, to, d, c, k, st);
    let g = GlueSpec { pattern, to, st };
    let r = decode_result(d, Some(g), b.subrange(from, cuts[0]));
    let sp = glue_scan(pattern, to, d, b.subrange(from, cuts[0]), st);
    lemma_glue_scan_bounds(pattern, to, d, b.subrange(from, cuts[0]), st);
    assert(c.subrange(r.1, c.len() as int) =~= b.subrange(from + r.1, b.len() as int));
    let st2 = r.2.unwrap().st;
    assert(decode_result(d, Some(g), c.subrange(0, k)) == r);
    assert(r.2 is Some);
    if cuts.len() == 1 {
        assert(cuts.drop_first().len() == 0);
        assert(cuts[0] == cuts.last());
        assert(k == c.len());
        assert(c.subrange(0, k) =~= c);
        assert(b.subrange(from, cuts[0]) == c);
        assert(sp == glue_scan(pattern, to, d, c, st));
        assert(r.0 == sp.1);
        assert(r.1 == sp.0.start);
        assert(fed_glued_frames(pattern, to, d, b, from + r.1, st2, cuts.drop_first()) == finish_frames(d, b.subrange(from + r.1, b.len() as int)));
        assert(fed_glued_frames(pattern, to, d, b, from, st, cuts) == r.0 + finish_frames(d, b.subrange(from + r.1, b.len() as int)));
        assert(all_glued_frames(pattern, to, d, c, st) == sp.1 + finish_frames(d, c.subrange(sp.0.start as int, c.len() as int)));
    } else {
        let tail = cuts.drop_first();
        assert(cuts_ok(b, from + r.1 + st2.pos, tail)) by {
            assert forall|i: int| 0 <= i < tail.len() implies from + r.1 + st2.pos <= #[trigger] tail[i] <= b.len() by {
                assert(tail[i] == cuts[i + 1]);
                assert(cuts[0] <= cuts[i + 1]);
            }
            assert forall|i: int, j: int| 0 <= i <= j < tail.len() implies tail[i] <= tail[j] by {
                assert(tail[i] == cuts[i + 1]);
                assert(tail[j] == cuts[j + 1]);
            }
        }
        assert(tail.last() == cuts.last());
        lemma_fed_glued_frames(pattern, to, d, b, from + r.1, st2, tail);
        assert(fed_glued_frames(pattern, to, d, b, from, st, cuts) == r.0 + fed_glued_frames(pattern, to, d, b, from + r.1, st2, tail));
        assert(all_glued_frames(pattern, to, d, c, st) == r.0 + all_glued_frames(pattern, to, d, c.subrange(r.1, c.len() as int), st2));
    }
}

// ---------------------------------------------------------------------------
// A call that emits frames consumes bytes
// ---------------------------------------------------------------------------

proof fn lemma_split_frames_read(d: DelimSpec, b: Seq<u8>, p: int)
    requires
        has_delims(d),
    ensures
        split_from(d, b, p).0.len() > 0 ==> split_from(d, b, p).1 > p,
    decreases b.len() - p,
{
    lemma_delim_ok(d, b, p);
    match delim_from(d, b, p) {
        Some(f) => if delim_ok(b, p, f) {
            lemma_split_frames_read(d, b, f.0 + f.1);
            lemma_split_bounds_from(d, b, f.0 + f.1);
        },
        None => {},
    }
}

proof fn lemma_split_bounds_from(d: DelimSpec, b: Seq<u8>, p: int)
    requires
        has_delims(d),
    ensures
        split_from(d, b, p).1 >= p,
    decreases b.len() - p,
{
    lemma_delim_ok(d, b, p);
    match delim_from(d, b, p) {
        Some(f) => if delim_ok(b, p, f) {
            lemma_split_bounds_from(d, b, f.0 + f.1);
        },
        None => {},
    }
}

proof fn lemma_glue_frames_move_start(pattern: Seq<char>, to: GlueTo, d: DelimSpec, b: Seq<u8>, st: GlueModel)
    requires
        has_delims(d),
        st.wf(),
    ensures
        glue_scan(pattern, to, d, b, st).0.start >= st.start,
        glue_scan(pattern, to, d, b, st).1.len() > 0 ==> glue_scan(pattern, to, d, b, st).0.start > st.start,
    decreases b.len() - st.pos,
{
    lemma_delim_ok(d, b, st.pos as int);
    match delim_from(d, b, st.pos as int) {
        Some(f) => if delim_ok(b, st.pos as int, f) {
            let step = glue_step(
                to,
                st,
                (f.0 + f.1) as nat,
                f.1 as nat,
                regex_is_match(pattern, b.subrange(st.pos as int, f.0)),
            );
            lemma_glue_frames_move_start(pattern, to, d, b, step.0);
        },
        None => {},
    }
}

/// A decode call that emits a frame consumes at least one byte.
pub proof fn lemma_frames_read_bytes(d: DelimSpec, g: Option<GlueSpec>, b: Seq<u8>)
    requires
        has_delims(d),
        g matches Some(gs) ==> gs.st.start == 0 && gs.st.wf(),
    ensures
        decode_result(d, g, b).0.len() > 0 ==> decode_result(d, g, b).1 > 0,
{
    match g {
        Some(gs) => lemma_glue_frames_move_start(gs.pattern, gs.to, d, b, gs.st),
        None => lemma_split_frames_read(d, b, 0),
    }
}

/// A decode call reads no more than it is given.
pub proof fn lemma_decode_result_read_bound(d: DelimSpec, g: Option<GlueSpec>, b: Seq<u8>)
    requires
        has_delims(d),
        g matches Some(gs) ==> gs.st.wf() && gs.st.pos <= b.len(),
    ensures
        0 <= decode_result(d, g, b).1 <= b.len(),
{
    match g {
        Some(gs) => {
            lemma_glue_scan_bounds(gs.pattern, gs.to, d, b, gs.st);
        },
        None => lemma_split_bounds(d, b, 0),
    }
}

} // verus!
