use vstd::prelude::*;
use crate::buf::{Buf, BufView};
use crate::error::{Error, ErrorId};
use crate::event::{Event, FrameEventDecoder, is_text_event, text_events_of};
use crate::frame::{DelimSpec, GlueSpec, decode_result, finish_frames, has_delims, lemma_decode_result_read_bound, lemma_frames_read_bytes, lemma_no_frame_no_read, lemma_no_frame_stays_no_frame};
use crate::stream::StreamDecoder;

verus! {

/// Largest capacity from which a buffer may still grow.
pub const GROW_LIMIT: usize = usize::MAX / 4;

/// `e` is the text event of some frame.
pub open spec fn is_some_text_event(e: Event) -> bool {
    exists|f: Seq<u8>| is_text_event(e, f)
}

/// Every event in `new` is the text event of some frame.
pub open spec fn all_text_events(new: Seq<Event>) -> bool {
    forall|i: int| 0 <= i < new.len() ==> is_some_text_event(#[trigger] new[i])
}

proof fn lemma_extend_text(before: Seq<Event>, after: Seq<Event>, start: int, frames: Seq<Seq<u8>>)
    requires
        0 <= start <= before.len(),
        before.len() <= after.len(),
        after.subrange(0, before.len() as int) == before,
        all_text_events(before.subrange(start, before.len() as int)),
        text_events_of(after.subrange(before.len() as int, after.len() as int), frames),
    ensures
        all_text_events(after.subrange(start, after.len() as int)),
        after.subrange(0, start) == before.subrange(0, start),
{
    let tail = after.subrange(start, after.len() as int);
    assert forall|i: int| 0 <= i < tail.len() implies is_some_text_event(#[trigger] tail[i]) by {
        if start + i < before.len() {
            let old_tail = before.subrange(start, before.len() as int);
            assert(tail[i] == after[start + i]);
            assert(after[start + i] == after.subrange(0, before.len() as int)[start + i]);
            assert(old_tail[i] == before[start + i]);
            assert(tail[i] == old_tail[i]);
            assert(0 <= i < old_tail.len());
            assert(is_some_text_event(old_tail[i]));
        } else {
            let j = start + i - before.len();
            assert(tail[i] == after.subrange(before.len() as int, after.len() as int)[j]);
            assert(is_text_event(tail[i], frames[j]));
            assert(exists|f: Seq<u8>| is_text_event(tail[i], f));
        }
    }
    assert(all_text_events(tail));
    assert(after.subrange(0, start) =~= before.subrange(0, start)) by {
        assert forall|i: int| 0 <= i < start implies after.subrange(0, start)[i] == before.subrange(0, start)[i] by {
            assert(after[i] == after.subrange(0, before.len() as int)[i]);
        }
    }
}

/// The glue rules of `a` and `b` agree.
pub open spec fn same_glue_rule(a: Option<GlueSpec>, b: Option<GlueSpec>) -> bool {
    match (a, b) {
        (Some(x), Some(y)) => x.pattern == y.pattern && x.to == y.to,
        (None, None) => true,
        _ => false,
    }
}

/// The outcome of a decode call from `old_b` to `new_b` that appended
/// `events`: its last round ran the frame stage on the decoded bytes `s`
/// with glue state `g`. `s` extends what was staged before the call; with a
/// plain stream it is exactly that plus the input the call consumed.
pub open spec fn decoded_from(
    old_b: BufDecoder,
    new_b: BufDecoder,
    s: Seq<u8>,
    g: Option<GlueSpec>,
    events: Seq<Event>,
    flush: bool,
) -> bool {
    let d = old_b.delim();
    let res = decode_result(d, g, s);
    let rest = s.subrange(res.1, s.len() as int);
    let consumed = old_b.input().readable().len() - new_b.input().readable().len();
    &&& g matches Some(gs) ==> gs.st.start == 0 && gs.st.wf()
    &&& same_glue_rule(g, old_b.glue())
    &&& old_b.staged().readable().is_prefix_of(s)
    &&& old_b.stream_output().is_prefix_of(new_b.stream_output())
    &&& s == old_b.staged().readable() + new_b.stream_output().subrange(
        old_b.stream_output().len() as int,
        new_b.stream_output().len() as int,
    )
    &&& old_b.plain_stream() ==> {
        &&& 0 <= consumed
        &&& s == old_b.staged().readable() + old_b.input().readable().subrange(0, consumed)
        &&& new_b.input().readable() == old_b.input().readable().subrange(consumed, old_b.input().readable().len() as int)
    }
    &&& if flush {
        text_events_of(events, res.0 + finish_frames(d, rest))
    } else {
        &&& text_events_of(events, res.0)
        &&& new_b.staged().readable() == rest
        &&& new_b.glue() == res.2
    }
}

/// A plain decode call that emitted events, with delimited framing,
/// consumed raw bytes, or else staged bytes.
pub proof fn lemma_plain_progress(old_b: BufDecoder, new_b: BufDecoder, s: Seq<u8>, g: Option<GlueSpec>, events: Seq<Event>)
    requires
        decoded_from(old_b, new_b, s, g, events, false),
        old_b.plain_stream(),
        has_delims(old_b.delim()),
        events.len() > 0,
    ensures
        new_b.input().readable().len() < old_b.input().readable().len() || (new_b.input().readable().len()
            == old_b.input().readable().len() && new_b.staged().readable().len() < old_b.staged().readable().len()),
{
    lemma_frames_read_bytes(old_b.delim(), g, s);
    let res = decode_result(old_b.delim(), g, s);
    lemma_decode_result_read_bound(old_b.delim(), g, s);
}

proof fn lemma_text_events_concat(a: Seq<Event>, b: Seq<Event>, fa: Seq<Seq<u8>>, fb: Seq<Seq<u8>>)
    requires
        text_events_of(a, fa),
        text_events_of(b, fb),
    ensures
        text_events_of(a + b, fa + fb),
{
    assert forall|i: int| 0 <= i < (a + b).len() implies is_text_event((a + b)[i], (fa + fb)[i]) by {
        if i >= a.len() {
            assert((a + b)[i] == b[i - a.len()]);
            assert((fa + fb)[i] == fb[i - a.len()]);
        }
    }
}

/// The whole decoding stack for one source: raw bytes in `ibuf`, a stream
/// decoder, decoded bytes in `sbuf`, and the frame-event stage.
pub struct BufDecoder {
    stream: StreamDecoder,
    sbuf: Buf,
    frame_event: FrameEventDecoder,
    ibuf: Buf,
    /// The last call of the stream stage read and wrote nothing.
    waiting: Ghost<bool>,
    /// Every byte the stream stage has written, in order.
    emitted: Ghost<Seq<u8>>,
}

impl BufDecoder {
    /// Raw input waiting for the stream stage.
    pub closed spec fn input(&self) -> BufView {
        self.ibuf@
    }

    /// Decoded bytes waiting for the frame stage.
    pub closed spec fn staged(&self) -> BufView {
        self.sbuf@
    }

    /// The stream stage copies bytes straight through.
    pub closed spec fn plain_stream(&self) -> bool {
        self.stream.is_plain()
    }

    pub closed spec fn delim(&self) -> DelimSpec {
        self.frame_event.frame.spec_delim()
    }

    pub closed spec fn glue(&self) -> Option<GlueSpec> {
        self.frame_event.frame.spec_glue()
    }

    /// The last call of the stream stage reported `(0, 0)`: it needs more
    /// input.
    pub closed spec fn stream_waiting(&self) -> bool {
        self.waiting@
    }

    /// Every byte the stream stage has written so far, in order.
    pub closed spec fn stream_output(&self) -> Seq<u8> {
        self.emitted@
    }

    /// No complete frame waits among the decoded bytes.
    pub open spec fn settled(&self) -> bool {
        decode_result(self.delim(), self.glue(), self.staged().readable()).0.len() == 0
    }

    pub closed spec fn wf(&self) -> bool {
        &&& self.ibuf@.wf()
        &&& self.sbuf@.wf()
        &&& self.ibuf@.data.len() <= usize::MAX / 2
        &&& self.sbuf@.data.len() <= usize::MAX / 2
        &&& self.frame_event.wf()
        &&& self.frame_event.frame.accepts(self.sbuf@.readable().len())
    }

    pub fn new(stream: StreamDecoder, frame_event: FrameEventDecoder) -> (r: BufDecoder)
        requires
            frame_event.wf(),
            frame_event.frame.accepts(0),
        ensures
            r.wf(),
            r.input().data.len() == 0,
            r.staged().data.len() == 0,
            r.input().read_pos == 0 && r.input().write_pos == 0,
            r.staged().read_pos == 0 && r.staged().write_pos == 0,
            r.input().readable().len() == 0,
            r.staged().readable().len() == 0,
            r.plain_stream() == stream.is_plain(),
            r.delim() == frame_event.frame.spec_delim(),
            r.glue() == frame_event.frame.spec_glue(),
    {
        BufDecoder { stream, sbuf: Buf::new(), frame_event, ibuf: Buf::new(), waiting: Ghost(false), emitted: Ghost(Seq::empty()) }
    }

    /// The numbers of raw and of decoded bytes waiting.
    pub fn pending(&self) -> (r: (usize, usize))
        requires
            self.wf(),
        ensures
            r.0 == self.input().readable().len(),
            r.1 == self.staged().readable().len(),
    {
        (self.ibuf.read().len(), self.sbuf.read().len())
    }

    /// Nothing waits in either buffer.
    pub fn is_empty(&self) -> (r: bool)
        requires
            self.wf(),
        ensures
            r == (self.input().readable().len() == 0 && self.staged().readable().len() == 0),
    {
        self.ibuf.read().len() == 0 && self.sbuf.read().len() == 0
    }

    /// Drops everything buffered.
    pub fn clear(&mut self)
        requires
            old(self).wf(),
        ensures
            final(self).input().data.len() == 0,
            final(self).staged().data.len() == 0,
            final(self).input().readable().len() == 0,
            final(self).staged().readable().len() == 0,
    {
        self.sbuf.clear();
        self.ibuf.clear();
        proof {
            assert(self.ibuf@.readable() =~= Seq::<u8>::empty());
            assert(self.sbuf@.readable() =~= Seq::<u8>::empty());
        }
    }

    /// The input buffer, with room to write; `None` once it has reached the
    /// growth limit without room.
    pub fn writeable_buf(&mut self) -> (r: Option<&mut Buf>)
        requires
            old(self).wf(),
        ensures
            match r {
                Some(b) => {
                    &&& b@ == old(self).input().made_writeable()
                    &&& b@.wf()
                    &&& b@.writable_len() > 0
                    &&& b@.readable() == old(self).input().readable()
                    &&& final(self).input() == final(b)@
                    &&& final(self).staged() == old(self).staged()
                },
                None => {
                    &&& *final(self) == *old(self)
                    &&& old(self).input().writable_len() == 0
                    &&& old(self).input().data.len() > GROW_LIMIT
                },
            },
    {
        if self.ibuf.write_pos() == self.ibuf.len() && self.ibuf.len() > GROW_LIMIT {
            return None;
        }
        self.ibuf.ensure_writeable();
        Some(&mut self.ibuf)
    }

    /// Appends bytes to the input buffer, growing it as needed; returns how
    /// many were taken, all of them unless the buffer reached the growth
    /// limit.
    #[verifier::rlimit(50)]
    pub fn feed(&mut self, data: &[u8]) -> (r: usize)
        requires
            old(self).wf(),
        ensures
            final(self).wf(),
            r <= data@.len(),
            final(self).input().readable() == old(self).input().readable() + data@.subrange(0, r as int),
            final(self).staged() == old(self).staged(),
            final(self).plain_stream() == old(self).plain_stream(),
            final(self).delim() == old(self).delim(),
            final(self).glue() == old(self).glue(),
            r < data@.len() ==> final(self).input().writable_len() == 0 && final(self).input().data.len() > GROW_LIMIT,
    {
        let mut done: usize = 0;
        while done < data.len()
            invariant
                self.wf(),
                done <= data@.len(),
                self.ibuf@.readable() == old(self).ibuf@.readable() + data@.subrange(0, done as int),
                self.sbuf@ == old(self).sbuf@,
                self.frame_event == old(self).frame_event,
                self.stream.is_plain() == old(self).stream.is_plain(),
            decreases data@.len() - done,
        {
            if self.ibuf.write_pos() == self.ibuf.len() && self.ibuf.len() > GROW_LIMIT {
                return done;
            }
            self.ibuf.ensure_writeable();
            let ghost mid = self.ibuf@;
            let room = self.ibuf.len() - self.ibuf.write_pos();
            let left = data.len() - done;
            let n: usize = if left <= room { left } else { room };
            let src = &data[done..done + n];
            let w = self.ibuf.write();
            crate::stream::decode_plain(src, w);
            self.ibuf.advance_write_pos(n);
            proof {
                let wp = mid.write_pos as int;
                assert(self.ibuf@.data.subrange(mid.read_pos as int, wp) =~= mid.data.subrange(mid.read_pos as int, wp));
                assert(self.ibuf@.readable() =~= mid.readable() + src@);
                assert(data@.subrange(0, done as int) + src@ =~= data@.subrange(0, done + n));
            }
            done = done + n;
        }
        done
    }

    /// Decodes what is buffered into events until at least one event comes
    /// out or the stream stage needs more input.
    pub fn decode(&mut self, out: &mut Vec<Event>) -> (r: Result<usize, Error>)
        requires
            old(self).wf(),
        ensures
            final(self).wf(),
            final(out)@.subrange(0, old(out)@.len() as int) == old(out)@,
            all_text_events(final(out)@.subrange(old(out)@.len() as int, final(out)@.len() as int)),
            r matches Ok(n) ==> final(out)@.len() == old(out)@.len() + n,
            r matches Err(e) ==> e.spec_id() == ErrorId::Io,
            r is Err && old(self).plain_stream() ==> final(self).staged().writable_len() == 0
                && final(self).staged().data.len() > GROW_LIMIT,
            r matches Ok(n) && n == 0 ==> final(self).settled(),
            r matches Ok(n) && n == 0 && old(self).plain_stream() ==> final(self).input().readable().len() == 0,
            final(self).plain_stream() == old(self).plain_stream(),
            final(self).delim() == old(self).delim(),
            r matches Ok(_) ==> exists|s: Seq<u8>, g: Option<GlueSpec>| decoded_from(*old(self), *final(self), s, g,
                final(out)@.subrange(old(out)@.len() as int, final(out)@.len() as int), false),
            r matches Ok(n) && n == 0 ==> final(self).input().readable().len() == 0 || final(self).stream_waiting(),
    {
        self.decode0(out, false)
    }

    /// Like `decode`, then also emits the trailing partial frame.
    pub fn flush(&mut self, out: &mut Vec<Event>) -> (r: Result<usize, Error>)
        requires
            old(self).wf(),
        ensures
            final(self).wf(),
            final(out)@.subrange(0, old(out)@.len() as int) == old(out)@,
            all_text_events(final(out)@.subrange(old(out)@.len() as int, final(out)@.len() as int)),
            r matches Ok(n) ==> final(out)@.len() == old(out)@.len() + n && final(self).staged().readable().len() == 0,
            r matches Err(e) ==> e.spec_id() == ErrorId::Io,
            r is Err && old(self).plain_stream() ==> final(self).staged().writable_len() == 0
                && final(self).staged().data.len() > GROW_LIMIT,
            final(self).plain_stream() == old(self).plain_stream(),
            final(self).delim() == old(self).delim(),
            r matches Ok(_) ==> exists|s: Seq<u8>, g: Option<GlueSpec>| decoded_from(*old(self), *final(self), s, g,
                final(out)@.subrange(old(out)@.len() as int, final(out)@.len() as int), true),
    {
        self.decode0(out, true)
    }

    /// One call of the stream stage on the raw input; `Ok(true)` when it
    /// read and wrote nothing.
    #[verifier::rlimit(50)]
    fn stream_step(&mut self) -> (r: Result<bool, Error>)
        requires
            old(self).wf(),
            old(self).ibuf@.readable().len() > 0,
            !(old(self).sbuf@.writable_len() == 0 && old(self).sbuf@.data.len() > GROW_LIMIT),
        ensures
            final(self).wf(),
            final(self).frame_event == old(self).frame_event,
            final(self).stream.is_plain() == old(self).stream.is_plain(),
            final(self).sbuf@.readable().len() >= old(self).sbuf@.readable().len(),
            old(self).sbuf@.readable().is_prefix_of(final(self).sbuf@.readable()),
            final(self).emitted@ == old(self).emitted@ + final(self).sbuf@.readable().subrange(
                old(self).sbuf@.readable().len() as int,
                final(self).sbuf@.readable().len() as int,
            ),
            ({
                let k = old(self).ibuf@.readable().len() - final(self).ibuf@.readable().len();
                &&& 0 <= k
                &&& final(self).ibuf@.readable() == old(self).ibuf@.readable().subrange(k, old(self).ibuf@.readable().len() as int)
                &&& old(self).stream.is_plain() ==> r is Ok && k > 0 && final(self).sbuf@.readable() == old(self).sbuf@.readable()
                    + old(self).ibuf@.readable().subrange(0, k)
                &&& r matches Ok(w) ==> w == (k == 0 && final(self).sbuf@.readable() == old(self).sbuf@.readable())
                    && final(self).waiting@ == w
                &&& r == Ok::<bool, Error>(false) ==> k > 0 || final(self).sbuf@.readable().len() > old(self).sbuf@.readable().len()
            }),
            r matches Err(e) ==> e.spec_id() == ErrorId::Io,
    {
        self.sbuf.ensure_writeable();
        let ghost sb = self.sbuf@;
        let ghost ib = self.ibuf@;
        let r = match self.stream.decode(self.ibuf.read(), self.sbuf.write()) {
            Ok(r) => r,
            Err(e) => {
                return Err(e);
            },
        };
        let ghost sw = self.sbuf@;
        self.ibuf.advance_read_pos(r.read);
        self.sbuf.advance_write_pos(r.written);
        proof {
            let wp = sb.write_pos as int;
            assert(self.sbuf@.readable() =~= sb.readable() + sw.data.subrange(wp, wp + r.written));
            assert(self.ibuf@.readable() =~= ib.readable().subrange(r.read as int, ib.readable().len() as int));
            if old(self).stream.is_plain() {
                assert(sw.data.subrange(wp, wp + r.written) =~= ib.readable().subrange(0, r.read as int));
            }
            assert forall|k: int| 0 <= k < sb.readable().len() implies sb.readable()[k] == self.sbuf@.readable()[k] by {}
            if r.read == 0 && r.written == 0 {
                assert(self.sbuf@.readable() =~= sb.readable());
            }
            if r.written > 0 {
                assert(self.sbuf@.readable().len() > sb.readable().len());
            }
            self.waiting = Ghost(r.read == 0 && r.written == 0);
            self.emitted = Ghost(self.emitted@ + sw.data.subrange(wp, wp + r.written));
            assert(self.sbuf@.readable().subrange(sb.readable().len() as int, self.sbuf@.readable().len() as int)
                =~= sw.data.subrange(wp, wp + r.written));
        }
        Ok(r.needs_more_input())
    }

    /// One call of the frame-event stage on the decoded bytes.
    fn frame_step(&mut self, out: &mut Vec<Event>) -> (r: usize)
        requires
            old(self).wf(),
        ensures
            final(self).wf(),
            final(self).ibuf == old(self).ibuf,
            final(self).stream == old(self).stream,
            final(self).waiting == old(self).waiting,
            final(self).emitted == old(self).emitted,
            final(self).frame_event.frame.spec_delim() == old(self).frame_event.frame.spec_delim(),
            same_glue_rule(final(self).frame_event.frame.spec_glue(), old(self).frame_event.frame.spec_glue()),
            ({
                let res = decode_result(old(self).delim(), old(self).glue(), old(self).sbuf@.readable());
                &&& final(self).sbuf@.readable() == old(self).sbuf@.readable().subrange(res.1, old(self).sbuf@.readable().len() as int)
                &&& final(self).frame_event.frame.spec_glue() == res.2
                &&& r == res.0.len()
                &&& final(out)@.len() == old(out)@.len() + r
                &&& final(out)@.subrange(0, old(out)@.len() as int) == old(out)@
                &&& text_events_of(final(out)@.subrange(old(out)@.len() as int, final(out)@.len() as int), res.0)
                &&& r == 0 ==> final(self).sbuf@.readable() == old(self).sbuf@.readable() && final(self).settled()
                &&& old(self).glue() matches Some(gs) ==> gs.st.start == 0
            }),
    {
        let ghost staged = self.sbuf@.readable();
        let ghost glue_before = self.frame_event.frame.spec_glue();
        let r = self.frame_event.decode(self.sbuf.read(), out);
        proof {
            lemma_no_frame_no_read(self.frame_event.frame.spec_delim(), glue_before, staged);
        }
        self.sbuf.advance_read_pos(r.read);
        proof {
            assert(self.sbuf@.readable() =~= staged.subrange(r.read as int, staged.len() as int));
            if r.written == 0 {
                lemma_no_frame_stays_no_frame(self.frame_event.frame.spec_delim(), glue_before, staged);
                assert(self.sbuf@.readable() =~= staged);
            }
        }
        r.written
    }

    #[verifier::rlimit(100)]
    fn decode0(&mut self, out: &mut Vec<Event>, flush: bool) -> (r: Result<usize, Error>)
        requires
            old(self).wf(),
        ensures
            final(self).wf(),
            final(out)@.subrange(0, old(out)@.len() as int) == old(out)@,
            all_text_events(final(out)@.subrange(old(out)@.len() as int, final(out)@.len() as int)),
            r matches Ok(n) ==> final(out)@.len() == old(out)@.len() + n,
            r matches Ok(_) && flush ==> final(self).staged().readable().len() == 0,
            r matches Err(e) ==> e.spec_id() == ErrorId::Io,
            r is Err && old(self).plain_stream() ==> final(self).staged().writable_len() == 0
                && final(self).staged().data.len() > GROW_LIMIT,
            r matches Ok(n) && n == 0 && !flush ==> final(self).settled(),
            r matches Ok(n) && n == 0 && !flush && old(self).plain_stream() ==> final(self).input().readable().len() == 0,
            final(self).plain_stream() == old(self).plain_stream(),
            final(self).delim() == old(self).delim(),
            r matches Ok(_) ==> exists|s: Seq<u8>, g: Option<GlueSpec>| decoded_from(*old(self), *final(self), s, g,
                final(out)@.subrange(old(out)@.len() as int, final(out)@.len() as int), flush),
            r matches Ok(n) && n == 0 && !flush ==> final(self).input().readable().len() == 0 || final(self).stream_waiting(),
    {
        let ghost start_len = old(out)@.len();
        let start = out.len();
        let mut written: usize = 0;
        loop
            invariant
                self.wf(),
                self.stream.is_plain() == old(self).stream.is_plain(),
                self.frame_event.frame.spec_delim() == old(self).frame_event.frame.spec_delim(),
                start_len == old(out)@.len(),
                start == start_len,
                out@ == old(out)@,
                written == 0,
                same_glue_rule(self.frame_event.frame.spec_glue(), old(self).frame_event.frame.spec_glue()),
                old(self).sbuf@.readable().is_prefix_of(self.sbuf@.readable()),
                old(self).emitted@.is_prefix_of(self.emitted@),
                self.sbuf@.readable() == old(self).sbuf@.readable() + self.emitted@.subrange(old(self).emitted@.len() as int, self.emitted@.len() as int),
                self.ibuf@.readable().len() <= old(self).ibuf@.readable().len(),
                old(self).stream.is_plain() ==> {
                    let c = old(self).ibuf@.readable().len() - self.ibuf@.readable().len();
                    &&& self.ibuf@.readable() == old(self).ibuf@.readable().subrange(c, old(self).ibuf@.readable().len() as int)
                    &&& self.sbuf@.readable() == old(self).sbuf@.readable() + old(self).ibuf@.readable().subrange(0, c)
                },
            decreases self.ibuf@.readable().len(), usize::MAX - self.sbuf@.readable().len(),
        {
            let needs_more_input = if self.ibuf.read().len() > 0 {
                if self.sbuf.write_pos() == self.sbuf.len() && self.sbuf.len() > GROW_LIMIT {
                    return Err(Error::without_details(ErrorId::Io));
                }
                let ghost in0 = self.ibuf@.readable();
                let ghost sb0 = self.sbuf@.readable();
                let ghost em0 = self.emitted@;
                let n = match self.stream_step() {
                    Ok(n) => n,
                    Err(e) => {
                        return Err(e);
                    },
                };
                proof {
                    let o_in = old(self).ibuf@.readable();
                    let c = o_in.len() - in0.len();
                    let k = in0.len() - self.ibuf@.readable().len();
                    if old(self).stream.is_plain() {
                        assert(in0.subrange(0, k) =~= o_in.subrange(c, c + k));
                        assert(o_in.subrange(0, c) + o_in.subrange(c, c + k) =~= o_in.subrange(0, c + k));
                        assert(old(self).sbuf@.readable() + o_in.subrange(0, c) + in0.subrange(0, k) =~= old(self).sbuf@.readable() + o_in.subrange(0, c + k));
                        assert(self.ibuf@.readable() =~= o_in.subrange(c + k, o_in.len() as int));
                    }
                    let e0 = old(self).emitted@.len() as int;
                    let delta = self.sbuf@.readable().subrange(sb0.len() as int, self.sbuf@.readable().len() as int);
                    assert(self.sbuf@.readable() =~= sb0 + delta);
                    assert(self.emitted@.subrange(e0, self.emitted@.len() as int) =~= em0.subrange(e0, em0.len() as int) + delta);
                    assert(old(self).emitted@.is_prefix_of(self.emitted@)) by {
                        assert forall|j: int| 0 <= j < e0 implies old(self).emitted@[j] == self.emitted@[j] by {
                            assert(em0[j] == self.emitted@[j]);
                        }
                    }
                    assert(self.sbuf@.readable() =~= old(self).sbuf@.readable() + self.emitted@.subrange(e0, self.emitted@.len() as int));
                    assert(old(self).sbuf@.readable().is_prefix_of(self.sbuf@.readable())) by {
                        assert forall|j: int| 0 <= j < old(self).sbuf@.readable().len() implies old(self).sbuf@.readable()[j] == self.sbuf@.readable()[j] by {
                            assert(sb0[j] == self.sbuf@.readable()[j]);
                        }
                    }
                }
                n
            } else {
                true
            };
            let ghost before_events = out@;
            let ghost glue_before = self.frame_event.frame.spec_glue();
            let ghost staged = self.sbuf@.readable();
            let ghost res = decode_result(self.frame_event.frame.spec_delim(), glue_before, staged);
            let produced = self.frame_step(out);
            proof {
                lemma_extend_text(before_events, out@, start_len as int, res.0);
                assert(out@.subrange(start_len as int, out@.len() as int) =~= out@.subrange(before_events.len() as int, out@.len() as int));
            }
            written = out.len() - start;
            if flush {
                let ghost before_fin = out@;
                let ghost delim = self.frame_event.frame.spec_delim();
                let ghost rest = self.sbuf@.readable();
                let f = self.frame_event.finish(self.sbuf.read(), out);
                proof {
                    lemma_extend_text(before_fin, out@, start_len as int, crate::frame::finish_frames(delim, rest));
                    let e1 = before_fin.subrange(start_len as int, before_fin.len() as int);
                    let e2 = out@.subrange(before_fin.len() as int, out@.len() as int);
                    lemma_text_events_concat(e1, e2, res.0, finish_frames(delim, rest));
                    assert(out@.subrange(start_len as int, out@.len() as int) =~= e1 + e2);
                    assert(rest == staged.subrange(res.1, staged.len() as int));
                }
                self.sbuf.advance_read_pos(f.read);
                written = out.len() - start;
                proof {
                    assert(decoded_from(*old(self), *self, staged, glue_before, out@.subrange(start_len as int, out@.len() as int), true));
                }
                return Ok(written);
            }
            if produced > 0 || needs_more_input {
                proof {
                    assert(decoded_from(*old(self), *self, staged, glue_before, out@.subrange(start_len as int, out@.len() as int), false));
                }
                return Ok(written);
            }
        }
    }
}

} // verus!
