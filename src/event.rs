use vstd::prelude::*;
use crate::error::{Error, ErrorDetails, ErrorId, Span};
use crate::frame::{frames_view, FrameDecoder, GlueSpec, decode_result, finish_frames};
use crate::text::str_eq;
use crate::value::Value;

verus! {

/// The value under the first key `k` in `s`.
pub open spec fn lookup<V>(s: Seq<(String, V)>, k: Seq<char>) -> Option<V>
    decreases s.len(),
{
    if s.len() == 0 {
        None
    } else if s[0].0@ == k {
        Some(s[0].1)
    } else {
        lookup(s.subrange(1, s.len() as int), k)
    }
}

proof fn lemma_lookup_split<V>(s: Seq<(String, V)>, i: int, k: Seq<char>)
    requires
        0 <= i <= s.len(),
        forall|j: int| 0 <= j < i ==> s[j].0@ != k,
    ensures
        lookup(s, k) == lookup(s.subrange(i, s.len() as int), k),
    decreases i,
{
    if i > 0 {
        let t = s.subrange(1, s.len() as int);
        assert forall|j: int| 0 <= j < i - 1 implies t[j].0@ != k by {
            assert(t[j] == s[j + 1]);
        }
        lemma_lookup_split(t, i - 1, k);
        assert(t.subrange(i - 1, t.len() as int) =~= s.subrange(i, s.len() as int));
    } else {
        assert(s.subrange(0, s.len() as int) =~= s);
    }
}

proof fn lemma_lookup_push<V>(s: Seq<(String, V)>, e: (String, V), k: Seq<char>)
    ensures
        lookup(s.push(e), k) == (if lookup(s, k) is Some { lookup(s, k) } else if e.0@ == k { Some(e.1) } else { None }),
    decreases s.len(),
{
    let t = s.push(e);
    if s.len() > 0 {
        assert(t.subrange(1, t.len() as int) =~= s.subrange(1, s.len() as int).push(e));
        lemma_lookup_push(s.subrange(1, s.len() as int), e, k);
    } else {
        assert(t.subrange(1, t.len() as int) =~= Seq::<(String, V)>::empty());
        assert(lookup(Seq::<(String, V)>::empty(), k) is None);
    }
}

proof fn lemma_lookup_update<V>(s: Seq<(String, V)>, i: int, p: (String, V), k: Seq<char>)
    requires
        0 <= i < s.len(),
        p.0@ == s[i].0@,
        forall|j: int| 0 <= j < i ==> s[j].0@ != s[i].0@,
    ensures
        lookup(s.update(i, p), k) == (if k == s[i].0@ { Some(p.1) } else { lookup(s, k) }),
    decreases i,
{
    let u = s.update(i, p);
    let t = s.subrange(1, s.len() as int);
    if i == 0 {
        assert(u.subrange(1, u.len() as int) =~= t);
    } else {
        assert(s[0].0@ != s[i].0@);
        if s[0].0@ != k {
            assert(u.subrange(1, u.len() as int) =~= t.update(i - 1, p));
            assert forall|j: int| 0 <= j < i - 1 implies #[trigger] t[j].0@ != t[i - 1].0@ by {
                assert(t[j] == s[j + 1]);
            }
            lemma_lookup_update(t, i - 1, p, k);
        }
    }
}

/// An event: string-keyed fields and, independently, string-keyed tags.
#[derive(Clone, Debug, PartialEq)]
pub struct Event {
    fields: Vec<(String, Value)>,
    tags: Vec<(String, Value)>,
}

/// Index of the first pair under `k`, searched from `from`.
pub(crate) fn find_key<V>(s: &Vec<(String, V)>, k: &str) -> (r: Option<usize>)
    ensures
        match r {
            Some(i) => i < s@.len() && s@[i as int].0@ == k@ && forall|j: int| 0 <= j < i ==> s@[j].0@ != k@,
            None => forall|j: int| 0 <= j < s@.len() ==> s@[j].0@ != k@,
        },
{
    let mut i: usize = 0;
    while i < s.len()
        invariant
            i <= s@.len(),
            forall|j: int| 0 <= j < i ==> s@[j].0@ != k@,
        decreases s@.len() - i,
    {
        if str_eq(s[i].0.as_str(), k) {
            return Some(i);
        }
        i = i + 1;
    }
    None
}

pub(crate) fn put<V>(s: &mut Vec<(String, V)>, key: &str, value: V)
    ensures
        forall|k: Seq<char>| #[trigger] lookup(final(s)@, k) == (if k == key@ { Some(value) } else { lookup(old(s)@, k) }),
{
    match find_key(s, key) {
        Some(i) => {
            let ghost before = s@;
            let name = key.to_string();
            s.set(i, (name, value));
            proof {
                assert forall|k: Seq<char>| #[trigger] lookup(s@, k) == (if k == key@ { Some(value) } else { lookup(before, k) }) by {
                    lemma_lookup_update(before, i as int, s@[i as int], k);
                    assert(s@ =~= before.update(i as int, s@[i as int]));
                }
            }
        },
        None => {
            let ghost before = s@;
            let name = key.to_string();
            s.push((name, value));
            proof {
                assert forall|k: Seq<char>| #[trigger] lookup(s@, k) == (if k == key@ { Some(value) } else { lookup(before, k) }) by {
                    lemma_lookup_push(before, (name, value), k);
                    if lookup(before, k) is Some {
                        lemma_lookup_split(before, before.len() as int, key@);
                        assert(before.subrange(before.len() as int, before.len() as int).len() == 0);
                    }
                }
            }
        },
    }
}

pub(crate) fn get<'a, V>(s: &'a Vec<(String, V)>, key: &str) -> (r: Option<&'a V>)
    ensures
        match r {
            Some(v) => lookup(s@, key@) == Some(*v),
            None => lookup(s@, key@) is None,
        },
{
    match find_key(s, key) {
        Some(i) => {
            proof {
                lemma_lookup_split(s@, i as int, key@);
            }
            Some(&s[i].1)
        },
        None => {
            proof {
                lemma_lookup_split(s@, s@.len() as int, key@);
            }
            None
        },
    }
}

impl Event {
    pub closed spec fn field_spec(&self, k: Seq<char>) -> Option<Value> {
        lookup(self.fields@, k)
    }

    pub closed spec fn tag_spec(&self, k: Seq<char>) -> Option<Value> {
        lookup(self.tags@, k)
    }

    pub fn new() -> (r: Event)
        ensures
            forall|k: Seq<char>| r.field_spec(k) is None,
            forall|k: Seq<char>| r.tag_spec(k) is None,
    {
        Event { fields: Vec::new(), tags: Vec::new() }
    }

    pub fn field(&self, key: &str) -> (r: Option<&Value>)
        ensures
            match r {
                Some(v) => self.field_spec(key@) == Some(*v),
                None => self.field_spec(key@) is None,
            },
    {
        get(&self.fields, key)
    }

    pub fn tag(&self, key: &str) -> (r: Option<&Value>)
        ensures
            match r {
                Some(v) => self.tag_spec(key@) == Some(*v),
                None => self.tag_spec(key@) is None,
            },
    {
        get(&self.tags, key)
    }

    /// Sets field `key`, replacing any value it had.
    pub fn set_field(&mut self, key: &str, value: Value)
        ensures
            forall|k: Seq<char>| #[trigger] final(self).field_spec(k) == (if k == key@ { Some(value) } else { old(self).field_spec(k) }),
            forall|k: Seq<char>| #[trigger] final(self).tag_spec(k) == old(self).tag_spec(k),
    {
        put(&mut self.fields, key, value);
    }

    /// Sets field `key` only when it is absent; tells whether it did.
    pub fn set_field_if_absent(&mut self, key: &str, value: Value) -> (r: bool)
        ensures
            r == old(self).field_spec(key@) is None,
            forall|k: Seq<char>| #[trigger] final(self).field_spec(k) == (if k == key@ && r { Some(value) } else { old(self).field_spec(k) }),
            forall|k: Seq<char>| #[trigger] final(self).tag_spec(k) == old(self).tag_spec(k),
    {
        if get(&self.fields, key).is_some() {
            false
        } else {
            put(&mut self.fields, key, value);
            true
        }
    }

    /// Sets tag `key`, replacing any value it had.
    pub fn set_tag(&mut self, key: &str, value: Value)
        ensures
            forall|k: Seq<char>| #[trigger] final(self).tag_spec(k) == (if k == key@ { Some(value) } else { old(self).tag_spec(k) }),
            forall|k: Seq<char>| #[trigger] final(self).field_spec(k) == old(self).field_spec(k),
    {
        put(&mut self.tags, key, value);
    }
}

// ---------------------------------------------------------------------------
// Text event decoding
// ---------------------------------------------------------------------------

/// The characters of `b` read as UTF-8, each invalid sequence replaced by
/// U+FFFD.
pub uninterp spec fn utf8_lossy(b: Seq<u8>) -> Seq<char>;

/// Relies on `String::from_utf8_lossy`: the text depends on the bytes alone.
#[verifier::external_body]
fn lossy_text(b: &[u8]) -> (r: String)
    ensures
        r@ == utf8_lossy(b@),
        b@.len() == 0 ==> r@.len() == 0,
{
    String::from_utf8_lossy(b).into_owned()
}

pub open spec fn message_key() -> Seq<char> {
    seq!['m', 'e', 's', 's', 'a', 'g', 'e']
}

/// `e` carries the text of frame `f` as its `message` field, and nothing
/// else.
pub open spec fn is_text_event(e: Event, f: Seq<u8>) -> bool {
    &&& e.field_spec(message_key()) matches Some(Value::String(s)) && s@ == utf8_lossy(f)
    &&& forall|k: Seq<char>| k != message_key() ==> e.field_spec(k) is None
    &&& forall|k: Seq<char>| e.tag_spec(k) is None
}

/// Appends one event whose `message` field is the frame read as UTF-8.
pub fn decode_text(frame: &[u8], out: &mut Vec<Event>) -> (r: usize)
    ensures
        r == 1,
        final(out)@.len() == old(out)@.len() + 1,
        final(out)@.subrange(0, old(out)@.len() as int) == old(out)@,
        is_text_event(final(out)@[old(out)@.len() as int], frame@),
{
    let mut e = Event::new();
    let text = lossy_text(frame);
    let ghost t = text@;
    proof {
        reveal_strlit("message");
        assert("message"@ =~= message_key());
    }
    e.set_field("message", Value::String(text));
    out.push(e);
    proof {
        assert(out@.subrange(0, old(out)@.len() as int) =~= old(out)@);
    }
    1
}

/// Charsets the text decoder accepts.
pub open spec fn supported_charset(c: Seq<char>) -> bool {
    c == seq!['U', 'T', 'F', '-', '8']
}

/// Checks a `charset` option: only `UTF-8`, the default, is supported.
pub fn check_charset(charset: Option<&str>) -> (r: Result<(), Error>)
    ensures
        r is Ok <==> (charset matches Some(c) ==> supported_charset(c@)),
        r matches Err(e) ==> e.spec_id() == ErrorId::Parse,
{
    match charset {
        None => Ok(()),
        Some(c) => {
            proof {
                reveal_strlit("UTF-8");
                assert("UTF-8"@ =~= seq!['U', 'T', 'F', '-', '8']);
            }
            if str_eq(c, "UTF-8") {
                Ok(())
            } else {
                Err(Error::new(ErrorId::Parse, ErrorDetails::new("unsupported charset".to_string(), Span::none())))
            }
        },
    }
}

// ---------------------------------------------------------------------------
// Frames to events
// ---------------------------------------------------------------------------

/// Result of one frame-event decoding call.
#[derive(Clone, Copy, Debug, PartialEq, Eq, Structural)]
pub struct Decode {
    /// Number of bytes read from the input.
    pub read: usize,
    /// Number of events appended to the output.
    pub written: usize,
}

/// The events in `new` are the text events of `frames`, one each, in order.
pub open spec fn text_events_of(new: Seq<Event>, frames: Seq<Seq<u8>>) -> bool {
    &&& new.len() == frames.len()
    &&& forall|i: int| 0 <= i < new.len() ==> is_text_event(new[i], frames[i])
}

fn events_of_frames(frames: &Vec<&[u8]>, out: &mut Vec<Event>) -> (r: usize)
    ensures
        r == frames@.len(),
        final(out)@.len() == old(out)@.len() + r,
        final(out)@.subrange(0, old(out)@.len() as int) == old(out)@,
        text_events_of(final(out)@.subrange(old(out)@.len() as int, final(out)@.len() as int), frames_view(frames@)),
{
    let mut i: usize = 0;
    while i < frames.len()
        invariant
            i <= frames@.len(),
            out@.len() == old(out)@.len() + i,
            out@.subrange(0, old(out)@.len() as int) == old(out)@,
            forall|j: int| 0 <= j < i ==> is_text_event(#[trigger] out@[old(out)@.len() + j], frames@[j]@),
        decreases frames@.len() - i,
    {
        let ghost before = out@;
        decode_text(frames[i], out);
        proof {
            assert forall|j: int| 0 <= j < i + 1 implies is_text_event(#[trigger] out@[old(out)@.len() + j], frames@[j]@) by {
                if j < i {
                    assert(out@[old(out)@.len() + j] == before.subrange(0, before.len() as int)[old(out)@.len() + j]);
                }
            }
            assert(out@.subrange(0, old(out)@.len() as int) =~= before.subrange(0, old(out)@.len() as int));
        }
        i = i + 1;
    }
    proof {
        let new = out@.subrange(old(out)@.len() as int, out@.len() as int);
        assert forall|j: int| 0 <= j < new.len() implies is_text_event(new[j], frames_view(frames@)[j]) by {
            assert(new[j] == out@[old(out)@.len() + j]);
        }
    }
    i
}

/// A frame decoder followed by the text event decoder.
pub struct FrameEventDecoder {
    pub frame: FrameDecoder,
}

impl FrameEventDecoder {
    pub open spec fn wf(&self) -> bool {
        self.frame.wf()
    }

    pub fn new(frame: FrameDecoder) -> (r: FrameEventDecoder)
        ensures
            r.frame == frame,
    {
        FrameEventDecoder { frame }
    }

    /// Decodes the frames completed in `inp` into events.
    pub fn decode(&mut self, inp: &[u8], out: &mut Vec<Event>) -> (r: Decode)
        requires
            old(self).wf(),
            old(self).frame.accepts(inp@.len()),
        ensures
            final(self).wf(),
            final(self).frame.spec_delim() == old(self).frame.spec_delim(),
            ({
                let res = decode_result(old(self).frame.spec_delim(), old(self).frame.spec_glue(), inp@);
                &&& r.read == res.1
                &&& final(self).frame.spec_glue() == res.2
                &&& r.written == res.0.len()
                &&& final(out)@.len() == old(out)@.len() + r.written
                &&& final(out)@.subrange(0, old(out)@.len() as int) == old(out)@
                &&& text_events_of(final(out)@.subrange(old(out)@.len() as int, final(out)@.len() as int), res.0)
            }),
            r.read <= inp@.len(),
            final(self).frame.spec_glue() matches Some(g) ==> g.st.pos + r.read <= inp@.len(),
    {
        let mut frames: Vec<&[u8]> = Vec::new();
        let d = self.frame.decode(inp, &mut frames);
        proof {
            assert(frames_view(frames@) =~= frames_view(Seq::<&[u8]>::empty()) + frames_view(frames@));
        }
        let written = events_of_frames(&frames, out);
        Decode { read: d.read, written }
    }

    /// Decodes the end of the input, trailing partial frame included.
    pub fn finish(&mut self, inp: &[u8], out: &mut Vec<Event>) -> (r: Decode)
        requires
            old(self).wf(),
        ensures
            final(self).wf(),
            final(self).frame.spec_delim() == old(self).frame.spec_delim(),
            r.read == inp@.len(),
            r.written == finish_frames(old(self).frame.spec_delim(), inp@).len(),
            final(out)@.len() == old(out)@.len() + r.written,
            final(out)@.subrange(0, old(out)@.len() as int) == old(out)@,
            text_events_of(final(out)@.subrange(old(out)@.len() as int, final(out)@.len() as int),
                finish_frames(old(self).frame.spec_delim(), inp@)),
            match old(self).frame.spec_glue() {
                Some(g) => final(self).frame.spec_glue() == Some(GlueSpec { st: crate::frame::GlueModel::zero(), ..g }),
                None => final(self).frame.spec_glue() is None,
            },
    {
        let mut frames: Vec<&[u8]> = Vec::new();
        let d = self.frame.finish(inp, &mut frames);
        proof {
            assert(frames_view(Seq::<&[u8]>::empty()) =~= Seq::<Seq<u8>>::empty());
            assert(frames_view(frames@) =~= finish_frames(old(self).frame.spec_delim(), inp@));
        }
        let written = events_of_frames(&frames, out);
        Decode { read: d.read, written }
    }
}

} // verus!
