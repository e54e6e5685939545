use vstd::prelude::*;
use crate::decoder::{BufDecoder, all_text_events, decoded_from, is_some_text_event, lemma_plain_progress};
use crate::frame::{GlueSpec, has_delims};
use crate::event::{is_text_event, message_key, utf8_lossy};
use crate::error::{Error, ErrorDetails, ErrorId, Span};
use crate::text::str_eq;
use crate::event::Event;
use crate::value::{Spanned, Value, first_failing, lemma_first_failing_step};
use crate::frame::text_of;

verus! {

/// Identity of a file within a filesystem: `(device, inode)`.
#[derive(Clone, Copy, Debug, PartialEq, Eq, Structural)]
pub struct FileId {
    pub device: u64,
    pub inode: u64,
}

/// Where reading a newly discovered file begins.
#[derive(Clone, Copy, Debug, PartialEq, Eq, Structural)]
pub enum StartFrom {
    Beginning,
    End,
}

/// A file being tailed.
pub struct WatchedFile {
    pub id: FileId,
    /// Path under which the file was last discovered.
    pub path: String,
    /// Next byte to read.
    pub offset: u64,
    /// Last observed size.
    pub len: u64,
    pub decoder: BufDecoder,
}

/// What the read loop does next with the current file.
#[derive(Clone, Copy, Debug, PartialEq, Eq, Structural)]
pub enum ReadPlan {
    /// Nothing new in this file: move on; `pulse` when more files remain
    /// in this round.
    Skip { pulse: bool },
    /// Read up to `max` bytes at `offset`.
    Read { offset: u64, max: usize },
}

/// What a discovery of a path did.
#[derive(Clone, Copy, Debug, PartialEq, Eq, Structural)]
pub enum Discovered {
    /// A new file, appended at this index.
    Added(usize),
    /// A file already watched, at this index.
    Known(usize),
}

/// The tailer's book-keeping: the watched files in discovery order and a
/// round-robin cursor.
pub struct Tailer {
    files: Vec<WatchedFile>,
    cur: usize,
}

pub open spec fn ids_unique(ids: Seq<FileId>) -> bool {
    forall|i: int, j: int| 0 <= i < ids.len() && 0 <= j < ids.len() && i != j ==> ids[i] != ids[j]
}

impl Tailer {
    pub closed spec fn ids(&self) -> Seq<FileId> {
        self.files@.map_values(|f: WatchedFile| f.id)
    }

    pub closed spec fn paths(&self) -> Seq<Seq<char>> {
        self.files@.map_values(|f: WatchedFile| f.path@)
    }

    pub closed spec fn offsets(&self) -> Seq<u64> {
        self.files@.map_values(|f: WatchedFile| f.offset)
    }

    pub closed spec fn lens(&self) -> Seq<u64> {
        self.files@.map_values(|f: WatchedFile| f.len)
    }

    pub closed spec fn decoder_of(&self, i: int) -> BufDecoder {
        self.files@[i].decoder
    }

    pub closed spec fn cursor(&self) -> nat {
        self.cur as nat
    }

    pub closed spec fn decoders_wf(&self) -> bool {
        forall|i: int| 0 <= i < self.files@.len() ==> (#[trigger] self.files@[i]).decoder.wf()
    }

    /// Each file id appears once; the cursor stays within one step past the
    /// end.
    pub open spec fn wf(&self) -> bool {
        &&& ids_unique(self.ids())
        &&& self.paths().len() == self.ids().len()
        &&& self.offsets().len() == self.ids().len()
        &&& self.lens().len() == self.ids().len()
        &&& self.cursor() <= self.ids().len()
        &&& self.decoders_wf()
    }

    pub fn new() -> (r: Tailer)
        ensures
            r.wf(),
            r.ids().len() == 0,
            r.cursor() == 0,
    {
        let r = Tailer { files: Vec::new(), cur: 0 };
        proof {
            assert(r.ids() =~= Seq::<FileId>::empty());
            assert(r.paths() =~= Seq::<Seq<char>>::empty());
            assert(r.offsets() =~= Seq::<u64>::empty());
            assert(r.lens() =~= Seq::<u64>::empty());
        }
        r
    }

    pub fn len(&self) -> (r: usize)
        requires
            self.wf(),
        ensures
            r == self.ids().len(),
    {
        self.files.len()
    }

    pub fn cur(&self) -> (r: usize)
        ensures
            r == self.cursor(),
    {
        self.cur
    }

    /// Index of the file with identity `id`.
    pub fn index_of(&self, id: FileId) -> (r: Option<usize>)
        requires
            self.wf(),
        ensures
            match r {
                Some(i) => i < self.ids().len() && self.ids()[i as int] == id,
                None => !self.ids().contains(id),
            },
    {
        let mut i: usize = 0;
        while i < self.files.len()
            invariant
                i <= self.files@.len(),
                forall|j: int| 0 <= j < i ==> self.files@[j].id != id,
            decreases self.files@.len() - i,
        {
            if self.files[i].id == id {
                return Some(i);
            }
            i = i + 1;
        }
        proof {
            if self.ids().contains(id) {
                let j = choose|j: int| 0 <= j < self.ids().len() && self.ids()[j] == id;
                assert(self.files@[j].id == id);
            }
        }
        None
    }

    /// Records a discovered path with its file's identity and size. A new
    /// identity is appended as a new file, read from the beginning or the
    /// end; a known one keeps its index and gets the path and size.
    pub fn discover(&mut self, id: FileId, path: String, len: u64, start: StartFrom, decoder: BufDecoder) -> (r: Discovered)
        requires
            old(self).wf(),
            decoder.wf(),
        ensures
            final(self).wf(),
            final(self).cursor() == old(self).cursor(),
            match r {
                Discovered::Added(i) => {
                    &&& !old(self).ids().contains(id)
                    &&& i == old(self).ids().len()
                    &&& final(self).ids() == old(self).ids().push(id)
                    &&& final(self).paths() == old(self).paths().push(path@)
                    &&& final(self).lens() == old(self).lens().push(len)
                    &&& final(self).offsets() == old(self).offsets().push(
                        if start == StartFrom::End { len } else { 0 },
                    )
                },
                Discovered::Known(i) => {
                    &&& i < old(self).ids().len()
                    &&& old(self).ids()[i as int] == id
                    &&& final(self).ids() == old(self).ids()
                    &&& final(self).paths() == old(self).paths().update(i as int, path@)
                    &&& final(self).lens() == old(self).lens().update(i as int, len)
                    &&& final(self).offsets() == old(self).offsets()
                    &&& forall|j: int| 0 <= j < old(self).ids().len() ==> #[trigger] final(self).decoder_of(j)
                        == old(self).decoder_of(j)
                },
            },
            r matches Discovered::Added(i) ==> forall|j: int| 0 <= j < old(self).ids().len()
                ==> #[trigger] final(self).decoder_of(j) == old(self).decoder_of(j),
            r matches Discovered::Added(i) ==> final(self).decoder_of(i as int) == decoder,
    {
        match self.index_of(id) {
            Some(i) => {
                let ghost before = *self;
                let mut f = self.files.remove(i);
                f.path = path;
                f.len = len;
                self.files.insert(i, f);
                proof {
                    assert(self.ids() =~= before.ids());
                    assert(self.paths() =~= before.paths().update(i as int, self.files@[i as int].path@));
                    assert(self.lens() =~= before.lens().update(i as int, len));
                    assert(self.offsets() =~= before.offsets());
                    assert forall|k: int| 0 <= k < self.files@.len() implies (#[trigger] self.files@[k]).decoder.wf() by {
                        if k != i {
                            assert(self.files@[k] == before.files@[k]);
                        }
                    }
                }
                Discovered::Known(i)
            },
            None => {
                let ghost before = *self;
                let offset: u64 = match start {
                    StartFrom::Beginning => 0,
                    StartFrom::End => len,
                };
                let i = self.files.len();
                self.files.push(WatchedFile { id, path, offset, len, decoder });
                proof {
                    assert(self.ids() =~= before.ids().push(id));
                    assert(self.paths() =~= before.paths().push(self.files@[i as int].path@));
                    assert(self.lens() =~= before.lens().push(len));
                    assert(self.offsets() =~= before.offsets().push(offset));
                    assert forall|k: int| 0 <= k < self.files@.len() implies (#[trigger] self.files@[k]).decoder.wf() by {
                        if k < i {
                            assert(self.files@[k] == before.files@[k]);
                        }
                    }
                }
                Discovered::Added(i)
            },
        }
    }

    /// Starts a round of the read loop: the cursor wraps around and names
    /// the current file; `None` when nothing is watched.
    pub fn begin(&mut self) -> (r: Option<usize>)
        requires
            old(self).wf(),
        ensures
            final(self).wf(),
            final(self).ids() == old(self).ids(),
            final(self).paths() == old(self).paths(),
            final(self).offsets() == old(self).offsets(),
            final(self).lens() == old(self).lens(),
            match r {
                Some(i) => old(self).ids().len() > 0 && i == old(self).cursor() % old(self).ids().len()
                    && final(self).cursor() == i,
                None => old(self).ids().len() == 0 && final(self).cursor() == old(self).cursor(),
            },
    {
        if self.files.len() == 0 {
            return None;
        }
        self.cur = self.cur % self.files.len();
        Some(self.cur)
    }

    /// Records a fresh size of file `i`.
    pub fn set_len(&mut self, i: usize, len: u64)
        requires
            old(self).wf(),
            i < old(self).ids().len(),
        ensures
            final(self).wf(),
            final(self).cursor() == old(self).cursor(),
            final(self).ids() == old(self).ids(),
            final(self).paths() == old(self).paths(),
            final(self).offsets() == old(self).offsets(),
            final(self).lens() == old(self).lens().update(i as int, len),
            forall|j: int| 0 <= j < old(self).ids().len() ==> #[trigger] final(self).decoder_of(j) == old(self).decoder_of(j),
    {
        let ghost before = *self;
        let mut f = self.files.remove(i);
        f.len = len;
        self.files.insert(i, f);
        proof {
            assert(self.ids() =~= before.ids());
            assert(self.paths() =~= before.paths());
            assert(self.lens() =~= before.lens().update(i as int, len));
            assert(self.offsets() =~= before.offsets());
            assert forall|k: int| 0 <= k < self.files@.len() implies (#[trigger] self.files@[k]).decoder.wf() by {
                if k != i {
                    assert(self.files@[k] == before.files@[k]);
                }
            }
        }
    }

    /// Moves the cursor past the current file; tells whether files remain
    /// in this round.
    pub fn next_file(&mut self) -> (r: bool)
        requires
            old(self).wf(),
        ensures
            final(self).wf(),
            final(self).ids() == old(self).ids(),
            final(self).paths() == old(self).paths(),
            final(self).offsets() == old(self).offsets(),
            final(self).lens() == old(self).lens(),
            final(self).cursor() == if old(self).cursor() < old(self).ids().len() {
                old(self).cursor() + 1
            } else {
                old(self).cursor()
            },
            r == (final(self).cursor() < final(self).ids().len() && old(self).cursor() < old(self).ids().len()),
    {
        if self.cur < self.files.len() {
            self.cur = self.cur + 1;
            self.cur < self.files.len()
        } else {
            false
        }
    }

    /// Decides what to do with file `i` now that its size is known. An
    /// offset past the size means the file shrank: reading restarts at 0.
    pub fn plan_read(&mut self, i: usize, writable: usize) -> (r: ReadPlan)
        requires
            old(self).wf(),
            i < old(self).ids().len(),
            i == old(self).cursor(),
        ensures
            final(self).wf(),
            final(self).ids() == old(self).ids(),
            final(self).paths() == old(self).paths(),
            final(self).lens() == old(self).lens(),
            ({
                let len = old(self).lens()[i as int];
                let off = if old(self).offsets()[i as int] > len { 0 } else { old(self).offsets()[i as int] };
                &&& final(self).offsets() == old(self).offsets().update(i as int, off)
                &&& if off == len {
                    &&& final(self).cursor() == i + 1
                    &&& r == ReadPlan::Skip { pulse: i + 1 < old(self).ids().len() }
                } else {
                    &&& final(self).cursor() == old(self).cursor()
                    &&& r == ReadPlan::Read {
                        offset: off,
                        max: if (len - off) as int <= writable as int { (len - off) as usize } else { writable },
                    }
                }
            }),
    {
        let ghost before = *self;
        let mut f = self.files.remove(i);
        if f.offset > f.len {
            f.offset = 0;
        }
        let off = f.offset;
        let len = f.len;
        self.files.insert(i, f);
        proof {
            assert(self.ids() =~= before.ids());
            assert(self.paths() =~= before.paths());
            assert(self.lens() =~= before.lens());
            assert(self.offsets() =~= before.offsets().update(i as int, off));
            assert forall|k: int| 0 <= k < self.files@.len() implies (#[trigger] self.files@[k]).decoder.wf() by {
                if k != i {
                    assert(self.files@[k] == before.files@[k]);
                }
            }
        }
        if off == len {
            let pulse = self.next_file();
            ReadPlan::Skip { pulse }
        } else {
            let left = len - off;
            let max: usize = if left <= writable as u64 { left as usize } else { writable };
            ReadPlan::Read { offset: off, max }
        }
    }

    /// Moves the offset of file `i` past `n` bytes just read.
    pub fn advance(&mut self, i: usize, n: usize)
        requires
            old(self).wf(),
            i < old(self).ids().len(),
            old(self).offsets()[i as int] + n <= old(self).lens()[i as int],
        ensures
            final(self).wf(),
            final(self).cursor() == old(self).cursor(),
            final(self).ids() == old(self).ids(),
            final(self).paths() == old(self).paths(),
            final(self).lens() == old(self).lens(),
            final(self).offsets() == old(self).offsets().update(i as int, (old(self).offsets()[i as int] + n) as u64),
    {
        let ghost before = *self;
        let mut f = self.files.remove(i);
        f.offset = f.offset + n as u64;
        self.files.insert(i, f);
        proof {
            assert(self.ids() =~= before.ids());
            assert(self.paths() =~= before.paths());
            assert(self.lens() =~= before.lens());
            assert(self.offsets() =~= before.offsets().update(i as int, (before.offsets()[i as int] + n) as u64));
            assert forall|k: int| 0 <= k < self.files@.len() implies (#[trigger] self.files@[k]).decoder.wf() by {
                if k != i {
                    assert(self.files@[k] == before.files@[k]);
                }
            }
        }
    }

    /// The path of file `i`.
    pub fn path(&self, i: usize) -> (r: &str)
        requires
            self.wf(),
            i < self.ids().len(),
        ensures
            r@ == self.paths()[i as int],
    {
        self.files[i].path.as_str()
    }

    /// Hands bytes read from file `i` to its decoder; returns how many it
    /// took, all of them unless its input buffer reached the growth limit.
    pub fn feed(&mut self, i: usize, data: &[u8]) -> (r: usize)
        requires
            old(self).wf(),
            i < old(self).ids().len(),
        ensures
            final(self).wf(),
            r <= data@.len(),
            final(self).decoder_of(i as int).input().readable()
                == old(self).decoder_of(i as int).input().readable() + data@.subrange(0, r as int),
            r < data@.len() ==> final(self).decoder_of(i as int).input().data.len() > crate::decoder::GROW_LIMIT,
            final(self).ids() == old(self).ids(),
            final(self).paths() == old(self).paths(),
            final(self).offsets() == old(self).offsets(),
            final(self).lens() == old(self).lens(),
            final(self).cursor() == old(self).cursor(),
    {
        let ghost before = *self;
        let mut f = self.files.remove(i);
        let n = f.decoder.feed(data);
        self.files.insert(i, f);
        proof {
            assert(self.ids() =~= before.ids());
            assert(self.paths() =~= before.paths());
            assert(self.lens() =~= before.lens());
            assert(self.offsets() =~= before.offsets());
            assert forall|k: int| 0 <= k < self.files@.len() implies (#[trigger] self.files@[k]).decoder.wf() by {
                if k != i {
                    assert(self.files@[k] == before.files@[k]);
                }
            }
        }
        n
    }

    /// Decodes what the buffers of file `i` hold into events, each labelled
    /// with the file's path in its `path` field, calling the decoder until
    /// it yields nothing more. A call that yields events without consuming
    /// any byte (only possible without delimiters) also ends the run.
    pub fn decode(&mut self, i: usize) -> (r: Result<Vec<Event>, Error>)
        requires
            old(self).wf(),
            i < old(self).ids().len(),
        ensures
            final(self).wf(),
            final(self).ids() == old(self).ids(),
            final(self).paths() == old(self).paths(),
            final(self).offsets() == old(self).offsets(),
            final(self).lens() == old(self).lens(),
            final(self).cursor() == old(self).cursor(),
            forall|j: int| 0 <= j < old(self).ids().len() && j != i ==> #[trigger] final(self).decoder_of(j) == old(self).decoder_of(j),
            r matches Ok(evs) ==> forall|k: int| 0 <= k < evs@.len() ==> has_path(#[trigger] evs@[k], old(self).paths()[i as int]),
            r matches Ok(evs) ==> forall|k: int| 0 <= k < evs@.len() ==> is_labelled_text_event(#[trigger] evs@[k], old(self).paths()[i as int]),
            r is Err && old(self).decoder_of(i as int).plain_stream() ==> final(self).decoder_of(i as int).staged().data.len()
                > crate::decoder::GROW_LIMIT,
            r matches Ok(evs) && evs@.len() == 0 ==> final(self).decoder_of(i as int).settled(),
            r matches Ok(evs) && evs@.len() == 0 && old(self).decoder_of(i as int).plain_stream()
                ==> final(self).decoder_of(i as int).input().readable().len() == 0,
            r is Ok && old(self).decoder_of(i as int).plain_stream() && has_delims(old(self).decoder_of(i as int).delim())
                ==> final(self).decoder_of(i as int).settled() && final(self).decoder_of(i as int).input().readable().len() == 0,
    {
        let ghost before = *self;
        let mut events: Vec<Event> = Vec::new();
        let mut f = self.files.remove(i);
        let ghost f0 = f;
        let mut failed: Option<Error> = None;
        let ghost mut drained = false;
        let ghost mut stalled = false;
        let ghost plain_delims = f0.decoder.plain_stream() && has_delims(f0.decoder.delim());
        loop
            invariant_except_break
                failed is None,
                !drained,
                !stalled,
            invariant
                plain_delims == (f0.decoder.plain_stream() && has_delims(f0.decoder.delim())),
                f.decoder.wf(),
                f.id == f0.id && f.path == f0.path && f.offset == f0.offset && f.len == f0.len,
                f.decoder.plain_stream() == f0.decoder.plain_stream(),
                f.decoder.delim() == f0.decoder.delim(),
                f0 == before.files@[i as int],
                self.files@ == before.files@.remove(i as int),
                before.wf(),
                i < before.files@.len(),
                failed is None ==> all_text_events(events@),
                failed is Some && f0.decoder.plain_stream() ==> f.decoder.staged().data.len() > crate::decoder::GROW_LIMIT,
                drained ==> f.decoder.settled() && (f0.decoder.plain_stream() ==> f.decoder.input().readable().len() == 0),
                stalled ==> !plain_delims && events@.len() > 0,
                events@.len() == 0 ==> !stalled,
            ensures
                failed is Some || drained || stalled,
            decreases f.decoder.input().readable().len(), f.decoder.staged().readable().len(),
        {
            let (a0, b0) = f.decoder.pending();
            let ghost old_dec = f.decoder;
            let ghost evs_before = events@;
            match f.decoder.decode(&mut events) {
                Err(e) => {
                    failed = Some(e);
                    break;
                },
                Ok(n) => {
                    proof {
                        lemma_all_text_extend(evs_before, events@);
                    }
                    if n == 0 {
                        proof {
                            drained = true;
                        }
                        break;
                    }
                    let (a1, b1) = f.decoder.pending();
                    if !(a1 < a0 || (a1 == a0 && b1 < b0)) {
                        proof {
                            let new_evs = events@.subrange(evs_before.len() as int, events@.len() as int);
                            if old_dec.plain_stream() && has_delims(old_dec.delim()) {
                                let (ws, wg) = choose|ws: Seq<u8>, wg: Option<GlueSpec>| decoded_from(old_dec, f.decoder, ws, wg, new_evs, false);
                                lemma_plain_progress(old_dec, f.decoder, ws, wg, new_evs);
                            }
                            stalled = true;
                        }
                        break;
                    }
                },
            }
        }
        self.files.insert(i, f);
        proof {
            assert(self.ids() =~= before.ids());
            assert(self.paths() =~= before.paths());
            assert(self.lens() =~= before.lens());
            assert(self.offsets() =~= before.offsets());
            assert forall|k: int| 0 <= k < self.files@.len() implies (#[trigger] self.files@[k]).decoder.wf() by {
                if k != i {
                    assert(self.files@[k] == before.files@[k]);
                }
            }
            assert forall|j: int| 0 <= j < before.ids().len() && j != i implies #[trigger] self.decoder_of(j) == before.decoder_of(j) by {
                assert(self.files@[j] == before.files@[j]);
            }
        }
        match failed {
            Some(e) => Err(e),
            None => {
                let path = self.files[i].path.as_str();
                label_events(&mut events, path);
                Ok(events)
            },
        }
    }
}

pub open spec fn path_key() -> Seq<char> {
    seq!['p', 'a', 't', 'h']
}

proof fn lemma_all_text_extend(a: Seq<Event>, b: Seq<Event>)
    requires
        all_text_events(a),
        a.len() <= b.len(),
        b.subrange(0, a.len() as int) == a,
        all_text_events(b.subrange(a.len() as int, b.len() as int)),
    ensures
        all_text_events(b),
{
    assert forall|k: int| 0 <= k < b.len() implies is_some_text_event(#[trigger] b[k]) by {
        if k < a.len() {
            assert(b[k] == b.subrange(0, a.len() as int)[k]);
        } else {
            assert(b[k] == b.subrange(a.len() as int, b.len() as int)[k - a.len()]);
        }
    }
}

/// `e` is the text event of frame `f`, with `p` as its `path` field.
pub open spec fn labelled(e: Event, f: Seq<u8>, p: Seq<char>) -> bool {
    &&& e.field_spec(message_key()) matches Some(Value::String(s)) && s@ == utf8_lossy(f)
    &&& has_path(e, p)
    &&& forall|k: Seq<char>| k != message_key() && k != path_key() ==> e.field_spec(k) is None
    &&& forall|k: Seq<char>| e.tag_spec(k) is None
}

/// `e` is the text event of some frame, labelled with path `p`.
pub open spec fn is_labelled_text_event(e: Event, p: Seq<char>) -> bool {
    exists|f: Seq<u8>| labelled(e, f, p)
}

/// `e` carries `p` as its `path` field.
pub open spec fn has_path(e: Event, p: Seq<char>) -> bool {
    e.field_spec(path_key()) matches Some(Value::String(s)) && s@ == p
}

/// Sets the `path` field of every event.
fn label_events(events: &mut Vec<Event>, path: &str)
    requires
        all_text_events(old(events)@),
    ensures
        final(events)@.len() == old(events)@.len(),
        forall|k: int| 0 <= k < final(events)@.len() ==> is_labelled_text_event(#[trigger] final(events)@[k], path@),
        forall|k: int| 0 <= k < final(events)@.len() ==> has_path(#[trigger] final(events)@[k], path@),
{
    proof {
        reveal_strlit("path");
        assert("path"@ =~= path_key());
    }
    let n = events.len();
    let mut k: usize = 0;
    while k < n
        invariant
            n == events@.len(),
            k <= n,
            "path"@ == path_key(),
            forall|j: int| 0 <= j < k ==> has_path(#[trigger] events@[j], path@),
            forall|j: int| 0 <= j < k ==> is_labelled_text_event(#[trigger] events@[j], path@),
            forall|j: int| k <= j < n ==> (#[trigger] events@[j]) == old(events)@[j],
            all_text_events(old(events)@),
            n == old(events)@.len(),
        decreases n - k,
    {
        let ghost before = events@;
        proof {
            assert(is_some_text_event(old(events)@[k as int]));
            assert(message_key() != path_key()) by {
                assert(message_key().len() != path_key().len());
            }
        }
        let ghost f = choose|f: Seq<u8>| is_text_event(old(events)@[k as int], f);
        let mut e = events.remove(k);
        e.set_field("path", Value::String(path.to_string()));
        proof {
            assert(labelled(e, f, path@));
        }
        events.insert(k, e);
        proof {
            assert forall|j: int| 0 <= j < k + 1 implies is_labelled_text_event(#[trigger] events@[j], path@) by {
                if j == k {
                    assert(labelled(events@[j], f, path@));
                } else {
                    assert(events@[j] == before[j]);
                }
            }
            assert forall|j: int| 0 <= j < k + 1 implies has_path(#[trigger] events@[j], path@) by {
                if j < k {
                    assert(events@[j] == before[j]);
                }
            }
            assert forall|j: int| k + 1 <= j < n implies (#[trigger] events@[j]) == old(events)@[j] by {
                assert(events@[j] == before[j]);
            }
        }
        k = k + 1;
    }
}

/// The start position named by a `start_position` option.
pub open spec fn start_option(v: Seq<char>) -> Option<StartFrom> {
    if v == seq!['b', 'e', 'g', 'i', 'n', 'n', 'i', 'n', 'g'] {
        Some(StartFrom::Beginning)
    } else if v == seq!['e', 'n', 'd'] {
        Some(StartFrom::End)
    } else {
        None
    }
}

fn config_error(msg: &str) -> (r: Error)
    ensures
        r.spec_id() == ErrorId::Parse,
{
    Error::new(ErrorId::Parse, ErrorDetails::new(msg.to_string(), Span::none()))
}

/// Parses `start_position`: `beginning` (the default) or `end`.
pub fn parse_start_position(v: Option<&str>) -> (r: Result<StartFrom, Error>)
    ensures
        match v {
            None => r matches Ok(s) && s == StartFrom::Beginning,
            Some(t) => match start_option(t@) {
                Some(x) => r matches Ok(s) && s == x,
                None => r matches Err(e) && e.spec_id() == ErrorId::Parse,
            },
        },
{
    match v {
        None => Ok(StartFrom::Beginning),
        Some(t) => {
            proof {
                reveal_strlit("beginning");
                reveal_strlit("end");
                assert("beginning"@ =~= seq!['b', 'e', 'g', 'i', 'n', 'n', 'i', 'n', 'g']);
                assert("end"@ =~= seq!['e', 'n', 'd']);
            }
            if str_eq(t, "beginning") {
                Ok(StartFrom::Beginning)
            } else if str_eq(t, "end") {
                Ok(StartFrom::End)
            } else {
                Err(config_error("expected one of [\"beginning\", \"end\"]"))
            }
        },
    }
}

/// Options of the file input.
pub struct FileConfig {
    /// Glob patterns of the files to tail.
    pub path_patterns: Vec<String>,
    pub start_from: StartFrom,
}

impl FileConfig {
    /// `path` is required; `start_position` is optional.
    pub fn parse(path: Option<Vec<String>>, start_position: Option<&str>) -> (r: Result<FileConfig, Error>)
        ensures
            r matches Err(e) ==> e.spec_id() == ErrorId::Parse,
            r is Ok <==> path is Some && (start_position matches Some(t) ==> start_option(t@) is Some),
            r matches Ok(c) ==> path matches Some(p) && c.path_patterns@ == p@ && c.start_from == match start_position {
                Some(t) => start_option(t@).unwrap(),
                None => StartFrom::Beginning,
            },
    {
        let path_patterns = match path {
            Some(p) => p,
            None => {
                return Err(config_error("Map must specify required key `path`"));
            },
        };
        match parse_start_position(start_position) {
            Ok(start_from) => Ok(FileConfig { path_patterns, start_from }),
            Err(e) => Err(e),
        }
    }
}

/// A `path` entry that is a string.
pub open spec fn is_text(v: Spanned<Value>) -> bool {
    text_of(v) is Some
}

pub open spec fn text_test() -> spec_fn(Spanned<Value>) -> bool {
    |v: Spanned<Value>| is_text(v)
}

/// Index of the first entry of `p` that is no string.
pub open spec fn first_non_text(p: Seq<Spanned<Value>>) -> Option<int> {
    first_failing(p, text_test())
}

impl FileConfig {
    /// Parses option values as read from configuration, each with its
    /// span: `path` (a list of strings, required; `span` is the span of the
    /// whole option map) and `start_position`. An error names the span of
    /// the offending value.
    pub fn from_options(path: Option<&Vec<Spanned<Value>>>, start_position: Option<&Spanned<Value>>, span: Span) -> (r: Result<FileConfig, Error>)
        ensures
            r matches Err(e) ==> e.spec_id() == ErrorId::Parse && e.spec_details() is Some,
            match path {
                None => r matches Err(e) && e.spec_details().unwrap().1 == span,
                Some(p) => match first_non_text(p@) {
                    Some(i) => r matches Err(e) && e.spec_details().unwrap().1 == p@[i].span,
                    None => match start_position {
                        Some(v) if text_of(*v) is None || start_option(text_of(*v).unwrap()) is None =>
                            r matches Err(e) && e.spec_details().unwrap().1 == v.span,
                        _ => r matches Ok(c) && c.path_patterns@.len() == p@.len()
                            && (forall|i: int| 0 <= i < p@.len() ==> Some(#[trigger] c.path_patterns@[i]@) == text_of(p@[i]))
                            && c.start_from == match start_position {
                                Some(v) => start_option(text_of(*v).unwrap()).unwrap(),
                                None => StartFrom::Beginning,
                            },
                    },
                },
            },
    {
        let p = match path {
            Some(p) => p,
            None => {
                return Err(Error::new(ErrorId::Parse, ErrorDetails::new("Map must specify required key `path`".to_string(), span)));
            },
        };
        let mut patterns: Vec<String> = Vec::new();
        let mut i: usize = 0;
        proof {
            assert(p@.subrange(0, p@.len() as int) =~= p@);
        }
        while i < p.len()
            invariant
                path == Some(p),
                i <= p@.len(),
                patterns@.len() == i,
                forall|j: int| 0 <= j < i ==> Some(#[trigger] patterns@[j]@) == text_of(p@[j]),
                first_non_text(p@) == (match first_failing(p@.subrange(i as int, p@.len() as int), text_test()) {
                    Some(j) => Some(j + i),
                    None => None,
                }),
            decreases p@.len() - i,
        {
            proof {
                lemma_first_failing_step(p@, text_test(), i as int);
            }
            match p[i].as_str() {
                Ok(t) => {
                    proof {
                        assert(is_text(p@[i as int]));
                    }
                    patterns.push(t.to_string());
                },
                Err(e) => {
                    proof {
                        assert(!is_text(p@[i as int]));
                        assert(first_non_text(p@) == Some(i as int));
                    }
                    return Err(e);
                },
            }
            i = i + 1;
        }
        proof {
            assert(p@.subrange(i as int, p@.len() as int).len() == 0);
        }
        let start_from = match start_position {
            None => StartFrom::Beginning,
            Some(v) => {
                let t = match v.as_str() {
                    Ok(t) => t,
                    Err(e) => {
                        return Err(e);
                    },
                };
                match parse_start_position(Some(t)) {
                    Ok(s) => s,
                    Err(_) => {
                        return Err(Error::new(ErrorId::Parse, ErrorDetails::new("expected one of [\"beginning\", \"end\"]".to_string(), v.span)));
                    },
                }
            },
        };
        Ok(FileConfig { path_patterns: patterns, start_from })
    }
}

} // verus!
