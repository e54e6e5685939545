use vstd::prelude::*;

verus! {

/// The mathematical model of a [`Buf`]: its storage and its two cursors.
pub struct BufView {
    pub data: Seq<u8>,
    pub read_pos: nat,
    pub write_pos: nat,
}

impl BufView {
    /// `0 <= read_pos <= write_pos <= capacity`.
    pub open spec fn wf(self) -> bool {
        self.read_pos <= self.write_pos <= self.data.len()
    }

    /// The readable region `[read_pos, write_pos)`.
    pub open spec fn readable(self) -> Seq<u8> {
        self.data.subrange(self.read_pos as int, self.write_pos as int)
    }

    /// Size of the writable region `[write_pos, capacity)`.
    pub open spec fn writable_len(self) -> int {
        self.data.len() - self.write_pos
    }

    /// Storage cut or padded with zeros to `n` bytes, cursors clamped to it.
    pub open spec fn resized(self, n: nat) -> BufView {
        BufView {
            data: if n <= self.data.len() {
                self.data.subrange(0, n as int)
            } else {
                self.data + Seq::new((n - self.data.len()) as nat, |i: int| 0u8)
            },
            read_pos: if self.read_pos <= n { self.read_pos } else { n },
            write_pos: if self.write_pos <= n { self.write_pos } else { n },
        }
    }

    /// Capacity after a growth step: at least doubled, starting from 512.
    pub open spec fn grown_len(self) -> nat {
        if self.data.len() < 512 { 1024 } else { 2 * self.data.len() }
    }

    pub open spec fn grown(self) -> BufView {
        self.resized(self.grown_len())
    }

    /// The bytes from `read_pos` on move to offset 0; the capacity stays.
    pub open spec fn compacted(self) -> BufView {
        BufView {
            data: self.data.subrange(self.read_pos as int, self.data.len() as int) + self.data.subrange(
                self.data.len() - self.read_pos,
                self.data.len() as int,
            ),
            read_pos: 0,
            write_pos: (self.write_pos - self.read_pos) as nat,
        }
    }

    /// Whether making room compacts rather than only grows: at least half
    /// of the storage has been consumed.
    pub open spec fn should_compact(self) -> bool {
        self.read_pos > 0 && self.data.len() / self.read_pos <= 2
    }

    /// The state after `ensure_writeable`.
    pub open spec fn made_writeable(self) -> BufView {
        if self.writable_len() > 0 {
            self
        } else {
            let c = if self.should_compact() { self.compacted() } else { self };
            if c.writable_len() > 0 { c } else { c.grown() }
        }
    }
}

/// Contiguous byte storage with a read cursor and a write cursor.
pub struct Buf {
    buf: Vec<u8>,
    read_pos: usize,
    write_pos: usize,
}

impl View for Buf {
    type V = BufView;

    closed spec fn view(&self) -> BufView {
        BufView { data: self.buf@, read_pos: self.read_pos as nat, write_pos: self.write_pos as nat }
    }
}

impl Buf {
    pub fn new() -> (r: Buf)
        ensures
            r@.data.len() == 0,
            r@.read_pos == 0,
            r@.write_pos == 0,
            r@.wf(),
    {
        Buf { buf: Vec::new(), read_pos: 0, write_pos: 0 }
    }

    /// Capacity of the storage.
    pub fn len(&self) -> (r: usize)
        ensures
            r == self@.data.len(),
    {
        self.buf.len()
    }

    /// Whether the storage has no capacity at all.
    pub fn is_empty(&self) -> (r: bool)
        ensures
            r == (self@.data.len() == 0),
    {
        self.buf.len() == 0
    }

    pub fn read_pos(&self) -> (r: usize)
        ensures
            r == self@.read_pos,
    {
        self.read_pos
    }

    pub fn write_pos(&self) -> (r: usize)
        ensures
            r == self@.write_pos,
    {
        self.write_pos
    }

    pub fn advance_read_pos(&mut self, amount: usize)
        requires
            old(self)@.wf(),
            old(self)@.read_pos + amount <= old(self)@.write_pos,
        ensures
            final(self)@ == (BufView { read_pos: (old(self)@.read_pos + amount) as nat, ..old(self)@ }),
            final(self)@.wf(),
    {
        self.read_pos = self.read_pos + amount;
    }

    pub fn advance_write_pos(&mut self, amount: usize)
        requires
            old(self)@.wf(),
            old(self)@.write_pos + amount <= old(self)@.data.len(),
        ensures
            final(self)@ == (BufView { write_pos: (old(self)@.write_pos + amount) as nat, ..old(self)@ }),
            final(self)@.wf(),
    {
        let _ = self.buf.len();
        self.write_pos = self.write_pos + amount;
    }

    pub fn resize(&mut self, new_len: usize)
        requires
            old(self)@.wf(),
        ensures
            final(self)@ == old(self)@.resized(new_len as nat),
            final(self)@.wf(),
    {
        let ghost before = self@;
        self.buf.resize(new_len, 0u8);
        if self.read_pos > new_len {
            self.read_pos = new_len;
        }
        if self.write_pos > new_len {
            self.write_pos = new_len;
        }
        proof {
            if new_len as nat > before.data.len() {
                assert(self.buf@ =~= before.resized(new_len as nat).data);
            } else {
                assert(self.buf@ =~= before.resized(new_len as nat).data);
            }
        }
    }

    /// At least doubles the capacity, starting from 512.
    pub fn grow(&mut self)
        requires
            old(self)@.wf(),
            old(self)@.data.len() <= usize::MAX / 2,
        ensures
            final(self)@ == old(self)@.grown(),
            final(self)@.data.len() == old(self)@.grown_len(),
            final(self)@.wf(),
    {
        let base: usize = if self.buf.len() < 512 { 512 } else { self.buf.len() };
        self.resize(base * 2);
    }

    /// Makes the writable region non-empty, compacting when at least half of
    /// the storage has been consumed, growing otherwise.
    pub fn ensure_writeable(&mut self)
        requires
            old(self)@.wf(),
            old(self)@.data.len() <= usize::MAX / 2,
        ensures
            final(self)@ == old(self)@.made_writeable(),
            final(self)@.wf(),
            final(self)@.readable() == old(self)@.readable(),
            final(self)@.writable_len() > 0,
    {
        if self.write_pos == self.buf.len() {
            if self.read_pos > 0 && self.buf.len() / self.read_pos <= 2 {
                self.compact();
            }
            if self.write_pos == self.buf.len() {
                self.grow();
            }
        }
        proof {
            let o = old(self)@;
            if o.writable_len() <= 0 {
                let c = if o.should_compact() { o.compacted() } else { o };
                assert(c.readable() =~= o.readable());
                assert(self@.readable() =~= c.readable());
            }
        }
    }

    /// The readable region.
    pub fn read(&self) -> (r: &[u8])
        requires
            self@.wf(),
        ensures
            r@ == self@.readable(),
    {
        let s = self.buf.as_slice();
        &s[self.read_pos..self.write_pos]
    }

    /// The writable region, to be filled by a producer before
    /// `advance_write_pos`.
    pub fn write(&mut self) -> (r: &mut [u8])
        requires
            old(self)@.wf(),
        ensures
            r@ == old(self)@.data.subrange(old(self)@.write_pos as int, old(self)@.data.len() as int),
            final(self)@.data == old(self)@.data.subrange(0, old(self)@.write_pos as int) + final(r)@,
            final(self)@.read_pos == old(self)@.read_pos,
            final(self)@.write_pos == old(self)@.write_pos,
    {
        let wp = self.write_pos;
        let s = self.buf.as_mut_slice();
        let (_, w) = s.split_at_mut(wp);
        w
    }

    /// Shifts the unconsumed bytes to offset 0, keeping the capacity.
    pub fn compact(&mut self)
        requires
            old(self)@.wf(),
        ensures
            final(self)@ == old(self)@.compacted(),
            final(self)@.wf(),
            final(self)@.readable() == old(self)@.readable(),
    {
        let rp = self.read_pos;
        let n = self.buf.len() - rp;
        let ghost before = self.buf@;
        let mut i: usize = 0;
        while i < n
            invariant
                rp + n == before.len(),
                before.len() <= usize::MAX,
                i <= n,
                self.read_pos == rp,
                self.write_pos == old(self).write_pos,
                rp <= old(self).write_pos <= before.len(),
                self.buf@.len() == before.len(),
                forall|k: int| 0 <= k < i ==> self.buf@[k] == before[rp + k],
                forall|k: int| i <= k < before.len() ==> #[trigger] self.buf@[k] == before[k],
            decreases n - i,
        {
            let b = self.buf[rp + i];
            self.buf.set(i, b);
            i = i + 1;
        }
        self.write_pos = self.write_pos - rp;
        self.read_pos = 0;
        proof {
            assert(self.buf@ =~= before.subrange(rp as int, before.len() as int) + before.subrange(n as int, before.len() as int));
            assert(self@.readable() =~= old(self)@.readable());
        }
    }

    pub fn clear(&mut self)
        ensures
            final(self)@.data.len() == 0,
            final(self)@.read_pos == 0,
            final(self)@.write_pos == 0,
            final(self)@.wf(),
    {
        self.buf.clear();
        self.read_pos = 0;
        self.write_pos = 0;
    }
}

} // verus!
