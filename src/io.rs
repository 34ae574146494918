use vstd::prelude::*;

verus! {

/// What a byte destination holds and where its cursor stands.
pub struct WriterView {
    pub data: Seq<u8>,
    pub pos: nat,
    pub seekable: bool,
}

/// `new` is `old` after writing `buf` at `pos`: bytes before `pos` and after
/// the written range are kept, the range holds `buf`, and the destination
/// grows where the write runs past its end.
pub open spec fn overwritten(old: Seq<u8>, pos: nat, buf: Seq<u8>, new: Seq<u8>) -> bool {
    &&& pos <= old.len()
    &&& new.len() == if pos + buf.len() > old.len() {
        (pos + buf.len()) as int
    } else {
        old.len() as int
    }
    &&& forall|j: int| 0 <= j < pos ==> #[trigger] new[j] == old[j]
    &&& forall|j: int| pos <= j < pos + buf.len() ==> #[trigger] new[j] == buf[j - pos]
    &&& forall|j: int| pos + buf.len() <= j < new.len() ==> #[trigger] new[j] == old[j]
}

/// Writing at the end of a destination appends.
pub proof fn lemma_overwritten_at_end(old: Seq<u8>, buf: Seq<u8>, new: Seq<u8>)
    requires
        overwritten(old, old.len(), buf, new),
    ensures
        new == old + buf,
{
    assert(new =~= old + buf);
}

/// A byte destination addressed by position: write at the cursor, read the
/// cursor, move the cursor. A destination that is not seekable is an
/// append-only sink: it refuses to move its cursor anywhere else.
pub struct Writer {
    data: Vec<u8>,
    pos: usize,
    seekable: bool,
}

impl View for Writer {
    type V = WriterView;

    closed spec fn view(&self) -> WriterView {
        WriterView { data: self.data@, pos: self.pos as nat, seekable: self.seekable }
    }
}

impl Writer {
    pub closed spec fn wf(&self) -> bool {
        self.pos <= self.data@.len()
    }

    /// An empty destination; `seekable` says whether it may be repositioned.
    pub fn new(seekable: bool) -> (w: Writer)
        ensures
            w.wf(),
            w@.data.len() == 0,
            w@.pos == 0,
            w@.seekable == seekable,
    {
        Writer { data: Vec::new(), pos: 0, seekable }
    }

    /// Writes `buf` at the cursor and moves the cursor past it.
    pub fn write(&mut self, buf: &[u8]) -> (ok: bool)
        requires
            old(self).wf(),
            old(self)@.pos + buf@.len() <= usize::MAX,
        ensures
            ok,
            final(self).wf(),
            overwritten(old(self)@.data, old(self)@.pos, buf@, final(self)@.data),
            final(self)@.pos == old(self)@.pos + buf@.len(),
            final(self)@.seekable == old(self)@.seekable,
    {
        let ghost start = self.data@;
        let mut i: usize = 0;
        while i < buf.len()
            invariant
                i <= buf@.len(),
                self.pos + buf@.len() <= usize::MAX,
                self.pos == old(self).pos,
                self.seekable == old(self).seekable,
                start == old(self).data@,
                self.pos <= start.len(),
                self.data@.len() == if self.pos + i > start.len() {
                    (self.pos + i) as int
                } else {
                    start.len() as int
                },
                forall|j: int| 0 <= j < self.pos ==> #[trigger] self.data@[j] == start[j],
                forall|j: int|
                    self.pos <= j < self.pos + i ==> #[trigger] self.data@[j] == buf@[j - self.pos],
                forall|j: int|
                    self.pos + i <= j < self.data@.len() ==> #[trigger] self.data@[j] == start[j],
            decreases buf@.len() - i,
        {
            if self.pos + i < self.data.len() {
                self.data.set(self.pos + i, buf[i]);
            } else {
                self.data.push(buf[i]);
            }
            i = i + 1;
        }
        self.pos = self.pos + buf.len();
        true
    }

    /// The cursor.
    pub fn get_position(&self) -> (p: u64)
        ensures
            p == self@.pos,
    {
        self.pos as u64
    }

    /// Number of bytes held.
    pub fn len(&self) -> (n: usize)
        ensures
            n == self@.data.len(),
    {
        self.data.len()
    }

    pub fn is_seekable(&self) -> (s: bool)
        ensures
            s == self@.seekable,
    {
        self.seekable
    }

    /// Moves the cursor to `pos`. Refused (and nothing changes) where `pos`
    /// lies past the end, or where the destination is not seekable and `pos`
    /// is not the cursor itself.
    pub fn set_position(&mut self, pos: u64) -> (ok: bool)
        requires
            old(self).wf(),
        ensures
            final(self).wf(),
            ok == (pos <= old(self)@.data.len() && (old(self)@.seekable || pos == old(self)@.pos)),
            final(self)@.data == old(self)@.data,
            final(self)@.seekable == old(self)@.seekable,
            final(self)@.pos == if ok {
                pos as nat
            } else {
                old(self)@.pos
            },
    {
        if pos > self.data.len() as u64 {
            return false;
        }
        if !self.seekable && pos != self.pos as u64 {
            return false;
        }
        self.pos = pos as usize;
        true
    }

    /// The bytes written, handing the destination back.
    pub fn unwrap(self) -> (data: Vec<u8>)
        ensures
            data@ == self@.data,
    {
        self.data
    }

    /// The bytes written so far.
    pub fn bytes(&self) -> (data: &[u8])
        ensures
            data@ == self@.data,
    {
        self.data.as_slice()
    }
}

/// A byte source addressed by position, for inspecting a document without
/// holding it whole: exact reads at a position and the length.
pub struct Reader {
    src: Vec<u8>,
}

impl View for Reader {
    type V = Seq<u8>;

    closed spec fn view(&self) -> Seq<u8> {
        self.src@
    }
}

impl Reader {
    pub fn new(src: Vec<u8>) -> (r: Reader)
        ensures
            r@ == src@,
    {
        Reader { src }
    }

    /// The `len` bytes from `pos`; `None` where they would run past the end.
    pub fn read_exact(&self, pos: u64, len: u64) -> (r: Option<Vec<u8>>)
        ensures
            r is Some <==> pos + len <= self@.len(),
            r is Some ==> r->0@ == self@.subrange(pos as int, pos + len),
    {
        if pos > self.src.len() as u64 || len > self.src.len() as u64 - pos {
            return None;
        }
        let mut out: Vec<u8> = Vec::new();
        let mut i: usize = pos as usize;
        let end: usize = (pos + len) as usize;
        while i < end
            invariant
                pos <= i <= end,
                end <= self@.len(),
                out@ == self@.subrange(pos as int, i as int),
            decreases end - i,
        {
            out.push(self.src[i]);
            proof {
                assert(self@.subrange(pos as int, i + 1) == self@.subrange(pos as int, i as int).push(self@[i as int]));
            }
            i = i + 1;
        }
        Some(out)
    }

    /// The total length and how much of it is available now; an in-memory
    /// source has all of it available.
    pub fn get_length(&self) -> (r: (u64, u64))
        ensures
            r.0 == self@.len(),
            r.1 == self@.len(),
    {
        (self.src.len() as u64, self.src.len() as u64)
    }
}

} // verus!
