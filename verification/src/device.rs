//! The device state: a fixed-size byte buffer with bounds-checked access.
//!
//! [`DeviceState`] owns a buffer of exactly [`BUFFER_SIZE`] bytes, created
//! zero-filled. [`DeviceState::read`] copies bytes out starting at an offset,
//! bounded by the destination capacity and by the end of the buffer.
//! [`DeviceState::write`] copies bytes in at an offset, but only when the
//! whole write fits: a write that would run past the end of the buffer is
//! rejected as a whole, transferring zero bytes and leaving the buffer
//! unchanged. Out-of-range offsets are not errors; they yield zero-byte
//! transfers.

use vstd::prelude::*;

verus! {

/// The fixed length, in bytes, of the device buffer.
pub const BUFFER_SIZE: usize = 4096;

/// What a read at `off` with destination capacity `cap` copies out of the
/// store `s`: nothing when the capacity is zero or the offset is at or past
/// the end, otherwise the bytes from `off` up to the capacity or the end of
/// the store, whichever comes first.
pub open spec fn read_result(s: Seq<u8>, off: int, cap: int) -> Seq<u8> {
    if cap <= 0 || off < 0 || off >= s.len() {
        Seq::empty()
    } else if cap <= s.len() - off {
        s.subrange(off, off + cap)
    } else {
        s.subrange(off, s.len() as int)
    }
}

/// Whether a write of `len` bytes at `off` fits entirely within a store of
/// length `s_len`.
pub open spec fn write_fits(s_len: int, off: int, len: int) -> bool {
    0 <= off && off + len <= s_len
}

/// The store after writing `data` at `off` into `s`: the bytes of `data`
/// replace `s[off .. off + data.len()]` when the write fits, and the store
/// is unchanged otherwise (the write is rejected as a whole; there is no
/// partial write).
pub open spec fn store_after_write(s: Seq<u8>, off: int, data: Seq<u8>) -> Seq<u8> {
    if write_fits(s.len() as int, off, data.len() as int) {
        s.subrange(0, off) + data + s.subrange(off + data.len(), s.len() as int)
    } else {
        s
    }
}

/// The number of bytes a write of `data` at `off` into `s` transfers: all of
/// them when the write fits, none otherwise.
pub open spec fn bytes_accepted(s: Seq<u8>, off: int, data: Seq<u8>) -> int {
    if write_fits(s.len() as int, off, data.len() as int) {
        data.len() as int
    } else {
        0
    }
}

/// The device state: a byte buffer of fixed length [`BUFFER_SIZE`].
///
/// A single instance is intended to be shared behind an exclusive lock by
/// every open file handle; the lock and the sharing live outside this
/// library, which holds only the buffer and its bounds-checked access.
pub struct DeviceState {
    buffer: Vec<u8>,
}

impl View for DeviceState {
    type V = Seq<u8>;

    closed spec fn view(&self) -> Seq<u8> {
        self.buffer@
    }
}

impl DeviceState {
    /// The buffer always holds exactly [`BUFFER_SIZE`] bytes.
    pub open spec fn wf(&self) -> bool {
        self@.len() == BUFFER_SIZE
    }

    /// Creates the device state with a zero-filled buffer.
    pub fn new() -> (s: DeviceState)
        ensures
            s.wf(),
            s@ == Seq::new(BUFFER_SIZE as nat, |i: int| 0u8),
    {
        let mut buffer: Vec<u8> = Vec::new();
        let mut i: usize = 0;
        while i < BUFFER_SIZE
            invariant
                i <= BUFFER_SIZE,
                buffer@.len() == i,
                forall|j: int| 0 <= j < i ==> buffer@[j] == 0u8,
            decreases BUFFER_SIZE - i,
        {
            buffer.push(0u8);
            i = i + 1;
        }
        proof {
            assert(buffer@ =~= Seq::new(BUFFER_SIZE as nat, |j: int| 0u8));
        }
        DeviceState { buffer }
    }

    /// Copies bytes out of the buffer, starting at `offset`, into a fresh
    /// vector of at most `capacity` bytes. An offset at or past the end of
    /// the buffer, or a zero capacity, yields an empty result: end-of-data,
    /// not an error. At most `BUFFER_SIZE - offset` bytes are copied.
    pub fn read(&self, offset: usize, capacity: usize) -> (r: Vec<u8>)
        requires
            self.wf(),
        ensures
            r@ == read_result(self@, offset as int, capacity as int),
    {
        let mut r: Vec<u8> = Vec::new();
        if capacity == 0 || offset >= BUFFER_SIZE {
            proof {
                assert(r@ =~= read_result(self@, offset as int, capacity as int));
            }
            return r;
        }
        let avail = BUFFER_SIZE - offset;
        let count = if capacity < avail { capacity } else { avail };
        let mut i: usize = 0;
        while i < count
            invariant
                self.wf(),
                i <= count,
                offset + count <= BUFFER_SIZE,
                r@.len() == i,
                forall|j: int| 0 <= j < i ==> r@[j] == self@[offset + j],
            decreases count - i,
        {
            r.push(self.buffer[offset + i]);
            i = i + 1;
        }
        proof {
            assert(r@ =~= read_result(self@, offset as int, capacity as int));
        }
        r
    }

    /// Copies `data` into the buffer at `offset`. The write either fits
    /// entirely — every byte is stored and `data.len()` is returned — or it
    /// would run past the end of the buffer, in which case nothing is stored
    /// and 0 is returned: a capacity overflow is a silent no-op, not an
    /// error, and there is no partial write.
    pub fn write(&mut self, offset: usize, data: &Vec<u8>) -> (n: usize)
        requires
            old(self).wf(),
        ensures
            final(self).wf(),
            final(self)@ == store_after_write(old(self)@, offset as int, data@),
            n == bytes_accepted(old(self)@, offset as int, data@),
    {
        let len = data.len();
        if offset > BUFFER_SIZE || len > BUFFER_SIZE - offset {
            return 0;
        }
        let ghost s0 = self@;
        let mut i: usize = 0;
        while i < len
            invariant
                self.wf(),
                i <= len,
                len == data@.len(),
                offset + len <= BUFFER_SIZE,
                s0.len() == BUFFER_SIZE,
                forall|j: int| 0 <= j < s0.len() && !(offset <= j < offset + i) ==> self@[j] == s0[j],
                forall|j: int| 0 <= j < i ==> self@[offset + j] == data@[j],
            decreases len - i,
        {
            self.buffer[offset + i] = data[i];
            i = i + 1;
        }
        proof {
            assert(self@ =~= store_after_write(s0, offset as int, data@));
        }
        len
    }
}

/// How a fitting write changes the store, byte by byte: the written range
/// holds `data`, and every byte outside it is untouched.
proof fn lemma_store_bytes(s: Seq<u8>, off: int, data: Seq<u8>)
    requires
        write_fits(s.len() as int, off, data.len() as int),
    ensures
        store_after_write(s, off, data).len() == s.len(),
        forall|j: int|
            off <= j < off + data.len() ==> #[trigger] store_after_write(s, off, data)[j]
                == data[j - off],
        forall|j: int|
            0 <= j < s.len() && !(off <= j < off + data.len())
                ==> #[trigger] store_after_write(s, off, data)[j] == s[j],
{
}

/// Writing bytes `data` at an offset where they fit, then reading from that
/// offset with a destination capacity of at least `data.len()`, gives back
/// exactly `data` as the first `data.len()` bytes; with capacity equal to
/// `data.len()`, the read returns exactly `data`.
pub proof fn lemma_write_then_read(s: Seq<u8>, off: int, data: Seq<u8>, cap: int)
    requires
        s.len() == BUFFER_SIZE,
        write_fits(s.len() as int, off, data.len() as int),
        cap >= data.len(),
    ensures
        read_result(store_after_write(s, off, data), off, cap).len() >= data.len(),
        read_result(store_after_write(s, off, data), off, cap).subrange(
            0,
            data.len() as int,
        ) == data,
        cap == data.len() ==> read_result(store_after_write(s, off, data), off, cap) == data,
{
    lemma_store_bytes(s, off, data);
    let t = store_after_write(s, off, data);
    assert(read_result(t, off, cap).subrange(0, data.len() as int) =~= data);
    if cap == data.len() {
        assert(read_result(t, off, cap) =~= data);
    }
}

/// At or past the end of the buffer, both operations transfer zero bytes:
/// a read yields nothing, and a write stores nothing and leaves the buffer
/// unchanged.
pub proof fn lemma_past_end_is_noop(s: Seq<u8>, off: int, data: Seq<u8>, cap: int)
    requires
        s.len() == BUFFER_SIZE,
        off >= BUFFER_SIZE,
    ensures
        read_result(s, off, cap) == Seq::<u8>::empty(),
        bytes_accepted(s, off, data) == 0,
        store_after_write(s, off, data) == s,
{
    if write_fits(s.len() as int, off, data.len() as int) {
        assert(store_after_write(s, off, data) =~= s);
    }
}

/// A write that starts inside the buffer but would run past its end is
/// rejected as a whole: zero bytes are transferred and the buffer is
/// unchanged — there is no partial write.
pub proof fn lemma_overflowing_write_rejected(s: Seq<u8>, off: int, data: Seq<u8>)
    requires
        s.len() == BUFFER_SIZE,
        0 <= off < BUFFER_SIZE,
        off + data.len() > BUFFER_SIZE,
    ensures
        bytes_accepted(s, off, data) == 0,
        store_after_write(s, off, data) == s,
{
}

/// Writing the same bytes twice at the same offset leaves the same stored
/// content as writing them once.
pub proof fn lemma_write_idempotent(s: Seq<u8>, off: int, data: Seq<u8>)
    ensures
        store_after_write(store_after_write(s, off, data), off, data) == store_after_write(
            s,
            off,
            data,
        ),
{
    if write_fits(s.len() as int, off, data.len() as int) {
        lemma_store_bytes(s, off, data);
        let t = store_after_write(s, off, data);
        lemma_store_bytes(t, off, data);
        assert(store_after_write(t, off, data) =~= t);
    }
}

/// Two writes to disjoint offset ranges, performed one after the other (as
/// the exclusive lock serializes them), each leave their own bytes intact:
/// no lost update.
pub proof fn lemma_disjoint_writes(s: Seq<u8>, off1: int, data1: Seq<u8>, off2: int, data2: Seq<u8>)
    requires
        s.len() == BUFFER_SIZE,
        write_fits(s.len() as int, off1, data1.len() as int),
        write_fits(s.len() as int, off2, data2.len() as int),
        off1 + data1.len() <= off2 || off2 + data2.len() <= off1,
    ensures
        ({
            let t = store_after_write(store_after_write(s, off1, data1), off2, data2);
            &&& t.subrange(off1, off1 + data1.len()) == data1
            &&& t.subrange(off2, off2 + data2.len()) == data2
        }),
{
    lemma_store_bytes(s, off1, data1);
    let t1 = store_after_write(s, off1, data1);
    lemma_store_bytes(t1, off2, data2);
    let t = store_after_write(t1, off2, data2);
    assert(t.subrange(off1, off1 + data1.len()) =~= data1);
    assert(t.subrange(off2, off2 + data2.len()) =~= data2);
}

} // verus!
