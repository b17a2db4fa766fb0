use vstd::bytes::*;
use vstd::prelude::*;
use vstd::slice::slice_subrange;

use crate::errors::StorageError;

verus! {

/// Bytes that a new row arena can hold before it first grows.
pub const INITIAL_ROW_CAPACITY: usize = 32;

/// Bytes that a new blob heap can hold before it first grows.
pub const INITIAL_HEAP_CAPACITY: usize = 16;

/// Longest payload that a 2-byte length prefix can describe.
pub const MAX_TEXT_LEN: usize = 65535;

/// Largest heap whose offsets all fit in the 4 bytes a row keeps for them.
pub const HEAP_LIMIT: usize = 0xffff_ffff;

/// Capacity after growing a buffer of capacity `cap` to hold `needed` bytes:
/// double the old capacity, or exactly what is needed where doubling is not
/// enough or does not fit in a `usize`.
pub open spec fn grown_capacity(cap: nat, needed: nat) -> nat {
    if needed <= 2 * cap && 2 * cap <= usize::MAX {
        2 * cap
    } else {
        needed
    }
}

/// Capacity of a buffer of capacity `cap` once it holds `needed` bytes.
pub open spec fn capacity_for(cap: nat, needed: nat) -> nat {
    if needed <= cap {
        cap
    } else {
        grown_capacity(cap, needed)
    }
}

/// Extends `buf` with zeros to its grown capacity for `needed` bytes.
fn grow(buf: &mut Vec<u8>, needed: usize)
    requires
        old(buf)@.len() < needed,
    ensures
        final(buf)@.len() == grown_capacity(old(buf)@.len(), needed as nat),
        final(buf)@.subrange(0, old(buf)@.len() as int) == old(buf)@,
{
    let cap = buf.len();
    let target: usize = if cap <= usize::MAX / 2 && needed <= 2 * cap {
        2 * cap
    } else {
        needed
    };
    while buf.len() < target
        invariant
            cap <= buf@.len() <= target,
            buf@.subrange(0, cap as int) == old(buf)@,
        decreases target - buf@.len(),
    {
        buf.push(0u8);
    }
}

/// Copies `src` into `buf` from position `at` on.
pub(crate) fn write_at(buf: &mut Vec<u8>, at: usize, src: &[u8])
    requires
        at + src@.len() <= old(buf)@.len(),
    ensures
        final(buf)@.len() == old(buf)@.len(),
        final(buf)@.subrange(0, at as int) == old(buf)@.subrange(0, at as int),
        final(buf)@.subrange(at as int, at + src@.len()) == src@,
        final(buf)@.subrange(at + src@.len(), old(buf)@.len() as int) == old(buf)@.subrange(
            at + src@.len(),
            old(buf)@.len() as int,
        ),
{
    let n = buf.len();
    let mut i: usize = 0;
    while i < src.len()
        invariant
            i <= src@.len(),
            at + src@.len() <= old(buf)@.len(),
            buf@.len() == old(buf)@.len() == n,
            forall|k: int| 0 <= k < at ==> buf@[k] == old(buf)@[k],
            forall|k: int| 0 <= k < i ==> buf@[at + k] == src@[k],
            forall|k: int| at + i <= k < buf@.len() ==> buf@[k] == old(buf)@[k],
        decreases src@.len() - i,
    {
        buf.set(at + i, src[i]);
        i += 1;
    }
    assert(buf@.subrange(0, at as int) =~= old(buf)@.subrange(0, at as int));
    assert(buf@.subrange(at as int, at + src@.len()) =~= src@);
    assert(buf@.subrange(at + src@.len(), old(buf)@.len() as int) =~= old(buf)@.subrange(
        at + src@.len(),
        old(buf)@.len() as int,
    ));
}

/// Append-only store of fixed-width rows, kept in a buffer that grows
/// geometrically and never shrinks.
pub struct RowArena {
    bytes: Vec<u8>,
    len: usize,
}

impl RowArena {
    /// The bytes appended so far.
    pub closed spec fn contents(&self) -> Seq<u8> {
        self.bytes@.subrange(0, self.len as int)
    }

    /// Bytes the arena holds before it must grow.
    pub closed spec fn capacity(&self) -> nat {
        self.bytes@.len()
    }

    pub closed spec fn wf(&self) -> bool {
        self.len <= self.bytes@.len()
    }

    pub fn new() -> (a: RowArena)
        ensures
            a.wf(),
            a.contents() == Seq::<u8>::empty(),
            a.capacity() == INITIAL_ROW_CAPACITY,
    {
        let mut bytes: Vec<u8> = Vec::new();
        grow(&mut bytes, INITIAL_ROW_CAPACITY);
        let a = RowArena { bytes, len: 0 };
        assert(a.contents() =~= Seq::<u8>::empty());
        a
    }

    pub fn len(&self) -> (r: usize)
        requires
            self.wf(),
        ensures
            r == self.contents().len(),
    {
        self.len
    }

    pub fn capacity_bytes(&self) -> (r: usize)
        ensures
            r == self.capacity(),
    {
        self.bytes.len()
    }

    /// Appends `row` and returns the position where it starts.
    pub fn append(&mut self, row: &[u8]) -> (start: usize)
        requires
            old(self).wf(),
            old(self).contents().len() + row@.len() <= usize::MAX,
        ensures
            final(self).wf(),
            start == old(self).contents().len(),
            final(self).contents() == old(self).contents() + row@,
            final(self).capacity() == capacity_for(
                old(self).capacity(),
                old(self).contents().len() + row@.len(),
            ),
    {
        let start = self.len;
        let needed = self.len + row.len();
        if needed > self.bytes.len() {
            grow(&mut self.bytes, needed);
        }
        let ghost before = self.bytes@;
        write_at(&mut self.bytes, start, row);
        self.len = needed;
        assert(self.contents() =~= old(self).contents() + row@) by {
            assert(old(self).contents() =~= before.subrange(0, start as int));
            assert forall|k: int| 0 <= k < needed implies self.contents()[k] == (old(
                self,
            ).contents() + row@)[k] by {
                if k < start {
                    assert(self.bytes@.subrange(0, start as int)[k] == self.bytes@[k]);
                } else {
                    assert(self.bytes@.subrange(start as int, needed as int)[k - start]
                        == self.bytes@[k]);
                }
            }
        }
        start
    }

    /// The `len` bytes from position `start` on.
    pub fn read(&self, start: usize, len: usize) -> (r: Result<&[u8], StorageError>)
        requires
            self.wf(),
        ensures
            start + len <= self.contents().len() ==> r is Ok && r->Ok_0@ == self.contents().subrange(
                start as int,
                start + len,
            ),
            start + len > self.contents().len() ==> r == Err::<&[u8], StorageError>(
                StorageError::OutOfBounds,
            ),
    {
        if len > self.len || start > self.len - len {
            return Err(StorageError::OutOfBounds);
        }
        let s = slice_subrange(self.bytes.as_slice(), start, start + len);
        assert(s@ =~= self.contents().subrange(start as int, start + len));
        Ok(s)
    }
}

/// Whether the heap `heap` holds a complete payload at offset `o`: a 2-byte
/// little-endian length followed by that many bytes. Gives the payload.
pub open spec fn heap_payload(heap: Seq<u8>, o: int) -> Option<Seq<u8>> {
    if 0 <= o && o + 2 <= heap.len() {
        let n = spec_u16_from_le_bytes(heap.subrange(o, o + 2)) as int;
        if o + 2 + n <= heap.len() {
            Some(heap.subrange(o + 2, o + 2 + n))
        } else {
            None
        }
    } else {
        None
    }
}

/// Position of the length prefix of a payload appended to a heap of `len`
/// bytes: the next even position.
pub open spec fn payload_start(len: nat) -> nat {
    if len % 2 == 0 {
        len
    } else {
        len + 1
    }
}

/// Heap length after appending a payload of `n` bytes to a heap of `len`.
pub open spec fn heap_len_after(len: nat, n: nat) -> nat {
    payload_start(len) + 2 + n
}

/// Payloads that stay where they are when a heap grows from `h` to `h2`.
pub proof fn lemma_heap_payload_extend(h: Seq<u8>, h2: Seq<u8>, o: int)
    requires
        heap_payload(h, o) is Some,
        h.len() <= h2.len(),
        h2.subrange(0, h.len() as int) == h,
    ensures
        heap_payload(h2, o) == heap_payload(h, o),
{
    let n = spec_u16_from_le_bytes(h.subrange(o, o + 2)) as int;
    assert(h2.subrange(o, o + 2) =~= h.subrange(o, o + 2));
    assert(h2.subrange(o + 2, o + 2 + n) =~= h.subrange(o + 2, o + 2 + n));
}

/// Append-only store of length-prefixed payloads, kept in a buffer that
/// grows geometrically and never shrinks.
pub struct BlobHeap {
    bytes: Vec<u8>,
    len: usize,
}

impl BlobHeap {
    /// The bytes appended so far, padding and length prefixes included.
    pub closed spec fn contents(&self) -> Seq<u8> {
        self.bytes@.subrange(0, self.len as int)
    }

    /// Bytes the heap holds before it must grow.
    pub closed spec fn capacity(&self) -> nat {
        self.bytes@.len()
    }

    pub closed spec fn wf(&self) -> bool {
        &&& self.len <= self.bytes@.len()
        &&& self.len <= HEAP_LIMIT
    }

    pub fn new() -> (h: BlobHeap)
        ensures
            h.wf(),
            h.contents() == Seq::<u8>::empty(),
            h.capacity() == INITIAL_HEAP_CAPACITY,
    {
        let mut bytes: Vec<u8> = Vec::new();
        grow(&mut bytes, INITIAL_HEAP_CAPACITY);
        let h = BlobHeap { bytes, len: 0 };
        assert(h.contents() =~= Seq::<u8>::empty());
        h
    }

    pub fn len(&self) -> (r: usize)
        requires
            self.wf(),
        ensures
            r == self.contents().len(),
            r <= HEAP_LIMIT,
    {
        self.len
    }

    pub fn capacity_bytes(&self) -> (r: usize)
        ensures
            r == self.capacity(),
    {
        self.bytes.len()
    }

    /// Appends `payload` behind its 2-byte length, at the next even
    /// position, and returns the position of the length.
    pub fn append(&mut self, payload: &[u8]) -> (offset: usize)
        requires
            old(self).wf(),
            payload@.len() <= MAX_TEXT_LEN,
            heap_len_after(old(self).contents().len(), payload@.len()) <= HEAP_LIMIT,
        ensures
            final(self).wf(),
            offset == payload_start(old(self).contents().len()),
            final(self).contents().len() == heap_len_after(
                old(self).contents().len(),
                payload@.len(),
            ),
            final(self).contents().subrange(0, old(self).contents().len() as int) == old(
                self,
            ).contents(),
            heap_payload(final(self).contents(), offset as int) == Some(payload@),
            final(self).capacity() == capacity_for(
                old(self).capacity(),
                heap_len_after(old(self).contents().len(), payload@.len()),
            ),
    {
        let offset: usize = if self.len % 2 == 1 {
            self.len + 1
        } else {
            self.len
        };
        let end = offset + 2 + payload.len();
        if end > self.bytes.len() {
            grow(&mut self.bytes, end);
            assert forall|k: int| 0 <= k < old(self).len implies self.bytes@[k] == old(
                self,
            ).bytes@[k] by {
                assert(self.bytes@.subrange(0, old(self).bytes@.len() as int)[k]
                    == self.bytes@[k]);
            }
        }
        let ghost grown = self.bytes@;
        if offset > self.len {
            let pad: [u8; 1] = [0u8];
            write_at(&mut self.bytes, self.len, pad.as_slice());
        }
        let ghost padded = self.bytes@;
        let prefix = u16_to_le_bytes(payload.len() as u16);
        write_at(&mut self.bytes, offset, prefix.as_slice());
        let ghost prefixed = self.bytes@;
        write_at(&mut self.bytes, offset + 2, payload);
        self.len = end;
        proof {
            lemma_auto_spec_u16_to_from_le_bytes();
            let c = self.contents();
            let b = self.bytes@;
            assert(c.subrange(0, old(self).contents().len() as int) =~= old(self).contents()) by {
                assert forall|k: int| 0 <= k < old(self).len implies c[k] == old(
                    self,
                ).contents()[k] by {
                    assert(b.subrange(0, offset + 2) [k] == b[k]);
                    assert(prefixed.subrange(0, offset as int)[k] == prefixed[k]);
                    assert(padded.subrange(0, old(self).len as int)[k] == padded[k]);
                }
            }
            assert(c.subrange(offset as int, offset + 2) =~= prefix@) by {
                assert forall|k: int| 0 <= k < 2 implies c.subrange(offset as int, offset + 2)[k]
                    == prefix@[k] by {
                    assert(b.subrange(0, offset + 2)[offset + k] == b[offset + k]);
                    assert(prefixed.subrange(offset as int, offset + 2)[k] == prefixed[offset
                        + k]);
                }
            }
            assert(c.subrange(offset + 2, end as int) =~= payload@) by {
                assert forall|k: int| 0 <= k < payload@.len() implies c.subrange(
                    offset + 2,
                    end as int,
                )[k] == payload@[k] by {
                    assert(b.subrange(offset + 2, end as int)[k] == b[offset + 2 + k]);
                }
            }
        }
        offset
    }

    /// The payload whose length prefix sits at `offset`.
    pub fn read(&self, offset: usize) -> (r: Result<&[u8], StorageError>)
        requires
            self.wf(),
        ensures
            match heap_payload(self.contents(), offset as int) {
                Some(p) => r is Ok && r->Ok_0@ == p,
                None => r == Err::<&[u8], StorageError>(StorageError::CorruptHeap),
            },
    {
        if offset > self.len || self.len - offset < 2 {
            return Err(StorageError::CorruptHeap);
        }
        let prefix = slice_subrange(self.bytes.as_slice(), offset, offset + 2);
        let n = u16_from_le_bytes(prefix) as usize;
        assert(prefix@ =~= self.contents().subrange(offset as int, offset + 2));
        if self.len - offset - 2 < n {
            return Err(StorageError::CorruptHeap);
        }
        let s = slice_subrange(self.bytes.as_slice(), offset + 2, offset + 2 + n);
        assert(s@ =~= self.contents().subrange(offset + 2, offset + 2 + n));
        Ok(s)
    }
}

} // verus!
