//! A memory-mapped buffer that log frames are appended to.
use vstd::prelude::*;
use memmap2::MmapMut;
use crate::error::{Result, ScribeError};

verus! {

#[verifier::external_type_specification]
#[verifier::external_body]
pub struct ExMmapMut(memmap2::MmapMut);

/// The bytes that a memory map holds, in order.
pub uninterp spec fn mapped_bytes(m: MmapMut) -> Seq<u8>;

/// `MmapMut::len` (through `Deref<Target = [u8]>`): the number of mapped bytes.
#[verifier::external_body]
fn map_len(m: &MmapMut) -> (r: usize)
    ensures
        r == mapped_bytes(*m).len(),
{
    m.len()
}

/// `<[u8]>::copy_from_slice` on the mapped bytes `start..end`: overwrites
/// them with `data` and leaves every other byte as it was.
#[verifier::external_body]
fn map_copy_in(m: &mut MmapMut, start: usize, end: usize, data: &[u8])
    requires
        start <= end <= mapped_bytes(*old(m)).len(),
        end - start == data@.len(),
    ensures
        mapped_bytes(*final(m)) == mapped_bytes(*old(m)).subrange(0, start as int) + data@
            + mapped_bytes(*old(m)).subrange(end as int, mapped_bytes(*old(m)).len() as int),
    no_unwind
{
    m[start..end].copy_from_slice(data)
}

/// The first `n` mapped bytes, borrowed (indexing through `Deref<Target = [u8]>`).
#[verifier::external_body]
fn map_prefix(m: &MmapMut, n: usize) -> (r: &[u8])
    requires
        n <= mapped_bytes(*m).len(),
    ensures
        r@ == mapped_bytes(*m).subrange(0, n as int),
{
    &m[..n]
}

/// A memory-mapped buffer written from its start: bytes before the write
/// position hold what was written, in order.
pub struct MmapBuffer {
    mmap: MmapMut,
    position: usize,
    capacity: usize,
    file_path: std::path::PathBuf,
}

impl MmapBuffer {
    #[verifier::type_invariant]
    spec fn inv(&self) -> bool {
        &&& self.position <= self.capacity
        &&& self.capacity == mapped_bytes(self.mmap).len()
    }

    /// All mapped bytes.
    pub closed spec fn contents(&self) -> Seq<u8> {
        mapped_bytes(self.mmap)
    }

    /// The write position: how many bytes have been written.
    pub closed spec fn spec_position(&self) -> nat {
        self.position as nat
    }

    /// The number of bytes the buffer can hold.
    pub closed spec fn spec_capacity(&self) -> nat {
        self.capacity as nat
    }

    /// The bytes written so far.
    pub open spec fn written(&self) -> Seq<u8> {
        self.contents().subrange(0, self.spec_position() as int)
    }

    /// A buffer over the whole of `mmap`, which lies in the file `file_path`;
    /// nothing is written yet.
    pub fn with_map(mmap: MmapMut, file_path: std::path::PathBuf) -> (r: MmapBuffer)
        ensures
            r.contents() == mapped_bytes(mmap),
            r.spec_capacity() == mapped_bytes(mmap).len(),
            r.spec_position() == 0,
    {
        let capacity = map_len(&mmap);
        MmapBuffer { mmap, position: 0, capacity, file_path }
    }

    /// Appends `data` at the write position and returns that position, or
    /// fails with `BufferFull`, changing nothing, when the data would not fit.
    pub fn write(&mut self, data: &[u8]) -> (r: Result<usize>)
        ensures
            r is Ok <==> old(self).spec_position() + data@.len() <= old(self).spec_capacity(),
            final(self).spec_capacity() == old(self).spec_capacity(),
            match r {
                Ok(p) => {
                    &&& p == old(self).spec_position()
                    &&& final(self).spec_position() == old(self).spec_position() + data@.len()
                    &&& final(self).contents() == old(self).contents().subrange(0, p as int) + data@
                        + old(self).contents().subrange(p + data@.len(), old(self).contents().len() as int)
                    &&& final(self).written() == old(self).written() + data@
                },
                Err(e) => {
                    &&& e is BufferFull
                    &&& final(self).spec_position() == old(self).spec_position()
                    &&& final(self).contents() == old(self).contents()
                },
            },
    {
        proof {
            use_type_invariant(&*self);
        }
        let n = data.len();
        let pos = self.position;
        if n > self.capacity - pos {
            return Err(ScribeError::BufferFull);
        }
        let end = pos + n;
        let ghost before = mapped_bytes(self.mmap);
        map_copy_in(&mut self.mmap, pos, end, data);
        self.position = end;
        proof {
            let after = mapped_bytes(self.mmap);
            assert(after.subrange(0, end as int) =~= before.subrange(0, pos as int) + data@);
        }
        Ok(pos)
    }

    /// How many bytes have been written.
    pub fn position(&self) -> (r: usize)
        ensures
            r == self.spec_position(),
            r <= self.spec_capacity() == self.contents().len(),
    {
        proof {
            use_type_invariant(self);
        }
        self.position
    }

    /// How many bytes the buffer can hold.
    pub fn capacity(&self) -> (r: usize)
        ensures
            r == self.spec_capacity(),
            self.spec_position() <= r == self.contents().len(),
    {
        proof {
            use_type_invariant(self);
        }
        self.capacity
    }

    /// The memory map itself, for flushing it to its file.
    pub fn map(&self) -> (r: &MmapMut)
        ensures
            mapped_bytes(*r) == self.contents(),
    {
        &self.mmap
    }

    /// Moves the write position back to the start; the mapped bytes stay.
    pub fn reset(&mut self)
        ensures
            final(self).spec_position() == 0,
            final(self).spec_capacity() == old(self).spec_capacity(),
            final(self).contents() == old(self).contents(),
    {
        proof {
            use_type_invariant(&*self);
        }
        self.position = 0;
    }

    /// The bytes written so far.
    pub fn as_slice(&self) -> (r: &[u8])
        ensures
            r@ == self.written(),
    {
        proof {
            use_type_invariant(self);
        }
        map_prefix(&self.mmap, self.position)
    }
}

} // verus!
