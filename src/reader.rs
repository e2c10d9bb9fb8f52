use crate::bytes::{le16, le32, lemma_le16_injective, lemma_le32_injective, u16_from_le, u32_from_le};
use crate::chunk_id::ChunkId;
use crate::error::WaveError;
use vstd::prelude::*;

verus! {

broadcast use crate::bytes::group_le_len;

/// A forward-only cursor over a byte buffer. `offset` is the position of the next byte;
/// `prev` is where the last successful read started.
pub struct CountingReader<'a> {
    pub inner: &'a [u8],
    pub offset: u32,
    pub prev: u32,
}

impl<'a> CountingReader<'a> {
    pub open spec fn bytes(&self) -> Seq<u8> {
        self.inner@
    }

    pub open spec fn wf(&self) -> bool {
        self.offset <= self.inner@.len() <= u32::MAX
    }

    /// At least `n` bytes remain.
    pub open spec fn has(&self, n: int) -> bool {
        self.offset + n <= self.inner@.len()
    }

    /// The `n` bytes from the offset on.
    pub open spec fn next(&self, n: int) -> Seq<u8> {
        self.inner@.subrange(self.offset as int, self.offset + n)
    }

    /// `self` is `before` moved past `n` bytes.
    pub open spec fn advanced(&self, before: &Self, n: int) -> bool {
        &&& self.inner@ == before.inner@
        &&& self.wf()
        &&& self.offset == before.offset + n
        &&& self.prev == before.offset
    }

    pub fn new(read: &'a [u8]) -> (r: Self)
        requires
            read@.len() <= u32::MAX,
        ensures
            r.inner@ == read@,
            r.offset == 0,
            r.prev == 0,
            r.wf(),
    {
        CountingReader { inner: read, offset: 0, prev: 0 }
    }

    /// Fills `buf` with the next `buf.len()` bytes.
    pub fn read_exact(&mut self, buf: &mut Vec<u8>) -> (r: Result<(), WaveError>)
        requires
            old(self).wf(),
        ensures
            match r {
                Ok(()) => old(self).has(old(buf)@.len() as int) && final(self).advanced(
                    old(self),
                    old(buf)@.len() as int,
                ) && final(buf)@ == old(self).next(old(buf)@.len() as int),
                Err(e) => !old(self).has(old(buf)@.len() as int) && e == (WaveError::UnexpectedEof
                    { at: old(self).offset }) && *final(self) == *old(self) && final(buf)@ == old(
                    buf,
                )@,
            },
    {
        let n = buf.len();
        if n > self.inner.len() - self.offset as usize {
            return Err(WaveError::UnexpectedEof { at: self.offset });
        }
        let start = self.offset as usize;
        let mut i: usize = 0;
        while i < n
            invariant
                0 <= i <= n,
                n == buf@.len(),
                start + n <= self.inner@.len(),
                *self == *old(self),
                old(self).wf(),
                start == old(self).offset,
                buf@.subrange(0, i as int) == self.inner@.subrange(start as int, start + i),
            decreases n - i,
        {
            buf.set(i, self.inner[start + i]);
            assert(buf@.subrange(0, i + 1) =~= self.inner@.subrange(start as int, start + i + 1));
            i = i + 1;
        }
        assert(buf@.subrange(0, n as int) =~= buf@);
        self.prev = self.offset;
        self.offset = self.offset + n as u32;
        Ok(())
    }

    pub fn read_chunk_id(&mut self) -> (r: Result<ChunkId, WaveError>)
        requires
            old(self).wf(),
        ensures
            match r {
                Ok(id) => old(self).has(4) && final(self).advanced(old(self), 4) && id@ == old(
                    self,
                ).next(4),
                Err(e) => !old(self).has(4) && e == (WaveError::UnexpectedEof {
                    at: old(self).offset,
                }) && *final(self) == *old(self),
            },
    {
        if 4 > self.inner.len() - self.offset as usize {
            return Err(WaveError::UnexpectedEof { at: self.offset });
        }
        let o = self.offset as usize;
        let id = ChunkId::new(
            [self.inner[o], self.inner[o + 1], self.inner[o + 2], self.inner[o + 3]],
        );
        assert(id@ =~= self.next(4));
        self.prev = self.offset;
        self.offset = self.offset + 4;
        Ok(id)
    }

    pub fn read_u32(&mut self) -> (r: Result<u32, WaveError>)
        requires
            old(self).wf(),
        ensures
            match r {
                Ok(v) => old(self).has(4) && final(self).advanced(old(self), 4) && le32(v) == old(
                    self,
                ).next(4) && forall|x: u32| #[trigger] le32(x) == old(self).next(4) ==> x == v,
                Err(e) => !old(self).has(4) && e == (WaveError::UnexpectedEof {
                    at: old(self).offset,
                }) && *final(self) == *old(self),
            },
    {
        if 4 > self.inner.len() - self.offset as usize {
            return Err(WaveError::UnexpectedEof { at: self.offset });
        }
        let o = self.offset as usize;
        let v = u32_from_le(self.inner[o], self.inner[o + 1], self.inner[o + 2], self.inner[o + 3]);
        assert(le32(v) =~= self.next(4));
        assert forall|x: u32| #[trigger] le32(x) == self.next(4) implies x == v by {
            lemma_le32_injective(x, v);
        }
        self.prev = self.offset;
        self.offset = self.offset + 4;
        Ok(v)
    }

    pub fn read_u16(&mut self) -> (r: Result<u16, WaveError>)
        requires
            old(self).wf(),
        ensures
            match r {
                Ok(v) => old(self).has(2) && final(self).advanced(old(self), 2) && le16(v) == old(
                    self,
                ).next(2) && forall|x: u16| #[trigger] le16(x) == old(self).next(2) ==> x == v,
                Err(e) => !old(self).has(2) && e == (WaveError::UnexpectedEof {
                    at: old(self).offset,
                }) && *final(self) == *old(self),
            },
    {
        if 2 > self.inner.len() - self.offset as usize {
            return Err(WaveError::UnexpectedEof { at: self.offset });
        }
        let o = self.offset as usize;
        let v = u16_from_le(self.inner[o], self.inner[o + 1]);
        assert(le16(v) =~= self.next(2));
        assert forall|x: u16| #[trigger] le16(x) == self.next(2) implies x == v by {
            lemma_le16_injective(x, v);
        }
        self.prev = self.offset;
        self.offset = self.offset + 2;
        Ok(v)
    }

    pub fn read_u8(&mut self) -> (r: Result<u8, WaveError>)
        requires
            old(self).wf(),
        ensures
            match r {
                Ok(v) => old(self).has(1) && final(self).advanced(old(self), 1) && seq![v] == old(
                    self,
                ).next(1),
                Err(e) => !old(self).has(1) && e == (WaveError::UnexpectedEof {
                    at: old(self).offset,
                }) && *final(self) == *old(self),
            },
    {
        if 1 > self.inner.len() - self.offset as usize {
            return Err(WaveError::UnexpectedEof { at: self.offset });
        }
        let v = self.inner[self.offset as usize];
        assert(seq![v] =~= self.next(1));
        self.prev = self.offset;
        self.offset = self.offset + 1;
        Ok(v)
    }
}

} // verus!
