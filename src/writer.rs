use crate::bytes::{le16, le32};
use vstd::prelude::*;

verus! {

broadcast use crate::bytes::group_le_len;

/// An append-only byte sink that counts the bytes written through it.
pub struct CountingWriter {
    pub inner: Vec<u8>,
    pub offset: usize,
}

impl View for CountingWriter {
    type V = Seq<u8>;

    open spec fn view(&self) -> Seq<u8> {
        self.inner@
    }
}

impl CountingWriter {
    pub fn new(write: Vec<u8>) -> (r: Self)
        ensures
            r@ == write@,
            r.offset == 0,
    {
        CountingWriter { inner: write, offset: 0 }
    }

    pub fn into_inner(self) -> (r: Vec<u8>)
        ensures
            r@ == self@,
    {
        self.inner
    }

    pub fn write_all(&mut self, buf: &[u8])
        requires
            old(self).offset + buf@.len() <= usize::MAX,
        ensures
            final(self)@ == old(self)@ + buf@,
            final(self).offset == old(self).offset + buf@.len(),
    {
        let ghost start = self.inner@;
        let mut i: usize = 0;
        while i < buf.len()
            invariant
                0 <= i <= buf@.len(),
                self.inner@ == start + buf@.subrange(0, i as int),
                self.offset == old(self).offset,
                old(self).offset + buf@.len() <= usize::MAX,
            decreases buf@.len() - i,
        {
            self.inner.push(buf[i]);
            assert(buf@.subrange(0, i + 1) =~= buf@.subrange(0, i as int).push(buf@[i as int]));
            i = i + 1;
        }
        assert(buf@.subrange(0, buf@.len() as int) =~= buf@);
        self.offset = self.offset + buf.len();
    }

    pub fn write_u32(&mut self, value: u32)
        requires
            old(self).offset + 4 <= usize::MAX,
        ensures
            final(self)@ == old(self)@ + le32(value),
            final(self).offset == old(self).offset + 4,
    {
        let buf: [u8; 4] = [
            (value & 0xff) as u8,
            ((value >> 8u32) & 0xff) as u8,
            ((value >> 16u32) & 0xff) as u8,
            ((value >> 24u32) & 0xff) as u8,
        ];
        reveal(le32);
        assert(buf@ =~= le32(value));
        self.write_all(&buf);
    }

    pub fn write_u16(&mut self, value: u16)
        requires
            old(self).offset + 2 <= usize::MAX,
        ensures
            final(self)@ == old(self)@ + le16(value),
            final(self).offset == old(self).offset + 2,
    {
        let buf: [u8; 2] = [(value & 0xff) as u8, ((value >> 8u16) & 0xff) as u8];
        reveal(le16);
        assert(buf@ =~= le16(value));
        self.write_all(&buf);
    }

    pub fn write_u8(&mut self, value: u8)
        requires
            old(self).offset + 1 <= usize::MAX,
        ensures
            final(self)@ == old(self)@.push(value),
            final(self).offset == old(self).offset + 1,
    {
        let buf: [u8; 1] = [value];
        assert(old(self)@ + buf@ =~= old(self)@.push(value));
        self.write_all(&buf);
    }
}

} // verus!
