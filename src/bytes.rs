use vstd::prelude::*;

verus! {

/// The two bytes of `v`, least significant first.
#[verifier::opaque]
pub open spec fn le16(v: u16) -> Seq<u8> {
    seq![(v & 0xff) as u8, ((v >> 8u16) & 0xff) as u8]
}

/// The four bytes of `v`, least significant first.
#[verifier::opaque]
pub open spec fn le32(v: u32) -> Seq<u8> {
    seq![
        (v & 0xff) as u8,
        ((v >> 8u32) & 0xff) as u8,
        ((v >> 16u32) & 0xff) as u8,
        ((v >> 24u32) & 0xff) as u8,
    ]
}

pub broadcast proof fn lemma_le16_len(v: u16)
    ensures
        #[trigger] le16(v).len() == 2,
{
    reveal(le16);
}

pub broadcast proof fn lemma_le32_len(v: u32)
    ensures
        #[trigger] le32(v).len() == 4,
{
    reveal(le32);
}

pub broadcast group group_le_len {
    lemma_le16_len,
    lemma_le32_len,
}

/// `x` stands in `b` from position `off` on.
pub open spec fn occurs_at(b: Seq<u8>, off: int, x: Seq<u8>) -> bool {
    0 <= off && off + x.len() <= b.len() && b.subrange(off, off + x.len()) == x
}

pub proof fn lemma_occurs_at_concat(b: Seq<u8>, off: int, x: Seq<u8>, y: Seq<u8>)
    ensures
        occurs_at(b, off, x + y) <==> (occurs_at(b, off, x) && occurs_at(b, off + x.len(), y)),
{
    if occurs_at(b, off, x + y) {
        let w = b.subrange(off, off + x.len() + y.len());
        assert(w == x + y);
        assert(b.subrange(off, off + x.len()) =~= w.subrange(0, x.len() as int));
        assert(b.subrange(off + x.len(), off + x.len() + y.len()) =~= w.subrange(
            x.len() as int,
            (x.len() + y.len()) as int,
        ));
        assert(w.subrange(0, x.len() as int) =~= x);
        assert(w.subrange(x.len() as int, (x.len() + y.len()) as int) =~= y);
        assert(b.subrange(off + x.len(), off + x.len() + y.len()) =~= (x + y).subrange(
            x.len() as int,
            (x.len() + y.len()) as int,
        ));
    }
    if occurs_at(b, off, x) && occurs_at(b, off + x.len(), y) {
        let u = b.subrange(off, off + x.len());
        let v = b.subrange(off + x.len(), off + x.len() + y.len());
        assert(b.subrange(off, off + (x + y).len()) =~= u + v);
    }
}

pub proof fn lemma_le16_injective(a: u16, c: u16)
    requires
        le16(a) == le16(c),
    ensures
        a == c,
{
    reveal(le16);
    assert(le16(a)[0] == le16(c)[0]);
    assert(le16(a)[1] == le16(c)[1]);
    assert(((a & 0xff) as u8 == (c & 0xff) as u8 && ((a >> 8u16) & 0xff) as u8 == ((c >> 8u16)
        & 0xff) as u8) ==> a == c) by (bit_vector);
}

pub proof fn lemma_le32_injective(a: u32, c: u32)
    requires
        le32(a) == le32(c),
    ensures
        a == c,
{
    reveal(le32);
    assert(le32(a)[0] == le32(c)[0]);
    assert(le32(a)[1] == le32(c)[1]);
    assert(le32(a)[2] == le32(c)[2]);
    assert(le32(a)[3] == le32(c)[3]);
    assert(((a & 0xff) as u8 == (c & 0xff) as u8 && ((a >> 8u32) & 0xff) as u8 == ((c >> 8u32)
        & 0xff) as u8 && ((a >> 16u32) & 0xff) as u8 == ((c >> 16u32) & 0xff) as u8 && ((a
        >> 24u32) & 0xff) as u8 == ((c >> 24u32) & 0xff) as u8) ==> a == c) by (bit_vector);
}

/// The value whose little-endian bytes are `b0 b1`.
pub fn u16_from_le(b0: u8, b1: u8) -> (r: u16)
    ensures
        le16(r) == seq![b0, b1],
{
    reveal(le16);
    let r: u16 = (b0 as u16) | ((b1 as u16) << 8u16);
    assert(((((b0 as u16) | ((b1 as u16) << 8u16)) & 0xff) as u8 == b0) && (((((b0 as u16) | ((
    b1 as u16) << 8u16)) >> 8u16) & 0xff) as u8 == b1)) by (bit_vector);
    assert(le16(r) =~= seq![b0, b1]);
    r
}

/// The value whose little-endian bytes are `b0 b1 b2 b3`.
pub fn u32_from_le(b0: u8, b1: u8, b2: u8, b3: u8) -> (r: u32)
    ensures
        le32(r) == seq![b0, b1, b2, b3],
{
    reveal(le32);
    let r: u32 = (b0 as u32) | ((b1 as u32) << 8u32) | ((b2 as u32) << 16u32) | ((b3 as u32)
        << 24u32);
    assert(((r & 0xff) as u8 == b0) && (((r >> 8u32) & 0xff) as u8 == b1) && (((r >> 16u32)
        & 0xff) as u8 == b2) && (((r >> 24u32) & 0xff) as u8 == b3)) by (bit_vector)
        requires
            r == (b0 as u32) | ((b1 as u32) << 8u32) | ((b2 as u32) << 16u32) | ((b3 as u32)
                << 24u32),
    ;
    assert(le32(r) =~= seq![b0, b1, b2, b3]);
    r
}

} // verus!
