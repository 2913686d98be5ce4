use vstd::prelude::*;

verus! {

/// Little-endian bytes of a 16-bit value.
pub open spec fn le16(v: u16) -> Seq<u8> {
    seq![(v & 0xff) as u8, ((v >> 8) & 0xff) as u8]
}

/// Little-endian bytes of a 32-bit value.
pub open spec fn le32(v: u32) -> Seq<u8> {
    seq![
        (v & 0xff) as u8,
        ((v >> 8) & 0xff) as u8,
        ((v >> 16) & 0xff) as u8,
        ((v >> 24) & 0xff) as u8,
    ]
}

/// Little-endian bytes of a 64-bit value.
pub open spec fn le64(v: u64) -> Seq<u8> {
    seq![
        (v & 0xff) as u8,
        ((v >> 8) & 0xff) as u8,
        ((v >> 16) & 0xff) as u8,
        ((v >> 24) & 0xff) as u8,
        ((v >> 32) & 0xff) as u8,
        ((v >> 40) & 0xff) as u8,
        ((v >> 48) & 0xff) as u8,
        ((v >> 56) & 0xff) as u8,
    ]
}

pub open spec fn u16_of(b0: u8, b1: u8) -> u16 {
    (b0 as u16) | ((b1 as u16) << 8)
}

pub open spec fn u32_of(b0: u8, b1: u8, b2: u8, b3: u8) -> u32 {
    (b0 as u32) | ((b1 as u32) << 8) | ((b2 as u32) << 16) | ((b3 as u32) << 24)
}

pub open spec fn u64_of(b0: u8, b1: u8, b2: u8, b3: u8, b4: u8, b5: u8, b6: u8, b7: u8) -> u64 {
    (b0 as u64) | ((b1 as u64) << 8) | ((b2 as u64) << 16) | ((b3 as u64) << 24) | ((b4 as u64)
        << 32) | ((b5 as u64) << 40) | ((b6 as u64) << 48) | ((b7 as u64) << 56)
}

/// The 16-bit little-endian value stored at `p` in `d`.
pub open spec fn read16(d: Seq<u8>, p: int) -> u16 {
    u16_of(d[p], d[p + 1])
}

/// The 32-bit little-endian value stored at `p` in `d`.
pub open spec fn read32(d: Seq<u8>, p: int) -> u32 {
    u32_of(d[p], d[p + 1], d[p + 2], d[p + 3])
}

/// The 64-bit little-endian value stored at `p` in `d`.
pub open spec fn read64(d: Seq<u8>, p: int) -> u64 {
    u64_of(d[p], d[p + 1], d[p + 2], d[p + 3], d[p + 4], d[p + 5], d[p + 6], d[p + 7])
}

/// Little-endian bytes of each value in turn.
pub open spec fn le32_all(s: Seq<u32>) -> Seq<u8>
    decreases s.len(),
{
    if s.len() == 0 {
        Seq::empty()
    } else {
        le32_all(s.drop_last()) + le32(s.last())
    }
}

pub proof fn lemma_le16_inverse(v: u16)
    ensures
        u16_of(le16(v)[0], le16(v)[1]) == v,
{
    assert(u16_of(((v & 0xff) as u8), (((v >> 8) & 0xff) as u8)) == v) by (bit_vector);
}

pub proof fn lemma_le32_inverse(v: u32)
    ensures
        u32_of(le32(v)[0], le32(v)[1], le32(v)[2], le32(v)[3]) == v,
{
    assert(u32_of(
        ((v & 0xff) as u8),
        (((v >> 8) & 0xff) as u8),
        (((v >> 16) & 0xff) as u8),
        (((v >> 24) & 0xff) as u8),
    ) == v) by (bit_vector);
}

pub proof fn lemma_le64_inverse(v: u64)
    ensures
        u64_of(
            le64(v)[0],
            le64(v)[1],
            le64(v)[2],
            le64(v)[3],
            le64(v)[4],
            le64(v)[5],
            le64(v)[6],
            le64(v)[7],
        ) == v,
{
    assert(u64_of(
        ((v & 0xff) as u8),
        (((v >> 8) & 0xff) as u8),
        (((v >> 16) & 0xff) as u8),
        (((v >> 24) & 0xff) as u8),
        (((v >> 32) & 0xff) as u8),
        (((v >> 40) & 0xff) as u8),
        (((v >> 48) & 0xff) as u8),
        (((v >> 56) & 0xff) as u8),
    ) == v) by (bit_vector);
}


/// Appends the two little-endian bytes of `v`.
pub fn push_u16(buf: &mut Vec<u8>, v: u16)
    ensures
        final(buf)@ == old(buf)@ + le16(v),
{
    buf.push((v & 0xff) as u8);
    buf.push(((v >> 8) & 0xff) as u8);
    assert(final(buf)@ =~= old(buf)@ + le16(v));
}

/// Appends the four little-endian bytes of `v`.
pub fn push_u32(buf: &mut Vec<u8>, v: u32)
    ensures
        final(buf)@ == old(buf)@ + le32(v),
{
    buf.push((v & 0xff) as u8);
    buf.push(((v >> 8) & 0xff) as u8);
    buf.push(((v >> 16) & 0xff) as u8);
    buf.push(((v >> 24) & 0xff) as u8);
    assert(final(buf)@ =~= old(buf)@ + le32(v));
}

/// Appends the eight little-endian bytes of `v`.
pub fn push_u64(buf: &mut Vec<u8>, v: u64)
    ensures
        final(buf)@ == old(buf)@ + le64(v),
{
    buf.push((v & 0xff) as u8);
    buf.push(((v >> 8) & 0xff) as u8);
    buf.push(((v >> 16) & 0xff) as u8);
    buf.push(((v >> 24) & 0xff) as u8);
    buf.push(((v >> 32) & 0xff) as u8);
    buf.push(((v >> 40) & 0xff) as u8);
    buf.push(((v >> 48) & 0xff) as u8);
    buf.push(((v >> 56) & 0xff) as u8);
    assert(final(buf)@ =~= old(buf)@ + le64(v));
}

/// Appends the little-endian bytes of each value of `s` in turn.
pub fn push_u32_all(buf: &mut Vec<u8>, s: &[u32])
    ensures
        final(buf)@ == old(buf)@ + le32_all(s@),
{
    let ghost start = buf@;
    let mut i: usize = 0;
    assert(s@.take(0) =~= Seq::<u32>::empty());
    assert(start + le32_all(Seq::<u32>::empty()) =~= start);
    while i < s.len()
        invariant
            i <= s@.len(),
            buf@ == start + le32_all(s@.take(i as int)),
        decreases s@.len() - i,
    {
        push_u32(buf, s[i]);
        assert(s@.take(i as int + 1).drop_last() =~= s@.take(i as int));
        assert(buf@ =~= start + le32_all(s@.take(i as int + 1)));
        i = i + 1;
    }
    assert(s@.take(s@.len() as int) =~= s@);
}

/// Appends every byte of `s`.
pub fn push_bytes(buf: &mut Vec<u8>, s: &[u8])
    ensures
        final(buf)@ == old(buf)@ + s@,
{
    let ghost start = buf@;
    let mut i: usize = 0;
    while i < s.len()
        invariant
            i <= s@.len(),
            buf@ == start + s@.take(i as int),
        decreases s@.len() - i,
    {
        buf.push(s[i]);
        assert(buf@ =~= start + s@.take(i as int + 1));
        i = i + 1;
    }
    assert(s@.take(s@.len() as int) =~= s@);
}

pub fn read_u16(d: &[u8], p: usize) -> (r: u16)
    requires
        p + 2 <= d@.len(),
    ensures
        r == read16(d@, p as int),
{
    (d[p] as u16) | ((d[p + 1] as u16) << 8)
}

pub fn read_u32(d: &[u8], p: usize) -> (r: u32)
    requires
        p + 4 <= d@.len(),
    ensures
        r == read32(d@, p as int),
{
    (d[p] as u32) | ((d[p + 1] as u32) << 8) | ((d[p + 2] as u32) << 16) | ((d[p + 3] as u32)
        << 24)
}

pub fn read_u64(d: &[u8], p: usize) -> (r: u64)
    requires
        p + 8 <= d@.len(),
    ensures
        r == read64(d@, p as int),
{
    (d[p] as u64) | ((d[p + 1] as u64) << 8) | ((d[p + 2] as u64) << 16) | ((d[p + 3] as u64)
        << 24) | ((d[p + 4] as u64) << 32) | ((d[p + 5] as u64) << 40) | ((d[p + 6] as u64)
        << 48) | ((d[p + 7] as u64) << 56)
}

/// The bytes written for a list of 32-bit values: four per value, each
/// value at its own offset.
pub proof fn lemma_le32_all(s: Seq<u32>)
    ensures
        le32_all(s).len() == 4 * s.len(),
        forall|i: int, j: int|
            0 <= i < s.len() && 0 <= j < 4 ==> #[trigger] le32_all(s)[4 * i + j] == #[trigger] le32(
                s[i],
            )[j],
    decreases s.len(),
{
    if s.len() > 0 {
        lemma_le32_all(s.drop_last());
        let a = le32_all(s.drop_last());
        assert forall|i: int, j: int| 0 <= i < s.len() && 0 <= j < 4 implies #[trigger] le32_all(
            s,
        )[4 * i + j] == #[trigger] le32(s[i])[j] by {
            if i < s.len() - 1 {
                assert(s.drop_last()[i] == s[i]);
                assert(a[4 * i + j] == le32(s.drop_last()[i])[j]);
            }
        }
    }
}

/// Reading back a value from bytes that hold its little-endian form.
pub proof fn lemma_read32_of(d: Seq<u8>, p: int, v: u32)
    requires
        0 <= p,
        p + 4 <= d.len(),
        d[p] == le32(v)[0],
        d[p + 1] == le32(v)[1],
        d[p + 2] == le32(v)[2],
        d[p + 3] == le32(v)[3],
    ensures
        read32(d, p) == v,
{
    lemma_le32_inverse(v);
}

/// The little-endian bytes of a value read at `p` are the bytes stored there.
pub proof fn lemma_le16_of_read(d: Seq<u8>, p: int)
    requires
        0 <= p,
        p + 2 <= d.len(),
    ensures
        le16(read16(d, p)) == d.subrange(p, p + 2),
{
    let (b0, b1) = (d[p], d[p + 1]);
    assert(((u16_of(b0, b1) & 0xff) as u8) == b0 && (((u16_of(b0, b1) >> 8) & 0xff) as u8) == b1)
        by (bit_vector);
    assert(le16(read16(d, p)) =~= d.subrange(p, p + 2));
}

/// The little-endian bytes of a value read at `p` are the bytes stored there.
pub proof fn lemma_le32_of_read(d: Seq<u8>, p: int)
    requires
        0 <= p,
        p + 4 <= d.len(),
    ensures
        le32(read32(d, p)) == d.subrange(p, p + 4),
{
    let (b0, b1, b2, b3) = (d[p], d[p + 1], d[p + 2], d[p + 3]);
    let v = u32_of(b0, b1, b2, b3);
    assert(((v & 0xff) as u8) == b0 && (((v >> 8) & 0xff) as u8) == b1 && (((v >> 16) & 0xff) as u8)
        == b2 && (((v >> 24) & 0xff) as u8) == b3) by (bit_vector)
        requires
            v == u32_of(b0, b1, b2, b3),
    ;
    assert(le32(read32(d, p)) =~= d.subrange(p, p + 4));
}

/// The little-endian bytes of a value read at `p` are the bytes stored there.
pub proof fn lemma_le64_of_read(d: Seq<u8>, p: int)
    requires
        0 <= p,
        p + 8 <= d.len(),
    ensures
        le64(read64(d, p)) == d.subrange(p, p + 8),
{
    let (b0, b1, b2, b3) = (d[p], d[p + 1], d[p + 2], d[p + 3]);
    let (b4, b5, b6, b7) = (d[p + 4], d[p + 5], d[p + 6], d[p + 7]);
    let v = u64_of(b0, b1, b2, b3, b4, b5, b6, b7);
    assert(((v & 0xff) as u8) == b0 && (((v >> 8) & 0xff) as u8) == b1 && (((v >> 16) & 0xff) as u8)
        == b2 && (((v >> 24) & 0xff) as u8) == b3 && (((v >> 32) & 0xff) as u8) == b4 && (((v
        >> 40) & 0xff) as u8) == b5 && (((v >> 48) & 0xff) as u8) == b6 && (((v >> 56) & 0xff)
        as u8) == b7) by (bit_vector)
        requires
            v == u64_of(b0, b1, b2, b3, b4, b5, b6, b7),
    ;
    assert(le64(read64(d, p)) =~= d.subrange(p, p + 8));
}

} // verus!
