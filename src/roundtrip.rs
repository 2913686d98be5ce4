use vstd::prelude::*;

use crate::bytes::{
    le16, le32, le32_all, le64, lemma_le16_inverse, lemma_le16_of_read, lemma_le32_all,
    lemma_le32_of_read, lemma_le64_inverse, lemma_le64_of_read, lemma_read32_of, read16, read32,
    read64,
};
use crate::dtype::{
    dtype_code, lemma_dtype_code_round_trip, lemma_modality_code_round_trip, modality_code,
    modality_of_code, DType,
};
use crate::frame::{
    body_bytes, declared_len, encode_error, frame_bytes, header_bytes, lens_count,
    msg_type_code, msg_type_of_code, parse_frame, parse_frame_with, parse_slice, parse_slices,
    pick_len, read32_run, shape_product, slice_bytes, slice_error, slices_bytes, slices_error,
    FrameError, FrameModel, SliceModel, FLAG_BITS_ALL, MAX_FRAME_LEN,
};
use crate::integrity::crc32_of;

verus! {

/// `x` stands in `d` from offset `a` on.
pub open spec fn holds_at(d: Seq<u8>, a: int, x: Seq<u8>) -> bool {
    0 <= a && a + x.len() <= d.len() && d.subrange(a, a + x.len()) == x
}

proof fn lemma_holds_split(d: Seq<u8>, a: int, x: Seq<u8>, y: Seq<u8>)
    requires
        holds_at(d, a, x + y),
    ensures
        holds_at(d, a, x),
        holds_at(d, a + x.len(), y),
{
    let whole = d.subrange(a, a + (x + y).len());
    assert(whole == x + y);
    assert(d.subrange(a, a + x.len()) =~= whole.subrange(0, x.len() as int));
    assert(whole.subrange(0, x.len() as int) =~= x);
    assert(d.subrange(a + x.len(), a + x.len() + y.len()) =~= whole.subrange(
        x.len() as int,
        (x + y).len() as int,
    ));
    assert(whole.subrange(x.len() as int, (x + y).len() as int) =~= y);
}

proof fn lemma_read32_at(d: Seq<u8>, a: int, v: u32)
    requires
        holds_at(d, a, le32(v)),
    ensures
        read32(d, a) == v,
{
    assert(d[a] == d.subrange(a, a + 4)[0]);
    assert(d[a + 1] == d.subrange(a, a + 4)[1]);
    assert(d[a + 2] == d.subrange(a, a + 4)[2]);
    assert(d[a + 3] == d.subrange(a, a + 4)[3]);
    lemma_read32_of(d, a, v);
}

proof fn lemma_read64_at(d: Seq<u8>, a: int, v: u64)
    requires
        holds_at(d, a, le64(v)),
    ensures
        read64(d, a) == v,
{
    let s = d.subrange(a, a + 8);
    assert(d[a] == s[0] && d[a + 1] == s[1] && d[a + 2] == s[2] && d[a + 3] == s[3]);
    assert(d[a + 4] == s[4] && d[a + 5] == s[5] && d[a + 6] == s[6] && d[a + 7] == s[7]);
    lemma_le64_inverse(v);
}

proof fn lemma_read16_at(d: Seq<u8>, a: int, v: u16)
    requires
        holds_at(d, a, le16(v)),
    ensures
        read16(d, a) == v,
{
    let s = d.subrange(a, a + 2);
    assert(d[a] == s[0] && d[a + 1] == s[1]);
    lemma_le16_inverse(v);
}

proof fn lemma_read_run_at(d: Seq<u8>, a: int, s: Seq<u32>)
    requires
        holds_at(d, a, le32_all(s)),
    ensures
        read32_run(d, a, s.len()) == s,
{
    lemma_le32_all(s);
    let b = le32_all(s);
    assert forall|i: int| 0 <= i < s.len() implies #[trigger] read32(d, a + 4 * i) == s[i] by {
        assert(b[4 * i + 0] == le32(s[i])[0]);
        assert(b[4 * i + 1] == le32(s[i])[1]);
        assert(b[4 * i + 2] == le32(s[i])[2]);
        assert(b[4 * i + 3] == le32(s[i])[3]);
        assert(d.subrange(a, a + b.len())[4 * i + 0] == d[a + 4 * i + 0]);
        assert(d.subrange(a, a + b.len())[4 * i + 1] == d[a + 4 * i + 1]);
        assert(d.subrange(a, a + b.len())[4 * i + 2] == d[a + 4 * i + 2]);
        assert(d.subrange(a, a + b.len())[4 * i + 3] == d[a + 4 * i + 3]);
        lemma_read32_of(d, a + 4 * i, s[i]);
    }
    assert(read32_run(d, a, s.len()) =~= s);
}

/// A well-formed slice, stored at `p`, reads back as itself.
proof fn lemma_parse_slice_at(d: Seq<u8>, p: int, s: SliceModel, declared: u32)
    requires
        holds_at(d, p, slice_bytes(s)),
        slice_error(s, declared) is None,
    ensures
        parse_slice(d, p, declared) == Ok::<(SliceModel, int), FrameError>(
            (s, p + slice_bytes(s).len()),
        ),
{
    let head = seq![dtype_code(s.dtype), s.shape.len() as u8];
    lemma_le32_all(s.shape);
    assert(slice_bytes(s) == head + le32_all(s.shape) + s.payload);
    lemma_holds_split(d, p, head + le32_all(s.shape), s.payload);
    lemma_holds_split(d, p, head, le32_all(s.shape));
    assert(d[p] == d.subrange(p, p + 2)[0]);
    assert(d[p + 1] == d.subrange(p, p + 2)[1]);
    lemma_dtype_code_round_trip(s.dtype);
    assert(d[p + 1] as int == s.shape.len());
    lemma_read_run_at(d, p + 2, s.shape);
    let q = p + 2 + 4 * s.shape.len();
    assert(d.subrange(q, q + s.payload.len()) == s.payload);
    let r = parse_slice(d, p, declared);
    assert(r matches Ok((t, e)) && t.shape == s.shape && t.dtype == s.dtype && t.payload
        == s.payload && e == p + slice_bytes(s).len());
}

/// The bytes of the first `k` slices begin the bytes of all of them.
proof fn lemma_slices_bytes_prefix(ss: Seq<SliceModel>, k: int)
    requires
        0 <= k <= ss.len(),
    ensures
        slices_bytes(ss.take(k)).len() <= slices_bytes(ss).len(),
        slices_bytes(ss).subrange(0, slices_bytes(ss.take(k)).len() as int) == slices_bytes(
            ss.take(k),
        ),
    decreases ss.len() - k,
{
    if k == ss.len() {
        assert(ss.take(k) =~= ss);
        assert(slices_bytes(ss).subrange(0, slices_bytes(ss).len() as int) =~= slices_bytes(ss));
    } else {
        lemma_slices_bytes_prefix(ss, k + 1);
        assert(ss.take(k + 1).drop_last() =~= ss.take(k));
        let a = slices_bytes(ss.take(k));
        let b = slices_bytes(ss.take(k + 1));
        assert(b == a + slice_bytes(ss[k]));
        assert(slices_bytes(ss).subrange(0, a.len() as int) =~= b.subrange(0, a.len() as int));
        assert(b.subrange(0, a.len() as int) =~= a);
    }
}

/// No error among the first `n` slices means none in slice `k < n`.
proof fn lemma_slice_ok(m: FrameModel, n: nat, k: nat)
    requires
        slices_error(m, n) is None,
        k < n,
    ensures
        slice_error(m.slices[k as int], declared_len(m, k as int)) is None,
    decreases n - k,
{
    if k + 1 < n {
        lemma_slice_ok(m, (n - 1) as nat, k);
    }
}

/// The slices of a frame that encodes, stored from `start`, read back as
/// themselves, slice by slice.
proof fn lemma_parse_slices_at(d: Seq<u8>, start: int, m: FrameModel, k: nat)
    requires
        holds_at(d, start, slices_bytes(m.slices)),
        slices_error(m, m.slices.len()) is None,
        k <= m.slices.len(),
    ensures
        parse_slices(d, start, m.slice_len, k) == Ok::<(Seq<SliceModel>, int), FrameError>(
            (m.slices.take(k as int), start + slices_bytes(m.slices.take(k as int)).len()),
        ),
    decreases k,
{
    if k == 0 {
        assert(m.slices.take(0) =~= Seq::<SliceModel>::empty());
    } else {
        let j = (k - 1) as int;
        lemma_parse_slices_at(d, start, m, (k - 1) as nat);
        lemma_slices_bytes_prefix(m.slices, k as int);
        let t = m.slices.take(k as int);
        assert(t.drop_last() =~= m.slices.take(j));
        let a = slices_bytes(m.slices.take(j));
        let b = slices_bytes(t);
        assert(b == a + slice_bytes(m.slices[j]));
        let all = slices_bytes(m.slices);
        assert(holds_at(d, start, b)) by {
            assert(d.subrange(start, start + b.len()) =~= all.subrange(0, b.len() as int));
        }
        lemma_holds_split(d, start, a, slice_bytes(m.slices[j]));
        lemma_slice_ok(m, m.slices.len(), j as nat);
        lemma_parse_slice_at(d, start + a.len(), m.slices[j], declared_len(m, j));
        assert(m.slices.take(j).push(m.slices[j]) =~= t);
    }
}

/// The header fields of a frame read back from its header bytes.
proof fn lemma_header_at(d: Seq<u8>, m: FrameModel)
    requires
        holds_at(d, 0, header_bytes(m)),
    ensures
        d[0] == m.version,
        d[1] == msg_type_code(m.mtype),
        read16(d, 2) == m.flags,
        read32(d, 4) == m.stream_id,
        read64(d, 8) == m.frame_seq,
        read64(d, 16) == m.num_slices,
        read32_run(d, 24, m.slice_len.len()) == m.slice_len,
        read32(d, 24 + 4 * (m.slice_len.len() as int)) == m.space_hash32,
        d[24 + 4 * (m.slice_len.len() as int) + 4] == modality_code(m.modality),
{
    lemma_le32_all(m.slice_len);
    let p: int = 24 + 4 * (m.slice_len.len() as int);
    let v = seq![m.version, msg_type_code(m.mtype)];
    let h1 = v + le16(m.flags);
    let h2 = h1 + le32(m.stream_id);
    let h3 = h2 + le64(m.frame_seq);
    let h4 = h3 + le64(m.num_slices);
    let h5 = h4 + le32_all(m.slice_len);
    let h6 = h5 + le32(m.space_hash32);
    let last = seq![modality_code(m.modality)];
    assert(header_bytes(m) == h6 + last);
    lemma_holds_split(d, 0, h6, last);
    lemma_holds_split(d, 0, h5, le32(m.space_hash32));
    lemma_holds_split(d, 0, h4, le32_all(m.slice_len));
    lemma_holds_split(d, 0, h3, le64(m.num_slices));
    lemma_holds_split(d, 0, h2, le64(m.frame_seq));
    lemma_holds_split(d, 0, h1, le32(m.stream_id));
    lemma_holds_split(d, 0, v, le16(m.flags));
    assert(d[0] == d.subrange(0, 2)[0]);
    assert(d[1] == d.subrange(0, 2)[1]);
    assert(d[p + 4] == d.subrange(p + 4, p + 5)[0]);
    lemma_read16_at(d, 2, m.flags);
    lemma_read32_at(d, 4, m.stream_id);
    lemma_read64_at(d, 8, m.frame_seq);
    lemma_read64_at(d, 16, m.num_slices);
    lemma_read_run_at(d, 24, m.slice_len);
    lemma_read32_at(d, p, m.space_hash32);
}

/// A buffer whose fields read back as those of `m`, with the slices of `m`
/// after the header and `crc` after them, decodes as `m` with that checksum.
proof fn lemma_parse_frame_from_fields(d: Seq<u8>, crc: u32, m: FrameModel, q: int)
    requires
        28 <= d.len() <= MAX_FRAME_LEN,
        m.flags <= FLAG_BITS_ALL,
        m.slice_len.len() >= 1,
        lens_count(m.num_slices) == m.slice_len.len(),
        24 + 4 * m.slice_len.len() + 5 <= d.len(),
        d[0] == m.version,
        msg_type_of_code(d[1]) == Some(m.mtype),
        read16(d, 2) == m.flags,
        read32(d, 4) == m.stream_id,
        read64(d, 8) == m.frame_seq,
        read64(d, 16) == m.num_slices,
        read32_run(d, 24, m.slice_len.len()) == m.slice_len,
        read32(d, 24 + 4 * (m.slice_len.len() as int)) == m.space_hash32,
        modality_of_code(d[24 + 4 * (m.slice_len.len() as int) + 4]) == Some(
            m.modality,
        ),
        parse_slices(d, 24 + 4 * (m.slice_len.len() as int) + 5, m.slice_len, m.num_slices as nat)
            == Ok::<(Seq<SliceModel>, int), FrameError>((m.slices, q)),
        q + 4 == d.len(),
        read32(d, q) == crc,
    ensures
        parse_frame_with(d, crc) == Ok::<FrameModel, FrameError>(FrameModel { crc32: crc, ..m }),
{
}

/// Where the header, the slices and the checksum stand in an encoded frame.
proof fn lemma_frame_layout(m: FrameModel)
    ensures
        ({
            let d = frame_bytes(m);
            let h = header_bytes(m);
            let sb = slices_bytes(m.slices);
            &&& d.len() == h.len() + sb.len() + 4
            &&& h.len() == 24 + 4 * m.slice_len.len() + 5
            &&& holds_at(d, 0, h)
            &&& holds_at(d, h.len() as int, sb)
            &&& read32(d, d.len() - 4) == crc32_of(body_bytes(m))
            &&& d.subrange(0, d.len() - 4) == body_bytes(m)
        }),
{
    let crc = crc32_of(body_bytes(m));
    let d = frame_bytes(m);
    let h = header_bytes(m);
    let sb = slices_bytes(m.slices);
    lemma_le32_all(m.slice_len);
    assert(d == h + sb + le32(crc));
    assert(holds_at(d, 0, d)) by {
        assert(d.subrange(0, d.len() as int) =~= d);
    }
    lemma_holds_split(d, 0, h + sb, le32(crc));
    lemma_holds_split(d, 0, h, sb);
    lemma_read32_at(d, d.len() - 4, crc);
    assert(d.subrange(0, d.len() - 4) =~= body_bytes(m));
}

/// The slices of a frame that encodes, stored from `start` up to the last
/// four bytes, read back as themselves.
proof fn lemma_slices_of_frame(d: Seq<u8>, m: FrameModel, start: int)
    requires
        holds_at(d, start, slices_bytes(m.slices)),
        d.len() == start + slices_bytes(m.slices).len() + 4,
        encode_error(m) is None,
    ensures
        parse_slices(d, start, m.slice_len, m.num_slices as nat) == Ok::<
            (Seq<SliceModel>, int),
            FrameError,
        >((m.slices, d.len() - 4)),
{
    lemma_parse_slices_at(d, start, m, m.slices.len());
    assert(m.slices.take(m.slices.len() as int) =~= m.slices);
}

/// Decoding an encoded frame gives back every field of the frame, with the
/// checksum of its body in place of whatever checksum it held; this holds
/// for every frame that encodes and has at least one slice.
pub proof fn lemma_round_trip(m: FrameModel)
    requires
        encode_error(m) is None,
        m.num_slices >= 1,
        m.flags <= FLAG_BITS_ALL,
    ensures
        parse_frame(frame_bytes(m)) == Ok::<FrameModel, FrameError>(
            FrameModel { crc32: crc32_of(body_bytes(m)), ..m },
        ),
{
    let crc = crc32_of(body_bytes(m));
    let d = frame_bytes(m);
    let nl: int = m.slice_len.len() as int;
    assert(nl == lens_count(m.num_slices));
    let p: int = 24 + 4 * nl;
    lemma_frame_layout(m);
    lemma_header_at(d, m);
    lemma_modality_code_round_trip(m.modality);
    assert(msg_type_of_code(msg_type_code(m.mtype)) == Some(m.mtype));
    lemma_slices_of_frame(d, m, p + 5);
    lemma_parse_frame_from_fields(d, crc, m, d.len() - 4);
}


/// A frame that decodes carries, in its checksum field, the CRC-32 of every
/// byte before its last four: a change to those bytes decodes only if it
/// leaves that CRC-32 equal to the stored one.
pub proof fn lemma_decoded_checksum(d: Seq<u8>)
    requires
        parse_frame(d) is Ok,
    ensures
        d.len() >= 28,
        parse_frame(d)->Ok_0.crc32 == crc32_of(d.subrange(0, d.len() - 4)),
{
}


/// A frame of two slices, a 32-byte F16 vector of 16 elements and an
/// `n`-byte I8 vector, encodes to `85 + n` bytes and decodes with both
/// slices, their declared lengths and their payloads exactly as they were.
pub proof fn lemma_two_slice_framing(m: FrameModel, n: u32)
    requires
        n <= 65451,
        m.flags <= FLAG_BITS_ALL,
        m.num_slices == 2,
        m.slice_len == seq![32u32, n],
        m.slices.len() == 2,
        m.slices[0].dtype == DType::F16,
        m.slices[0].shape == seq![16u32],
        m.slices[0].payload.len() == 32,
        m.slices[1].dtype == DType::I8,
        m.slices[1].shape == seq![n],
        m.slices[1].payload.len() == n,
    ensures
        frame_bytes(m).len() == 85 + n,
        parse_frame(frame_bytes(m)) matches Ok(g) && g.num_slices == 2 && g.slice_len == seq![
            32u32,
            n,
        ] && g.slices[0].payload == m.slices[0].payload && g.slices[1].payload
            == m.slices[1].payload,
{
    let s0 = seq![16u32];
    let s1 = seq![n];
    assert(s0.drop_last() =~= Seq::<u32>::empty());
    assert(s1.drop_last() =~= Seq::<u32>::empty());
    assert(shape_product(Seq::<u32>::empty()) == 1);
    assert(s0.last() == 16 && s1.last() == n);
    assert(shape_product(s0) == shape_product(s0.drop_last()) * 16);
    assert(shape_product(s0) == 16);
    assert(shape_product(s1) == shape_product(s1.drop_last()) * (n as nat));
    assert(shape_product(s1) == n);
    assert(slice_error(m.slices[0], declared_len(m, 0)) is None);
    assert(slice_error(m.slices[1], declared_len(m, 1)) is None);
    assert(slices_error(m, 0) is None);
    assert(slices_error(m, 1) is None);
    assert(slices_error(m, 2) is None);
    lemma_le32_all(m.slice_len);
    lemma_le32_all(s0);
    lemma_le32_all(s1);
    assert(slice_bytes(m.slices[0]).len() == 38);
    assert(slice_bytes(m.slices[1]).len() == 6 + n);
    let ss = m.slices;
    assert(ss.drop_last().drop_last() =~= Seq::<SliceModel>::empty());
    assert(ss.drop_last().last() == ss[0]);
    assert(slices_bytes(ss.drop_last().drop_last()).len() == 0);
    assert(slices_bytes(ss.drop_last()).len() == 38);
    assert(slices_bytes(ss).len() == 44 + n);
    assert(header_bytes(m).len() == 37);
    assert(body_bytes(m).len() == 81 + n);
    assert(encode_error(m) is None);
    lemma_round_trip(m);
}


proof fn lemma_run_bytes(d: Seq<u8>, p: int, n: nat)
    requires
        0 <= p,
        p + 4 * n <= d.len(),
    ensures
        le32_all(read32_run(d, p, n)) == d.subrange(p, p + 4 * n),
    decreases n,
{
    if n == 0 {
        assert(read32_run(d, p, 0) =~= Seq::<u32>::empty());
        assert(d.subrange(p, p) =~= Seq::<u8>::empty());
    } else {
        let k = (n - 1) as nat;
        lemma_run_bytes(d, p, k);
        let r = read32_run(d, p, n);
        assert(r.drop_last() =~= read32_run(d, p, k));
        assert(r.last() == read32(d, p + 4 * k));
        lemma_le32_of_read(d, p + 4 * k);
        assert(d.subrange(p, p + 4 * n) =~= d.subrange(p, p + 4 * k) + d.subrange(
            p + 4 * k,
            p + 4 * n,
        ));
    }
}

/// A slice that parses is stored as its own bytes and has nothing wrong
/// with it.
proof fn lemma_parsed_slice_bytes(d: Seq<u8>, p: int, declared: u32)
    requires
        0 <= p,
        parse_slice(d, p, declared) is Ok,
    ensures
        ({
            let (s, q) = parse_slice(d, p, declared)->Ok_0;
            &&& p <= q <= d.len()
            &&& slice_bytes(s) == d.subrange(p, q)
            &&& slice_error(s, declared) is None
        }),
{
    let (s, q) = parse_slice(d, p, declared)->Ok_0;
    let sl = d[p + 1] as nat;
    let q0 = p + 2 + 4 * sl;
    lemma_run_bytes(d, p + 2, sl);
    assert(dtype_code(s.dtype) == d[p]);
    assert(s.shape.len() as u8 == d[p + 1]);
    assert(d.subrange(p, q) =~= seq![d[p], d[p + 1]] + d.subrange(p + 2, q0) + d.subrange(q0, q));
}

/// The slices that parse are stored as their own bytes, one after another,
/// and none has anything wrong with it.
proof fn lemma_parsed_slices_bytes(d: Seq<u8>, start: int, lens: Seq<u32>, k: nat)
    requires
        0 <= start <= d.len(),
        parse_slices(d, start, lens, k) is Ok,
    ensures
        ({
            let (ss, q) = parse_slices(d, start, lens, k)->Ok_0;
            &&& ss.len() == k
            &&& start <= q <= d.len()
            &&& slices_bytes(ss) == d.subrange(start, q)
            &&& forall|i: int| 0 <= i < k ==> #[trigger] slice_error(ss[i], pick_len(lens, i)) is None
        }),
    decreases k,
{
    if k == 0 {
        assert(d.subrange(start, start) =~= Seq::<u8>::empty());
    } else {
        let j = (k - 1) as nat;
        lemma_parsed_slices_bytes(d, start, lens, j);
        let (prev, p) = parse_slices(d, start, lens, j)->Ok_0;
        lemma_parsed_slice_bytes(d, p, pick_len(lens, j as int));
        let (s, q) = parse_slice(d, p, pick_len(lens, j as int))->Ok_0;
        let ss = prev.push(s);
        assert(ss.drop_last() =~= prev);
        assert(d.subrange(start, q) =~= d.subrange(start, p) + d.subrange(p, q));
        assert forall|i: int| 0 <= i < k implies #[trigger] slice_error(ss[i], pick_len(lens, i))
            is None by {
            if i < j {
                assert(ss[i] == prev[i]);
            }
        }
    }
}

proof fn lemma_no_slice_error(m: FrameModel, k: nat)
    requires
        k <= m.slices.len(),
        forall|i: int| 0 <= i < k ==> #[trigger] slice_error(m.slices[i], declared_len(m, i)) is None,
    ensures
        slices_error(m, k) is None,
    decreases k,
{
    if k > 0 {
        lemma_no_slice_error(m, (k - 1) as nat);
    }
}

/// The header of a decoded frame is stored as its own bytes.
proof fn lemma_parsed_header_bytes(d: Seq<u8>, g: FrameModel)
    requires
        parse_frame(d) == Ok::<FrameModel, FrameError>(g),
    ensures
        header_bytes(g) == d.subrange(0, 24 + 4 * (g.slice_len.len() as int) + 5),
{
    let nl = g.slice_len.len() as int;
    let p = 24 + 4 * nl;
    lemma_le16_of_read(d, 2);
    lemma_le32_of_read(d, 4);
    lemma_le64_of_read(d, 8);
    lemma_le64_of_read(d, 16);
    lemma_run_bytes(d, 24, nl as nat);
    lemma_le32_of_read(d, p);
    assert(msg_type_code(g.mtype) == d[1]);
    assert(modality_code(g.modality) == d[p + 4]);
    assert(d.subrange(0, p + 5) =~= seq![d[0], d[1]] + d.subrange(2, 4) + d.subrange(4, 8)
        + d.subrange(8, 16) + d.subrange(16, 24) + d.subrange(24, p) + d.subrange(p, p + 4)
        + seq![d[p + 4]]);
}

/// A buffer decodes only when it is the encoding of the frame it decodes
/// to: that frame encodes, and to exactly the same bytes.
pub proof fn lemma_decode_canonical(d: Seq<u8>)
    requires
        parse_frame(d) is Ok,
    ensures
        encode_error(parse_frame(d)->Ok_0) is None,
        frame_bytes(parse_frame(d)->Ok_0) == d,
{
    let g = parse_frame(d)->Ok_0;
    let num = read64(d, 16);
    let nl = lens_count(num);
    let p = 24 + 4 * nl;
    lemma_parsed_slices_bytes(d, p + 5, g.slice_len, num as nat);
    lemma_parsed_header_bytes(d, g);
    assert forall|i: int| 0 <= i < g.slices.len() implies #[trigger] slice_error(
        g.slices[i],
        declared_len(g, i),
    ) is None by {
        assert(slice_error(g.slices[i], pick_len(g.slice_len, i)) is None);
    }
    lemma_no_slice_error(g, g.slices.len());
    let n = d.len() as int;
    assert(body_bytes(g) =~= d.subrange(0, n - 4)) by {
        assert(d.subrange(0, n - 4) =~= d.subrange(0, p + 5) + d.subrange(p + 5, n - 4));
    }
    lemma_le32_of_read(d, n - 4);
    assert(d =~= d.subrange(0, n - 4) + d.subrange(n - 4, n));
}

} // verus!
