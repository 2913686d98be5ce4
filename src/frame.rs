use vstd::prelude::*;

use crate::bytes::{
    le16, le32, le32_all, le64, push_bytes, push_u16, push_u32, push_u32_all, push_u64, read16,
    read32, read64, read_u16, read_u32, read_u64,
};
use crate::dtype::{dtype_code, dtype_of_code, modality_code, modality_of_code, DType, Modality};
use crate::integrity::{crc32, crc32_of};

verus! {

/// Largest number of bytes a whole frame may take on the wire.
pub const MAX_FRAME_LEN: usize = 65536;

/// Bytes of the mandatory fixed part of a frame: the header fields before the
/// slice lengths, and the trailing checksum.
pub const MIN_FRAME_LEN: usize = 28;

/// Why a frame could not be encoded or decoded, or a stream could not go on.
#[derive(Copy, Clone, Debug, PartialEq, Eq, Structural)]
pub enum FrameError {
    Truncated,
    StructuralMismatch,
    LengthMismatch,
    ShapeDtypeMismatch,
    InvalidEnum,
    FrameTooLarge,
    ChecksumMismatch,
    DeclaredLengthExceedsFrame,
    EmptySliceLengths,
    MissingHead,
    OutOfOrder,
    StreamIntegrityMismatch,
    PayloadTransformFailure,
}

/// Message types in the protocol.
#[derive(Copy, Clone, Debug, PartialEq, Eq, Structural)]
pub enum MsgType {
    Think,
    Cache,
    Ask,
    Sync,
    Critique,
}

pub open spec fn msg_type_code(t: MsgType) -> u8 {
    match t {
        MsgType::Think => 0,
        MsgType::Cache => 1,
        MsgType::Ask => 2,
        MsgType::Sync => 3,
        MsgType::Critique => 4,
    }
}

pub open spec fn msg_type_of_code(b: u8) -> Option<MsgType> {
    if b == 0 {
        Some(MsgType::Think)
    } else if b == 1 {
        Some(MsgType::Cache)
    } else if b == 2 {
        Some(MsgType::Ask)
    } else if b == 3 {
        Some(MsgType::Sync)
    } else if b == 4 {
        Some(MsgType::Critique)
    } else {
        None
    }
}

impl MsgType {
    pub fn from_u8(val: u8) -> (r: Option<MsgType>)
        ensures
            r == msg_type_of_code(val),
    {
        match val {
            0 => Some(MsgType::Think),
            1 => Some(MsgType::Cache),
            2 => Some(MsgType::Ask),
            3 => Some(MsgType::Sync),
            4 => Some(MsgType::Critique),
            _ => None,
        }
    }

    /// The one-byte wire code of this message type.
    pub fn code(&self) -> (r: u8)
        ensures
            r == msg_type_code(*self),
    {
        match self {
            MsgType::Think => 0,
            MsgType::Cache => 1,
            MsgType::Ask => 2,
            MsgType::Sync => 3,
            MsgType::Critique => 4,
        }
    }
}

/// The flag bits a frame may carry: bit 0 compressed payload, bit 1
/// encrypted payload, bit 2 strong stream hash present.
pub const FLAG_BITS_ALL: u16 = 7;

/// A set of frame flags. Only the three known bits can be set.
#[derive(Copy, Clone, Debug, PartialEq, Eq, Structural)]
pub struct Flags {
    bits: u16,
}

impl Flags {
    /// The payload is compressed.
    pub fn zstd() -> (r: Flags)
        ensures
            r.spec_bits() == 1,
    {
        Flags { bits: 1 }
    }

    /// The payload is encrypted.
    pub fn xchacha() -> (r: Flags)
        ensures
            r.spec_bits() == 2,
    {
        Flags { bits: 2 }
    }

    /// The stream carries a strong hash checked at its end.
    pub fn strong_tail() -> (r: Flags)
        ensures
            r.spec_bits() == 4,
    {
        Flags { bits: 4 }
    }

    #[verifier::type_invariant]
    spec fn known_bits_only(self) -> bool {
        self.bits <= FLAG_BITS_ALL
    }

    /// The bits of this set as they stand on the wire.
    pub closed spec fn spec_bits(self) -> u16 {
        self.bits
    }

    pub fn empty() -> (r: Flags)
        ensures
            r.spec_bits() == 0,
    {
        Flags { bits: 0 }
    }

    pub fn bits(&self) -> (r: u16)
        ensures
            r == self.spec_bits(),
            r <= FLAG_BITS_ALL,
    {
        proof {
            use_type_invariant(self);
        }
        self.bits
    }

    /// The flag set with exactly these bits, unless an unknown bit is set.
    pub fn from_bits(bits: u16) -> (r: Option<Flags>)
        ensures
            r is Some <==> bits <= FLAG_BITS_ALL,
            r matches Some(f) ==> f.spec_bits() == bits,
    {
        if bits <= FLAG_BITS_ALL {
            Some(Flags { bits })
        } else {
            None
        }
    }

    /// Whether every bit of `other` is set in `self`.
    pub fn contains(&self, other: Flags) -> (r: bool)
        ensures
            r == (self.spec_bits() & other.spec_bits() == other.spec_bits()),
    {
        self.bits & other.bits == other.bits
    }

    /// The union of two flag sets.
    pub fn union(&self, other: Flags) -> (r: Flags)
        ensures
            r.spec_bits() == self.spec_bits() | other.spec_bits(),
    {
        proof {
            use_type_invariant(self);
            use_type_invariant(&other);
            let a = self.bits;
            let b = other.bits;
            assert(a <= 7 && b <= 7 ==> a | b <= 7) by (bit_vector);
        }
        Flags { bits: self.bits | other.bits }
    }
}

/// Frame header.
#[derive(Clone, Debug)]
pub struct VFrameHeader {
    pub version: u8,
    pub mtype: MsgType,
    pub flags: Flags,
    pub stream_id: u32,
    pub frame_seq: u64,
    pub num_slices: u64,
    pub slice_len: Vec<u32>,
    pub space_hash32: u32,
    pub modality: Modality,
}

/// Metadata of one slice: its element type and its dimensions.
#[derive(Clone, Debug)]
pub struct SliceMeta {
    pub dtype: DType,
    pub shape: Vec<u32>,
}

/// A complete frame: header, typed slices and checksum.
#[derive(Clone, Debug)]
pub struct VFrame {
    pub hdr: VFrameHeader,
    pub slices: Vec<(SliceMeta, Vec<u8>)>,
    pub crc32: u32,
}

/// One slice as a mathematical value.
pub struct SliceModel {
    pub dtype: DType,
    pub shape: Seq<u32>,
    pub payload: Seq<u8>,
}

/// A frame as a mathematical value.
pub struct FrameModel {
    pub version: u8,
    pub mtype: MsgType,
    pub flags: u16,
    pub stream_id: u32,
    pub frame_seq: u64,
    pub num_slices: u64,
    pub slice_len: Seq<u32>,
    pub space_hash32: u32,
    pub modality: Modality,
    pub slices: Seq<SliceModel>,
    pub crc32: u32,
}

pub open spec fn slice_model(p: (SliceMeta, Vec<u8>)) -> SliceModel {
    SliceModel { dtype: p.0.dtype, shape: p.0.shape@, payload: p.1@ }
}

impl View for VFrame {
    type V = FrameModel;

    open spec fn view(&self) -> FrameModel {
        FrameModel {
            version: self.hdr.version,
            mtype: self.hdr.mtype,
            flags: self.hdr.flags.spec_bits(),
            stream_id: self.hdr.stream_id,
            frame_seq: self.hdr.frame_seq,
            num_slices: self.hdr.num_slices,
            slice_len: self.hdr.slice_len@,
            space_hash32: self.hdr.space_hash32,
            modality: self.hdr.modality,
            slices: self.slices@.map_values(|p: (SliceMeta, Vec<u8>)| slice_model(p)),
            crc32: self.crc32,
        }
    }
}

/// Number of elements of a tensor of the given dimensions.
pub open spec fn shape_product(s: Seq<u32>) -> nat
    decreases s.len(),
{
    if s.len() == 0 {
        1
    } else {
        shape_product(s.drop_last()) * (s.last() as nat)
    }
}

/// Payload bytes that `count` elements of a fixed-width type take; none for
/// the sparse type, whose size is only what the header declares.
pub open spec fn fixed_size(d: DType, count: nat) -> Option<nat> {
    match d {
        DType::F16 => Some(2 * count),
        DType::I8 => Some(count),
        DType::Q4 => Some((count + 1) / 2),
        DType::SparseCoo => None,
    }
}

/// A shape that no slice may have: no dimensions at all, or more elements,
/// or more payload bytes, than the machine can address.
pub open spec fn bad_shape(d: DType, shape: Seq<u32>) -> bool {
    ||| shape.len() == 0
    ||| shape_product(shape) > usize::MAX
    ||| (fixed_size(d, shape_product(shape)) matches Some(n) && n > usize::MAX)
}

proof fn lemma_product_zero(s: Seq<u32>, k: int)
    requires
        0 <= k < s.len(),
        s[k] == 0,
    ensures
        shape_product(s) == 0,
    decreases s.len(),
{
    let p = shape_product(s.drop_last());
    let d = s.last() as nat;
    if k < s.len() - 1 {
        lemma_product_zero(s.drop_last(), k);
        assert(p * d == 0) by (nonlinear_arith)
            requires
                p == 0,
        ;
    } else {
        assert(p * d == 0) by (nonlinear_arith)
            requires
                d == 0,
        ;
    }
}

proof fn lemma_product_prefix(s: Seq<u32>, j: int)
    requires
        0 <= j <= s.len(),
        forall|i: int| 0 <= i < s.len() ==> s[i] >= 1,
    ensures
        shape_product(s.take(j)) <= shape_product(s),
    decreases s.len() - j,
{
    if j < s.len() {
        lemma_product_prefix(s, j + 1);
        assert(s.take(j + 1).drop_last() =~= s.take(j));
        let p = shape_product(s.take(j));
        let d = s[j] as nat;
        assert(p * d >= p) by (nonlinear_arith)
            requires
                d >= 1,
        ;
    } else {
        assert(s.take(j) =~= s);
    }
}

/// The number of elements of `shape`, or `None` when that number does not
/// fit in a `usize`.
fn element_count(shape: &[u32]) -> (r: Option<usize>)
    ensures
        r matches Some(n) ==> n as nat == shape_product(shape@),
        r is None <==> shape_product(shape@) > usize::MAX,
{
    let mut i: usize = 0;
    while i < shape.len()
        invariant
            i <= shape@.len(),
            forall|j: int| 0 <= j < i ==> shape@[j] != 0,
        decreases shape@.len() - i,
    {
        if shape[i] == 0 {
            proof {
                lemma_product_zero(shape@, i as int);
            }
            return Some(0);
        }
        i = i + 1;
    }
    let mut acc: usize = 1;
    let mut k: usize = 0;
    assert(shape@.take(0) =~= Seq::<u32>::empty());
    while k < shape.len()
        invariant
            k <= shape@.len(),
            forall|j: int| 0 <= j < shape@.len() ==> shape@[j] >= 1,
            acc as nat == shape_product(shape@.take(k as int)),
        decreases shape@.len() - k,
    {
        assert(shape@.take(k as int + 1).drop_last() =~= shape@.take(k as int));
        match acc.checked_mul(shape[k] as usize) {
            None => {
                proof {
                    lemma_product_prefix(shape@, k as int + 1);
                }
                return None;
            },
            Some(v) => {
                acc = v;
            },
        }
        k = k + 1;
    }
    assert(shape@.take(shape@.len() as int) =~= shape@);
    Some(acc)
}

/// The payload size that `dtype` and `shape` call for: `Some` for a
/// fixed-width type, `None` for the sparse type. Fails on a shape with no
/// dimensions, or one with more elements, or more payload bytes, than the
/// machine can address.
pub fn expected_payload_size(dtype: DType, shape: &[u32]) -> (r: Result<
    Option<usize>,
    FrameError,
>)
    ensures
        r is Err <==> bad_shape(dtype, shape@),
        r matches Err(e) ==> e == FrameError::ShapeDtypeMismatch,
        r matches Ok(v) ==> (v matches Some(n) ==> fixed_size(dtype, shape_product(shape@))
            == Some(n as nat)) && (v is None ==> fixed_size(dtype, shape_product(shape@)) is None),
{
    if shape.len() == 0 {
        return Err(FrameError::ShapeDtypeMismatch);
    }
    let count = match element_count(shape) {
        None => {
            return Err(FrameError::ShapeDtypeMismatch);
        },
        Some(n) => n,
    };
    match dtype {
        DType::F16 => match count.checked_mul(2) {
            None => Err(FrameError::ShapeDtypeMismatch),
            Some(n) => Ok(Some(n)),
        },
        DType::I8 => Ok(Some(count)),
        DType::Q4 => Ok(Some(count / 2 + count % 2)),
        DType::SparseCoo => Ok(None),
    }
}


/// The length declared for slice `i`: the one shared value, or its own.
pub open spec fn declared_len(m: FrameModel, i: int) -> u32 {
    pick_len(m.slice_len, i)
}

/// Entry `i` of a list of slice lengths: the one shared value, or its own.
pub open spec fn pick_len(lens: Seq<u32>, i: int) -> u32 {
    if lens.len() == 1 {
        lens[0]
    } else {
        lens[i]
    }
}

/// The slice count or the list of slice lengths does not fit the slices:
/// one shared length for at most one slice, else one length per slice.
pub open spec fn bad_structure(m: FrameModel) -> bool {
    ||| m.num_slices != m.slices.len()
    ||| m.slice_len.len() == 0
    ||| (m.num_slices > 1 && m.slice_len.len() != m.slices.len())
    ||| (m.num_slices <= 1 && m.slice_len.len() != 1)
}

/// What is wrong with one slice, given the length its header declares.
pub open spec fn slice_error(s: SliceModel, declared: u32) -> Option<FrameError> {
    if declared as int != s.payload.len() {
        Some(FrameError::LengthMismatch)
    } else if bad_shape(s.dtype, s.shape) {
        Some(FrameError::ShapeDtypeMismatch)
    } else if fixed_size(s.dtype, shape_product(s.shape)) matches Some(n) && n != s.payload.len() {
        Some(FrameError::ShapeDtypeMismatch)
    } else if s.shape.len() > 255 {
        Some(FrameError::StructuralMismatch)
    } else {
        None
    }
}

/// The first error among the first `k` slices.
pub open spec fn slices_error(m: FrameModel, k: nat) -> Option<FrameError>
    decreases k,
{
    if k == 0 {
        None
    } else if slices_error(m, (k - 1) as nat) is Some {
        slices_error(m, (k - 1) as nat)
    } else {
        slice_error(m.slices[k - 1], declared_len(m, k - 1))
    }
}

/// Bytes of one slice: dtype, shape length, dimensions, payload.
pub open spec fn slice_bytes(s: SliceModel) -> Seq<u8> {
    seq![dtype_code(s.dtype), s.shape.len() as u8] + le32_all(s.shape) + s.payload
}

pub open spec fn slices_bytes(ss: Seq<SliceModel>) -> Seq<u8>
    decreases ss.len(),
{
    if ss.len() == 0 {
        Seq::empty()
    } else {
        slices_bytes(ss.drop_last()) + slice_bytes(ss.last())
    }
}

/// Bytes of the header, in wire order.
pub open spec fn header_bytes(m: FrameModel) -> Seq<u8> {
    seq![m.version, msg_type_code(m.mtype)] + le16(m.flags) + le32(m.stream_id) + le64(
        m.frame_seq,
    ) + le64(m.num_slices) + le32_all(m.slice_len) + le32(m.space_hash32) + seq![
        modality_code(m.modality),
    ]
}

/// Every byte of a frame that its checksum covers.
pub open spec fn body_bytes(m: FrameModel) -> Seq<u8> {
    header_bytes(m) + slices_bytes(m.slices)
}

/// The whole frame on the wire, given the checksum of its body.
pub open spec fn frame_bytes_with(m: FrameModel, crc: u32) -> Seq<u8> {
    body_bytes(m) + le32(crc)
}

/// The whole frame on the wire.
pub open spec fn frame_bytes(m: FrameModel) -> Seq<u8> {
    frame_bytes_with(m, crc32_of(body_bytes(m)))
}

/// Why a frame cannot be encoded, if it cannot: first its bookkeeping, then
/// each slice in order, then the size ceiling.
pub open spec fn encode_error(m: FrameModel) -> Option<FrameError> {
    if bad_structure(m) {
        Some(FrameError::StructuralMismatch)
    } else if slices_error(m, m.slices.len()) is Some {
        slices_error(m, m.slices.len())
    } else if body_bytes(m).len() + 4 > MAX_FRAME_LEN {
        Some(FrameError::FrameTooLarge)
    } else {
        None
    }
}

proof fn lemma_slices_error_stays(m: FrameModel, k: nat, k2: nat)
    requires
        k <= k2,
        slices_error(m, k) is Some,
    ensures
        slices_error(m, k2) == slices_error(m, k),
    decreases k2 - k,
{
    if k < k2 {
        lemma_slices_error_stays(m, k, (k2 - 1) as nat);
    }
}

/// What is wrong with one slice, given the length its header declares.
fn check_slice(meta: &SliceMeta, payload: &Vec<u8>, declared: u32) -> (r: Option<FrameError>)
    ensures
        r == slice_error(slice_model((*meta, *payload)), declared),
{
    if declared as usize != payload.len() {
        return Some(FrameError::LengthMismatch);
    }
    match expected_payload_size(meta.dtype, meta.shape.as_slice()) {
        Err(e) => {
            return Some(e);
        },
        Ok(Some(expected)) => {
            if expected != payload.len() {
                return Some(FrameError::ShapeDtypeMismatch);
            }
        },
        Ok(None) => {},
    }
    if meta.shape.len() > 255 {
        return Some(FrameError::StructuralMismatch);
    }
    None
}

/// Appends the bytes of one slice.
fn write_slice(buf: &mut Vec<u8>, meta: &SliceMeta, payload: &Vec<u8>)
    requires
        meta.shape@.len() <= 255,
    ensures
        final(buf)@ == old(buf)@ + slice_bytes(slice_model((*meta, *payload))),
{
    buf.push(meta.dtype.code());
    buf.push(meta.shape.len() as u8);
    push_u32_all(buf, meta.shape.as_slice());
    push_bytes(buf, payload.as_slice());
    assert(final(buf)@ =~= old(buf)@ + slice_bytes(slice_model((*meta, *payload))));
}

impl VFrame {
    /// The bytes of this frame that its checksum covers: header and slices.
    pub fn encode_body(&self) -> (r: Result<Vec<u8>, FrameError>)
        ensures
            match r {
                Ok(b) => encode_error(self@) is None && b@ == body_bytes(self@),
                Err(e) => encode_error(self@) == Some(e),
            },
    {
        let ghost m = self@;
        let n = self.slices.len();
        let num = self.hdr.num_slices;
        let lc = self.hdr.slice_len.len();
        if num != n as u64 || lc == 0 || (num > 1 && lc != n) || (num <= 1 && lc != 1) {
            return Err(FrameError::StructuralMismatch);
        }
        let mut buf: Vec<u8> = Vec::new();
        buf.push(self.hdr.version);
        buf.push(self.hdr.mtype.code());
        push_u16(&mut buf, self.hdr.flags.bits());
        push_u32(&mut buf, self.hdr.stream_id);
        push_u64(&mut buf, self.hdr.frame_seq);
        push_u64(&mut buf, num);
        push_u32_all(&mut buf, self.hdr.slice_len.as_slice());
        push_u32(&mut buf, self.hdr.space_hash32);
        buf.push(self.hdr.modality.code());
        assert(buf@ =~= header_bytes(m));
        assert(m.slices.take(0) =~= Seq::<SliceModel>::empty());
        let mut i: usize = 0;
        while i < n
            invariant
                m == self@,
                n == self.slices@.len(),
                n == m.slices.len(),
                !bad_structure(m),
                lc == m.slice_len.len(),
                i <= n,
                buf@ == header_bytes(m) + slices_bytes(m.slices.take(i as int)),
                slices_error(m, i as nat) is None,
            decreases n - i,
        {
            let entry = &self.slices[i];
            let meta = &entry.0;
            let payload = &entry.1;
            assert(m.slices[i as int] == slice_model(self.slices@[i as int]));
            let declared = if lc == 1 {
                self.hdr.slice_len[0]
            } else {
                self.hdr.slice_len[i]
            };
            assert(declared == declared_len(m, i as int));
            match check_slice(meta, payload, declared) {
                Some(e) => {
                    proof {
                        lemma_slices_error_stays(m, (i + 1) as nat, n as nat);
                    }
                    return Err(e);
                },
                None => {},
            }
            write_slice(&mut buf, meta, payload);
            proof {
                let t = m.slices.take(i as int + 1);
                assert(t.drop_last() =~= m.slices.take(i as int));
                assert(t.last() == m.slices[i as int]);
            }
            assert(buf@ =~= header_bytes(m) + slices_bytes(m.slices.take(i as int + 1)));
            i = i + 1;
        }
        assert(m.slices.take(n as int) =~= m.slices);
        if buf.len() > MAX_FRAME_LEN - 4 {
            return Err(FrameError::FrameTooLarge);
        }
        Ok(buf)
    }

    /// Encodes the frame: its body followed by the CRC-32 of that body.
    pub fn encode(&self) -> (r: Result<Vec<u8>, FrameError>)
        ensures
            match r {
                Ok(b) => encode_error(self@) is None && b@ == frame_bytes(self@),
                Err(e) => encode_error(self@) == Some(e),
            },
    {
        match self.encode_body() {
            Err(e) => Err(e),
            Ok(body) => {
                let mut buf = body;
                let crc = crc32(buf.as_slice());
                push_u32(&mut buf, crc);
                Ok(buf)
            },
        }
    }
}


/// How many slice lengths a header with this slice count carries: one
/// shared value for a single slice, else one per slice.
pub open spec fn lens_count(num: u64) -> int {
    if num == 1 {
        1
    } else {
        num as int
    }
}

/// `n` little-endian 32-bit values stored one after another from `p`.
pub open spec fn read32_run(d: Seq<u8>, p: int, n: nat) -> Seq<u32> {
    Seq::new(n, |i: int| read32(d, p + 4 * i))
}

/// Reads one slice at `p`, whose header declares `declared` payload bytes:
/// the slice and the position after it, or why it cannot be read.
pub open spec fn parse_slice(d: Seq<u8>, p: int, declared: u32) -> Result<
    (SliceModel, int),
    FrameError,
> {
    if p + 1 > d.len() {
        Err(FrameError::Truncated)
    } else if dtype_of_code(d[p]) is None {
        Err(FrameError::InvalidEnum)
    } else if p + 2 > d.len() || p + 2 + 4 * (d[p + 1] as int) > d.len() {
        Err(FrameError::Truncated)
    } else {
        let dt = dtype_of_code(d[p])->Some_0;
        let shape = read32_run(d, p + 2, d[p + 1] as nat);
        let q = p + 2 + 4 * (d[p + 1] as int);
        if declared as int > d.len() {
            Err(FrameError::DeclaredLengthExceedsFrame)
        } else if bad_shape(dt, shape) {
            Err(FrameError::ShapeDtypeMismatch)
        } else if fixed_size(dt, shape_product(shape)) matches Some(n) && n != declared {
            Err(FrameError::ShapeDtypeMismatch)
        } else if q + declared > d.len() {
            Err(FrameError::Truncated)
        } else {
            Ok(
                (
                    SliceModel { dtype: dt, shape, payload: d.subrange(q, q + declared) },
                    q + declared,
                ),
            )
        }
    }
}

/// Reads the first `k` slices from `start`.
pub open spec fn parse_slices(d: Seq<u8>, start: int, lens: Seq<u32>, k: nat) -> Result<
    (Seq<SliceModel>, int),
    FrameError,
>
    decreases k,
{
    if k == 0 {
        Ok((Seq::empty(), start))
    } else {
        match parse_slices(d, start, lens, (k - 1) as nat) {
            Err(e) => Err(e),
            Ok((ss, p)) => match parse_slice(d, p, pick_len(lens, k - 1)) {
                Err(e) => Err(e),
                Ok((s, q)) => Ok((ss.push(s), q)),
            },
        }
    }
}

/// Decodes a frame whose body has the CRC-32 `crc`. The frame must end
/// exactly with its checksum, and may not exceed the frame ceiling.
pub open spec fn parse_frame_with(d: Seq<u8>, crc: u32) -> Result<FrameModel, FrameError> {
    if d.len() < MIN_FRAME_LEN {
        Err(FrameError::Truncated)
    } else if d.len() > MAX_FRAME_LEN {
        Err(FrameError::FrameTooLarge)
    } else if msg_type_of_code(d[1]) is None {
        Err(FrameError::InvalidEnum)
    } else if read16(d, 2) > FLAG_BITS_ALL {
        Err(FrameError::InvalidEnum)
    } else {
        let num = read64(d, 16);
        let nl = lens_count(num);
        let p = 24 + 4 * nl;
        if p > d.len() {
            Err(FrameError::Truncated)
        } else if nl == 0 {
            Err(FrameError::EmptySliceLengths)
        } else if p + 5 > d.len() {
            Err(FrameError::Truncated)
        } else if modality_of_code(d[p + 4]) is None {
            Err(FrameError::InvalidEnum)
        } else {
            let lens = read32_run(d, 24, nl as nat);
            match parse_slices(d, p + 5, lens, num as nat) {
                Err(e) => Err(e),
                Ok((slices, q)) => {
                    if q + 4 > d.len() {
                        Err(FrameError::Truncated)
                    } else if q + 4 < d.len() {
                        Err(FrameError::StructuralMismatch)
                    } else if read32(d, q) != crc {
                        Err(FrameError::ChecksumMismatch)
                    } else {
                        Ok(
                            FrameModel {
                                version: d[0],
                                mtype: msg_type_of_code(d[1])->Some_0,
                                flags: read16(d, 2),
                                stream_id: read32(d, 4),
                                frame_seq: read64(d, 8),
                                num_slices: num,
                                slice_len: lens,
                                space_hash32: read32(d, p),
                                modality: modality_of_code(d[p + 4])->Some_0,
                                slices,
                                crc32: read32(d, q),
                            },
                        )
                    }
                },
            }
        }
    }
}

/// Decodes a frame, checking it against the CRC-32 of all but its last four
/// bytes.
pub open spec fn parse_frame(d: Seq<u8>) -> Result<FrameModel, FrameError> {
    if d.len() < MIN_FRAME_LEN {
        Err(FrameError::Truncated)
    } else {
        parse_frame_with(d, crc32_of(d.subrange(0, d.len() - 4)))
    }
}

proof fn lemma_parse_slices_err_stays(d: Seq<u8>, start: int, lens: Seq<u32>, k: nat, k2: nat)
    requires
        k <= k2,
        parse_slices(d, start, lens, k) is Err,
    ensures
        parse_slices(d, start, lens, k2) == parse_slices(d, start, lens, k),
    decreases k2 - k,
{
    if k < k2 {
        lemma_parse_slices_err_stays(d, start, lens, k, (k2 - 1) as nat);
    }
}

/// Reads `n` little-endian 32-bit values from `p` on.
fn read_u32_run(d: &[u8], p: usize, n: usize) -> (r: Vec<u32>)
    requires
        p + 4 * n <= d@.len(),
    ensures
        r@ == read32_run(d@, p as int, n as nat),
{
    let len = d.len();
    let mut r: Vec<u32> = Vec::new();
    let mut i: usize = 0;
    while i < n
        invariant
            len == d@.len(),
            i <= n,
            p + 4 * n <= d@.len(),
            r@ =~= read32_run(d@, p as int, i as nat),
        decreases n - i,
    {
        r.push(read_u32(d, p + 4 * i));
        i = i + 1;
    }
    r
}

/// Copies the `n` bytes from `p` on.
fn copy_range(d: &[u8], p: usize, n: usize) -> (r: Vec<u8>)
    requires
        p + n <= d@.len(),
    ensures
        r@ == d@.subrange(p as int, p + n),
{
    let len = d.len();
    let mut r: Vec<u8> = Vec::new();
    let mut i: usize = 0;
    while i < n
        invariant
            len == d@.len(),
            i <= n,
            p + n <= d@.len(),
            r@ =~= d@.subrange(p as int, p + i),
        decreases n - i,
    {
        r.push(d[p + i]);
        i = i + 1;
    }
    r
}

/// Reads one slice at `p`, whose header declares `declared` payload bytes.
fn read_slice(d: &[u8], p: usize, declared: u32) -> (r: Result<
    ((SliceMeta, Vec<u8>), usize),
    FrameError,
>)
    requires
        p <= d@.len(),
    ensures
        match r {
            Ok((entry, q)) => parse_slice(d@, p as int, declared) == Ok::<
                (SliceModel, int),
                FrameError,
            >((slice_model(entry), q as int)),
            Err(e) => parse_slice(d@, p as int, declared) == Err::<(SliceModel, int), FrameError>(
                e,
            ),
        },
{
    let len = d.len();
    if p >= len {
        return Err(FrameError::Truncated);
    }
    let dtype = match DType::from_u8(d[p]) {
        None => {
            return Err(FrameError::InvalidEnum);
        },
        Some(t) => t,
    };
    if len - p < 2 {
        return Err(FrameError::Truncated);
    }
    let sl = d[p + 1] as usize;
    if (len - p - 2) / 4 < sl {
        return Err(FrameError::Truncated);
    }
    let shape = read_u32_run(d, p + 2, sl);
    let q = p + 2 + 4 * sl;
    if declared as usize > len {
        return Err(FrameError::DeclaredLengthExceedsFrame);
    }
    match expected_payload_size(dtype, shape.as_slice()) {
        Err(e) => {
            return Err(e);
        },
        Ok(Some(expected)) => {
            if expected != declared as usize {
                return Err(FrameError::ShapeDtypeMismatch);
            }
        },
        Ok(None) => {},
    }
    if len - q < declared as usize {
        return Err(FrameError::Truncated);
    }
    let payload = copy_range(d, q, declared as usize);
    Ok(((SliceMeta { dtype, shape }, payload), q + declared as usize))
}

impl VFrame {
    /// Decodes a frame, given the CRC-32 of all but its last four bytes.
    pub fn decode_with_crc(data: &[u8], computed_crc: u32) -> (r: Result<VFrame, FrameError>)
        ensures
            match r {
                Ok(f) => parse_frame_with(data@, computed_crc) == Ok::<FrameModel, FrameError>(f@),
                Err(e) => parse_frame_with(data@, computed_crc) == Err::<FrameModel, FrameError>(e),
            },
    {
        let ghost d = data@;
        let len = data.len();
        if len < MIN_FRAME_LEN {
            return Err(FrameError::Truncated);
        }
        if len > MAX_FRAME_LEN {
            return Err(FrameError::FrameTooLarge);
        }
        let version = data[0];
        let mtype = match MsgType::from_u8(data[1]) {
            None => {
                return Err(FrameError::InvalidEnum);
            },
            Some(t) => t,
        };
        let flags = match Flags::from_bits(read_u16(data, 2)) {
            None => {
                return Err(FrameError::InvalidEnum);
            },
            Some(f) => f,
        };
        let stream_id = read_u32(data, 4);
        let frame_seq = read_u64(data, 8);
        let num = read_u64(data, 16);
        let nl: usize = if num == 1 {
            1
        } else {
            if num > ((len - 24) / 4) as u64 {
                return Err(FrameError::Truncated);
            }
            num as usize
        };
        assert(nl == lens_count(num));
        if nl == 0 {
            return Err(FrameError::EmptySliceLengths);
        }
        let p = 24 + 4 * nl;
        if len - p < 5 {
            return Err(FrameError::Truncated);
        }
        let modality = match Modality::from_u8(data[p + 4]) {
            None => {
                return Err(FrameError::InvalidEnum);
            },
            Some(m) => m,
        };
        let lens = read_u32_run(data, 24, nl);
        let space_hash32 = read_u32(data, p);
        let ghost lens_s = lens@;
        let mut slices: Vec<(SliceMeta, Vec<u8>)> = Vec::new();
        let mut pos: usize = p + 5;
        let mut k: usize = 0;
        assert(slices@.map_values(|e: (SliceMeta, Vec<u8>)| slice_model(e)) =~= Seq::<
            SliceModel,
        >::empty());
        while k < nl
            invariant
                d == data@,
                len == d.len(),
                lens@ == lens_s,
                lens_s.len() == nl,
                nl as int == num as int,
                lens_s == read32_run(d, 24, nl as nat),
                nl == lens_count(num),
                num == read64(d, 16),
                p == 24 + 4 * nl,
                p + 5 <= len,
                MIN_FRAME_LEN <= len <= MAX_FRAME_LEN,
                msg_type_of_code(d[1]) == Some(mtype),
                read16(d, 2) <= FLAG_BITS_ALL,
                modality_of_code(d[p + 4]) == Some(modality),
                k <= nl,
                pos <= len,
                parse_slices(d, p + 5, lens_s, k as nat) == Ok::<
                    (Seq<SliceModel>, int),
                    FrameError,
                >((slices@.map_values(|e: (SliceMeta, Vec<u8>)| slice_model(e)), pos as int)),
            decreases nl - k,
        {
            let declared = if nl == 1 {
                lens[0]
            } else {
                lens[k]
            };
            assert(declared == pick_len(lens_s, k as int));
            match read_slice(data, pos, declared) {
                Err(e) => {
                    proof {
                        assert(parse_slices(d, p + 5, lens_s, (k + 1) as nat) == Err::<
                            (Seq<SliceModel>, int),
                            FrameError,
                        >(e));
                        lemma_parse_slices_err_stays(d, p + 5, lens_s, (k + 1) as nat, nl as nat);
                        assert(parse_slices(d, p + 5, lens_s, num as nat) == Err::<
                            (Seq<SliceModel>, int),
                            FrameError,
                        >(e));
                    }
                    return Err(e);
                },
                Ok((entry, next)) => {
                    let ghost before = slices@;
                    slices.push(entry);
                    assert(slices@.map_values(|e: (SliceMeta, Vec<u8>)| slice_model(e))
                        =~= before.map_values(|e: (SliceMeta, Vec<u8>)| slice_model(e)).push(
                        slice_model(entry),
                    ));
                    pos = next;
                },
            }
            k = k + 1;
        }
        if len - pos < 4 {
            return Err(FrameError::Truncated);
        }
        if len - pos > 4 {
            return Err(FrameError::StructuralMismatch);
        }
        let crc32 = read_u32(data, pos);
        if crc32 != computed_crc {
            return Err(FrameError::ChecksumMismatch);
        }
        let f = VFrame {
            hdr: VFrameHeader {
                version,
                mtype,
                flags,
                stream_id,
                frame_seq,
                num_slices: num,
                slice_len: lens,
                space_hash32,
                modality,
            },
            slices,
            crc32,
        };
        Ok(f)
    }

    /// Decodes a frame. Decoding is all or nothing: any failure gives no
    /// frame at all.
    pub fn decode(data: &[u8]) -> (r: Result<VFrame, FrameError>)
        ensures
            match r {
                Ok(f) => parse_frame(data@) == Ok::<FrameModel, FrameError>(f@),
                Err(e) => parse_frame(data@) == Err::<FrameModel, FrameError>(e),
            },
    {
        if data.len() < MIN_FRAME_LEN {
            return Err(FrameError::Truncated);
        }
        let covered = vstd::slice::slice_subrange(data, 0, data.len() - 4);
        let crc = crc32(covered);
        VFrame::decode_with_crc(data, crc)
    }
}

} // verus!
