use vstd::prelude::*;

use crate::compress::{zstd_compress, zstd_compressed, zstd_decompress, zstd_decompressed};
use crate::crypto::{
    open_xchacha, seal_xchacha, xchacha_opened, xchacha_sealed, MAX_SEAL_LEN, TAG_LEN,
};
use crate::frame::{Flags, FrameError};

verus! {

/// The compression flag is set in these bits.
pub open spec fn compressed_bit(bits: u16) -> bool {
    bits & 1 == 1
}

/// The encryption flag is set in these bits.
pub open spec fn encrypted_bit(bits: u16) -> bool {
    bits & 2 == 2
}

/// The payload after the first transform: compressed if the flags say so.
pub open spec fn staged_payload(bits: u16, payload: Seq<u8>, level: i32) -> Seq<u8> {
    if compressed_bit(bits) {
        zstd_compressed(payload, level)
    } else {
        payload
    }
}

/// The cipher can take what the flags hand it: nothing to seal, or a staged
/// payload short enough.
pub open spec fn sealable(bits: u16, payload: Seq<u8>, level: i32) -> bool {
    !encrypted_bit(bits) || staged_payload(bits, payload, level).len() < MAX_SEAL_LEN
}

/// The cipher can take what a receiver hands it: nothing to open, or a
/// ciphertext short enough.
pub open spec fn openable(bits: u16, wire: Seq<u8>) -> bool {
    !encrypted_bit(bits) || wire.len() < MAX_SEAL_LEN + TAG_LEN
}

/// The payload a sender puts on the wire: compressed if the flags say so,
/// then sealed if the flags say so.
pub open spec fn outgoing_payload(
    bits: u16,
    payload: Seq<u8>,
    level: i32,
    key: Seq<u8>,
    nonce: Seq<u8>,
) -> Seq<u8> {
    let c = staged_payload(bits, payload, level);
    if encrypted_bit(bits) {
        xchacha_sealed(key, nonce, c)
    } else {
        c
    }
}

/// The payload a receiver hands on: opened if the flags say so, then
/// decompressed if the flags say so.
pub open spec fn incoming_payload(bits: u16, wire: Seq<u8>, key: Seq<u8>, nonce: Seq<u8>) -> Seq<
    u8,
> {
    let o = if encrypted_bit(bits) {
        xchacha_opened(key, nonce, wire)
    } else {
        wire
    };
    if compressed_bit(bits) {
        zstd_decompressed(o)
    } else {
        o
    }
}

/// Applies the transforms that `flags` call for to a slice payload before
/// it is framed. It succeeds whenever the cipher can take the staged
/// payload; with neither flag set the payload goes out as it is.
pub fn prepare_payload(
    flags: Flags,
    payload: &[u8],
    level: i32,
    key: &[u8; 32],
    nonce: &[u8; 24],
) -> (r: Result<Vec<u8>, FrameError>)
    ensures
        r matches Ok(v) ==> v@ == outgoing_payload(flags.spec_bits(), payload@, level, key@, nonce@),
        r matches Err(e) ==> e == FrameError::PayloadTransformFailure,
        sealable(flags.spec_bits(), payload@, level) ==> r is Ok,
        r matches Ok(v) ==> openable(flags.spec_bits(), v@),
{
    let compress = flags.contains(Flags::zstd());
    let encrypt = flags.contains(Flags::xchacha());
    let mut c: Vec<u8> = Vec::new();
    if compress {
        match zstd_compress(payload, level) {
            Ok(v) => {
                c = v;
            },
            Err(e) => {
                return Err(e);
            },
        }
    } else {
        crate::bytes::push_bytes(&mut c, payload);
        assert(c@ =~= payload@);
    }
    if encrypt {
        if c.len() as u64 >= MAX_SEAL_LEN {
            return Err(FrameError::PayloadTransformFailure);
        }
        seal_xchacha(key, nonce, c.as_slice())
    } else {
        Ok(c)
    }
}

/// Undoes the transforms that `flags` call for on a received slice payload:
/// what `prepare_payload` made of a payload under the same flags, key and
/// nonce comes back as that payload (its output is always short enough to
/// open). With neither flag set the payload comes through as it is.
pub fn restore_payload(flags: Flags, wire: &[u8], key: &[u8; 32], nonce: &[u8; 24]) -> (r: Result<
    Vec<u8>,
    FrameError,
>)
    ensures
        r matches Ok(v) ==> v@ == incoming_payload(flags.spec_bits(), wire@, key@, nonce@),
        r matches Err(e) ==> e == FrameError::PayloadTransformFailure,
        forall|p: Seq<u8>, level: i32|
            #[trigger] outgoing_payload(flags.spec_bits(), p, level, key@, nonce@) == wire@
                && sealable(flags.spec_bits(), p, level) && openable(flags.spec_bits(), wire@) ==> (
            r matches Ok(v) && v@ == p),
{
    let compress = flags.contains(Flags::zstd());
    let encrypt = flags.contains(Flags::xchacha());
    let mut o: Vec<u8> = Vec::new();
    if encrypt {
        if wire.len() as u64 >= MAX_SEAL_LEN + TAG_LEN as u64 {
            return Err(FrameError::PayloadTransformFailure);
        }
        match open_xchacha(key, nonce, wire) {
            Ok(v) => {
                o = v;
            },
            Err(e) => {
                return Err(e);
            },
        }
    } else {
        crate::bytes::push_bytes(&mut o, wire);
        assert(o@ =~= wire@);
    }
    if compress {
        zstd_decompress(o.as_slice())
    } else {
        Ok(o)
    }
}

} // verus!
