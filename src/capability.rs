use vstd::prelude::*;

use crate::frame::{MsgType, VFrameHeader};

verus! {

#[verifier::external_type_specification]
#[verifier::external_body]
pub struct ExJsonValue(serde_json::Value);

/// The handshake record a peer sends in the first slice of a Sync frame:
/// protocol version, model width, embedding space and its 32-bit
/// discriminator, the compression and cipher names it supports, and an open
/// map of further features.
pub struct Capability {
    pub method: String,
    pub v: u32,
    pub agreed_proto: u32,
    pub d_model: u32,
    pub embedding_space_id: String,
    pub space_hash32: u32,
    pub compress: Vec<String>,
    pub crypto: Vec<String>,
    pub supports: serde_json::Value,
}

/// A frame reaches application handling under a negotiated embedding space
/// when it is a Sync frame, or its space hash is the negotiated one.
pub open spec fn admitted(
    negotiated_space_hash: u32,
    hdr_type: MsgType,
    hdr_space_hash: u32,
) -> bool {
    hdr_type == MsgType::Sync || hdr_space_hash == negotiated_space_hash
}

impl Capability {
    /// Whether a frame with this header may reach application handling: a
    /// payload frame whose space hash differs from the negotiated one is
    /// dropped, since its tensors would mean nothing here.
    pub fn admits(&self, hdr: &VFrameHeader) -> (r: bool)
        ensures
            r == admitted(self.space_hash32, hdr.mtype, hdr.space_hash32),
    {
        hdr.mtype == MsgType::Sync || hdr.space_hash32 == self.space_hash32
    }
}

} // verus!
