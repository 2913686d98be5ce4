pub mod bytes;
pub mod capability;
pub mod compress;
pub mod crypto;
pub mod dtype;
pub mod frame;
pub mod integrity;
pub mod roundtrip;
pub mod stream;
pub mod transform;

pub use capability::Capability;
pub use dtype::{DType, Modality};
pub use frame::{
    expected_payload_size, Flags, FrameError, MsgType, SliceMeta, VFrame, VFrameHeader,
};
pub use integrity::strong_tail_hash;
pub use stream::{Reassembler, StreamEvent, StreamPhase, StreamState};
