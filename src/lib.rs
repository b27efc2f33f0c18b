//! Wire-level codec for CITP, the Capture Interactive Theatre Protocol.
//!
//! Every structure has a canonical byte form (`WriteToBytes::wire`), a size that matches it
//! exactly (`SizeBytes`), and a decoder that recovers exactly the well-formed value that a
//! buffer starts with (`ReadFromBytes`). Packets are decoded in two layers: the base header
//! selects the CAEX module, and the CAEX content type selects the body.

pub mod caex;
pub mod codec;
pub mod dispatch;
pub mod laser;
pub mod protocol;
pub mod text;

pub use codec::{CodecError, ReadFromBytes, SizeBytes, WriteToBytes};
pub use dispatch::{read_frame, read_frames, CaexBody};
pub use text::Ucs2;
