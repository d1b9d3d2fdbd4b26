//! Removal of H.264 emulation-prevention bytes from NAL units, and reading of
//! syntax elements from the resulting raw byte sequence payload (RBSP).
//!
//! Three forms of the same escape removal are offered: push-style
//! ([`RbspDecoder`], a [`NalHandler`] in front of another), pull-style
//! ([`ByteReader`], the decisions of a buffered reader) and one-shot
//! ([`decode_nal`]). All three are proved against one model of escape
//! removal, in [`escape`]. [`BitReader`] reads the syntax elements.

pub mod bits;
pub mod escape;
pub mod nal;
pub mod pull;
pub mod rbsp;

pub use bits::{golomb_to_signed, BitRead, BitReader, BitReaderError};
pub use nal::{CollectingHandler, NalHandler};
pub use pull::{ByteReader, FillStep};
pub use rbsp::{decode_nal, RbspDecoder};
