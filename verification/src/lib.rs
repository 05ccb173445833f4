//! Verified codecs and payload capture for the EGFX remote-desktop channel.

pub mod bits;
pub mod dump;
pub mod dump_format;
pub mod error;
pub mod nscodec;
pub mod nscodec_format;
pub mod rle;
pub mod rle_format;
pub mod srl;
pub mod srl_format;
pub mod srl_laws;
pub mod text;
pub mod text_format;
