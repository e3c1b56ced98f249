//! A rateless (LT) erasure code for carrying a payload over a channel that
//! only delivers short, self-contained frames.
//!
//! Both endpoints derive the same packet structure from the header fields:
//! `oracle` turns `(run_id, seq_num, k)` into a list of source-block indices,
//! `encoder` emits XOR packets over those blocks, and `decoder` peels them
//! back into the payload.
pub mod oracle;
pub mod wire;
pub mod encoder;
pub mod decoder;
pub mod qr;
pub mod transfer;

pub use decoder::LTDecoder;
pub use encoder::{block_count_for, LTEncoder};
pub use oracle::packet_sources;
pub use qr::{qr_generate, EccLevel};
