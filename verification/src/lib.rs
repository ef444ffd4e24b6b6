//! Unicode normalization (NFC, NFD, NFKC, NFKD) over an external Unicode
//! Character Database provider, together with stream-safe bounding
//! (UAX15-D4) and quick-check detection of normalization status.

pub mod decompose;
pub mod hangul;
pub mod laws;
pub mod lookups;
pub mod quick_check;
pub mod recompose;
pub mod stream_safe;
pub mod text;

pub use crate::decompose::{nfd, nfkd};
pub use crate::hangul::compose_hangul;
pub use crate::quick_check::{
    is_nfc, is_nfc_quick, is_nfc_stream_safe, is_nfc_stream_safe_quick, is_nfd, is_nfd_quick,
    is_nfd_stream_safe, is_nfd_stream_safe_quick, is_nfkc, is_nfkc_quick, is_nfkd, is_nfkd_quick,
    IsNormalized,
};
pub use crate::recompose::{nfc, nfkc};
pub use crate::stream_safe::{classify_nonstarters, stream_safe, Decomposition, StreamSafe};
