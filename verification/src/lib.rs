//! Verified core of a local speech pipeline.
pub mod audio;
pub mod brain;
pub mod env;
pub mod fingerprint;
pub mod float_bits;
pub mod identifier;
pub mod json;
pub mod numeric;
pub mod protocol;
pub mod queue;
pub mod redis_value;
pub mod riva;
pub mod storage;
pub mod string_map;
pub mod text;
pub mod timeline;
pub mod worker;
