//! A codec between Unicode text and the GSM 03.38 default 7-bit alphabet.

pub mod config;
pub mod decoder;
pub mod encoder;
pub mod laws;
pub mod tables;
mod text;

pub use config::{Gsm7Config, Gsm7Error, DEFAULT_REPLACEMENT};
pub use decoder::{decode, decode_with_config};
pub use encoder::{encode, encode_with_config, encoded_len, is_gsm7_compatible};
pub use tables::{build_gsm_ext_table, build_gsm_table, Code, ESCAPE};
