//! A small persistent key-value store: a framed single-file log of records,
//! and the policy that keeps an expiring cache in front of it.
pub mod error;
pub mod codec;
pub mod disk;
pub mod frame_key;
pub mod laws;
pub mod value;
pub mod engine;
pub mod weight;
pub mod pathing;
pub mod primary;
pub mod protocol;
pub mod config;

pub use error::{Error, ErrorKind};
pub use codec::{
    encode_entry, encode_gap, read_be16, push_be16, signature, SIGNATURE_LEN, ENTRY_HEADER_LEN,
    LONG_GAP_OPCODE, LONG_GAP_HEADER_LEN,
};
pub use disk::{check_signature, Disk, Record};
pub use value::Value;
pub use engine::{key_validation, CacheUpdate, Engine, Reply};
pub use weight::weight;
pub use pathing::{del_pathing, get_pathing, json_key, put_pathing, split_chars, GetPathing};
pub use primary::Primary;
pub use protocol::{Request, Respond};
pub use config::{origin_allowed, parse_log_level, parse_origins, Configuration, LogLevel};
