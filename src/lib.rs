//! Key-Length-Value (KLV) codec.
//!
//! A message is encoded as `UniversalKey Length Content`, where the content is
//! a run of `Key(1 byte) Length Value` records and the length fields follow the
//! BER length-octet rules. Nested records reuse the same grammar without a
//! universal key. An optional checksum trailer makes a buffer self-validating.
//!
//! - `length`: the length octets and big-endian integers.
//! - `value`: values, schemas, and the encoding of a value as a spec function.
//! - `ser`: the encoder, a stack of frames written bottom-up.
//! - `de`: the schema-driven decoder and the checksum check.
//! - `raw`: the schema-less parser.
//! - `checksum`, `uasdls`: the checksum strategies.
//! - `laws`: round trips and the other properties relating these parts.
pub mod checksum;
pub mod de;
pub mod error;
pub mod laws;
pub mod length;
pub mod raw;
pub mod ser;
pub mod uasdls;
pub mod value;

pub use checksum::{CheckSumCalc, WrappedCRC};
pub use de::{checksum, from_bytes, from_bytes_with_checksum, Deserializer};
pub use error::{Error, KeyError};
pub use length::{check_universal_key_len, parse_length, LengthOctet};
pub use raw::{KLVMap, KLVRaw};
pub use ser::{to_bytes, to_bytes_with_crc, KLVSerializer};
pub use uasdls::CRC;
pub use value::{Field, FieldKind, Kind, Message, Scalar, Schema, Value};
