//! Canonical DER emission for a minimal X.509 certificate body: a two-pass,
//! tail-growing tag-length-value writer, the calendar arithmetic behind
//! ASN.1 time values, and the fixed certificate structure built from them.

use vstd::prelude::*;

pub mod buffer;
pub mod calendar;
pub mod certificate;
pub mod der;
pub mod node;
pub mod time;

pub use buffer::{encode, FmtBuf, OutBuf};
pub use certificate::encode_certificate;
pub use node::Node;
pub use time::{days_to_ymd, DecomposedGmt, EncodeError, X509Time, MAX_ASN1_TIMESTAMP};

verus! {

/// Class bits of a context-specific tag.
pub const CONTEXT_SPECIFIC: u8 = 0x80;

/// The bit that marks a constructed encoding.
pub const CONSTRUCTED: u8 = 0x20;

/// The tag of a SEQUENCE, constructed.
pub const SEQUENCE: u8 = 0x30;

/// The tag of a BOOLEAN.
pub const BOOLEAN: u8 = 0x01;

/// The tag of an INTEGER.
pub const INTEGER: u8 = 0x02;

/// The tag of a BIT STRING.
pub const BIT_STRING: u8 = 0x03;

/// The tag of an OCTET STRING.
pub const OCTET_STRING: u8 = 0x04;

/// The tag of a NULL.
pub const NULL: u8 = 0x05;

/// The tag of an OBJECT IDENTIFIER.
pub const OID: u8 = 0x06;

/// The tag of a UTCTime.
pub const UTCTIME: u8 = 0x17;

/// The tag of a GeneralizedTime.
pub const GENERALIZEDTIME: u8 = 0x18;

} // verus!
