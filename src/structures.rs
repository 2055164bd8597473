//! Typed values that convert into the generic tagged-value tree.

pub mod null;
pub mod octetstring;

pub use null::Null;
pub use octetstring::OctetString;
