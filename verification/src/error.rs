//! What can go wrong while decoding.

use crate::domain_name::DomainNameError;
use vstd::prelude::*;

verus! {

/// Why a buffer could not be decoded. Each is an ordinary result: the caller
/// decides whether to give up the message or only the record at hand.
#[derive(Debug, Clone, Copy, PartialEq, Eq, Structural)]
pub enum DecodeError {
    /// A label could not be appended to the name under construction.
    DomainName(DomainNameError),
    /// A label is not UTF-8 text.
    LabelEncoding,
    /// A name took more compression pointers than
    /// [`DOMAIN_NAME_MAX_RECURSION`](crate::DOMAIN_NAME_MAX_RECURSION).
    TooMuchRecursion,
    /// The buffer ends before what it announces: a length octet, a label, the
    /// second octet of a pointer, or the fixed fields of a record.
    BufferTruncated,
    /// A field that stands for one of a few named values holds this code,
    /// which names none of them.
    InvalidEnumValue(u16),
    /// No record type is registered under this type code.
    UnknownRecordType(u16),
}

} // verus!
