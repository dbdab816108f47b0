use vstd::prelude::*;

verus! {

/// The failures the codec and its transport can report.
#[derive(Debug, PartialEq, Eq, Clone, Copy)]
pub enum ASN1Error {
    /// Malformed class, number or length encountered during decode: an
    /// unknown universal type code, a bad class selector, a truncated
    /// buffer, or a child tag overrunning its parent's declared length.
    InvalidASN1,
    /// The indefinite-length form (a long-form length byte with a count of
    /// zero), which this codec does not support.
    UnsupportedForm,
    /// A transport failure on connect, read or write, reported by the
    /// I/O layer around the codec.
    IOError,
}

} // verus!
