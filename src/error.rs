use vstd::prelude::*;

verus! {

/// The ways in which synthesis can fail. Every error aborts the enclosing
/// synthesis session.
#[derive(Clone, Copy, Debug, PartialEq, Eq, Structural)]
pub enum Error {
    /// A byte buffer does not represent a valid field element.
    DecodeError,
    /// A term or declaration refers to an id that is not bound.
    UnknownVariable,
    /// An id was bound a second time.
    DuplicateBinding,
    /// A gadget call was malformed, or its inputs mixed present and absent values.
    ProtocolViolation,
    /// The external gadget function reported a failure.
    ExternalGadgetError,
    /// Key or proof generation failed.
    ProvingBackendError,
    /// An artifact could not be read or written.
    IOError,
}

} // verus!
