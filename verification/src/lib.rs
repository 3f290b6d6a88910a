pub mod codec;
pub mod order;
pub mod registry;
pub mod store;
pub mod user;
pub mod uuid;

use vstd::prelude::*;

verus! {

/// The outcomes an operation can fail with.
///
/// `AlreadyExists`: creation was attempted for an identity that already has a
/// record. `NotFound`: a mutation was attempted for an identity with no
/// record. `InvalidFormat`: identifier text did not have the canonical form.
/// `EncodingFailure`: a record could not be serialized within its declared
/// size bound, or stored bytes could not be decoded.
#[derive(Clone, Copy, Debug, PartialEq, Eq, Structural)]
pub enum Error {
    AlreadyExists,
    NotFound,
    InvalidFormat,
    EncodingFailure,
}

} // verus!
