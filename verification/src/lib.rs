//! An append-only, cryptographically verifiable authorization log: a chain of
//! signed records that bootstraps a root identity and then grants and denies
//! named capabilities to further identities.
//!
//! [`log::AclRecordLog`] is the structural container of signed records, and
//! [`acl::InterpretedAcl`] is the projector that validates a chain and derives
//! the capability table from it.

use vstd::prelude::*;

pub mod acl;
pub mod codec;
pub mod crypto;
pub mod log;

pub use acl::InterpretedAcl;
pub use log::AclPermission;
pub use log::AclRecord;
pub use log::AclRecordLog;
pub use log::SignedRecord;

verus! {

/// The reserved root capability: a key holding it satisfies every query.
pub const ACL_CAPS_ROOT: &'static str = "acl.root";

/// The controller capability used by the surrounding mesh-control layer; the
/// log itself treats it as an ordinary name.
pub const ACL_CAPS_CONTROLLER: &'static str = "meshlan.controller";

/// The capability name that grants every other one, as a sequence of chars.
pub open spec fn root_cap() -> Seq<char> {
    ACL_CAPS_ROOT@
}

/// Why a chain, or one record of it, was rejected.
#[derive(Debug, PartialEq, Eq, Structural, Clone, Copy)]
pub enum AclError {
    /// A binary or textual payload was malformed.
    ParseError,
    /// A second key would hold the root capability.
    MultipleRoots,
    /// A capability was granted to a key that already holds it.
    RepeatedGrant,
    /// A capability was denied to a key that does not hold it.
    DenyingNotGranted,
    /// The first record of the chain is not a well-formed bootstrap record.
    FirstNotRoot,
    /// A record's predecessor reference does not match the record before it.
    ChainBroken,
    /// A record is signed by a key the chain has not introduced yet.
    UnknownSigner,
    /// A record's signature does not verify against its signer's key.
    BadSignature,
}

} // verus!
