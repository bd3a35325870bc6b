//! Error types shared by the object model, the store and the diff engine.

use vstd::prelude::*;

verus! {

/// A free-form error carrying a message, used by the Merkle verification
/// helpers.
#[derive(Debug)]
pub struct MerkleError {
    msg: String,
}

impl View for MerkleError {
    type V = Seq<char>;

    closed spec fn view(&self) -> Seq<char> {
        self.msg@
    }
}

impl MerkleError {
    pub fn new(msg: &str) -> (r: Self)
        ensures
            r@ == msg@,
    {
        MerkleError { msg: msg.to_owned() }
    }

    /// The message this error was created with.
    pub fn message(&self) -> (r: &str)
        ensures
            r@ == self@,
    {
        self.msg.as_str()
    }
}

/// The failure kinds of load, resolve and digest-selection operations.
///
/// - `NotFound`: no stored record for a referenced hash.
/// - `ParseError`: a stored tree listing or stub record is malformed.
/// - `Corruption`: a recomputed hash disagrees with the recorded or
///   expected hash.
/// - `IoError`: a propagated filesystem failure.
/// - `UnsupportedDigest`: an unknown digest-algorithm identifier.
#[derive(Debug, Clone, Copy, PartialEq, Eq, Structural)]
pub enum VcError {
    NotFound,
    ParseError,
    Corruption,
    IoError,
    UnsupportedDigest,
}

} // verus!
