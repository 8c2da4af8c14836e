use crate::error::EncodeError;
use vstd::prelude::*;

verus! {

/// An erasure code over ordered byte shares.
pub trait Codec {
    /// The shares of the codeword of `data`.
    fn encode(&self, data: Vec<Vec<u8>>) -> Result<Vec<Vec<u8>>, EncodeError>;

    /// The data shares recovered from `data`.
    fn decode(&self, data: Vec<Vec<u8>>) -> Result<Vec<Vec<u8>>, EncodeError>;
}

} // verus!
