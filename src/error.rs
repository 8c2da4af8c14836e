use vstd::prelude::*;

verus! {

/// What an encoder reports when it cannot encode a vector.
#[derive(Clone, Copy, Debug, PartialEq, Eq, Structural)]
pub enum EncodeError {
    /// The input length is not one the code accepts.
    BadLength { found: usize },
    /// The encoder failed for a reason of its own.
    Failed,
}

/// The step of a pipeline run that a failure comes from.
#[derive(Clone, Copy, Debug, PartialEq, Eq, Structural)]
pub enum Stage {
    /// Checking the columns of the data square.
    Input,
    /// Encoding the columns of the first quadrant into the third.
    ThirdQuadrant,
    /// Encoding the rows of the scaled first quadrant into the second.
    SecondQuadrant,
    /// Encoding the rows of the scaled third quadrant into the fourth.
    FourthQuadrant,
}

/// The ways a layout or a pipeline run can fail.
#[derive(Clone, Copy, Debug, PartialEq, Eq, Structural)]
pub enum Error {
    /// A share count that is not a perfect square, or a share of the wrong size.
    Construction,
    /// The encoder rejected the vector at `index` (a column or a row) of `stage`.
    Encoding { stage: Stage, index: usize, cause: EncodeError },
    /// A commitment was asked for over no leaves at all.
    Commitment,
    /// The encoder's output for the vector at `index` of `stage` is not a systematic
    /// codeword of twice the input length, or an input column has the wrong length.
    Consistency { stage: Stage, index: usize },
}

} // verus!
