use vstd::prelude::*;

verus! {

/// The dimension checks that `csvd` performs before it touches any buffer.
/// Every variant is a terminal precondition violation: the caller must fix
/// the call site and retry with new arguments.
#[derive(Clone, Copy, Debug, PartialEq, Eq, Structural)]
pub enum SvdError {
    /// The column count `n` was smaller than 1.
    NLessThanOne,
    /// The column count `n` exceeded the compiled working-array bound.
    NExceedsCapacity,
    /// The row count `m` was smaller than 1.
    MLessThanOne,
    /// The row count `m` was smaller than the column count `n`.
    MLessThanN,
}

impl SvdError {
    /// A short description of the failed check, as a plain string.
    pub fn message(&self) -> (r: &'static str)
        ensures
            *self is NLessThanOne ==> r@ == "Fatal Error = Input N < 1"@,
            *self is NExceedsCapacity ==> r@ == "Fatal Error: NBIG < N"@,
            *self is MLessThanOne ==> r@ == "Fatal Error: Input M < 1"@,
            *self is MLessThanN ==> r@ == "Fatal Error: M < N"@,
    {
        match self {
            SvdError::NLessThanOne => "Fatal Error = Input N < 1",
            SvdError::NExceedsCapacity => "Fatal Error: NBIG < N",
            SvdError::MLessThanOne => "Fatal Error: Input M < 1",
            SvdError::MLessThanN => "Fatal Error: M < N",
        }
    }
}

} // verus!
