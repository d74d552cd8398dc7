use vstd::prelude::*;

verus! {

/// The ways an operation of this library can fail.
#[derive(Clone, Copy, Debug, PartialEq, Eq, Structural)]
pub enum TextError {
    /// The input bytes are not well-formed UTF-8.
    InvalidEncoding,
    /// A cost matrix for the given sequence lengths cannot be addressed on
    /// this platform.
    SizeLimitExceeded,
}

impl TextError {
    /// A short description of the failure, for display to a person.
    pub fn message(&self) -> (text: String)
        ensures
            text@ == (match *self {
                TextError::InvalidEncoding => "input is not valid UTF-8"@,
                TextError::SizeLimitExceeded => "cost matrix exceeds the addressable size"@,
            }),
    {
        match self {
            TextError::InvalidEncoding => "input is not valid UTF-8".to_owned(),
            TextError::SizeLimitExceeded => "cost matrix exceeds the addressable size".to_owned(),
        }
    }
}

} // verus!
