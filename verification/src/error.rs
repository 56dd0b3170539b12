//! The ways in which an input can be refused.

use vstd::prelude::*;

verus! {

/// Why a grid or a kernel was refused.
#[derive(Debug, Clone, Copy, PartialEq, Eq, Structural)]
pub enum HarrisError {
    /// The width or the height is zero, or the number of samples is not
    /// width times height.
    InvalidDimensions,
    /// The kernel's width or height is zero or even, the number of weights
    /// is not width times height, or the divisor is zero.
    InvalidKernel,
    /// A response grid without any element was handed to thresholding.
    EmptyResponse,
}

impl HarrisError {
    /// The stage that refused its input and the condition that the input
    /// broke, in words.
    pub open spec fn spec_message(self) -> Seq<char> {
        match self {
            HarrisError::InvalidDimensions =>
                "corner detection: width or height is zero, or the number of samples is not width times height"@,
            HarrisError::InvalidKernel =>
                "convolution: the kernel's sides must be odd, its weights must fill it, and its divisor must not be zero"@,
            HarrisError::EmptyResponse => "thresholding: the response grid is empty"@,
        }
    }

    /// The stage that refused its input and the condition that the input
    /// broke, in words.
    pub fn message(self) -> (text: &'static str)
        ensures
            text@ == self.spec_message(),
    {
        match self {
            HarrisError::InvalidDimensions =>
                "corner detection: width or height is zero, or the number of samples is not width times height",
            HarrisError::InvalidKernel =>
                "convolution: the kernel's sides must be odd, its weights must fill it, and its divisor must not be zero",
            HarrisError::EmptyResponse => "thresholding: the response grid is empty",
        }
    }
}

} // verus!
