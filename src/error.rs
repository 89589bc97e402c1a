use vstd::prelude::*;

verus! {

/// Errors reported by the library's fallible operations.
#[derive(Clone, Copy, Debug, PartialEq, Eq, Structural)]
#[non_exhaustive]
pub enum Error {
    /// The value provided to the function is out of its allowed range
    ValueOutOfRange,
    /// The slice provided to the function is too small
    BufferTooSmall,
}

impl Error {
    /// Human-readable description of the error.
    pub fn message(&self) -> (r: &'static str)
        ensures
            *self == Error::ValueOutOfRange ==> r@ == "Value out of range"@,
            *self == Error::BufferTooSmall ==> r@ == "Buffer is too small"@,
    {
        match self {
            Error::ValueOutOfRange => "Value out of range",
            Error::BufferTooSmall => "Buffer is too small",
        }
    }
}

} // verus!

verus! {

/// Status codes of the C-compatible interface.
#[derive(Clone, Copy, Debug, PartialEq, Eq, Structural)]
pub enum QuantizrError {
    QuantizrOk,
    QuantizrValueOutOfRange,
    QuantizrBufferTooSmall,
}

impl QuantizrError {
    /// The numeric value of the status as the C interface reports it.
    pub fn code(&self) -> (r: i32)
        ensures
            *self == QuantizrError::QuantizrOk ==> r == 0,
            *self == QuantizrError::QuantizrValueOutOfRange ==> r == 100,
            *self == QuantizrError::QuantizrBufferTooSmall ==> r == 1,
    {
        match self {
            QuantizrError::QuantizrOk => 0,
            QuantizrError::QuantizrValueOutOfRange => 100,
            QuantizrError::QuantizrBufferTooSmall => 1,
        }
    }
}

pub open spec fn quantizr_error_of(e: Error) -> QuantizrError {
    match e {
        Error::ValueOutOfRange => QuantizrError::QuantizrValueOutOfRange,
        Error::BufferTooSmall => QuantizrError::QuantizrBufferTooSmall,
    }
}

impl From<Error> for QuantizrError {
    fn from(error: Error) -> (r: Self)
        ensures
            r == quantizr_error_of(error),
    {
        match error {
            Error::ValueOutOfRange => QuantizrError::QuantizrValueOutOfRange,
            Error::BufferTooSmall => QuantizrError::QuantizrBufferTooSmall,
        }
    }
}

impl vstd::std_specs::convert::FromSpecImpl<Error> for QuantizrError {
    open spec fn obeys_from_spec() -> bool {
        true
    }

    open spec fn from_spec(v: Error) -> Self {
        quantizr_error_of(v)
    }
}

/// Status codes of the libimagequant-compatible interface.
#[derive(Clone, Copy, Debug, PartialEq, Eq, Structural)]
pub enum LiqError {
    LiqOk,
    QualityTooLow,
    ValueOutOfRange,
    OutOfMemory,
    Aborted,
    BitmapNotAvailable,
    BufferTooSmall,
    InvalidPointer,
    Unsupported,
}

impl LiqError {
    /// The numeric value of the status as the libimagequant interface reports it.
    pub fn code(&self) -> (r: i32)
        ensures
            r == match *self {
                LiqError::LiqOk => 0,
                LiqError::QualityTooLow => 99,
                LiqError::ValueOutOfRange => 100,
                LiqError::OutOfMemory => 101,
                LiqError::Aborted => 102,
                LiqError::BitmapNotAvailable => 103,
                LiqError::BufferTooSmall => 104,
                LiqError::InvalidPointer => 105,
                LiqError::Unsupported => 106int,
            },
    {
        match self {
            LiqError::LiqOk => 0,
            LiqError::QualityTooLow => 99,
            LiqError::ValueOutOfRange => 100,
            LiqError::OutOfMemory => 101,
            LiqError::Aborted => 102,
            LiqError::BitmapNotAvailable => 103,
            LiqError::BufferTooSmall => 104,
            LiqError::InvalidPointer => 105,
            LiqError::Unsupported => 106,
        }
    }
}

pub open spec fn liq_error_of(e: Error) -> LiqError {
    match e {
        Error::ValueOutOfRange => LiqError::ValueOutOfRange,
        Error::BufferTooSmall => LiqError::BufferTooSmall,
    }
}

impl From<Error> for LiqError {
    fn from(error: Error) -> (r: Self)
        ensures
            r == liq_error_of(error),
    {
        match error {
            Error::ValueOutOfRange => LiqError::ValueOutOfRange,
            Error::BufferTooSmall => LiqError::BufferTooSmall,
        }
    }
}

impl vstd::std_specs::convert::FromSpecImpl<Error> for LiqError {
    open spec fn obeys_from_spec() -> bool {
        true
    }

    open spec fn from_spec(v: Error) -> Self {
        liq_error_of(v)
    }
}

} // verus!
