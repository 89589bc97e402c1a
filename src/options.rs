use vstd::prelude::*;

use crate::error::Error;

verus! {

/// Quantization options
pub struct Options {
    max_colors: i32,
}

impl Options {
    /// Largest palette size that quantization may produce.
    pub closed spec fn max_colors_spec(&self) -> int {
        self.max_colors as int
    }

    /// The stored palette limit always lies in `[2, 256]`.
    pub closed spec fn wf(&self) -> bool {
        2 <= self.max_colors <= 256
    }

    pub fn get_max_colors(&self) -> (r: i32)
        ensures
            r == self.max_colors_spec(),
            self.wf() ==> 2 <= r <= 256,
    {
        self.max_colors
    }

    /// Sets the maximum number of colors in the resultant palette.
    ///
    /// Returns [`Error::ValueOutOfRange`] if the provided number is greater
    /// than 256 or less than 2; the options are then left unchanged.
    pub fn set_max_colors(&mut self, colors: i32) -> (r: Result<(), Error>)
        requires
            old(self).wf(),
        ensures
            final(self).wf(),
            2 <= colors <= 256 ==> r is Ok && final(self).max_colors_spec() == colors,
            !(2 <= colors <= 256) ==> r == Err::<(), Error>(Error::ValueOutOfRange) && *final(self) == *old(self),
    {
        if colors > 256 || colors < 2 {
            return Err(Error::ValueOutOfRange);
        }
        self.max_colors = colors;
        Ok(())
    }
}

impl Default for Options {
    fn default() -> (r: Self)
        ensures
            r.wf(),
            r.max_colors_spec() == 256,
    {
        Options { max_colors: 256 }
    }
}

} // verus!
