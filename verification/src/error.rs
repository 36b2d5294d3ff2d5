//! What can be wrong with the inputs of a scan.

use vstd::prelude::*;

verus! {

/// How a palette value fails to be a list of colours.
#[derive(Debug, Clone, Copy, PartialEq, Eq, Structural)]
pub enum PaletteFault {
    /// The palette itself is not a list.
    NotAList,
    /// An entry has no `values` property, or one that is not a list.
    ValuesNotAList,
    /// The `values` of an entry do not begin with three numbers.
    ComponentsMissing,
}

/// Why a scan produced no output.
#[derive(Debug, Clone, Copy, PartialEq, Eq, Structural)]
pub enum Error {
    /// The palette is not a list of colours.
    MalformedPalette(PaletteFault),
    /// The pixel buffer cannot be tiled by blocks of the given size.
    MalformedGeometry,
}

impl Error {
    /// The text of [`Error::message`].
    pub open spec fn spec_message(&self) -> Seq<char> {
        match self {
            Error::MalformedPalette(PaletteFault::NotAList) => "palette should be an array"@,
            Error::MalformedPalette(PaletteFault::ValuesNotAList) => {
                "palette color values should be an array"@
            },
            Error::MalformedPalette(PaletteFault::ComponentsMissing) => {
                "palette color values should start with three numbers"@
            },
            Error::MalformedGeometry => "pixel buffer does not match the block geometry"@,
        }
    }

    /// A sentence for the caller that says what was wrong.
    pub fn message(&self) -> (text: String)
        ensures
            text@ == self.spec_message(),
    {
        match self {
            Error::MalformedPalette(PaletteFault::NotAList) => "palette should be an array".to_owned(),
            Error::MalformedPalette(PaletteFault::ValuesNotAList) => {
                "palette color values should be an array".to_owned()
            },
            Error::MalformedPalette(PaletteFault::ComponentsMissing) => {
                "palette color values should start with three numbers".to_owned()
            },
            Error::MalformedGeometry => "pixel buffer does not match the block geometry".to_owned(),
        }
    }
}

} // verus!
