use vstd::prelude::*;

verus! {

/// Why a text was not accepted as a color.
#[derive(Clone, Copy, Debug, PartialEq, Eq, Structural)]
pub enum ColorError {
    /// The text has the shape of no notation: a missing `#`, `rgb(`, `rgba(` or
    /// `)`, a wrong number of hexadecimal digits or of components.
    InvalidFormat,
    /// The shape was recognised, but a component is no number of the expected
    /// base or lies outside its range.
    InvalidColorFormat,
}

impl ColorError {
    /// The sentence that describes this error.
    pub open spec fn message_text(self) -> Seq<char> {
        match self {
            ColorError::InvalidFormat => "Invalid hex color format. Use #RRGGBB."@,
            ColorError::InvalidColorFormat => "Invalid color format."@,
        }
    }

    /// Returns the sentence that describes this error.
    pub fn message(&self) -> (text: &'static str)
        ensures
            text@ == self.message_text(),
    {
        match self {
            ColorError::InvalidFormat => "Invalid hex color format. Use #RRGGBB.",
            ColorError::InvalidColorFormat => "Invalid color format.",
        }
    }
}

} // verus!
