//! What a conversion can be told: the spacing after headers and the style of
//! links.
use vstd::prelude::*;

verus! {

/// Sets up the styling of a node.
///
/// Where a value is `None`, the node follows the style of the surrounding
/// text.
#[derive(Debug, Clone, Copy, Default, PartialEq, Eq, Structural)]
pub struct Styling {
    /// Set if the node is bold
    pub bold: Option<bool>,
    /// Set if the node is italic
    pub italic: Option<bool>,
    /// Set if the node is strikeout
    pub strikeout: Option<bool>,
}

/// Options for the conversion.
#[derive(Debug, Clone, Copy)]
pub struct Options {
    /// Whether each header depth, from 1 to 6, asks for a blank line after it
    pub header_spacing: [bool; 6],
    /// How to style the links
    pub links_style: Styling,
}

/// Whether a header of the given depth is followed by a blank line; a depth
/// outside 1 to 6 never is.
pub open spec fn spacing_after(options: Options, depth: u8) -> bool {
    if 1 <= depth <= 6 {
        options.header_spacing@[depth - 1]
    } else {
        false
    }
}

/// The options that the conversion uses unless told otherwise: a blank line
/// after first-level headers only, and links styled as their surroundings.
pub open spec fn default_options() -> Options {
    Options {
        header_spacing: [true, false, false, false, false, false],
        links_style: Styling { bold: None, italic: None, strikeout: None },
    }
}

impl Options {
    /// Whether a header of the given depth needs spacing after it.
    pub fn header_spacing(&self, depth: u8) -> (r: bool)
        ensures
            r == spacing_after(*self, depth),
    {
        if 1 <= depth && depth <= 6 {
            self.header_spacing[(depth - 1) as usize]
        } else {
            false
        }
    }
}

impl Default for Options {
    fn default() -> (r: Self)
        ensures
            r == default_options(),
    {
        Options {
            header_spacing: [true, false, false, false, false, false],
            links_style: Styling { bold: None, italic: None, strikeout: None },
        }
    }
}

} // verus!
