//! Font metrics shared by the font back ends.
use vstd::prelude::*;

verus! {

/// How a font advances from one glyph to the next: every glyph the same width, or each its own.
#[derive(Copy, Clone, Debug, PartialEq, Eq, Structural)]
pub enum FontAdvance {
    Mono,
    Sans,
}

} // verus!
