//! The subtitle chooser, as both control surfaces see it: the themes as
//! something to list, and what a drawn preview hands back.

use vstd::prelude::*;
use crate::text::{trim, trimmed};

verus! {

/// One theme, as something to put in a list.
#[derive(Debug, Clone, PartialEq, Eq)]
pub struct ThemeChoice {
    /// The name in `project.yaml` and on the command line.
    pub id: &'static str,
    /// One line saying what it is for.
    pub description: &'static str,
    /// Whether this is the one a project gets without asking.
    pub default: bool,
}

/// The sentence a preview shows when the caller has nothing better: long
/// enough to wrap to two lines in every theme.
pub const SAMPLE: &'static str = "The tide came in before dawn, and by seven the harbour was full.";

/// A drawn preview frame.
#[derive(Debug, Clone, PartialEq, Eq)]
pub struct Preview {
    /// Frame width in pixels.
    pub width: u32,
    /// Frame height in pixels.
    pub height: u32,
    /// Straight RGBA, `width * height * 4` bytes. Opaque throughout.
    pub rgba: Vec<u8>,
}

/// The words a preview draws: the caller's, or [`SAMPLE`] when they are
/// blank.
pub fn preview_text<'a>(text: &'a str) -> (r: &'a str)
    ensures
        r@ == (if trimmed(text@).len() == 0 {
            SAMPLE@
        } else {
            text@
        }),
{
    if trim(text).unicode_len() == 0 {
        SAMPLE
    } else {
        text
    }
}

} // verus!
