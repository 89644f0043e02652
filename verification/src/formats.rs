//! The output-size chooser, as both control surfaces see it: the aspects
//! and named sizes, as something a list can draw.

use vstd::prelude::*;
use crate::text::{debug_quoted, debug_text, decimal, decimal_string, parse_u32, parsed_unsigned, trim, trimmed};

verus! {

/// One aspect, as something to put in a list.
#[derive(Debug, Clone, PartialEq, Eq)]
pub struct AspectChoice {
    /// The name in `project.yaml` and on the command line — `16:9`.
    pub id: &'static str,
    /// One line saying what it is for, in destinations rather than ratios.
    pub description: &'static str,
    /// Whether this is the one a project gets without asking.
    pub default: bool,
}

/// One named size, already resolved against an aspect.
#[derive(Debug, Clone, PartialEq, Eq)]
pub struct SizeChoice {
    /// The name on the command line — `1080p`, `2160p`.
    pub id: &'static str,
    /// The other spellings it answers to, `4k` among them.
    pub aliases: Vec<&'static str>,
    /// One line saying what it is for.
    pub description: &'static str,
    /// The short edge in pixels — the number `project.yaml` would carry.
    pub short_edge: u32,
    /// Output width in the aspect this list was asked for.
    pub width: u32,
    /// Output height in the same.
    pub height: u32,
    /// Whether this is the one a project gets without asking.
    pub default: bool,
}

impl SizeChoice {
    /// `1920x1080`, for a line of text or an option's label.
    pub fn dimensions(&self) -> (r: String)
        ensures
            r@ == decimal(self.width as nat) + "x"@ + decimal(self.height as nat),
    {
        let mut s = decimal_string(self.width as u64);
        s.append("x");
        s.append(decimal_string(self.height as u64).as_str());
        s
    }
}

/// What a size typed on the command line asks for: the short edge of the
/// named size it is, where the size parser knows the trimmed text as one
/// (`parsed`); else a bare number of pixels, judged later against the
/// aspect; else a refusal that quotes it and lists the names (`names`).
pub open spec fn size_of(text: Seq<char>, parsed: Option<u32>, names: Seq<char>) -> Result<u32, Seq<char>> {
    match parsed {
        Some(edge) => Ok(edge),
        None => match parsed_unsigned(trimmed(text), u32::MAX as nat) {
            Some(n) => Ok(n as u32),
            None => Err(
                debug_text(trimmed(text)) + " is not one of "@ + names
                    + " (2k and 4k are accepted too), nor a short edge in pixels"@,
            ),
        },
    }
}

/// A size as a name or a number of pixels. `parsed` is what the size
/// parser reads in the trimmed text, and `names` the names it knows.
pub fn parse_size(text: &str, parsed: Option<u32>, names: &str) -> (r: Result<u32, String>)
    ensures
        match r {
            Ok(edge) => size_of(text@, parsed, names@) == Ok::<u32, Seq<char>>(edge),
            Err(e) => size_of(text@, parsed, names@) == Err::<u32, Seq<char>>(e@),
        },
{
    let t = trim(text);
    if let Some(edge) = parsed {
        return Ok(edge);
    }
    match parse_u32(t) {
        Some(pixels) => Ok(pixels),
        None => {
            let mut s = debug_quoted(t);
            s.append(" is not one of ");
            s.append(names);
            s.append(" (2k and 4k are accepted too), nor a short edge in pixels");
            Err(s)
        },
    }
}

} // verus!

