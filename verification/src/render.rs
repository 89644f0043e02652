//! Single-scene rendering: where its machine state goes.

use vstd::prelude::*;
use crate::text::owned;

verus! {

/// What `Path::parent` gives for a path: everything before its last
/// component, or nothing for a root or an empty path.
pub uninterp spec fn parent_of(path: Seq<char>) -> Option<Seq<char>>;

/// Calls `std::path::Path::parent`. Its result is named [`parent_of`]
/// rather than spelled out: it follows the path's component rules, which
/// fold repeated separators and `.` components.
#[verifier::external_body]
pub(crate) fn path_parent(path: &str) -> (r: Option<String>)
    ensures
        match r {
            Some(p) => parent_of(path@) == Some(p@),
            None => parent_of(path@) is None,
        },
{
    std::path::Path::new(path).parent().map(|p| p.to_string_lossy().into_owned())
}

/// The state root for a segment whose parent folder is `parent`: that
/// folder, or the current one where it has none.
pub open spec fn state_root_of(parent: Option<Seq<char>>) -> Seq<char> {
    match parent {
        Some(p) => if p.len() > 0 {
            p
        } else {
            "."@
        },
        None => "."@,
    }
}

/// The state root for a segment whose parent folder is `parent`.
pub fn state_root_from(parent: Option<String>) -> (r: String)
    ensures
        r@ == state_root_of(
            match parent {
                Some(p) => Some(p@),
                None => None,
            },
        ),
{
    match parent {
        Some(p) => if p.as_str().unicode_len() > 0 {
            p
        } else {
            owned(".")
        },
        None => owned("."),
    }
}

/// Where the machine-owned state of a single-scene render goes: beside the
/// segment it writes, since there is no project folder, and never inside the
/// operator's manifest.
pub fn state_root_for(out: &str) -> (r: String)
    ensures
        r@ == state_root_of(parent_of(out@)),
{
    state_root_from(path_parent(out))
}

} // verus!
