//! The desktop window's own decisions: the list of recent projects on its
//! home screen, how a path is shown there, and where a film named in its
//! save box goes.

use vstd::prelude::*;
use crate::text::{
    debug_quoted, debug_text, extension, extension_of, has_char, has_part, has_prefix, join_path,
    joined_path, owned, same_text, starts_with, contains, trim, trimmed,
};

verus! {

/// The most projects the home screen remembers.
pub const RECENT_LIMIT: usize = 30;

/// The file the recent list is kept in, in the window's config directory.
pub const RECENT_FILE: &'static str = "recent-projects.json";

/// One project the operator has opened.
#[derive(Debug, Clone, PartialEq, Eq)]
pub struct RecentProject {
    /// Where it is.
    pub path: String,
    /// What it is called: its folder's name.
    pub name: String,
    /// When it was last opened, in seconds since the Unix epoch.
    pub at: u64,
}

/// A recent entry, by its parts.
pub open spec fn recent_view(e: RecentProject) -> (Seq<char>, Seq<char>, u64) {
    (e.path@, e.name@, e.at)
}

/// The entries of `list` whose path is not `path`, in order.
pub open spec fn others(list: Seq<RecentProject>, path: Seq<char>) -> Seq<(Seq<char>, Seq<char>, u64)>
    decreases list.len(),
{
    if list.len() == 0 {
        Seq::empty()
    } else {
        let rest = others(list.drop_last(), path);
        if list.last().path@ != path {
            rest.push(recent_view(list.last()))
        } else {
            rest
        }
    }
}

/// The list after opening the project at `path`: it comes first, no older
/// entry for the same folder stays, and the list keeps at most
/// [`RECENT_LIMIT`] entries, newest first.
pub open spec fn remembered_list(
    list: Seq<RecentProject>,
    path: Seq<char>,
    name: Seq<char>,
    at: u64,
) -> Seq<(Seq<char>, Seq<char>, u64)> {
    let all = seq![(path, name, at)] + others(list, path);
    if all.len() > 30 {
        all.take(30)
    } else {
        all
    }
}

/// Record that the project at `path`, called `name`, was opened at `at`.
pub fn remember(list: &Vec<RecentProject>, path: &str, name: &str, at: u64) -> (r: Vec<RecentProject>)
    ensures
        r@.map_values(|e: RecentProject| recent_view(e)) == remembered_list(list@, path@, name@, at),
{
    let ghost target = remembered_list(list@, path@, name@, at);
    let mut kept: Vec<RecentProject> = Vec::new();
    kept.push(RecentProject { path: owned(path), name: owned(name), at });
    let ghost first = seq![(path@, name@, at)];
    assert(kept@.map_values(|e: RecentProject| recent_view(e)) =~= first);
    let mut i: usize = 0;
    assert(list@.take(0) =~= Seq::<RecentProject>::empty());
    while i < list.len()
        invariant
            0 <= i <= list@.len(),
            kept@.map_values(|e: RecentProject| recent_view(e)) == first + others(list@.take(i as int), path@),
        decreases list@.len() - i,
    {
        assert(list@.take(i + 1).drop_last() =~= list@.take(i as int));
        assert(list@.take(i + 1).last() == list@[i as int]);
        let e = &list[i];
        if !same_text(e.path.as_str(), path) {
            let ghost before = kept@.map_values(|e: RecentProject| recent_view(e));
            kept.push(RecentProject { path: owned(e.path.as_str()), name: owned(e.name.as_str()), at: e.at });
            assert(kept@.map_values(|e: RecentProject| recent_view(e)) =~= before.push(recent_view(list@[i as int])));
            assert(first + others(list@.take(i + 1), path@) =~= (first + others(list@.take(i as int), path@)).push(
                recent_view(list@[i as int]),
            ));
        }
        i = i + 1;
    }
    assert(list@.take(list@.len() as int) =~= list@);
    if kept.len() > RECENT_LIMIT {
        kept.truncate(RECENT_LIMIT);
        assert(kept@.map_values(|e: RecentProject| recent_view(e)) =~= target);
    }
    kept
}

proof fn lemma_others_exclude(list: Seq<RecentProject>, path: Seq<char>)
    ensures
        forall|i: int| 0 <= i < others(list, path).len() ==> (#[trigger] others(list, path)[i]).0 != path,
        others(list, path).len() <= list.len(),
    decreases list.len(),
{
    if list.len() > 0 {
        lemma_others_exclude(list.drop_last(), path);
    }
}

/// The home screen after opening a project lists it first, lists each
/// folder once at most on its account, and never grows past its limit.
pub proof fn lemma_the_opened_project_comes_first(
    list: Seq<RecentProject>,
    path: Seq<char>,
    name: Seq<char>,
    at: u64,
)
    ensures
        ({
            let r = remembered_list(list, path, name, at);
            &&& 1 <= r.len() <= 30
            &&& r[0] == (path, name, at)
            &&& forall|i: int| 1 <= i < r.len() ==> (#[trigger] r[i]).0 != path
        }),
{
    lemma_others_exclude(list, path);
    let all = seq![(path, name, at)] + others(list, path);
    assert forall|i: int| 1 <= i < all.len() implies (#[trigger] all[i]).0 != path by {
        assert(all[i] == others(list, path)[i - 1]);
    }
}

/// A path as the home screen shows it: under the home folder, written from
/// `~`.
pub open spec fn pretty_of(path: Seq<char>, home: Option<Seq<char>>) -> Seq<char> {
    match home {
        Some(h) => if h.len() > 0 && has_prefix(path, h) {
            "~"@ + path.skip(h.len() as int)
        } else {
            path
        },
        None => path,
    }
}

/// `path`, shortened against the operator's home folder where it lies
/// inside it.
pub fn pretty_path(path: &str, home: Option<&str>) -> (r: String)
    ensures
        r@ == pretty_of(
            path@,
            match home {
                Some(h) => Some(h@),
                None => None,
            },
        ),
{
    match home {
        Some(h) => {
            let hl = h.unicode_len();
            if hl > 0 && starts_with(path, h) {
                let mut s = owned("~");
                s.append(path.substring_char(hl, path.unicode_len()));
                s
            } else {
                owned(path)
            }
        },
        None => owned(path),
    }
}

/// Where a film named `name` in folder `dir` goes, or the sentence that
/// refuses it: a name is trimmed, and may hold no folder, start with no dot
/// and climb nowhere; a folder is taken exactly as given and must be one; a
/// name with no extension gets `.mp4`.
pub open spec fn output_of(dir: Seq<char>, name: Seq<char>, dir_is_folder: bool) -> Result<Seq<char>, Seq<char>> {
    let t = trimmed(name);
    if t.len() == 0 {
        Err("the film needs a file name"@)
    } else if t.contains('/') || t.contains('\\') {
        Err("a file name cannot contain a folder separator — choose the folder above"@)
    } else if has_prefix(t, "."@) || has_part(t, ".."@) {
        Err(debug_text(t) + " is not a file name"@)
    } else if dir.len() == 0 {
        Err("choose a folder to save the film into"@)
    } else if !dir_is_folder {
        Err(debug_text(dir) + " is not a folder"@)
    } else {
        Ok(
            joined_path(
                dir,
                if extension_of(t) is None {
                    t + ".mp4"@
                } else {
                    t
                },
            ),
        )
    }
}

/// Where the film goes, given whether `dir` is a folder on this machine.
pub fn resolve_output(dir: &str, name: &str, dir_is_folder: bool) -> (r: Result<String, String>)
    ensures
        match r {
            Ok(p) => output_of(dir@, name@, dir_is_folder) == Ok::<Seq<char>, Seq<char>>(p@),
            Err(e) => output_of(dir@, name@, dir_is_folder) == Err::<Seq<char>, Seq<char>>(e@),
        },
{
    let t = trim(name);
    if t.unicode_len() == 0 {
        return Err(owned("the film needs a file name"));
    }
    if has_char(t, '/') || has_char(t, '\\') {
        return Err(owned("a file name cannot contain a folder separator — choose the folder above"));
    }
    if starts_with(t, ".") || contains(t, "..") {
        let mut s = debug_quoted(t);
        s.append(" is not a file name");
        return Err(s);
    }
    if dir.unicode_len() == 0 {
        return Err(owned("choose a folder to save the film into"));
    }
    if !dir_is_folder {
        let mut s = debug_quoted(dir);
        s.append(" is not a folder");
        return Err(s);
    }
    let named = match extension(t) {
        None => {
            let mut n = owned(t);
            n.append(".mp4");
            n
        },
        Some(_) => owned(t),
    };
    Ok(join_path(dir, named.as_str()))
}

} // verus!

verus! {

/// What `Path::strip_prefix` leaves of `path` once `root` is taken off its
/// front, compared component by component; nothing when `root` is not a
/// prefix of `path` in that sense.
pub uninterp spec fn stripped_prefix(path: Seq<char>, root: Seq<char>) -> Option<Seq<char>>;

/// Calls `std::path::Path::strip_prefix`. The result is named
/// [`stripped_prefix`]: it follows the path's component rules, which fold
/// repeated separators and `.` components, and is not restated here.
#[verifier::external_body]
fn path_strip_prefix(path: &str, root: &str) -> (r: Option<String>)
    ensures
        match r {
            Some(rest) => stripped_prefix(path@, root@) == Some(rest@),
            None => stripped_prefix(path@, root@) is None,
        },
{
    std::path::Path::new(path).strip_prefix(root).ok().map(|p| p.to_string_lossy().into_owned())
}

/// How the grid shows a file: relative to the project root when it is
/// inside it, and as it is otherwise.
pub open spec fn relative_of(path: Seq<char>, root: Seq<char>) -> Seq<char> {
    match stripped_prefix(path, root) {
        Some(rest) => rest,
        None => path,
    }
}

/// A path relative to the project root when it is inside it: the grid is
/// unreadable at hundreds of rows of absolute paths.
pub fn relative(path: &str, root: &str) -> (r: String)
    ensures
        r@ == relative_of(path@, root@),
{
    match path_strip_prefix(path, root) {
        Some(rest) => rest,
        None => owned(path),
    }
}

/// What a second render is told while one is running in the window.
pub const ALREADY_RENDERING: &'static str = "a render is already running in this window";

/// The window's one render slot: the running render's cancel handle, if a
/// render is running. A second render is refused while the slot is taken,
/// and finishing — however it finishes — empties it.
#[derive(Debug)]
pub struct RenderSlot<C> {
    /// The running render's handle.
    pub running: Option<C>,
}

impl<C> RenderSlot<C> {
    /// An empty slot: nothing is rendering.
    pub fn new() -> (r: RenderSlot<C>)
        ensures
            r.running is None,
    {
        RenderSlot { running: None }
    }

    /// Claim the slot for a render with handle `cancel`: refused, and the
    /// running render untouched, while another holds it.
    pub fn claim(&mut self, cancel: C) -> (r: Result<(), String>)
        ensures
            old(self).running is Some ==> (r matches Err(e) && e@ == ALREADY_RENDERING@)
                && final(self).running == old(self).running,
            old(self).running is None ==> r is Ok && final(self).running == Some(cancel),
    {
        if self.running.is_some() {
            return Err(owned(ALREADY_RENDERING));
        }
        self.running = Some(cancel);
        Ok(())
    }

    /// Empty the slot: the render is over.
    pub fn release(&mut self)
        ensures
            final(self).running is None,
    {
        self.running = None;
    }

    /// The running render's handle, for a request to stop it.
    pub fn current(&self) -> (r: Option<&C>)
        ensures
            match self.running {
                Some(c) => r == Some(&c),
                None => r is None,
            },
    {
        match &self.running {
            Some(c) => Some(c),
            None => None,
        }
    }
}

} // verus!
