//! Where a project's narrations are kept once they are normalized.
//!
//! The cache is content-addressed: an artifact is named by the key of what
//! it holds, never by a path, so a file that moves keeps its entry and two
//! scenes with the same line share one. A provider's raw speech is kept
//! beside the normalized artifact under a key of the words alone, so that
//! re-normalizing never means speaking the line again.

use vstd::prelude::*;
use crate::text::{hex_fixed, hex_fixed_string, join_path, joined_path, owned};

verus! {

/// The project's state directory, beside the operator's files and never
/// among them.
pub const STATE_DIR: &'static str = ".spoonstill";

/// Where normalized audio lives, under [`STATE_DIR`].
pub const AUDIO_CACHE_DIR: &'static str = "cache/audio";

/// Extension of a normalized artifact.
pub const NORMALIZED_EXT: &'static str = "wav";

/// Extension for a provider's raw output, before normalization. Not a
/// format's name: providers differ, and the decoder sniffs the content.
pub const SPOKEN_EXT: &'static str = "spoken";

/// Chunk size for hashing a source file.
pub const HASH_CHUNK: usize = 64 * 1024;

/// The sample line a voice audition speaks when the operator has not
/// written one of their own.
pub const PREVIEW_LINE: &'static str = "This is how this voice will read your narration.";

/// The project's normalized-audio cache.
#[derive(Debug, Clone, PartialEq, Eq)]
pub struct AudioCache {
    directory: String,
}

/// Where the cache of the project at `root` is.
pub open spec fn cache_directory(root: Seq<char>) -> Seq<char> {
    joined_path(joined_path(root, STATE_DIR@), AUDIO_CACHE_DIR@)
}

/// The name of the artifact of `kind` with `key`, carrying `ext`.
pub open spec fn artifact_name(kind: Seq<char>, key: nat, ext: Seq<char>) -> Seq<char> {
    kind + "-"@ + hex_fixed(key, 16) + "."@ + ext
}

impl AudioCache {
    /// What the cache's directory is.
    pub closed spec fn dir(&self) -> Seq<char> {
        self.directory@
    }

    /// The cache belonging to a project root: machine state, under the
    /// state directory.
    pub fn in_project(root: &str) -> (r: AudioCache)
        ensures
            r.dir() == cache_directory(root@),
    {
        let state = join_path(root, STATE_DIR);
        AudioCache { directory: join_path(state.as_str(), AUDIO_CACHE_DIR) }
    }

    /// Where the cache is, for the diagnostics bundle and for `ls`.
    pub fn directory(&self) -> (r: &str)
        ensures
            r@ == self.dir(),
    {
        self.directory.as_str()
    }

    /// The artifact path for one key: `<kind>-<key in sixteen hex
    /// digits>.wav`.
    pub fn path_for(&self, kind: &str, key: u64) -> (r: String)
        ensures
            r@ == joined_path(self.dir(), artifact_name(kind@, key as nat, NORMALIZED_EXT@)),
    {
        self.artifact(kind, key, NORMALIZED_EXT)
    }

    fn artifact(&self, kind: &str, key: u64, ext: &str) -> (r: String)
        ensures
            r@ == joined_path(self.dir(), artifact_name(kind@, key as nat, ext@)),
    {
        let mut name = owned(kind);
        name.append("-");
        name.append(hex_fixed_string(key, 16).as_str());
        name.append(".");
        name.append(ext);
        join_path(self.directory.as_str(), name.as_str())
    }

    /// Where a provider's raw output lives: keyed on the words, not on the
    /// normalization.
    pub fn spoken_path(&self, key: u64) -> (r: String)
        ensures
            r@ == joined_path(self.dir(), artifact_name("spoken"@, key as nat, SPOKEN_EXT@)),
    {
        self.artifact("spoken", key, SPOKEN_EXT)
    }
}

/// A provider's raw speech never takes the name of a normalized artifact,
/// whatever either's kind and key: one ends `.spoken`, the other `.wav`, so
/// re-normalizing can never overwrite the speech it starts from.
pub proof fn lemma_speech_never_takes_an_artifacts_name(key: nat, kind: Seq<char>, other: nat)
    ensures
        artifact_name("spoken"@, key, SPOKEN_EXT@) != artifact_name(kind, other, NORMALIZED_EXT@),
{
    reveal_strlit("spoken");
    reveal_strlit("wav");
    let a = artifact_name("spoken"@, key, SPOKEN_EXT@);
    let b = artifact_name(kind, other, NORMALIZED_EXT@);
    assert(a.last() == 'n');
    assert(b.last() == 'v');
}

} // verus!
