//! What this machine answers when no project has: one small settings file
//! in the directory where the machine keeps what belongs to the operator
//! rather than to any one project. It holds the fallback voice.
//!
//! "There is no file" and "the file is broken" are different answers: the
//! first is the defaults, silently; the second is the defaults too, because a
//! render must not fail over a preference, but with a problem to show.

use vstd::prelude::*;
use crate::import::settings::DEFAULT_VOICE;
use crate::text::{owned, trim, trimmed, same_text};

verus! {

/// The file, inside the machine's config directory.
pub const SETTINGS_FILE: &'static str = "settings.yaml";

/// What a file that could not be read is renamed to, rather than replaced.
pub const BROKEN_SUFFIX: &'static str = ".broken";

/// The machine's own answers. Every field is optional, because every field
/// has a working default and a first run has none of them.
#[derive(Debug, Clone, PartialEq, Eq)]
pub struct Machine {
    /// The voice a project that names none falls back to. A fallback, never
    /// a write: a project that names its own voice still wins.
    pub default_voice: Option<String>,
}

impl Default for Machine {
    fn default() -> (r: Machine)
        ensures
            r.default_voice is None,
    {
        Machine { default_voice: None }
    }
}

/// What reading the machine's settings found.
#[derive(Debug, Clone, PartialEq, Eq)]
pub enum MachineRead {
    /// There is no file: the ordinary first run.
    NotFound,
    /// The file is there and could not be read, for this reason.
    Unreadable(String),
    /// The file read and parsed into these answers.
    Parsed(Machine),
    /// The file read and would not parse, for this reason.
    Damaged(String),
}

/// A settings file that exists and could not be used: what it cost the
/// operator, and the technical half.
#[derive(Debug, Clone, PartialEq, Eq)]
pub struct MachineProblem {
    /// What it means for them.
    pub need: String,
    /// Where, and the system's or the parser's words.
    pub detail: String,
}

/// The answers, and a problem where a file that exists could not be used.
#[derive(Debug, Clone, PartialEq, Eq)]
pub struct Loaded {
    /// The answers, or the defaults when there are none to be had.
    pub settings: Machine,
    /// A file that exists and could not be used; never for a missing file.
    pub problem: Option<MachineProblem>,
}

/// What an unreadable settings file costs the operator.
pub const UNREADABLE_NEED: &'static str = "This machine's settings could not be read, so it is answering with its defaults — including which voice a project that names none is read in.";

/// What a damaged settings file costs the operator, and what happens to it.
pub const DAMAGED_NEED: &'static str = "This machine's settings file is damaged, so it is answering with its defaults — including which voice a project that names none is read in. Setting one again moves the damaged file aside to settings.yaml.broken rather than replacing it.";

fn copy_machine(m: &Machine) -> (r: Machine)
    ensures
        match m.default_voice {
            Some(v) => r.default_voice matches Some(w) && w@ == v@,
            None => r.default_voice is None,
        },
{
    Machine {
        default_voice: match &m.default_voice {
            Some(v) => Some(owned(v.as_str())),
            None => None,
        },
    }
}

fn problem_at(need: &str, path: &str, why: &str) -> (r: MachineProblem)
    ensures
        r.need@ == need@,
        r.detail@ == path@ + ": "@ + why@,
{
    let mut detail = owned(path);
    detail.append(": ");
    detail.append(why);
    MachineProblem { need: owned(need), detail }
}

/// Turn what reading the file at `path` found into answers: a missing file
/// is the defaults, silently; a parsed one is its answers; an unreadable or
/// damaged one is the defaults, with a problem that says so.
pub fn loaded(path: &str, read: &MachineRead) -> (r: Loaded)
    ensures
        match *read {
            MachineRead::NotFound => r.settings.default_voice is None && r.problem is None,
            MachineRead::Parsed(m) => r.problem is None && match m.default_voice {
                Some(v) => r.settings.default_voice matches Some(w) && w@ == v@,
                None => r.settings.default_voice is None,
            },
            MachineRead::Unreadable(why) => r.settings.default_voice is None && (r.problem matches Some(
                p,
            ) && p.need@ == UNREADABLE_NEED@ && p.detail@ == path@ + ": "@ + why@),
            MachineRead::Damaged(why) => r.settings.default_voice is None && (r.problem matches Some(p)
                && p.need@ == DAMAGED_NEED@ && p.detail@ == path@ + ": "@ + why@),
        },
{
    match read {
        MachineRead::NotFound => Loaded { settings: Machine { default_voice: None }, problem: None },
        MachineRead::Parsed(m) => Loaded { settings: copy_machine(m), problem: None },
        MachineRead::Unreadable(why) => Loaded {
            settings: Machine { default_voice: None },
            problem: Some(problem_at(UNREADABLE_NEED, path, why.as_str())),
        },
        MachineRead::Damaged(why) => Loaded {
            settings: Machine { default_voice: None },
            problem: Some(problem_at(DAMAGED_NEED, path, why.as_str())),
        },
    }
}

/// Read them, or the defaults: the answers alone, for a caller with no
/// surface to report a problem on.
pub fn load(read: &MachineRead) -> (r: Machine)
    ensures
        match *read {
            MachineRead::Parsed(m) => match m.default_voice {
                Some(v) => r.default_voice matches Some(w) && w@ == v@,
                None => r.default_voice is None,
            },
            _ => r.default_voice is None,
        },
{
    loaded("", read).settings
}

/// The fallback voice a request to set `voice` stores: trimmed, and none at
/// all for an empty one or for `default`, which names nobody's voice.
pub open spec fn stored_voice(voice: Option<Seq<char>>) -> Option<Seq<char>> {
    match voice {
        Some(v) => if trimmed(v).len() > 0 && trimmed(v) != DEFAULT_VOICE@ {
            Some(trimmed(v))
        } else {
            None
        },
        None => None,
    }
}

/// The machine's answers with the fallback voice set to `voice`, or cleared
/// by passing nothing. Everything else is kept.
pub fn set_default_voice(settings: Machine, voice: Option<&str>) -> (r: Machine)
    ensures
        match stored_voice(
            match voice {
                Some(v) => Some(v@),
                None => None,
            },
        ) {
            Some(v) => r.default_voice matches Some(w) && w@ == v,
            None => r.default_voice is None,
        },
{
    let mut settings = settings;
    settings.default_voice = match voice {
        Some(v) => {
            let t = trim(v);
            if t.unicode_len() > 0 && !same_text(t, DEFAULT_VOICE) {
                Some(owned(t))
            } else {
                None
            }
        },
        None => None,
    };
    settings
}

} // verus!
