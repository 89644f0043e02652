//! `project.yaml`, the operator's own file, which this crate only ever reads.
//!
//! Everything in it is optional, including the file itself: a folder holding
//! nothing but `001.png` is a valid project, and the defaults are what it
//! gets. A file that will not parse aborts; a value that will not do becomes
//! a problem and the rest carries on.

use vstd::prelude::*;
use crate::text::{decimal, decimal_string, joined, join_path, joined_path, owned, trim, trimmed};

verus! {

/// The voice service a project gets when it names none.
pub const DEFAULT_PROVIDER: &'static str = "edge";

/// The word `project.yaml` uses for "whatever that provider calls its
/// default". It names nobody's voice.
pub const DEFAULT_VOICE: &'static str = "default";

/// The file's name inside a project.
pub const SETTINGS_FILE: &'static str = "project.yaml";

/// Default name of the rendered film, inside the project folder.
pub const DEFAULT_OUTPUT: &'static str = "out.mp4";

/// The largest `project.yaml` this will read.
pub const MAX_SETTINGS_BYTES: u64 = 1048576;

/// The file could not be read or parsed at all.
#[derive(Debug, Clone, PartialEq, Eq)]
pub enum SettingsError {
    /// The file exists but could not be read.
    Unreadable {
        /// Which file.
        path: String,
        /// The system's reason.
        detail: String,
    },
    /// The file is not one this will parse.
    Malformed {
        /// Which file.
        path: String,
        /// What was wrong.
        detail: String,
    },
}

/// What reading the file found.
#[derive(Debug, Clone, PartialEq, Eq)]
pub enum SettingsRead {
    /// There is no file: every setting is its default.
    Missing,
    /// There is a file and it could not be read, for this reason.
    Unreadable(String),
    /// The file's text.
    Text(String),
}

/// The sentence for a file too large to be settings.
pub open spec fn oversized_detail(len: nat) -> Seq<char> {
    "is "@ + decimal(len / 1048576) + " MB \u{2014} a project's settings are a dozen lines, so this is \
     some other file under that name"@
}

/// Decide what to parse for a project's settings: the text, or nothing when
/// there is no file; a file past the size ceiling, or one that cannot be
/// read, is an error. `size` is the file's length when it could be asked for.
pub fn load(root: &str, size: Option<u64>, read: SettingsRead) -> (r: Result<Option<String>, SettingsError>)
    ensures
        ({
            let path = joined_path(root@, SETTINGS_FILE@);
            match size {
                Some(len) if len > MAX_SETTINGS_BYTES => r matches Err(SettingsError::Malformed { path: p, detail: d })
                    && p@ == path && d@ == oversized_detail(len as nat),
                _ => match read {
                    SettingsRead::Missing => r matches Ok(None),
                    SettingsRead::Unreadable(e) => r matches Err(SettingsError::Unreadable { path: p, detail: d })
                        && p@ == path && d@ == e@,
                    SettingsRead::Text(t) => r matches Ok(Some(text)) && text@ == t@,
                },
            }
        }),
{
    let path = join_path(root, SETTINGS_FILE);
    if let Some(len) = size {
        if len > MAX_SETTINGS_BYTES {
            let head = joined("is ", decimal_string(len / 1048576).as_str());
            let detail = joined(
                head.as_str(),
                " MB \u{2014} a project's settings are a dozen lines, so this is \
     some other file under that name",
            );
            return Err(SettingsError::Malformed { path, detail });
        }
    }
    match read {
        SettingsRead::Missing => Ok(None),
        SettingsRead::Unreadable(detail) => Err(SettingsError::Unreadable { path, detail }),
        SettingsRead::Text(text) => Ok(Some(text)),
    }
}

} // verus!

verus! {

/// What a settings failure says.
pub open spec fn settings_message(e: SettingsError) -> Seq<char> {
    match e {
        SettingsError::Unreadable { path, detail } => "could not read "@ + path@ + ": "@ + detail@,
        SettingsError::Malformed { path, detail } => path@ + ": "@ + detail@,
    }
}

impl SettingsError {
    /// The failure in words.
    pub fn message(&self) -> (r: String)
        ensures
            r@ == settings_message(*self),
    {
        match self {
            SettingsError::Unreadable { path, detail } => {
                let mut s = owned("could not read ");
                s.append(path.as_str());
                s.append(": ");
                s.append(detail.as_str());
                s
            },
            SettingsError::Malformed { path, detail } => {
                let mut s = owned(path.as_str());
                s.append(": ");
                s.append(detail.as_str());
                s
            },
        }
    }
}

} // verus!

verus! {

/// The settings `project.yaml` spells as plain text, numbers and switches,
/// as written: a key left out is `None`.
#[derive(Debug, Clone, PartialEq, Eq)]
pub struct RawPlainSettings {
    /// `output`.
    pub output: Option<String>,
    /// `manifest`.
    pub manifest: Option<String>,
    /// `tts.provider`.
    pub provider: Option<String>,
    /// `tts.voice`.
    pub voice: Option<String>,
    /// `encode.preset`.
    pub preset: Option<String>,
    /// `encode.crf`.
    pub crf: Option<u32>,
    /// `subtitles.enabled`.
    pub subtitles: Option<bool>,
}

/// Those settings, accepted: every one has a working default.
#[derive(Debug, Clone, PartialEq, Eq)]
pub struct PlainSettings {
    /// Where the film goes, relative to the project root.
    pub output: String,
    /// The manifest named, if one was.
    pub manifest: Option<String>,
    /// The voice service for scenes that name none.
    pub provider: String,
    /// The voice for scenes that name none.
    pub voice: String,
    /// The encoder preset.
    pub preset: String,
    /// The encoder's quality number.
    pub crf: u32,
    /// Whether subtitles are burned in.
    pub subtitles: bool,
}

/// The encoder preset a project gets when it names none.
pub const DEFAULT_PRESET: &'static str = "medium";

/// The encoder quality a project gets when it names none.
pub const DEFAULT_CRF: u32 = 18;

/// The highest quality number the encoder accepts.
pub const MAX_CRF: u32 = 51;

/// What a quality number out of range is refused with.
pub const CRF_EXPECTED: &'static str = "between 0 and 51 (D-036 uses 18)";

/// A written value with content, trimmed, or the default.
pub open spec fn or_default(value: Option<String>, default: Seq<char>) -> Seq<char> {
    match crate::import::rows::non_empty_value(crate::import::rows::opt_string_view(value)) {
        Some(v) => v,
        None => default,
    }
}

fn text_or(value: Option<String>, default: &str) -> (r: String)
    ensures
        r@ == or_default(value, default@),
{
    match crate::import::rows::non_empty(value) {
        Some(v) => v,
        None => owned(default),
    }
}

/// Accept the plain settings: a blank or absent value is its default; a
/// quality number above the encoder's range is a problem for the project
/// and leaves the default in place; subtitles stay off unless asked for.
pub fn resolve_plain(raw: RawPlainSettings) -> (r: (PlainSettings, Vec<crate::import::Problem>))
    ensures
        r.0.output@ == or_default(raw.output, DEFAULT_OUTPUT@),
        crate::import::rows::opt_string_view(r.0.manifest) == crate::import::rows::non_empty_value(
            crate::import::rows::opt_string_view(raw.manifest),
        ),
        r.0.provider@ == or_default(raw.provider, DEFAULT_PROVIDER@),
        r.0.voice@ == or_default(raw.voice, DEFAULT_VOICE@),
        r.0.preset@ == or_default(raw.preset, DEFAULT_PRESET@),
        r.0.crf == match raw.crf {
            Some(c) => if c > MAX_CRF {
                DEFAULT_CRF
            } else {
                c
            },
            None => DEFAULT_CRF,
        },
        r.0.subtitles == match raw.subtitles {
            Some(b) => b,
            None => false,
        },
        r.1@.map_values(|p: crate::import::Problem| p@) == match raw.crf {
            Some(c) => if c > MAX_CRF {
                seq![
                    crate::import::ProblemView {
                        scene: None,
                        kind: crate::import::KindView::UnusableSetting(
                            "encode.crf"@,
                            decimal(c as nat),
                            CRF_EXPECTED@,
                        ),
                    },
                ]
            } else {
                Seq::empty()
            },
            None => Seq::empty(),
        },
{
    let mut problems: Vec<crate::import::Problem> = Vec::new();
    let crf = match raw.crf {
        Some(c) => if c > MAX_CRF {
            problems.push(
                crate::import::Problem {
                    scene: None,
                    kind: crate::import::ProblemKind::UnusableSetting {
                        field: owned("encode.crf"),
                        value: decimal_string(c as u64),
                        expected: owned(CRF_EXPECTED),
                    },
                },
            );
            DEFAULT_CRF
        } else {
            c
        },
        None => DEFAULT_CRF,
    };
    let settings = PlainSettings {
        output: text_or(raw.output, DEFAULT_OUTPUT),
        manifest: crate::import::rows::non_empty(raw.manifest),
        provider: text_or(raw.provider, DEFAULT_PROVIDER),
        voice: text_or(raw.voice, DEFAULT_VOICE),
        preset: text_or(raw.preset, DEFAULT_PRESET),
        crf,
        subtitles: match raw.subtitles {
            Some(b) => b,
            None => false,
        },
    };
    proof {
        assert(problems@.map_values(|p: crate::import::Problem| p@) =~= match raw.crf {
            Some(c) => if c > MAX_CRF {
                seq![
                    crate::import::ProblemView {
                        scene: None,
                        kind: crate::import::KindView::UnusableSetting(
                            "encode.crf"@,
                            decimal(c as nat),
                            CRF_EXPECTED@,
                        ),
                    },
                ]
            } else {
                Seq::empty()
            },
            None => Seq::empty(),
        });
    }
    (settings, problems)
}

} // verus!

verus! {

/// What a `resolution` named alongside `short_edge` is refused with: both
/// say the same thing, and whichever lost would be an intention discarded.
pub const RESOLUTION_TWICE: &'static str = "named on its own — `short_edge` says the same thing, so set one or the other";

/// The short edge the `resolution` setting asks for, and the problem with
/// it. `parsed` is the short edge the size parser reads in the trimmed
/// value (`None` for a name it does not know), and `names` the names it
/// knows. A blank or absent value asks for nothing; a known name asks for
/// its short edge unless `short_edge` is set too, which is a problem; an
/// unknown name is a problem that lists the known ones.
pub fn named_resolution(text: Option<String>, parsed: Option<u32>, short_edge_given: bool, names: &str) -> (r: (
    Option<u32>,
    Vec<crate::import::Problem>,
))
    ensures
        ({
            let problems = r.1@.map_values(|p: crate::import::Problem| p@);
            match crate::import::rows::non_empty_value(crate::import::rows::opt_string_view(text)) {
                None => r.0 is None && problems.len() == 0,
                Some(t) => match parsed {
                    Some(edge) => if short_edge_given {
                        r.0 is None && problems == seq![
                            crate::import::ProblemView {
                                scene: None,
                                kind: crate::import::KindView::UnusableSetting(
                                    "resolution"@,
                                    t,
                                    RESOLUTION_TWICE@,
                                ),
                            },
                        ]
                    } else {
                        r.0 == Some(edge) && problems.len() == 0
                    },
                    None => r.0 is None && problems == seq![
                        crate::import::ProblemView {
                            scene: None,
                            kind: crate::import::KindView::UnusableSetting(
                                "resolution"@,
                                t,
                                "one of "@ + names@,
                            ),
                        },
                    ],
                },
            }
        }),
{
    let mut problems: Vec<crate::import::Problem> = Vec::new();
    let named = match crate::import::rows::non_empty(text) {
        None => None,
        Some(t) => match parsed {
            Some(edge) => if short_edge_given {
                problems.push(
                    crate::import::Problem {
                        scene: None,
                        kind: crate::import::ProblemKind::UnusableSetting {
                            field: owned("resolution"),
                            value: t,
                            expected: owned(RESOLUTION_TWICE),
                        },
                    },
                );
                None
            } else {
                Some(edge)
            },
            None => {
                problems.push(
                    crate::import::Problem {
                        scene: None,
                        kind: crate::import::ProblemKind::UnusableSetting {
                            field: owned("resolution"),
                            value: t,
                            expected: joined("one of ", names),
                        },
                    },
                );
                None
            },
        },
    };
    proof {
        assert(problems@.len() <= 1);
        if problems@.len() == 1 {
            assert(problems@.map_values(|p: crate::import::Problem| p@) =~= seq![problems@[0]@]);
        } else {
            assert(problems@.map_values(|p: crate::import::Problem| p@) =~= Seq::<crate::import::ProblemView>::empty());
        }
    }
    (named, problems)
}

} // verus!

verus! {

/// What a parse of `project.yaml`'s text comes to: the settings it read;
/// or, where it would not parse, the defaults when the text is blank — an
/// empty document, or one holding only white space, reads as nothing at
/// all rather than as a mapping — and otherwise the parser's refusal.
/// `None` stands for every setting at its default.
pub fn parsed_or_defaults<T>(text: &str, parsed: Result<T, String>) -> (r: Result<Option<T>, String>)
    ensures
        match parsed {
            Ok(v) => r == Ok::<Option<T>, String>(Some(v)),
            Err(e) => if trimmed(text@).len() == 0 {
                r matches Ok(None)
            } else {
                r == Err::<Option<T>, String>(e)
            },
        },
{
    match parsed {
        Ok(v) => Ok(Some(v)),
        Err(e) => if trim(text).unicode_len() == 0 {
            Ok(None)
        } else {
            Err(e)
        },
    }
}

} // verus!

verus! {

/// The geometry a project asks for, before the output rules judge it.
#[derive(Debug, Clone, PartialEq, Eq)]
pub struct GeometryRequest {
    /// The short edge: `short_edge` as written, else the named
    /// resolution's, else the default.
    pub short_edge: u32,
    /// The frame rate: `fps` as written, else the default.
    pub fps: u32,
    /// The setting a refusal of this geometry is filed against: `fps` when
    /// only the rate was changed, `resolution` when a size was named, and
    /// `short_edge` otherwise.
    pub field: &'static str,
}

/// The short edge, the frame rate, and the setting to blame for them.
pub fn geometry_request(
    short_edge: Option<u32>,
    named: Option<u32>,
    fps: Option<u32>,
    default_short_edge: u32,
    default_fps: u32,
) -> (r: GeometryRequest)
    ensures
        r.short_edge == match short_edge {
            Some(e) => e,
            None => match named {
                Some(e) => e,
                None => default_short_edge,
            },
        },
        r.fps == match fps {
            Some(f) => f,
            None => default_fps,
        },
        r.field@ == (if fps is Some && r.short_edge == default_short_edge {
            "fps"@
        } else if named is Some {
            "resolution"@
        } else {
            "short_edge"@
        }),
{
    let edge = match short_edge {
        Some(e) => e,
        None => match named {
            Some(e) => e,
            None => default_short_edge,
        },
    };
    let rate = match fps {
        Some(f) => f,
        None => default_fps,
    };
    let field = if fps.is_some() && edge == default_short_edge {
        "fps"
    } else if named.is_some() {
        "resolution"
    } else {
        "short_edge"
    };
    GeometryRequest { short_edge: edge, fps: rate, field }
}

/// The problem a refused geometry is: filed against the request's setting,
/// showing `<short edge> at <aspect>, <fps> fps`, and expecting what the
/// output rules gave as their reason.
pub fn geometry_problem(request: &GeometryRequest, aspect: &str, reason: &str) -> (r: crate::import::Problem)
    ensures
        r@ == (crate::import::ProblemView {
            scene: None,
            kind: crate::import::KindView::UnusableSetting(
                request.field@,
                decimal(request.short_edge as nat) + " at "@ + aspect@ + ", "@ + decimal(
                    request.fps as nat,
                ) + " fps"@,
                reason@,
            ),
        }),
{
    let mut value = decimal_string(request.short_edge as u64);
    value.append(" at ");
    value.append(aspect);
    value.append(", ");
    value.append(decimal_string(request.fps as u64).as_str());
    value.append(" fps");
    crate::import::Problem {
        scene: None,
        kind: crate::import::ProblemKind::UnusableSetting {
            field: owned(request.field),
            value,
            expected: owned(reason),
        },
    }
}

} // verus!
