//! Rendering a project folder into one film: the decisions around the work.
//!
//! Every scene-level failure is collected and reported together, because an
//! operator with 500 scenes cannot fix one per run. Segments are named by
//! their content, so a re-run reuses what is still valid, and the sweep after
//! a successful join deletes only files this program made.

use vstd::prelude::*;
use crate::import::{ImportError, import_message};
use crate::ingest::plural_of;
use crate::order::{SortKey, is_permutation, stable_order};
use crate::pool::Outcome;
use crate::text::{
    all_digits, debug_quoted, debug_text, decimal, decimal_string, file_name, file_name_of,
    find_char, first_index_of, has_part, has_prefix, has_suffix, hex_fixed, hex_fixed_string,
    is_hex_digit, lemma_first_index_of, owned, contains, ends_with, padded_decimal,
    padded_decimal_string, same_text, starts_with, string_views,
};

verus! {

/// The segment cache, inside the project's state directory.
pub const SEGMENTS_DIR: &'static str = "segments";

/// The lock file, inside the project's state directory.
pub const LOCK_FILE: &'static str = "render.lock";

/// How many superseded generations of segments are kept beside the live
/// one: flipping between three answers stays free, and the folder stays
/// bounded at three times the film.
pub const SPARE_GENERATIONS: usize = 2;

/// A temporary abandoned by a render that did not finish: a hidden name
/// carrying `.partial-`.
pub open spec fn abandoned_partial(name: Seq<char>) -> bool {
    has_prefix(name, "."@) && has_part(name, ".partial-"@)
}

/// Whether `name` is a temporary left by a render that did not finish.
pub fn is_abandoned_partial(name: &str) -> (r: bool)
    ensures
        r == abandoned_partial(name@),
{
    starts_with(name, ".") && contains(name, ".partial-")
}

/// Whether every character of `s` is a hexadecimal digit.
pub open spec fn all_hex(s: Seq<char>) -> bool {
    forall|i: int| 0 <= i < s.len() ==> is_hex_digit(#[trigger] s[i])
}

/// The name a render gives a segment, and no other: `seg-`, four digits,
/// `-`, sixteen hexadecimal digits, `.mp4`.
pub open spec fn our_segment(name: Seq<char>) -> bool {
    let prefix = "seg-"@;
    let suffix = ".mp4"@;
    has_prefix(name, prefix) && {
        let rest = name.skip(prefix.len() as int);
        has_suffix(rest, suffix) && {
            let core = rest.take(rest.len() - suffix.len());
            match first_index_of(core, '-') {
                Some(k) => {
                    let index = core.take(k);
                    let key = core.skip(k + 1);
                    index.len() == 4 && all_digits(index) && key.len() == 16 && all_hex(key)
                },
                None => false,
            }
        }
    }
}

fn all_of(s: &str, hex: bool) -> (r: bool)
    ensures
        r == (if hex {
            all_hex(s@)
        } else {
            all_digits(s@)
        }),
{
    let n = s.unicode_len();
    let mut i: usize = 0;
    while i < n
        invariant
            n == s@.len(),
            0 <= i <= n,
            forall|j: int|
                0 <= j < i ==> if hex {
                    crate::text::is_hex_digit(#[trigger] s@[j])
                } else {
                    crate::text::is_digit(s@[j])
                },
        decreases n - i,
    {
        let c = s.get_char(i);
        let ok = if hex {
            ('0' <= c && c <= '9') || ('a' <= c && c <= 'f') || ('A' <= c && c <= 'F')
        } else {
            '0' <= c && c <= '9'
        };
        if !ok {
            return false;
        }
        i = i + 1;
    }
    true
}

/// Whether `name` is a segment this program wrote, and may therefore delete.
pub fn is_our_segment(name: &str) -> (r: bool)
    ensures
        r == our_segment(name@),
{
    if !starts_with(name, "seg-") {
        return false;
    }
    let rest = name.substring_char("seg-".unicode_len(), name.unicode_len());
    if !ends_with(rest, ".mp4") {
        return false;
    }
    let core = rest.substring_char(0, rest.unicode_len() - ".mp4".unicode_len());
    let k = match find_char(core, '-') {
        Some(k) => k,
        None => return false,
    };
    proof {
        lemma_first_index_of(core@, '-');
    }
    let index = core.substring_char(0, k);
    let key = core.substring_char(k + 1, core.unicode_len());
    index.unicode_len() == 4 && all_of(index, false) && key.unicode_len() == 16 && all_of(key, true)
}

/// The name of scene `index`'s segment with content key `key`.
pub open spec fn segment_name(index: nat, key: nat) -> Seq<char> {
    "seg-"@ + padded_decimal(index, 4) + "-"@ + hex_fixed(key, 16) + ".mp4"@
}

/// The name of scene `index`'s segment with content key `key`:
/// `seg-0007-0123456789abcdef.mp4`.
pub fn segment_file_name(index: u64, key: u64) -> (r: String)
    ensures
        r@ == segment_name(index as nat, key as nat),
{
    let mut s = owned("seg-");
    s.append(padded_decimal_string(index, 4).as_str());
    s.append("-");
    s.append(hex_fixed_string(key, 16).as_str());
    s.append(".mp4");
    s
}

/// Stable project identity for the motion seed: the folder's own name, so
/// copying a project elsewhere keeps its moves and its cache.
pub open spec fn project_id_of(root: Seq<char>) -> Seq<char> {
    match file_name_of(root) {
        Some(n) => n,
        None => "project"@,
    }
}

/// The identity of the project at `root`.
pub fn project_id(root: &str) -> (r: String)
    ensures
        r@ == project_id_of(root@),
{
    match file_name(root) {
        Some(n) => owned(n),
        None => owned("project"),
    }
}

/// One scene that did not render.
#[derive(Debug, Clone, PartialEq, Eq)]
pub struct SceneFailure {
    /// Position in render order.
    pub index: usize,
    /// The operator's scene id.
    pub id: String,
    /// What went wrong.
    pub detail: String,
}

/// What a failure says: `scene <id>: <detail>`.
pub open spec fn failure_text(f: SceneFailure) -> Seq<char> {
    "scene "@ + f.id@ + ": "@ + f.detail@
}

impl SceneFailure {
    /// The failure in words.
    pub fn describe(&self) -> (r: String)
        ensures
            r@ == failure_text(*self),
    {
        let mut s = owned("scene ");
        s.append(self.id.as_str());
        s.append(": ");
        s.append(self.detail.as_str());
        s
    }
}

/// A failure, by its parts.
pub open spec fn failure_view(f: SceneFailure) -> (nat, Seq<char>, Seq<char>) {
    (f.index as nat, f.id@, f.detail@)
}

/// Failures, by their parts.
pub open spec fn failure_views(fs: Seq<SceneFailure>) -> Seq<(nat, Seq<char>, Seq<char>)> {
    fs.map_values(|f: SceneFailure| failure_view(f))
}

/// What an item that never started is reported with.
pub const NOT_STARTED: &'static str = "not started — the run was cancelled";

/// The name a failure gives scene `index`: its id, or its position where
/// there is none.
pub open spec fn scene_label(ids: Seq<Seq<char>>, index: nat) -> Seq<char> {
    if index < ids.len() {
        ids[index as int]
    } else {
        decimal(index)
    }
}

/// The failure one outcome is, if it is one.
pub open spec fn failure_of<T>(o: Outcome<Result<T, String>>, ids: Seq<Seq<char>>, index: nat) -> Option<(nat, Seq<char>, Seq<char>)> {
    match o {
        Outcome::Done(Ok(_)) => None,
        Outcome::Done(Err(e)) => Some((index, scene_label(ids, index), e@)),
        Outcome::NotAdmitted(_) => Some((index, scene_label(ids, index), NOT_STARTED@)),
    }
}

/// Every failure among `outs`, in order.
pub open spec fn failures_of<T>(outs: Seq<Outcome<Result<T, String>>>, ids: Seq<Seq<char>>) -> Seq<(nat, Seq<char>, Seq<char>)>
    decreases outs.len(),
{
    if outs.len() == 0 {
        Seq::empty()
    } else {
        let rest = failures_of(outs.drop_last(), ids);
        match failure_of(outs.last(), ids, (outs.len() - 1) as nat) {
            Some(f) => rest.push(f),
            None => rest,
        }
    }
}

/// Every value among `outs`, in order.
pub open spec fn values_of<T>(outs: Seq<Outcome<Result<T, String>>>) -> Seq<T>
    decreases outs.len(),
{
    if outs.len() == 0 {
        Seq::empty()
    } else {
        let rest = values_of(outs.drop_last());
        match outs.last() {
            Outcome::Done(Ok(v)) => rest.push(v),
            _ => rest,
        }
    }
}

/// Turn a pool's outcomes, with each scene's id, into every value or every
/// failure. A cancelled run's failures are mostly "we stopped", so they
/// collapse to one line.
pub fn collect<T>(ids: &Vec<String>, outcomes: Vec<Outcome<Result<T, String>>>, cancelled: bool) -> (r: Result<Vec<T>, Vec<SceneFailure>>)
    ensures
        ({
            let fs = failures_of(outcomes@, string_views(ids@));
            match r {
                Ok(v) => fs.len() == 0 && v@ == values_of(outcomes@),
                Err(e) => fs.len() > 0 && if cancelled {
                    failure_views(e@) == seq![(0nat, "*"@, "cancelled"@)]
                } else {
                    failure_views(e@) == fs
                },
            }
        }),
{
    let ghost input = outcomes@;
    let ghost iv = string_views(ids@);
    let mut outcomes = outcomes;
    let total = outcomes.len();
    assert(input.len() == total);
    let mut reversed: Vec<Outcome<Result<T, String>>> = Vec::new();
    while outcomes.len() > 0
        invariant
            outcomes@.len() + reversed@.len() == input.len(),
            input.len() <= usize::MAX,
            outcomes@ == input.take(outcomes@.len() as int),
            forall|k: int|
                0 <= k < reversed@.len() ==> #[trigger] reversed@[k] == input[input.len() - 1 - k],
        decreases outcomes@.len(),
    {
        let last = outcomes.pop().unwrap();
        reversed.push(last);
        assert(outcomes@ =~= input.take(outcomes@.len() as int));
    }
    let mut values: Vec<T> = Vec::new();
    let mut failures: Vec<SceneFailure> = Vec::new();
    let mut index: usize = 0;
    assert(input.take(0) =~= Seq::<Outcome<Result<T, String>>>::empty());
    while reversed.len() > 0
        invariant
            reversed@.len() + index == input.len(),
            input.len() <= usize::MAX,
            iv == string_views(ids@),
            forall|k: int|
                0 <= k < reversed@.len() ==> #[trigger] reversed@[k] == input[input.len() - 1 - k],
            values@ == values_of(input.take(index as int)),
            failure_views(failures@) == failures_of(input.take(index as int), iv),
        decreases reversed@.len(),
    {
        let outcome = reversed.pop().unwrap();
        assert(outcome == input[index as int]);
        assert(input.take(index + 1).drop_last() =~= input.take(index as int));
        assert(input.take(index + 1).last() == input[index as int]);
        let id = if index < ids.len() {
            owned(ids[index].as_str())
        } else {
            decimal_string(index as u64)
        };
        assert(id@ == scene_label(iv, index as nat));
        let ghost before = failure_views(failures@);
        match outcome {
            Outcome::Done(Ok(value)) => {
                values.push(value);
            },
            Outcome::Done(Err(error)) => {
                failures.push(SceneFailure { index, id, detail: error });
                assert(failure_views(failures@) =~= before.push(
                    failure_view(failures@[failures@.len() - 1]),
                ));
            },
            Outcome::NotAdmitted(_) => {
                failures.push(SceneFailure { index, id, detail: owned(NOT_STARTED) });
                assert(failure_views(failures@) =~= before.push(
                    failure_view(failures@[failures@.len() - 1]),
                ));
            },
        }
        index = index + 1;
    }
    assert(input.take(input.len() as int) =~= input);
    if failures.len() == 0 {
        Ok(values)
    } else if cancelled {
        let mut one: Vec<SceneFailure> = Vec::new();
        one.push(SceneFailure { index: 0, id: owned("*"), detail: owned("cancelled") });
        assert(failure_views(one@) =~= seq![(0nat, "*"@, "cancelled"@)]);
        Err(one)
    } else {
        Err(failures)
    }
}

} // verus!

verus! {

/// Why a project did not render.
#[derive(Debug, Clone, PartialEq, Eq)]
pub enum FilmError {
    /// The folder could not be read as a project at all.
    Import(ImportError),
    /// Validation found errors; this is the refusal to render on top of them.
    HasProblems {
        /// How many stop the render.
        errors: usize,
    },
    /// A project with nothing to render.
    NoScenes,
    /// Another render holds this project.
    Locked {
        /// The lock file.
        path: String,
        /// What it says about its owner.
        held_by: String,
        /// Whether the operator passed `--force`, so the message can say why
        /// it did not help.
        forced: bool,
    },
    /// The project's `output` setting points outside the project.
    OutputOutsideProject {
        /// The setting, as written.
        value: String,
    },
    /// A geometry override for this run is not one this renders.
    UnusableGeometry {
        /// The refusal, already phrased as a sentence.
        detail: String,
    },
    /// The voice service is not usable, and scenes need it.
    VoiceService {
        /// Which provider the project asked for.
        provider: String,
        /// The sentence naming the fix.
        detail: String,
        /// How many scenes were going to need it.
        scenes: usize,
    },
    /// One or more narrations could not be resolved.
    Audio {
        /// Every failure, in render order.
        failures: Vec<SceneFailure>,
    },
    /// One or more segments could not be rendered.
    Render {
        /// Every failure, in render order.
        failures: Vec<SceneFailure>,
    },
    /// The run was cancelled.
    Cancelled,
    /// The join, or a probe of the film, failed; its own sentence.
    Media(String),
    /// Filesystem trouble, with the path attached.
    Io {
        /// What we were doing.
        doing: String,
        /// The path.
        path: String,
        /// The system's reason.
        detail: String,
    },
}

/// Each failure on a line of its own, indented.
pub open spec fn failure_lines(fs: Seq<SceneFailure>) -> Seq<char>
    decreases fs.len(),
{
    if fs.len() == 0 {
        Seq::empty()
    } else {
        failure_lines(fs.drop_last()) + "\n  "@ + failure_text(fs.last())
    }
}

/// `"s"` for one, `""` for any other count: the verb's ending.
pub open spec fn verb_s(n: nat) -> Seq<char> {
    if n == 1 {
        "s"@
    } else {
        ""@
    }
}

/// What each refusal says.
pub open spec fn film_message(e: FilmError) -> Seq<char> {
    match e {
        FilmError::Import(i) => import_message(i),
        FilmError::HasProblems { errors } => decimal(errors as nat) + " problem"@ + plural_of(
            errors as nat,
        ) + " stop"@ + verb_s(errors as nat)
            + " this render — fix them, or run `still validate` to see them again"@,
        FilmError::NoScenes => "there are no scenes to render"@,
        FilmError::Locked { path, held_by, forced } => "another render is working on this project ("@
            + held_by@ + ")"@ + if forced {
            "\n--force cannot take a lock a running render holds. Wait for it, or stop it."@
        } else {
            "\nWait for it to finish. A run this machine lost releases its lock by itself, so "@
                + path@ + " is never left holding one."@
        },
        FilmError::OutputOutsideProject { value } => "the project's output setting "@ + debug_text(
            value@,
        )
            + " points outside the project folder (D-054). Pass --out to write somewhere else deliberately."@,
        FilmError::UnusableGeometry { detail } => "this run asked for geometry that will not render: "@
            + detail@ + "\n`still resolutions` lists the sizes and aspects that will."@,
        FilmError::VoiceService { provider, detail, scenes } => decimal(scenes as nat) + " scene"@
            + plural_of(scenes as nat) + " need"@ + verb_s(scenes as nat) + " the "@ + provider@
            + " voice service, and it is not usable: "@ + detail@
            + "\nNothing was rendered. This is asked before the first scene rather than discovered at the last one (D-002)."@,
        FilmError::Audio { failures } => decimal(failures@.len()) + " narration"@ + plural_of(
            failures@.len(),
        ) + " could not be resolved:"@ + failure_lines(failures@),
        FilmError::Render { failures } => decimal(failures@.len()) + " scene"@ + plural_of(
            failures@.len(),
        ) + " failed to render:"@ + failure_lines(failures@),
        FilmError::Cancelled => "cancelled — finished segments are kept, so the next run resumes from them"@,
        FilmError::Media(detail) => detail@,
        FilmError::Io { doing, path, detail } => doing@ + " "@ + path@ + ": "@ + detail@,
    }
}

fn append_failures(s: &mut String, failures: &Vec<SceneFailure>)
    ensures
        final(s)@ == old(s)@ + failure_lines(failures@),
{
    let ghost start = s@;
    let mut i: usize = 0;
    assert(failures@.take(0) =~= Seq::<SceneFailure>::empty());
    while i < failures.len()
        invariant
            0 <= i <= failures@.len(),
            s@ == start + failure_lines(failures@.take(i as int)),
        decreases failures@.len() - i,
    {
        assert(failures@.take(i + 1).drop_last() =~= failures@.take(i as int));
        assert(failures@.take(i + 1).last() == failures@[i as int]);
        s.append("\n  ");
        s.append(failures[i].describe().as_str());
        i = i + 1;
    }
    assert(failures@.take(failures@.len() as int) =~= failures@);
}

fn verb_ending(n: usize) -> (r: &'static str)
    ensures
        r@ == verb_s(n as nat),
{
    if n == 1 {
        "s"
    } else {
        ""
    }
}

impl FilmError {
    /// The refusal in words.
    pub fn message(&self) -> (r: String)
        ensures
            r@ == film_message(*self),
    {
        match self {
            FilmError::Import(e) => e.message(),
            FilmError::HasProblems { errors } => {
                let mut s = decimal_string(*errors as u64);
                s.append(" problem");
                s.append(crate::ingest::plural(*errors));
                s.append(" stop");
                s.append(verb_ending(*errors));
                s.append(" this render — fix them, or run `still validate` to see them again");
                s
            },
            FilmError::NoScenes => owned("there are no scenes to render"),
            FilmError::Locked { path, held_by, forced } => {
                let mut s = owned("another render is working on this project (");
                s.append(held_by.as_str());
                s.append(")");
                if *forced {
                    s.append(
                        "\n--force cannot take a lock a running render holds. Wait for it, or stop it.",
                    );
                } else {
                    let ghost before = s@;
                    s.append(
                        "\nWait for it to finish. A run this machine lost releases its lock by itself, so ",
                    );
                    s.append(path.as_str());
                    s.append(" is never left holding one.");
                }
                s
            },
            FilmError::OutputOutsideProject { value } => {
                let mut s = owned("the project's output setting ");
                s.append(debug_quoted(value.as_str()).as_str());
                s.append(
                    " points outside the project folder (D-054). Pass --out to write somewhere else deliberately.",
                );
                s
            },
            FilmError::UnusableGeometry { detail } => {
                let mut s = owned("this run asked for geometry that will not render: ");
                s.append(detail.as_str());
                s.append("\n`still resolutions` lists the sizes and aspects that will.");
                s
            },
            FilmError::VoiceService { provider, detail, scenes } => {
                let mut s = decimal_string(*scenes as u64);
                s.append(" scene");
                s.append(crate::ingest::plural(*scenes));
                s.append(" need");
                s.append(verb_ending(*scenes));
                s.append(" the ");
                s.append(provider.as_str());
                s.append(" voice service, and it is not usable: ");
                s.append(detail.as_str());
                s.append(
                    "\nNothing was rendered. This is asked before the first scene rather than discovered at the last one (D-002).",
                );
                s
            },
            FilmError::Audio { failures } => {
                let mut s = decimal_string(failures.len() as u64);
                s.append(" narration");
                s.append(crate::ingest::plural(failures.len()));
                s.append(" could not be resolved:");
                append_failures(&mut s, failures);
                s
            },
            FilmError::Render { failures } => {
                let mut s = decimal_string(failures.len() as u64);
                s.append(" scene");
                s.append(crate::ingest::plural(failures.len()));
                s.append(" failed to render:");
                append_failures(&mut s, failures);
                s
            },
            FilmError::Cancelled => owned(
                "cancelled — finished segments are kept, so the next run resumes from them",
            ),
            FilmError::Media(detail) => owned(detail.as_str()),
            FilmError::Io { doing, path, detail } => {
                let mut s = owned(doing.as_str());
                s.append(" ");
                s.append(path.as_str());
                s.append(": ");
                s.append(detail.as_str());
                s
            },
        }
    }
}

/// The workers a run starts: the number the operator named, at least one,
/// or the automatic count where they named none.
pub open spec fn run_jobs_of(asked: Option<nat>, automatic: nat) -> nat {
    match asked {
        Some(a) => if a < 1 {
            1
        } else {
            a
        },
        None => automatic,
    }
}

/// The segment workers for a run.
pub fn run_jobs(asked: Option<usize>, automatic: usize) -> (r: usize)
    ensures
        r == run_jobs_of(
            match asked {
                Some(a) => Some(a as nat),
                None => None,
            },
            automatic as nat,
        ),
{
    match asked {
        Some(a) => if a < 1 {
            1
        } else {
            a
        },
        None => automatic,
    }
}

/// One voice service a run needs, and for how many scenes.
#[derive(Debug, Clone, PartialEq, Eq)]
pub struct ServiceNeed {
    /// The provider's name.
    pub provider: String,
    /// How many scenes need it.
    pub scenes: usize,
}

/// How many of `needed` name `provider`.
pub open spec fn count_of(needed: Seq<Option<Seq<char>>>, provider: Seq<char>) -> nat
    decreases needed.len(),
{
    if needed.len() == 0 {
        0
    } else {
        count_of(needed.drop_last(), provider) + if needed.last() == Some(provider) {
            1nat
        } else {
            0nat
        }
    }
}

/// The providers `needed` names, each once, in order of first appearance.
pub open spec fn first_appearances(needed: Seq<Option<Seq<char>>>) -> Seq<Seq<char>>
    decreases needed.len(),
{
    if needed.len() == 0 {
        Seq::empty()
    } else {
        let rest = first_appearances(needed.drop_last());
        match needed.last() {
            Some(p) => if rest.contains(p) {
                rest
            } else {
                rest.push(p)
            },
            None => rest,
        }
    }
}

/// The voice services a run needs — one entry per scene, `None` where the
/// scene needs none — each once, in the order the project first names them,
/// with how many scenes need each.
pub fn services_needed(needed: &Vec<Option<String>>) -> (r: Vec<ServiceNeed>)
    ensures
        ({
            let nv = needed@.map_values(
                |o: Option<String>|
                    match o {
                        Some(s) => Some(s@),
                        None => None,
                    },
            );
            &&& r@.map_values(|x: ServiceNeed| x.provider@) == first_appearances(nv)
            &&& forall|i: int| 0 <= i < r@.len() ==> (#[trigger] r@[i]).scenes == count_of(nv, r@[i].provider@)
        }),
{
    let ghost nv = needed@.map_values(
        |o: Option<String>|
            match o {
                Some(s) => Some(s@),
                None => None,
            },
    );
    let mut r: Vec<ServiceNeed> = Vec::new();
    let mut i: usize = 0;
    assert(nv.take(0) =~= Seq::<Option<Seq<char>>>::empty());
    while i < needed.len()
        invariant
            0 <= i <= needed@.len(),
            nv == needed@.map_values(
                |o: Option<String>|
                    match o {
                        Some(s) => Some(s@),
                        None => None,
                    },
            ),
            r@.map_values(|x: ServiceNeed| x.provider@) == first_appearances(nv.take(i as int)),
            forall|k: int|
                0 <= k < r@.len() ==> (#[trigger] r@[k]).scenes == count_of(nv.take(i as int), r@[k].provider@),
            forall|k: int| 0 <= k < r@.len() ==> (#[trigger] r@[k]).scenes <= i,
        decreases needed@.len() - i,
    {
        let ghost before = nv.take(i as int);
        assert(nv.take(i + 1).drop_last() =~= before);
        assert(nv.take(i + 1).last() == nv[i as int]);
        let ghost names = r@.map_values(|x: ServiceNeed| x.provider@);
        match &needed[i] {
            Some(p) => {
                assert(nv[i as int] == Some(p@));
                let mut j: usize = 0;
                while j < r.len() && !same_text(r[j].provider.as_str(), p.as_str())
                    invariant
                        0 <= j <= r@.len(),
                        names == r@.map_values(|x: ServiceNeed| x.provider@),
                        forall|q: int| 0 <= q < j ==> names[q] != p@,
                    decreases r@.len() - j,
                {
                    j = j + 1;
                }
                if j < r.len() {
                    assert(names[j as int] == p@);
                    assert(names.contains(p@));
                    let ghost old_r = r@;
                    let count = r[j].scenes;
                    let provider = owned(r[j].provider.as_str());
                    r.set(j, ServiceNeed { provider, scenes: count + 1 });
                    assert(r@.map_values(|x: ServiceNeed| x.provider@) =~= names);
                    proof {
                        lemma_first_appearances_distinct(before);
                    }
                    assert forall|k: int| 0 <= k < r@.len() implies (#[trigger] r@[k]).scenes == count_of(
                        nv.take(i + 1),
                        r@[k].provider@,
                    ) by {
                        assert(r@[k].provider@ == names[k]);
                        assert(old_r[k].provider@ == names[k]);
                        assert(count_of(nv.take(i + 1), r@[k].provider@) == count_of(
                            before,
                            r@[k].provider@,
                        ) + if nv[i as int] == Some(r@[k].provider@) {
                            1nat
                        } else {
                            0nat
                        });
                        if k != j {
                            assert(r@[k] == old_r[k]);
                            assert(names[k] != names[j as int]);
                        }
                    }
                } else {
                    assert(!names.contains(p@));
                    let ghost old_r = r@;
                    r.push(ServiceNeed { provider: owned(p.as_str()), scenes: 1 });
                    assert(r@.map_values(|x: ServiceNeed| x.provider@) =~= names.push(p@));
                    proof {
                        lemma_count_absent(before, p@);
                    }
                    assert forall|k: int| 0 <= k < r@.len() implies (#[trigger] r@[k]).scenes == count_of(
                        nv.take(i + 1),
                        r@[k].provider@,
                    ) by {
                        assert(count_of(nv.take(i + 1), r@[k].provider@) == count_of(
                            before,
                            r@[k].provider@,
                        ) + if nv[i as int] == Some(r@[k].provider@) {
                            1nat
                        } else {
                            0nat
                        });
                        if k < old_r.len() {
                            assert(r@[k] == old_r[k]);
                            assert(old_r[k].provider@ == names[k]);
                            assert(names[k] != p@);
                        }
                    }
                }
            },
            None => {},
        }
        i = i + 1;
    }
    assert(nv.take(needed@.len() as int) =~= nv);
    r
}

proof fn lemma_first_appearances_cover(needed: Seq<Option<Seq<char>>>, p: Seq<char>)
    ensures
        count_of(needed, p) > 0 ==> first_appearances(needed).contains(p),
        !first_appearances(needed).contains(p) ==> count_of(needed, p) == 0,
    decreases needed.len(),
{
    if needed.len() > 0 {
        lemma_first_appearances_cover(needed.drop_last(), p);
        let rest = first_appearances(needed.drop_last());
        match needed.last() {
            Some(q) => {
                if !rest.contains(q) {
                    assert(rest.push(q)[rest.len() as int] == q);
                    if rest.contains(p) {
                        let k = choose|k: int| 0 <= k < rest.len() && rest[k] == p;
                        assert(rest.push(q)[k] == p);
                    }
                }
            },
            None => {},
        }
    }
}

proof fn lemma_first_appearances_distinct(needed: Seq<Option<Seq<char>>>)
    ensures
        forall|a: int, b: int|
            0 <= a < b < first_appearances(needed).len() ==> first_appearances(needed)[a]
                != first_appearances(needed)[b],
    decreases needed.len(),
{
    if needed.len() > 0 {
        lemma_first_appearances_distinct(needed.drop_last());
        let rest = first_appearances(needed.drop_last());
        match needed.last() {
            Some(q) => {
                if !rest.contains(q) {
                    assert forall|a: int, b: int|
                        0 <= a < b < rest.push(q).len() implies rest.push(q)[a] != rest.push(q)[b] by {
                        if b == rest.len() {
                            assert(rest[a] != q);
                        }
                    }
                }
            },
            None => {},
        }
    }
}

proof fn lemma_count_absent(needed: Seq<Option<Seq<char>>>, p: Seq<char>)
    requires
        !first_appearances(needed).contains(p),
    ensures
        count_of(needed, p) == 0,
{
    lemma_first_appearances_cover(needed, p);
}

} // verus!

verus! {

/// One entry of the segment folder, as the sweep sees it.
#[derive(Debug, Clone, PartialEq, Eq)]
pub struct SweepEntry {
    /// Its name.
    pub name: String,
    /// Whether it is a plain file.
    pub is_file: bool,
    /// Its size in bytes.
    pub size: u64,
    /// When it was last written, in nanoseconds from the Unix epoch.
    pub modified: i128,
}

/// A temporary that is not part of the film just made.
pub open spec fn partial_entry(e: SweepEntry, live: Seq<Seq<char>>) -> bool {
    !live.contains(e.name@) && e.is_file && abandoned_partial(e.name@)
}

/// A segment of ours that the film just made did not use.
pub open spec fn dead_entry(e: SweepEntry, live: Seq<Seq<char>>) -> bool {
    !live.contains(e.name@) && e.is_file && !abandoned_partial(e.name@) && our_segment(e.name@)
}

/// The positions among `entries` for which `keep` holds, in order.
pub open spec fn positions_where(entries: Seq<SweepEntry>, live: Seq<Seq<char>>, partial: bool) -> Seq<usize>
    decreases entries.len(),
{
    if entries.len() == 0 {
        Seq::empty()
    } else {
        let rest = positions_where(entries.drop_last(), live, partial);
        let e = entries.last();
        if (partial && partial_entry(e, live)) || (!partial && dead_entry(e, live)) {
            rest.push((entries.len() - 1) as usize)
        } else {
            rest
        }
    }
}

/// `out` is `inp` — positions among `entries` — newest first, equally new
/// ones in the order they came.
pub open spec fn newest_first(out: Seq<usize>, inp: Seq<usize>, entries: Seq<SweepEntry>) -> bool {
    exists|order: Seq<usize>|
        #![trigger is_permutation(order, inp.len())]
        {
            &&& is_permutation(order, inp.len())
            &&& out.len() == inp.len()
            &&& forall|p: int| 0 <= p < out.len() ==> #[trigger] out[p] == inp[order[p] as int]
            &&& forall|p: int, q: int|
                #![trigger out[p], out[q]]
                0 <= p < q < out.len() ==> entries[out[p] as int].modified >= entries[out[q] as int].modified
                    && (entries[out[p] as int].modified == entries[out[q] as int].modified ==> order[p]
                    < order[q])
        }
}

/// How many superseded segments are kept for a film of `live` segments.
pub open spec fn spare_count(live: nat) -> nat {
    if live * 2 > usize::MAX {
        usize::MAX as nat
    } else {
        live * 2
    }
}

/// A modification time, newest sorting first.
pub struct Newer(pub i128);

impl SortKey for Newer {
    open spec fn key_le(self, other: Self) -> bool {
        self.0 >= other.0
    }

    proof fn lemma_key_order() {
    }

    fn le(&self, other: &Self) -> (r: bool) {
        self.0 >= other.0
    }
}

fn names_contain(live: &Vec<String>, name: &str) -> (r: bool)
    ensures
        r == string_views(live@).contains(name@),
{
    let ghost lv = string_views(live@);
    let mut i: usize = 0;
    while i < live.len()
        invariant
            0 <= i <= live@.len(),
            lv == string_views(live@),
            forall|k: int| 0 <= k < i ==> lv[k] != name@,
        decreases live@.len() - i,
    {
        if same_text(live[i].as_str(), name) {
            assert(lv[i as int] == name@);
            return true;
        }
        i = i + 1;
    }
    false
}

/// What the sweep after a successful join deletes, as positions among
/// `entries`: every abandoned temporary, then every superseded segment of
/// ours past the newest `2 × live` of them. A file the film uses, a folder,
/// and a name this program did not write are never among them.
pub fn sweep_plan(entries: &Vec<SweepEntry>, live: &Vec<String>) -> (r: Vec<usize>)
    ensures
        ({
            let lv = string_views(live@);
            let dead = positions_where(entries@, lv, false);
            let kept = if spare_count(live@.len()) < dead.len() {
                spare_count(live@.len())
            } else {
                dead.len()
            };
            exists|sorted: Seq<usize>|
                #[trigger] newest_first(sorted, dead, entries@) && r@ == positions_where(entries@, lv, true)
                    + sorted.skip(kept as int)
        }),
        forall|i: int|
            0 <= i < r@.len() ==> (#[trigger] r@[i]) < entries@.len() && !string_views(live@).contains(
                entries@[r@[i] as int].name@,
            ) && entries@[r@[i] as int].is_file,
{
    let ghost lv = string_views(live@);
    let mut partials: Vec<usize> = Vec::new();
    let mut dead: Vec<usize> = Vec::new();
    let mut i: usize = 0;
    assert(entries@.take(0) =~= Seq::<SweepEntry>::empty());
    while i < entries.len()
        invariant
            0 <= i <= entries@.len(),
            lv == string_views(live@),
            partials@ == positions_where(entries@.take(i as int), lv, true),
            dead@ == positions_where(entries@.take(i as int), lv, false),
            forall|k: int|
                0 <= k < partials@.len() ==> (#[trigger] partials@[k]) < i && partial_entry(
                    entries@[partials@[k] as int],
                    lv,
                ),
            forall|k: int|
                0 <= k < dead@.len() ==> (#[trigger] dead@[k]) < i && dead_entry(
                    entries@[dead@[k] as int],
                    lv,
                ),
        decreases entries@.len() - i,
    {
        assert(entries@.take(i + 1).drop_last() =~= entries@.take(i as int));
        assert(entries@.take(i + 1).last() == entries@[i as int]);
        let e = &entries[i];
        if !names_contain(live, e.name.as_str()) && e.is_file {
            if is_abandoned_partial(e.name.as_str()) {
                partials.push(i);
            } else if is_our_segment(e.name.as_str()) {
                dead.push(i);
            }
        }
        i = i + 1;
    }
    assert(entries@.take(entries@.len() as int) =~= entries@);
    let mut keys: Vec<Newer> = Vec::new();
    let mut k: usize = 0;
    while k < dead.len()
        invariant
            0 <= k <= dead@.len(),
            keys@.len() == k,
            forall|q: int| 0 <= q < dead@.len() ==> (#[trigger] dead@[q]) < entries@.len(),
            forall|q: int| 0 <= q < k ==> (#[trigger] keys@[q]).0 == entries@[dead@[q] as int].modified,
        decreases dead@.len() - k,
    {
        keys.push(Newer(entries[dead[k]].modified));
        k = k + 1;
    }
    let order = stable_order(&keys);
    let mut sorted: Vec<usize> = Vec::new();
    let mut k: usize = 0;
    while k < order.len()
        invariant
            is_permutation(order@, dead@.len()),
            0 <= k <= order@.len(),
            sorted@.len() == k,
            forall|p: int| 0 <= p < k ==> #[trigger] sorted@[p] == dead@[order@[p] as int],
        decreases order@.len() - k,
    {
        sorted.push(dead[order[k]]);
        k = k + 1;
    }
    proof {
        let out = sorted@;
        let inp = dead@;
        assert forall|p: int, q: int|
            #![trigger out[p], out[q]]
            0 <= p < q < out.len() implies entries@[out[p] as int].modified >= entries@[out[q] as int].modified
            && (entries@[out[p] as int].modified == entries@[out[q] as int].modified ==> order@[p]
            < order@[q]) by {
            assert(keys@[order@[p] as int].key_le(keys@[order@[q] as int]));
        }
        assert(is_permutation(order@, inp.len()));
        assert(newest_first(out, inp, entries@));
    }
    let spare = match live.len().checked_mul(SPARE_GENERATIONS) {
        Some(n) => n,
        None => usize::MAX,
    };
    let kept = if spare < sorted.len() {
        spare
    } else {
        sorted.len()
    };
    let mut r: Vec<usize> = Vec::new();
    let mut k: usize = 0;
    while k < partials.len()
        invariant
            0 <= k <= partials@.len(),
            r@ == partials@.take(k as int),
        decreases partials@.len() - k,
    {
        r.push(partials[k]);
        k = k + 1;
        assert(r@ =~= partials@.take(k as int));
    }
    assert(partials@.take(partials@.len() as int) =~= partials@);
    let mut k: usize = kept;
    while k < sorted.len()
        invariant
            kept <= k <= sorted@.len(),
            r@ == partials@ + sorted@.subrange(kept as int, k as int),
        decreases sorted@.len() - k,
    {
        r.push(sorted[k]);
        k = k + 1;
        assert(r@ =~= partials@ + sorted@.subrange(kept as int, k as int));
    }
    proof {
        assert(sorted@.subrange(kept as int, sorted@.len() as int) =~= sorted@.skip(kept as int));
        assert forall|i: int|
            0 <= i < r@.len() implies (#[trigger] r@[i]) < entries@.len() && !lv.contains(
            entries@[r@[i] as int].name@,
        ) && entries@[r@[i] as int].is_file by {
            if i < partials@.len() {
                assert(r@[i] == partials@[i]);
            } else {
                let p = kept + i - partials@.len();
                assert(r@[i] == sorted@[p]);
                assert(sorted@[p] == dead@[order@[p] as int]);
                assert(order@[p] < dead@.len());
            }
        }
    }
    r
}

/// The sweep keeps the newest of the superseded segments: every one it
/// keeps is at least as new as every one it deletes.
pub proof fn lemma_the_sweep_keeps_the_newest(
    sorted: Seq<usize>,
    dead: Seq<usize>,
    entries: Seq<SweepEntry>,
    kept: int,
)
    requires
        newest_first(sorted, dead, entries),
        0 <= kept <= sorted.len(),
    ensures
        forall|a: int, b: int|
            0 <= a < kept <= b < sorted.len() ==> entries[sorted[a] as int].modified
                >= entries[sorted[b] as int].modified,
{
    assert forall|a: int, b: int|
        0 <= a < kept <= b < sorted.len() implies entries[sorted[a] as int].modified
        >= entries[sorted[b] as int].modified by {
        assert(sorted[a] == sorted[a] && sorted[b] == sorted[b]);
    }
}

} // verus!

verus! {

/// What a render starts with, once the project has been judged fit to
/// render.
#[derive(Debug, Clone, PartialEq, Eq)]
pub struct RunStart {
    /// Segment workers.
    pub jobs: usize,
    /// Narration workers.
    pub audio_jobs: usize,
    /// What one segment worker is estimated to need.
    pub per_worker: u64,
    /// Whether the memory budget, not the core count, chose the workers —
    /// never so when the operator named the number.
    pub limited_by_memory: bool,
    /// The warning to give before the pool starts, if those workers
    /// overcommit the machine.
    pub pressure: Option<crate::capacity::Pressure>,
}

/// Decide whether a render starts, and with what: a project with `errors`
/// problems that stop a render is refused with their count; one with no
/// scenes is refused; otherwise the segment workers are the operator's
/// number (at least one) or the automatic count for this canvas on this
/// machine, the narration workers at least one, and the memory warning is
/// the one those workers call for.
pub fn render_start(
    errors: usize,
    scenes: usize,
    asked_jobs: Option<usize>,
    audio_jobs: usize,
    prescale_width: u32,
    prescale_height: u32,
    budget: Option<u64>,
    by_cores: usize,
) -> (r: Result<RunStart, FilmError>)
    requires
        crate::capacity::segment_cost(prescale_width as nat, prescale_height as nat) <= u64::MAX,
    ensures
        errors > 0 ==> (r matches Err(FilmError::HasProblems { errors: e }) && e == errors),
        errors == 0 && scenes == 0 ==> r matches Err(FilmError::NoScenes),
        errors == 0 && scenes > 0 ==> (r matches Ok(s) && {
            let per = crate::capacity::segment_cost(prescale_width as nat, prescale_height as nat);
            let by_memory = crate::capacity::affordable(budget, per);
            let automatic = crate::capacity::jobs_for(by_cores as nat, by_memory);
            &&& s.jobs == run_jobs_of(
                match asked_jobs {
                    Some(a) => Some(a as nat),
                    None => None,
                },
                automatic,
            )
            &&& s.audio_jobs == (if audio_jobs < 1 {
                1
            } else {
                audio_jobs
            })
            &&& s.per_worker == per
            &&& s.limited_by_memory == (asked_jobs is None && (by_memory matches Some(m) && m
                < by_cores))
            &&& crate::capacity::pressure_is(
                s.pressure,
                prescale_width as nat,
                prescale_height as nat,
                budget,
                s.jobs as nat,
            )
        }),
{
    if errors > 0 {
        return Err(FilmError::HasProblems { errors });
    }
    if scenes == 0 {
        return Err(FilmError::NoScenes);
    }
    let plan = crate::capacity::plan_within(prescale_width, prescale_height, budget, by_cores);
    let jobs = run_jobs(asked_jobs, plan.jobs);
    let pressure = crate::capacity::pressure_within(prescale_width, prescale_height, budget, jobs);
    let limited = asked_jobs.is_none() && plan.limited_by_memory();
    Ok(
        RunStart {
            jobs,
            audio_jobs: if audio_jobs < 1 {
                1
            } else {
                audio_jobs
            },
            per_worker: plan.per_worker,
            limited_by_memory: limited,
            pressure,
        },
    )
}

} // verus!

