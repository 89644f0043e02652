//! Turning a folder into a project: the settings file, the rows, and the
//! problems found on the way, all reported together.

pub mod rows;
pub mod settings;

use vstd::prelude::*;
use crate::order::SortKey;

verus! {

/// How long a scene holds, as a row states it.
#[derive(Debug, Clone, PartialEq, Eq)]
pub enum DurationCell {
    /// Nothing said: the narration decides.
    Unset,
    /// A still with nothing to say holds for the project's default.
    ProjectDefault,
    /// A number of seconds, as the row wrote it; it parses as one.
    Declared(String),
}

/// One row, before anything about it has been judged.
#[derive(Debug, Clone, PartialEq, Eq)]
pub struct SceneDraft {
    /// The scene's name: the still's stem.
    pub id: String,
    /// The still.
    pub image: Option<String>,
    /// A line to speak, or the caption of a recording.
    pub text: Option<String>,
    /// A recording.
    pub audio: Option<String>,
    /// How long it holds.
    pub duration: DurationCell,
    /// A voice for this row only.
    pub voice: Option<String>,
    /// A move for this row only.
    pub zoom_direction: Option<String>,
    /// Where the move centres.
    pub zoom_anchor: Option<String>,
}

/// What is wrong.
#[derive(Debug, Clone, PartialEq, Eq)]
pub enum ProblemKind {
    /// A recording or script with no still to go with it.
    UnpairedFile {
        /// The file.
        value: String,
    },
    /// A file that is there and cannot be used.
    NotUsableMedia {
        /// Which cell named it.
        field: String,
        /// The file.
        value: String,
        /// Why, in a sentence.
        detail: String,
    },
    /// A value that will not do.
    UnusableSetting {
        /// Which setting.
        field: String,
        /// What it said.
        value: String,
        /// What it should say.
        expected: String,
    },
    /// A still in the folder that no manifest row names.
    UnlistedImage {
        /// The file.
        value: String,
    },
    /// Stills smaller than the frame, which rendering will enlarge: one
    /// problem for the whole project.
    UndersizedSources {
        /// How many measured stills do not cover the frame.
        scenes: usize,
        /// How many stills were measured.
        total: usize,
        /// The scene furthest from covering it.
        smallest: String,
        /// That still's width as displayed.
        width: u32,
        /// Its height as displayed.
        height: u32,
        /// The frame's width.
        out_width: u32,
        /// The frame's height.
        out_height: u32,
        /// The largest short edge at which every measured still renders at
        /// its own detail, where a legal one exists.
        native_short_edge: Option<u32>,
    },
}

/// One problem, and the scene it belongs to when it belongs to one.
#[derive(Debug, Clone, PartialEq, Eq)]
pub struct Problem {
    /// The scene, or `None` for the project as a whole.
    pub scene: Option<String>,
    /// What is wrong.
    pub kind: ProblemKind,
}

/// What a file is supposed to be.
#[derive(Debug, Clone, Copy, PartialEq, Eq, Structural)]
pub enum Role {
    /// The still.
    Image,
    /// The narration.
    Audio,
}

impl Role {
    /// The manifest column this role comes from.
    pub fn field(self) -> (r: &'static str)
        ensures
            r@ == match self {
                Role::Image => "image"@,
                Role::Audio => "audio_file"@,
            },
    {
        match self {
            Role::Image => "image",
            Role::Audio => "audio_file",
        }
    }
}

} // verus!

verus! {

/// What a [`DurationCell`] says.
pub enum DurationView {
    /// Nothing.
    Unset,
    /// The project's default.
    ProjectDefault,
    /// This text.
    Declared(Seq<char>),
}

impl View for DurationCell {
    type V = DurationView;

    open spec fn view(&self) -> DurationView {
        match self {
            DurationCell::Unset => DurationView::Unset,
            DurationCell::ProjectDefault => DurationView::ProjectDefault,
            DurationCell::Declared(t) => DurationView::Declared(t@),
        }
    }
}

/// The view of an optional string.
pub open spec fn opt_text(value: Option<String>) -> Option<Seq<char>> {
    match value {
        Some(v) => Some(v@),
        None => None,
    }
}

/// What a [`SceneDraft`] says.
pub struct DraftView {
    /// The id.
    pub id: Seq<char>,
    /// The still.
    pub image: Option<Seq<char>>,
    /// The words.
    pub text: Option<Seq<char>>,
    /// The recording.
    pub audio: Option<Seq<char>>,
    /// How long.
    pub duration: DurationView,
    /// The voice.
    pub voice: Option<Seq<char>>,
    /// The move.
    pub zoom_direction: Option<Seq<char>>,
    /// The anchor.
    pub zoom_anchor: Option<Seq<char>>,
}

impl View for SceneDraft {
    type V = DraftView;

    open spec fn view(&self) -> DraftView {
        DraftView {
            id: self.id@,
            image: opt_text(self.image),
            text: opt_text(self.text),
            audio: opt_text(self.audio),
            duration: self.duration@,
            voice: opt_text(self.voice),
            zoom_direction: opt_text(self.zoom_direction),
            zoom_anchor: opt_text(self.zoom_anchor),
        }
    }
}

/// What a [`ProblemKind`] says.
pub enum KindView {
    /// A file with no still.
    UnpairedFile(Seq<char>),
    /// Field, file, why.
    NotUsableMedia(Seq<char>, Seq<char>, Seq<char>),
    /// Field, value, what was expected.
    UnusableSetting(Seq<char>, Seq<char>, Seq<char>),
    /// A still no row names.
    UnlistedImage(Seq<char>),
    /// Undersized, measured, smallest scene, its width and height, the
    /// frame's width and height, and the size that fits every still.
    UndersizedSources(nat, nat, Seq<char>, u32, u32, u32, u32, Option<u32>),
}

impl View for ProblemKind {
    type V = KindView;

    open spec fn view(&self) -> KindView {
        match self {
            ProblemKind::UnpairedFile { value } => KindView::UnpairedFile(value@),
            ProblemKind::NotUsableMedia { field, value, detail } => KindView::NotUsableMedia(
                field@,
                value@,
                detail@,
            ),
            ProblemKind::UnusableSetting { field, value, expected } => KindView::UnusableSetting(
                field@,
                value@,
                expected@,
            ),
            ProblemKind::UnlistedImage { value } => KindView::UnlistedImage(value@),
            ProblemKind::UndersizedSources {
                scenes,
                total,
                smallest,
                width,
                height,
                out_width,
                out_height,
                native_short_edge,
            } => KindView::UndersizedSources(
                *scenes as nat,
                *total as nat,
                smallest@,
                *width,
                *height,
                *out_width,
                *out_height,
                *native_short_edge,
            ),
        }
    }
}

/// What a [`Problem`] says.
pub struct ProblemView {
    /// The scene, if any.
    pub scene: Option<Seq<char>>,
    /// What is wrong.
    pub kind: KindView,
}

impl View for Problem {
    type V = ProblemView;

    open spec fn view(&self) -> ProblemView {
        ProblemView { scene: opt_text(self.scene), kind: self.kind@ }
    }
}

} // verus!

verus! {

/// The project could not be read at all.
#[derive(Debug, Clone, PartialEq, Eq)]
pub enum ImportError {
    /// The root does not exist, or is not a directory.
    NoProject {
        /// What was asked for.
        path: String,
    },
    /// `project.yaml` will not load.
    Settings(settings::SettingsError),
    /// The rows will not load.
    Rows(rows::RowsError),
}

/// What an import failure says.
pub open spec fn import_message(e: ImportError) -> Seq<char> {
    match e {
        ImportError::NoProject { path } => path@ + " is not a project folder"@,
        ImportError::Settings(s) => settings::settings_message(s),
        ImportError::Rows(r) => rows::rows_message(r),
    }
}

impl ImportError {
    /// The failure in words.
    pub fn message(&self) -> (r: String)
        ensures
            r@ == import_message(*self),
    {
        match self {
            ImportError::NoProject { path } => {
                let mut s = crate::text::owned(path.as_str());
                s.append(" is not a project folder");
                s
            },
            ImportError::Settings(e) => e.message(),
            ImportError::Rows(e) => e.message(),
        }
    }
}

} // verus!

verus! {

/// A file size as an operator reads it: bytes below a kilobyte, whole
/// kilobytes below a megabyte, and megabytes to one decimal place above —
/// so nothing below a megabyte is ever called zero.
pub open spec fn human_size_of(bytes: nat) -> Seq<char> {
    if bytes < 1024 {
        crate::text::decimal(bytes) + " bytes"@
    } else if bytes < 1048576 {
        crate::text::decimal(bytes / 1024) + " KB"@
    } else {
        crate::text::one_decimal_of(crate::text::tenths_of(bytes, 1048576)) + " MB"@
    }
}

/// A file size in words.
pub fn human_size(bytes: u64) -> (r: String)
    ensures
        r@ == human_size_of(bytes as nat),
{
    let mut s = if bytes < 1024 {
        let mut s = crate::text::decimal_string(bytes);
        s.append(" bytes");
        return s;
    } else if bytes < 1048576 {
        let mut s = crate::text::decimal_string(bytes / 1024);
        s.append(" KB");
        return s;
    } else {
        crate::text::one_decimal(bytes, 1048576)
    };
    s.append(" MB");
    s
}

} // verus!

verus! {

/// Where a problem sorts: project-wide ones first, then by the row of the
/// scene it names — the first row whose trimmed id is that scene's — and a
/// scene no row names last.
pub open spec fn problem_rank(p: ProblemView, ids: Seq<Seq<char>>) -> (nat, nat) {
    match p.scene {
        None => (0, 0),
        Some(id) => (
            1,
            match first_trimmed(ids, id) {
                Some(k) => k as nat,
                None => usize::MAX as nat,
            },
        ),
    }
}

/// The first of `ids` that reads `id` once trimmed.
pub open spec fn first_trimmed(ids: Seq<Seq<char>>, id: Seq<char>) -> Option<int>
    decreases ids.len(),
{
    if ids.len() == 0 {
        None
    } else if crate::text::trimmed(ids[0]) == id {
        Some(0)
    } else {
        match first_trimmed(ids.drop_first(), id) {
            Some(k) => Some(k + 1),
            None => None,
        }
    }
}

/// Whether rank `a` comes no later than rank `b`.
pub open spec fn rank_le(a: (nat, nat), b: (nat, nat)) -> bool {
    a.0 < b.0 || (a.0 == b.0 && a.1 <= b.1)
}

/// A problem's place in the report.
pub struct Rank(pub u64, pub u64);

impl SortKey for Rank {
    open spec fn key_le(self, other: Self) -> bool {
        self.0 < other.0 || (self.0 == other.0 && self.1 <= other.1)
    }

    proof fn lemma_key_order() {
    }

    fn le(&self, other: &Self) -> (r: bool) {
        self.0 < other.0 || (self.0 == other.0 && self.1 <= other.1)
    }
}

/// The views of problems.
pub open spec fn problem_views(ps: Seq<Problem>) -> Seq<ProblemView> {
    ps.map_values(|p: Problem| p@)
}

/// `out` is `inp` stably sorted by rank against the rows `ids`.
pub open spec fn by_scene(out: Seq<ProblemView>, inp: Seq<ProblemView>, ids: Seq<Seq<char>>) -> bool {
    exists|order: Seq<usize>|
        #![trigger crate::order::is_permutation(order, inp.len())]
        {
            &&& crate::order::is_permutation(order, inp.len())
            &&& out.len() == inp.len()
            &&& forall|p: int| 0 <= p < out.len() ==> #[trigger] out[p] == inp[order[p] as int]
            &&& forall|p: int, q: int|
                #![trigger out[p], out[q]]
                0 <= p < q < out.len() ==> rank_le(problem_rank(out[p], ids), problem_rank(out[q], ids))
                    && (rank_le(problem_rank(out[q], ids), problem_rank(out[p], ids)) ==> order[p]
                    < order[q])
        }
}

fn first_row(drafts: &Vec<SceneDraft>, id: &str) -> (r: Option<usize>)
    ensures
        ({
            let ids = drafts@.map_values(|d: SceneDraft| d.id@);
            match r {
                Some(k) => first_trimmed(ids, id@) == Some(k as int),
                None => first_trimmed(ids, id@) is None,
            }
        }),
{
    let ghost ids = drafts@.map_values(|d: SceneDraft| d.id@);
    let mut k: usize = 0;
    assert(ids.skip(0) =~= ids);
    while k < drafts.len()
        invariant
            0 <= k <= drafts@.len(),
            ids == drafts@.map_values(|d: SceneDraft| d.id@),
            first_trimmed(ids, id@) == match first_trimmed(ids.skip(k as int), id@) {
                Some(q) => Some(q + k),
                None => None,
            },
        decreases drafts@.len() - k,
    {
        assert(ids.skip(k as int)[0] == drafts@[k as int].id@);
        if crate::text::same_text(crate::text::trim(drafts[k].id.as_str()), id) {
            return Some(k);
        }
        assert(ids.skip(k as int).drop_first() =~= ids.skip(k + 1));
        k = k + 1;
    }
    assert(ids.skip(k as int) =~= Seq::<Seq<char>>::empty());
    None
}

fn copy_problem(p: &Problem) -> (r: Problem)
    ensures
        r@ == p@,
{
    let scene = match &p.scene {
        Some(s) => Some(crate::text::owned(s.as_str())),
        None => None,
    };
    let kind = match &p.kind {
        ProblemKind::UnpairedFile { value } => ProblemKind::UnpairedFile {
            value: crate::text::owned(value.as_str()),
        },
        ProblemKind::NotUsableMedia { field, value, detail } => ProblemKind::NotUsableMedia {
            field: crate::text::owned(field.as_str()),
            value: crate::text::owned(value.as_str()),
            detail: crate::text::owned(detail.as_str()),
        },
        ProblemKind::UnusableSetting { field, value, expected } => ProblemKind::UnusableSetting {
            field: crate::text::owned(field.as_str()),
            value: crate::text::owned(value.as_str()),
            expected: crate::text::owned(expected.as_str()),
        },
        ProblemKind::UnlistedImage { value } => ProblemKind::UnlistedImage {
            value: crate::text::owned(value.as_str()),
        },
        ProblemKind::UndersizedSources {
            scenes,
            total,
            smallest,
            width,
            height,
            out_width,
            out_height,
            native_short_edge,
        } => ProblemKind::UndersizedSources {
            scenes: *scenes,
            total: *total,
            smallest: crate::text::owned(smallest.as_str()),
            width: *width,
            height: *height,
            out_width: *out_width,
            out_height: *out_height,
            native_short_edge: *native_short_edge,
        },
    };
    Problem { scene, kind }
}

/// The problem list grouped by scene, in render order: project-wide
/// problems first, then each row's, and within one scene the order the
/// stages found them in.
pub fn order_by_scene(problems: &Vec<Problem>, drafts: &Vec<SceneDraft>) -> (r: Vec<Problem>)
    ensures
        by_scene(problem_views(r@), problem_views(problems@), drafts@.map_values(|d: SceneDraft| d.id@)),
{
    let ghost ids = drafts@.map_values(|d: SceneDraft| d.id@);
    let ghost pv = problem_views(problems@);
    let mut keys: Vec<Rank> = Vec::new();
    let mut i: usize = 0;
    while i < problems.len()
        invariant
            0 <= i <= problems@.len(),
            ids == drafts@.map_values(|d: SceneDraft| d.id@),
            pv == problem_views(problems@),
            keys@.len() == i,
            forall|k: int|
                0 <= k < i ==> ((#[trigger] keys@[k]).0 as nat, keys@[k].1 as nat) == problem_rank(
                    pv[k],
                    ids,
                ),
        decreases problems@.len() - i,
    {
        let key = match &problems[i].scene {
            None => Rank(0, 0),
            Some(id) => match first_row(drafts, id.as_str()) {
                Some(k) => Rank(1, k as u64),
                None => Rank(1, usize::MAX as u64),
            },
        };
        keys.push(key);
        i = i + 1;
    }
    let order = crate::order::stable_order(&keys);
    let mut r: Vec<Problem> = Vec::new();
    let mut k: usize = 0;
    while k < order.len()
        invariant
            crate::order::is_permutation(order@, problems@.len()),
            pv == problem_views(problems@),
            0 <= k <= order@.len(),
            r@.len() == k,
            forall|p: int| 0 <= p < k ==> (#[trigger] r@[p])@ == pv[order@[p] as int],
        decreases order@.len() - k,
    {
        r.push(copy_problem(&problems[order[k]]));
        k = k + 1;
    }
    proof {
        let out = problem_views(r@);
        assert forall|p: int| 0 <= p < out.len() implies #[trigger] out[p] == pv[order@[p] as int] by {
            assert(r@[p]@ == pv[order@[p] as int]);
        }
        assert forall|p: int, q: int|
            #![trigger out[p], out[q]]
            0 <= p < q < out.len() implies rank_le(problem_rank(out[p], ids), problem_rank(out[q], ids))
            && (rank_le(problem_rank(out[q], ids), problem_rank(out[p], ids)) ==> order@[p]
            < order@[q]) by {
            assert(keys@[order@[p] as int].key_le(keys@[order@[q] as int]));
            assert(r@[p]@ == pv[order@[p] as int]);
            assert(r@[q]@ == pv[order@[q] as int]);
            assert(keys@[order@[q] as int].key_le(keys@[order@[p] as int]) ==> order@[p] < order@[q]);
        }
        assert(crate::order::is_permutation(order@, pv.len()));
        assert(by_scene(out, pv, ids));
    }
    r
}

/// A file at the top of a manifest-mode project, and whether some row's
/// image cell names it.
#[derive(Debug, Clone, PartialEq, Eq)]
pub struct RootFile {
    /// Its name.
    pub name: String,
    /// Whether a row names it.
    pub listed: bool,
}

/// Whether a top-level file is a still no row names: not hidden, an image
/// by its extension, and not listed.
pub open spec fn unlisted_still(f: RootFile) -> bool {
    !crate::text::has_prefix(f.name@, "."@) && !f.listed && match crate::text::extension_of(f.name@) {
        Some(e) => rows::is_image_extension(crate::text::ascii_lowered(e)),
        None => false,
    }
}

/// The names of the unlisted stills among `files`, in the order given.
pub open spec fn unlisted_names(files: Seq<RootFile>) -> Seq<Seq<char>>
    decreases files.len(),
{
    if files.len() == 0 {
        Seq::empty()
    } else {
        let rest = unlisted_names(files.drop_last());
        if unlisted_still(files.last()) {
            rest.push(files.last().name@)
        } else {
            rest
        }
    }
}

/// The stills at the top of a manifest-mode project that no row mentions,
/// as warnings in text order of their names: the manifest is the complete
/// list of scenes, so such a still will not be rendered.
pub fn unlisted_images(files: &Vec<RootFile>) -> (r: Vec<Problem>)
    ensures
        crate::arrange::text_sorted(
            r@.map_values(
                |p: Problem|
                    match p.kind {
                        ProblemKind::UnlistedImage { value } => value@,
                        _ => Seq::empty(),
                    },
            ),
            unlisted_names(files@),
        ),
        forall|i: int|
            0 <= i < r@.len() ==> (#[trigger] r@[i]).scene is None && r@[i].kind is UnlistedImage,
{
    let mut names: Vec<String> = Vec::new();
    let mut i: usize = 0;
    assert(files@.take(0) =~= Seq::<RootFile>::empty());
    while i < files.len()
        invariant
            0 <= i <= files@.len(),
            crate::text::string_views(names@) == unlisted_names(files@.take(i as int)),
        decreases files@.len() - i,
    {
        assert(files@.take(i + 1).drop_last() =~= files@.take(i as int));
        assert(files@.take(i + 1).last() == files@[i as int]);
        let f = &files[i];
        let image = match crate::text::extension(f.name.as_str()) {
            Some(e) => rows::image_extension(crate::text::to_ascii_lowercase(e).as_str()),
            None => false,
        };
        if !crate::text::starts_with(f.name.as_str(), ".") && !f.listed && image {
            let ghost before = crate::text::string_views(names@);
            names.push(crate::text::owned(f.name.as_str()));
            assert(crate::text::string_views(names@) =~= before.push(f.name@));
        }
        i = i + 1;
    }
    assert(files@.take(files@.len() as int) =~= files@);
    let sorted = crate::arrange::sorted_text(&names);
    let mut r: Vec<Problem> = Vec::new();
    let mut k: usize = 0;
    while k < sorted.len()
        invariant
            0 <= k <= sorted@.len(),
            r@.len() == k,
            forall|p: int|
                0 <= p < k ==> (#[trigger] r@[p]).scene is None && (r@[p].kind matches ProblemKind::UnlistedImage {
                    value: v,
                } && v@ == sorted@[p]@),
        decreases sorted@.len() - k,
    {
        r.push(
            Problem {
                scene: None,
                kind: ProblemKind::UnlistedImage { value: crate::text::owned(sorted[k].as_str()) },
            },
        );
        k = k + 1;
    }
    proof {
        let got = r@.map_values(
            |p: Problem|
                match p.kind {
                    ProblemKind::UnlistedImage { value } => value@,
                    _ => Seq::empty(),
                },
        );
        assert(got =~= crate::text::string_views(sorted@));
    }
    r
}

/// How many probes run at once: twice the render pool's default, since a
/// probe is a short subprocess that spends its life waiting.
pub fn probe_jobs_for(default_jobs: usize) -> (r: usize)
    ensures
        r == (if default_jobs * 2 > usize::MAX {
            usize::MAX as int
        } else if default_jobs * 2 < 1 {
            1
        } else {
            default_jobs * 2
        }),
{
    let doubled = match default_jobs.checked_mul(2) {
        Some(n) => n,
        None => usize::MAX,
    };
    if doubled < 1 {
        1
    } else {
        doubled
    }
}

} // verus!

verus! {

/// How one measured still sits in the output frame, as the probe's geometry
/// answers for that frame.
#[derive(Debug, Clone, Copy, PartialEq, Eq, Structural)]
pub struct StillFit {
    /// Whether it covers the frame in both axes.
    pub fills: bool,
    /// The largest legal short edge, in the frame's aspect, at which it
    /// renders at its own detail; zero where there is none.
    pub native_short_edge: u32,
    /// Its width as displayed.
    pub width: u32,
    /// Its height as displayed.
    pub height: u32,
}

/// One scene, and how its still fits, where the still was measured.
#[derive(Debug, Clone, PartialEq, Eq)]
pub struct SceneFit {
    /// The scene's id.
    pub id: String,
    /// The fit, or nothing when nothing was measured.
    pub fit: Option<StillFit>,
}

/// Whether scene `s` was measured and does not cover the frame.
pub open spec fn undersized(s: SceneFit) -> bool {
    s.fit matches Some(f) && !f.fills
}

/// How many of `ss` were measured.
pub open spec fn measured_count(ss: Seq<SceneFit>) -> nat
    decreases ss.len(),
{
    if ss.len() == 0 {
        0
    } else {
        measured_count(ss.drop_last()) + if ss.last().fit is Some {
            1nat
        } else {
            0nat
        }
    }
}

/// How many of `ss` were measured and do not cover the frame.
pub open spec fn undersized_count(ss: Seq<SceneFit>) -> nat
    decreases ss.len(),
{
    if ss.len() == 0 {
        0
    } else {
        undersized_count(ss.drop_last()) + if undersized(ss.last()) {
            1nat
        } else {
            0nat
        }
    }
}

/// The native short edge of scene `i` of `ss`, which was measured.
pub open spec fn native_of(ss: Seq<SceneFit>, i: int) -> u32 {
    ss[i].fit->Some_0.native_short_edge
}

/// `w` is the undersized scene furthest from covering the frame: no
/// undersized scene has a smaller native short edge, and none before it has
/// the same one.
pub open spec fn is_worst(ss: Seq<SceneFit>, w: int) -> bool {
    &&& 0 <= w < ss.len()
    &&& undersized(ss[w])
    &&& forall|j: int| 0 <= j < ss.len() && undersized(ss[j]) ==> native_of(ss, j) >= native_of(ss, w)
    &&& forall|j: int| 0 <= j < w && undersized(ss[j]) ==> native_of(ss, j) > native_of(ss, w)
}

/// `m` is the smallest native short edge among the measured scenes.
pub open spec fn is_least_native(ss: Seq<SceneFit>, m: u32) -> bool {
    &&& exists|j: int| 0 <= j < ss.len() && ss[j].fit is Some && native_of(ss, j) == m
    &&& forall|j: int| 0 <= j < ss.len() && ss[j].fit is Some ==> native_of(ss, j) >= m
}

proof fn lemma_counts_step(ss: Seq<SceneFit>, i: int)
    requires
        0 <= i < ss.len(),
    ensures
        measured_count(ss.take(i + 1)) == measured_count(ss.take(i)) + if ss[i].fit is Some {
            1nat
        } else {
            0nat
        },
        undersized_count(ss.take(i + 1)) == undersized_count(ss.take(i)) + if undersized(ss[i]) {
            1nat
        } else {
            0nat
        },
{
    assert(ss.take(i + 1).drop_last() =~= ss.take(i));
}

proof fn lemma_undersized_are_measured(ss: Seq<SceneFit>)
    ensures
        undersized_count(ss) <= measured_count(ss),
    decreases ss.len(),
{
    if ss.len() > 0 {
        lemma_undersized_are_measured(ss.drop_last());
    }
}

proof fn lemma_none_undersized(ss: Seq<SceneFit>)
    requires
        forall|j: int| 0 <= j < ss.len() ==> !undersized(#[trigger] ss[j]),
    ensures
        undersized_count(ss) == 0,
    decreases ss.len(),
{
    if ss.len() > 0 {
        let rest = ss.drop_last();
        assert forall|j: int| 0 <= j < rest.len() implies !undersized(#[trigger] rest[j]) by {
            assert(rest[j] == ss[j]);
        }
        lemma_none_undersized(rest);
    }
}

/// Whether the stills are smaller than the frame they render into, as one
/// problem for the whole project: how many measured stills do not cover the
/// frame, out of how many were measured; the one furthest from covering it
/// (the first of any that tie), at its displayed size; and the largest
/// short edge at which every measured still renders at its own detail, where
/// there is one. Nothing when no measured still is undersized — including
/// when nothing was measured, since the absence of a measurement is not a
/// small photograph.
pub fn undersized_sources(scenes: &Vec<SceneFit>, out_width: u32, out_height: u32) -> (r: Option<ProblemKind>)
    ensures
        ({
            let ss = scenes@;
            match r {
                None => undersized_count(ss) == 0,
                Some(k) => undersized_count(ss) > 0 && exists|w: int, m: u32|
                    #![trigger is_worst(ss, w), is_least_native(ss, m)]
                    is_worst(ss, w) && is_least_native(ss, m) && k@ == KindView::UndersizedSources(
                        undersized_count(ss),
                        measured_count(ss),
                        ss[w].id@,
                        ss[w].fit->Some_0.width,
                        ss[w].fit->Some_0.height,
                        out_width,
                        out_height,
                        if m > 0 {
                            Some(m)
                        } else {
                            None
                        },
                    ),
            }
        }),
{
    let ghost ss = scenes@;
    let mut measured: usize = 0;
    let mut small: usize = 0;
    let mut worst: Option<usize> = None;
    let mut least: Option<u32> = None;
    let mut i: usize = 0;
    while i < scenes.len()
        invariant
            0 <= i <= ss.len(),
            ss == scenes@,
            measured as nat == measured_count(ss.take(i as int)),
            small as nat == undersized_count(ss.take(i as int)),
            measured <= i,
            small <= i,
            worst is Some ==> small > 0,
            match worst {
                Some(w) => {
                    &&& w < i
                    &&& undersized(ss[w as int])
                    &&& forall|j: int| 0 <= j < i && undersized(ss[j]) ==> native_of(ss, j) >= native_of(ss, w as int)
                    &&& forall|j: int| 0 <= j < w && undersized(ss[j]) ==> native_of(ss, j) > native_of(ss, w as int)
                },
                None => forall|j: int| 0 <= j < i ==> !undersized(#[trigger] ss[j]),
            },
            match least {
                Some(m) => {
                    &&& exists|j: int| 0 <= j < i && ss[j].fit is Some && native_of(ss, j) == m
                    &&& forall|j: int| 0 <= j < i && ss[j].fit is Some ==> native_of(ss, j) >= m
                },
                None => forall|j: int| 0 <= j < i ==> (#[trigger] ss[j]).fit is None,
            },
        decreases ss.len() - i,
    {
        proof {
            lemma_counts_step(ss, i as int);
        }
        match scenes[i].fit {
            Some(f) => {
                measured = measured + 1;
                assert(native_of(ss, i as int) == f.native_short_edge);
                least = match least {
                    Some(m) => {
                        if f.native_short_edge < m {
                            Some(f.native_short_edge)
                        } else {
                            let ghost k = choose|j: int|
                                0 <= j < i && ss[j].fit is Some && native_of(ss, j) == m;
                            assert(0 <= k < i + 1 && ss[k].fit is Some && native_of(ss, k) == m);
                            Some(m)
                        }
                    },
                    None => Some(f.native_short_edge),
                };
                if !f.fills {
                    small = small + 1;
                    worst = match worst {
                        Some(w) => {
                            let wf = scenes[w].fit.unwrap();
                            if f.native_short_edge < wf.native_short_edge {
                                Some(i)
                            } else {
                                Some(w)
                            }
                        },
                        None => Some(i),
                    };
                }
            },
            None => {},
        }
        i = i + 1;
    }
    assert(ss.take(ss.len() as int) =~= ss);
    match worst {
        None => {
            proof {
                lemma_none_undersized(ss);
            }
            None
        },
        Some(w) => {
            proof {
                lemma_undersized_are_measured(ss);
            }
            let wf = scenes[w].fit.unwrap();
            let m = least.unwrap();
            let kind = ProblemKind::UndersizedSources {
                scenes: small,
                total: measured,
                smallest: crate::text::owned(scenes[w].id.as_str()),
                width: wf.width,
                height: wf.height,
                out_width,
                out_height,
                native_short_edge: if m > 0 {
                    Some(m)
                } else {
                    None
                },
            };
            assert(is_worst(ss, w as int));
            assert(is_least_native(ss, m));
            Some(kind)
        },
    }
}

} // verus!

verus! {

/// The draft a validated scene renders from: the first row whose trimmed id
/// is the scene's, provided that row's still resolved and, for a scene
/// narrated by a file, its recording resolved too.
pub open spec fn paired_row(
    ids: Seq<Seq<char>>,
    has_image: Seq<bool>,
    has_audio: Seq<bool>,
    id: Seq<char>,
    needs_audio: bool,
) -> Option<int> {
    match first_trimmed(ids, id) {
        Some(k) => if has_image[k] && (!needs_audio || has_audio[k]) {
            Some(k)
        } else {
            None
        },
        None => None,
    }
}

/// Pair each validated scene with the row it came from. `has_image[k]` and
/// `has_audio[k]` say whether row `k`'s still and recording resolved;
/// `needs_audio[i]` whether scene `i` is narrated by a file. A scene whose
/// still, or whose needed recording, did not resolve has its problem on the
/// list already, and is not rendered.
pub fn pair_scenes(
    drafts: &Vec<SceneDraft>,
    has_image: &Vec<bool>,
    has_audio: &Vec<bool>,
    scene_ids: &Vec<String>,
    needs_audio: &Vec<bool>,
) -> (r: Vec<Option<usize>>)
    requires
        has_image@.len() == drafts@.len(),
        has_audio@.len() == drafts@.len(),
        needs_audio@.len() == scene_ids@.len(),
    ensures
        r@.len() == scene_ids@.len(),
        forall|i: int|
            0 <= i < r@.len() ==> match #[trigger] r@[i] {
                Some(k) => paired_row(
                    drafts@.map_values(|d: SceneDraft| d.id@),
                    has_image@,
                    has_audio@,
                    scene_ids@[i]@,
                    needs_audio@[i],
                ) == Some(k as int),
                None => paired_row(
                    drafts@.map_values(|d: SceneDraft| d.id@),
                    has_image@,
                    has_audio@,
                    scene_ids@[i]@,
                    needs_audio@[i],
                ) is None,
            },
{
    let ghost ids = drafts@.map_values(|d: SceneDraft| d.id@);
    let mut r: Vec<Option<usize>> = Vec::new();
    let mut i: usize = 0;
    while i < scene_ids.len()
        invariant
            0 <= i <= scene_ids@.len(),
            r@.len() == i,
            ids == drafts@.map_values(|d: SceneDraft| d.id@),
            has_image@.len() == drafts@.len(),
            has_audio@.len() == drafts@.len(),
            needs_audio@.len() == scene_ids@.len(),
            forall|j: int|
                0 <= j < i ==> match #[trigger] r@[j] {
                    Some(k) => paired_row(ids, has_image@, has_audio@, scene_ids@[j]@, needs_audio@[j])
                        == Some(k as int),
                    None => paired_row(ids, has_image@, has_audio@, scene_ids@[j]@, needs_audio@[j]) is None,
                },
        decreases scene_ids@.len() - i,
    {
        let found = match first_row(drafts, scene_ids[i].as_str()) {
            Some(k) => {
                proof {
                    lemma_first_trimmed_in_range(ids, scene_ids@[i as int]@);
                }
                if has_image[k] && (!needs_audio[i] || has_audio[k]) {
                    Some(k)
                } else {
                    None
                }
            },
            None => None,
        };
        r.push(found);
        i = i + 1;
    }
    r
}

proof fn lemma_first_trimmed_in_range(ids: Seq<Seq<char>>, id: Seq<char>)
    ensures
        first_trimmed(ids, id) matches Some(k) ==> 0 <= k < ids.len(),
    decreases ids.len(),
{
    if ids.len() > 0 {
        lemma_first_trimmed_in_range(ids.drop_first(), id);
    }
}

/// The project a folder is: the folder as the system resolved it, when it
/// could resolve it and it is a folder; otherwise the refusal naming what
/// was asked for, or what it resolved to.
pub fn project_root_of(asked: &str, resolved: Option<String>, is_folder: bool) -> (r: Result<String, ImportError>)
    ensures
        match resolved {
            None => r matches Err(ImportError::NoProject { path: p }) && p@ == asked@,
            Some(c) => if is_folder {
                r matches Ok(root) && root@ == c@
            } else {
                r matches Err(ImportError::NoProject { path: p }) && p@ == c@
            },
        },
{
    match resolved {
        None => Err(ImportError::NoProject { path: crate::text::owned(asked) }),
        Some(c) => if is_folder {
            Ok(c)
        } else {
            Err(ImportError::NoProject { path: c })
        },
    }
}

} // verus!

verus! {

/// The refusals of reading a project, in the order they are met: a folder
/// that is not a project, then a settings file that will not load, then
/// rows that will not load. The first outcome that refuses is the answer;
/// only when none does is there a project to judge.
pub fn first_refusal<S, R>(
    root: Result<String, ImportError>,
    loaded: Result<S, settings::SettingsError>,
    rows: Result<R, rows::RowsError>,
) -> (r: Result<(String, S, R), ImportError>)
    ensures
        match root {
            Err(e) => r == Err::<(String, S, R), ImportError>(e),
            Ok(p) => match loaded {
                Err(e) => r == Err::<(String, S, R), ImportError>(ImportError::Settings(e)),
                Ok(s) => match rows {
                    Err(e) => r == Err::<(String, S, R), ImportError>(ImportError::Rows(e)),
                    Ok(v) => r == Ok::<(String, S, R), ImportError>((p, s, v)),
                },
            },
        },
{
    let p = match root {
        Err(e) => return Err(e),
        Ok(p) => p,
    };
    let s = match loaded {
        Err(e) => return Err(ImportError::Settings(e)),
        Ok(s) => s,
    };
    match rows {
        Err(e) => Err(ImportError::Rows(e)),
        Ok(v) => Ok((p, s, v)),
    }
}

} // verus!
