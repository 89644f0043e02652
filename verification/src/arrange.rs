//! Removing a scene, and moving one somewhere else.
//!
//! Under the folder convention a scene is every file sharing a numeric stem:
//! `007.jpeg`, `007.txt`, `007.m4a`. Render order is the order of those
//! numbers, so the name is the position, and moving a scene means renaming
//! files.
//!
//! - **Only where the convention holds.** If a still's stem is not a number,
//!   the project's order came from somewhere else and is not rewritten.
//! - **Nothing is deleted.** A removed scene's files move to `removed/`.
//! - **Renaming is two passes.** Everything moves to a parked name first —
//!   one that records where it came from and where it is going — and then
//!   to its final one, so no rename lands on a file that is still wanted and
//!   an interrupted run can be finished or undone.
//! - **The whole scene moves together.** A still and its script and its
//!   recording share a stem, and are renamed as a set.

use vstd::prelude::*;
use crate::ingest::{Kind, kind_of, kind_of_path, plural_of};
use crate::natural::{TextKey, text_le};
use crate::order::{SortKey, is_permutation, is_stably_sorted, stable_order};
use crate::text::{
    decimal, decimal_string, extension, extension_of, file_name, file_name_of, file_stem,
    file_stem_of, owned, padded_decimal, padded_decimal_string, parse_usize, parsed_usize,
    same_text, string_views, trim, trimmed, find, occurs_at, has_part, has_prefix, has_suffix,
    starts_with, ends_with, joined, rfind_char, find_char, last_index_of, first_index_of,
    lemma_last_index_of, lemma_first_index_of, lemma_last_index_of_is_at,
};

verus! {

/// Where a removed scene goes: inside the project, and never scanned.
pub const REMOVED_DIR: &'static str = "removed";

/// The smallest number of digits a renumbered scene gets.
const MIN_WIDTH: usize = 3;

/// Why an arrangement did not happen.
#[derive(Debug, Clone, PartialEq, Eq)]
pub enum ArrangeError {
    /// A still in this project is not numbered, so the order is not ours to
    /// rewrite.
    NotNumbered {
        /// The file that is not `001.jpg`-shaped.
        file: String,
    },
    /// There is no scene at that position.
    NoSuchScene {
        /// What was asked for.
        id: String,
        /// How many there are.
        count: usize,
    },
    /// The folder could not be read or written.
    Io {
        /// What we were doing.
        doing: String,
        /// Which path.
        path: String,
        /// The operating system's reason.
        detail: String,
    },
}

/// The name a refusal shows for a file: its last component, or the whole
/// path where it has none.
pub open spec fn shown_name(file: Seq<char>) -> Seq<char> {
    match file_name_of(file) {
        Some(n) => n,
        None => file,
    }
}

/// What each refusal says.
pub open spec fn arrange_message(e: ArrangeError) -> Seq<char> {
    match e {
        ArrangeError::NotNumbered { file } => shown_name(file@)
            + " is not a numbered scene, so this project's order is not spoonstill's to rewrite. Rename its stills 001, 002, … (or use `still add`, which does), and the order becomes editable."@,
        ArrangeError::NoSuchScene { id, count } => "there is no scene "@ + id@
            + " — this project has "@ + decimal(count as nat) + " of them"@,
        ArrangeError::Io { doing, path, detail } => doing@ + " "@ + path@ + ": "@ + detail@,
    }
}

impl ArrangeError {
    /// The refusal in words.
    pub fn message(&self) -> (r: String)
        ensures
            r@ == arrange_message(*self),
    {
        match self {
            ArrangeError::NotNumbered { file } => {
                let mut s = match file_name(file.as_str()) {
                    Some(n) => owned(n),
                    None => owned(file.as_str()),
                };
                s.append(
                    " is not a numbered scene, so this project's order is not spoonstill's to rewrite. Rename its stills 001, 002, … (or use `still add`, which does), and the order becomes editable.",
                );
                s
            },
            ArrangeError::NoSuchScene { id, count } => {
                let mut s = owned("there is no scene ");
                s.append(id.as_str());
                s.append(" — this project has ");
                s.append(decimal_string(*count as u64).as_str());
                s.append(" of them");
                s
            },
            ArrangeError::Io { doing, path, detail } => {
                let mut s = owned(doing.as_str());
                s.append(" ");
                s.append(path.as_str());
                s.append(": ");
                s.append(detail.as_str());
                s
            },
        }
    }
}

/// What one scene is made of: the still, and whatever shares its stem.
#[derive(Debug, Clone, PartialEq, Eq)]
pub struct Scene {
    /// The numeric stem, as written — `007`.
    pub id: String,
    /// The number it sorts by.
    pub number: usize,
    /// Every file that belongs to it, still first.
    pub files: Vec<String>,
}

/// What a [`Scene`] says.
pub struct SceneView {
    /// The stem.
    pub id: Seq<char>,
    /// The number.
    pub number: nat,
    /// The files, still first.
    pub files: Seq<Seq<char>>,
}

impl View for Scene {
    type V = SceneView;

    open spec fn view(&self) -> SceneView {
        SceneView { id: self.id@, number: self.number as nat, files: string_views(self.files@) }
    }
}

/// The views of scenes.
pub open spec fn scene_views(s: Seq<Scene>) -> Seq<SceneView> {
    s.map_values(|x: Scene| x@)
}

/// A copy of a scene.
pub fn copy_scene(s: &Scene) -> (r: Scene)
    ensures
        r@ == s@,
{
    let mut files: Vec<String> = Vec::new();
    let mut i: usize = 0;
    while i < s.files.len()
        invariant
            0 <= i <= s.files@.len(),
            string_views(files@) == string_views(s.files@).take(i as int),
        decreases s.files@.len() - i,
    {
        let ghost before = string_views(files@);
        files.push(owned(s.files[i].as_str()));
        assert(string_views(files@) =~= before.push(s.files@[i as int]@));
        assert(string_views(s.files@).take(i + 1) =~= string_views(s.files@).take(i as int).push(
            s.files@[i as int]@,
        ));
        i = i + 1;
    }
    assert(string_views(s.files@).take(s.files@.len() as int) =~= string_views(s.files@));
    Scene { id: owned(s.id.as_str()), number: s.number, files }
}

/// A copy of a list of scenes.
pub fn copy_scenes(s: &Vec<Scene>) -> (r: Vec<Scene>)
    ensures
        scene_views(r@) == scene_views(s@),
{
    let mut r: Vec<Scene> = Vec::new();
    let mut i: usize = 0;
    while i < s.len()
        invariant
            0 <= i <= s@.len(),
            scene_views(r@) == scene_views(s@).take(i as int),
        decreases s@.len() - i,
    {
        let ghost before = scene_views(r@);
        r.push(copy_scene(&s[i]));
        assert(scene_views(r@) =~= before.push(s@[i as int]@));
        assert(scene_views(s@).take(i + 1) =~= scene_views(s@).take(i as int).push(s@[i as int]@));
        i = i + 1;
    }
    assert(scene_views(s@).take(s@.len() as int) =~= scene_views(s@));
    r
}

} // verus!

verus! {

/// `out` is `inp` sorted as text.
pub open spec fn text_sorted(out: Seq<Seq<char>>, inp: Seq<Seq<char>>) -> bool {
    exists|order: Seq<usize>|
        #![trigger is_permutation(order, inp.len())]
        {
            &&& is_permutation(order, inp.len())
            &&& out.len() == inp.len()
            &&& forall|p: int| 0 <= p < out.len() ==> #[trigger] out[p] == inp[order[p] as int]
            &&& forall|p: int, q: int|
                #![trigger out[p], out[q]]
                0 <= p < q < out.len() ==> text_le(out[p], out[q])
        }
}

/// A path's stem, or nothing.
pub open spec fn stem_or_empty(p: Seq<char>) -> Seq<char> {
    match file_stem_of(p) {
        Some(s) => s,
        None => Seq::empty(),
    }
}

/// A still whose stem is not a number.
pub open spec fn unnumbered_still(p: Seq<char>) -> bool {
    kind_of_path(p) == Some(Kind::Image) && parsed_usize(stem_or_empty(p)) is None
}

/// Whether `p` goes with the still `still`, whose stem is `stem`: another
/// file with that stem that is a recording or a script.
pub open spec fn goes_with(p: Seq<char>, still: Seq<char>, stem: Seq<char>) -> bool {
    &&& p != still
    &&& file_stem_of(p) == Some(stem)
    &&& (kind_of_path(p) == Some(Kind::Audio) || kind_of_path(p) == Some(Kind::Text))
}

/// The files among `files` that go with `still`, in order.
pub open spec fn members(files: Seq<Seq<char>>, still: Seq<char>) -> Seq<Seq<char>>
    decreases files.len(),
{
    if files.len() == 0 {
        Seq::empty()
    } else {
        let rest = members(files.drop_last(), still);
        if goes_with(files.last(), still, stem_or_empty(still)) {
            rest.push(files.last())
        } else {
            rest
        }
    }
}

/// The scenes the stills among `files` make, in the order the stills come.
pub open spec fn raw_scenes(files: Seq<Seq<char>>, all: Seq<Seq<char>>) -> Seq<SceneView>
    decreases files.len(),
{
    if files.len() == 0 {
        Seq::empty()
    } else {
        let rest = raw_scenes(files.drop_last(), all);
        let still = files.last();
        if kind_of_path(still) == Some(Kind::Image) {
            rest.push(
                SceneView {
                    id: stem_or_empty(still),
                    number: match parsed_usize(stem_or_empty(still)) {
                        Some(n) => n,
                        None => 0,
                    },
                    files: seq![still] + members(all, still),
                },
            )
        } else {
            rest
        }
    }
}

/// `out` is `inp` stably sorted by scene number.
pub open spec fn number_sorted(out: Seq<SceneView>, inp: Seq<SceneView>) -> bool {
    exists|order: Seq<usize>|
        #![trigger is_permutation(order, inp.len())]
        {
            &&& is_permutation(order, inp.len())
            &&& out.len() == inp.len()
            &&& forall|p: int| 0 <= p < out.len() ==> #[trigger] out[p] == inp[order[p] as int]
            &&& forall|p: int, q: int|
                #![trigger out[p], out[q]]
                0 <= p < q < out.len() ==> out[p].number <= out[q].number && (out[p].number
                    == out[q].number ==> order[p] < order[q])
        }
}

/// What the scan of a folder holding `files` finds: the first unnumbered
/// still in text order refuses it; otherwise every still with what shares its
/// stem, in order of number.
pub open spec fn scan_result(sorted: Seq<Seq<char>>, r: Result<Seq<SceneView>, Seq<char>>) -> bool {
    match r {
        Err(file) => exists|p: int|
            0 <= p < sorted.len() && sorted[p] == file && unnumbered_still(sorted[p]) && forall|q: int|
                0 <= q < p ==> !unnumbered_still(#[trigger] sorted[q]),
        Ok(v) => (forall|p: int| 0 <= p < sorted.len() ==> !unnumbered_still(#[trigger] sorted[p]))
            && number_sorted(v, raw_scenes(sorted, sorted)),
    }
}

/// The files that go with `still`, among `files`.
fn members_of(files: &Vec<String>, still: &str) -> (r: Vec<String>)
    ensures
        string_views(r@) == members(string_views(files@), still@),
{
    let ghost fv = string_views(files@);
    let stem = match file_stem(still) {
        Some(s) => owned(s),
        None => String::new(),
    };
    assert(stem@ == stem_or_empty(still@));
    let mut r: Vec<String> = Vec::new();
    let mut j: usize = 0;
    assert(fv.take(0) =~= Seq::<Seq<char>>::empty());
    while j < files.len()
        invariant
            0 <= j <= files@.len(),
            fv == string_views(files@),
            stem@ == stem_or_empty(still@),
            string_views(r@) == members(fv.take(j as int), still@),
        decreases files@.len() - j,
    {
        assert(fv.take(j + 1).drop_last() =~= fv.take(j as int));
        assert(fv.take(j + 1).last() == files@[j as int]@);
        let f = files[j].as_str();
        let same_stem = match file_stem(f) {
            Some(s) => same_text(s, stem.as_str()),
            None => false,
        };
        let k = kind_of(f);
        if !same_text(f, still) && same_stem && (k == Some(Kind::Audio) || k == Some(Kind::Text)) {
            let ghost before = string_views(r@);
            r.push(owned(f));
            assert(string_views(r@) =~= before.push(f@));
        }
        j = j + 1;
    }
    assert(fv.take(files@.len() as int) =~= fv);
    r
}

/// `names` sorted as text.
pub fn sorted_text(names: &Vec<String>) -> (r: Vec<String>)
    ensures
        text_sorted(string_views(r@), string_views(names@)),
{
    let mut keys: Vec<TextKey> = Vec::new();
    let mut i: usize = 0;
    while i < names.len()
        invariant
            0 <= i <= names@.len(),
            keys@.len() == i,
            forall|k: int| 0 <= k < i ==> (#[trigger] keys@[k]).0@ == names@[k]@,
        decreases names@.len() - i,
    {
        keys.push(TextKey(owned(names[i].as_str())));
        i = i + 1;
    }
    let order = stable_order(&keys);
    let mut sorted: Vec<String> = Vec::new();
    let mut k: usize = 0;
    while k < order.len()
        invariant
            is_permutation(order@, names@.len()),
            keys@.len() == names@.len(),
            0 <= k <= order@.len(),
            sorted@.len() == k,
            forall|p: int| 0 <= p < k ==> #[trigger] sorted@[p]@ == names@[order@[p] as int]@,
        decreases order@.len() - k,
    {
        sorted.push(owned(names[order[k]].as_str()));
        k = k + 1;
    }
    proof {
        let sv = string_views(sorted@);
        let inp = string_views(names@);
        assert forall|p: int| 0 <= p < sv.len() implies #[trigger] sv[p] == inp[order@[p] as int] by {
            assert(sorted@[p]@ == names@[order@[p] as int]@);
        }
        assert forall|p: int, q: int| #![trigger sv[p], sv[q]] 0 <= p < q < sv.len() implies text_le(
            sv[p],
            sv[q],
        ) by {
            assert(keys@[order@[p] as int].key_le(keys@[order@[q] as int]));
            assert(sorted@[p]@ == names@[order@[p] as int]@);
            assert(sorted@[q]@ == names@[order@[q] as int]@);
        }
        assert(is_permutation(order@, inp.len()));
        assert(text_sorted(sv, inp));
    }
    sorted
}

/// Every scene among the files of a project folder, in render order: each
/// still, numbered by its stem, with the recordings and scripts that share
/// it. A still whose stem is not a number refuses the whole folder, named by
/// the first such in text order.
pub fn scenes(everything: &Vec<String>) -> (r: Result<Vec<Scene>, ArrangeError>)
    ensures
        exists|sorted: Seq<Seq<char>>|
            #[trigger] text_sorted(sorted, string_views(everything@)) && scan_result(
                sorted,
                match r {
                    Ok(v) => Ok(scene_views(v@)),
                    Err(e) => Err(
                        match e {
                            ArrangeError::NotNumbered { file } => file@,
                            _ => Seq::empty(),
                        },
                    ),
                },
            ),
        r matches Err(e) ==> e is NotNumbered,
{
    let sorted = sorted_text(everything);
    let ghost sv = string_views(sorted@);
    let mut raw: Vec<Scene> = Vec::new();
    let mut i: usize = 0;
    assert(sv.take(0) =~= Seq::<Seq<char>>::empty());
    while i < sorted.len()
        invariant
            0 <= i <= sorted@.len(),
            sv == string_views(sorted@),
            text_sorted(sv, string_views(everything@)),
            scene_views(raw@) == raw_scenes(sv.take(i as int), sv),
            forall|q: int| 0 <= q < i ==> !unnumbered_still(#[trigger] sv[q]),
        decreases sorted@.len() - i,
    {
        assert(sv.take(i + 1).drop_last() =~= sv.take(i as int));
        assert(sv.take(i + 1).last() == sv[i as int]);
        let still = sorted[i].as_str();
        if kind_of(still) == Some(Kind::Image) {
            let stem = match file_stem(still) {
                Some(s) => owned(s),
                None => String::new(),
            };
            assert(stem@ == stem_or_empty(still@));
            let number = match parse_usize(stem.as_str()) {
                Some(n) => n,
                None => {
                    let ghost err = sv[i as int];
                    assert(0 <= i < sv.len() && sv[i as int] == err && unnumbered_still(sv[i as int]));
                    let file = owned(still);
                    assert(scan_result(sv, Err(file@)));
                    return Err(ArrangeError::NotNumbered { file });
                },
            };
            let mut files: Vec<String> = Vec::new();
            files.push(owned(still));
            let others = members_of(&sorted, still);
            let mut m: usize = 0;
            let ghost first = string_views(files@);
            assert(first =~= seq![still@]);
            while m < others.len()
                invariant
                    0 <= m <= others@.len(),
                    string_views(files@) == first + string_views(others@).take(m as int),
                decreases others@.len() - m,
            {
                let ghost before = string_views(files@);
                files.push(owned(others[m].as_str()));
                assert(string_views(files@) =~= before.push(others@[m as int]@));
                assert(string_views(others@).take(m + 1) =~= string_views(others@).take(m as int).push(
                    others@[m as int]@,
                ));
                m = m + 1;
            }
            assert(string_views(others@).take(others@.len() as int) =~= string_views(others@));
            let ghost before = scene_views(raw@);
            raw.push(Scene { id: stem, number, files });
            assert(scene_views(raw@) =~= before.push(raw@[raw@.len() - 1]@));
        }
        i = i + 1;
    }
    assert(sv.take(sorted@.len() as int) =~= sv);
    let ghost rv = scene_views(raw@);
    let mut numbers: Vec<u64> = Vec::new();
    let mut i: usize = 0;
    while i < raw.len()
        invariant
            0 <= i <= raw@.len(),
            numbers@.len() == i,
            forall|k: int| 0 <= k < i ==> #[trigger] numbers@[k] == raw@[k].number,
        decreases raw@.len() - i,
    {
        numbers.push(raw[i].number as u64);
        i = i + 1;
    }
    let by_number = stable_order(&numbers);
    let mut result: Vec<Scene> = Vec::new();
    let mut k: usize = 0;
    while k < by_number.len()
        invariant
            is_permutation(by_number@, raw@.len()),
            rv == scene_views(raw@),
            0 <= k <= by_number@.len(),
            result@.len() == k,
            forall|p: int| 0 <= p < k ==> #[trigger] result@[p]@ == rv[by_number@[p] as int],
        decreases by_number@.len() - k,
    {
        result.push(copy_scene(&raw[by_number[k]]));
        k = k + 1;
    }
    proof {
        let out = scene_views(result@);
        assert forall|p: int| 0 <= p < out.len() implies #[trigger] out[p] == rv[by_number@[p] as int] by {
            assert(result@[p]@ == rv[by_number@[p] as int]);
        }
        assert forall|p: int, q: int|
            #![trigger out[p], out[q]]
            0 <= p < q < out.len() implies out[p].number <= out[q].number && (out[p].number
            == out[q].number ==> by_number@[p] < by_number@[q]) by {
            assert(numbers@[by_number@[p] as int] <= numbers@[by_number@[q] as int]);
            assert(result@[p]@ == rv[by_number@[p] as int]);
            assert(result@[q]@ == rv[by_number@[q] as int]);
        }
        assert(is_permutation(by_number@, rv.len()));
        assert(number_sorted(out, rv));
    }
    Ok(result)
}

} // verus!

verus! {

/// Whether `id` names the scene `s`: by its stem as written, or by its
/// number, so `7`, `07` and `007` all name scene 7.
pub open spec fn names_scene(s: SceneView, id: Seq<char>) -> bool {
    s.id == id || parsed_usize(trimmed(id)) == Some(s.number)
}

/// Where in the list the scene `id` names sits: the first that it names.
pub fn position_of(all: &Vec<Scene>, id: &str) -> (r: Result<usize, ArrangeError>)
    ensures
        match r {
            Ok(i) => i < all@.len() && names_scene(all@[i as int]@, id@) && forall|j: int|
                0 <= j < i ==> !names_scene(#[trigger] all@[j]@, id@),
            Err(e) => (forall|j: int| 0 <= j < all@.len() ==> !names_scene(#[trigger] all@[j]@, id@))
                && (e matches ArrangeError::NoSuchScene { id: x, count: c } && x@ == id@ && c
                == all@.len()),
        },
{
    let wanted = parse_usize(trim(id));
    let mut i: usize = 0;
    while i < all.len()
        invariant
            0 <= i <= all@.len(),
            match wanted {
                Some(n) => parsed_usize(trimmed(id@)) == Some(n as nat),
                None => parsed_usize(trimmed(id@)) is None,
            },
            forall|j: int| 0 <= j < i ==> !names_scene(#[trigger] all@[j]@, id@),
        decreases all@.len() - i,
    {
        let hit = same_text(all[i].id.as_str(), id) || match wanted {
            Some(n) => n == all[i].number,
            None => false,
        };
        if hit {
            return Ok(i);
        }
        i = i + 1;
    }
    Err(ArrangeError::NoSuchScene { id: owned(id), count: all.len() })
}

/// The position, counting from zero, that a move to `to` (counting from
/// one) lands at among `count` scenes: past the end means the end, and
/// before the start means the start.
pub open spec fn landing(to: nat, count: nat) -> nat {
    let at_least_one = if to < 1 {
        1
    } else {
        to
    };
    let clamped = if at_least_one > count {
        count
    } else {
        at_least_one
    };
    (clamped - 1) as nat
}

/// The scenes with the one at `from` taken out and put back at position
/// `to` (counting from one), and the position it landed at.
pub fn moved_order(all: &Vec<Scene>, from: usize, to: usize) -> (r: (Vec<Scene>, usize))
    requires
        from < all@.len(),
    ensures
        r.1 == landing(to as nat, all@.len()),
        r.1 < all@.len(),
        scene_views(r.0@) == scene_views(all@).remove(from as int).insert(r.1 as int, all@[from as int]@),
{
    let n = all.len();
    let at_least_one = if to < 1 {
        1
    } else {
        to
    };
    let clamped = if at_least_one > n {
        n
    } else {
        at_least_one
    };
    let target = clamped - 1;
    let mut order = copy_scenes(all);
    let ghost ov = scene_views(order@);
    assert(ov.len() == order@.len());
    assert(ov[from as int] == order@[from as int]@);
    let moving = order.remove(from);
    assert(scene_views(order@) =~= ov.remove(from as int));
    let ghost removed = scene_views(order@);
    let ghost mv = moving@;
    order.insert(target, moving);
    assert(scene_views(order@) =~= removed.insert(target as int, mv));
    (order, target)
}

/// The scenes without the one at `at`.
pub fn without(all: &Vec<Scene>, at: usize) -> (r: Vec<Scene>)
    requires
        at < all@.len(),
    ensures
        scene_views(r@) == scene_views(all@).remove(at as int),
{
    let mut kept: Vec<Scene> = Vec::new();
    let mut i: usize = 0;
    let ghost av = scene_views(all@);
    while i < all.len()
        invariant
            0 <= i <= all@.len(),
            at < all@.len(),
            av == scene_views(all@),
            scene_views(kept@) == (if i <= at {
                av.take(i as int)
            } else {
                av.take(i as int).remove(at as int)
            }),
        decreases all@.len() - i,
    {
        if i != at {
            let ghost before = scene_views(kept@);
            kept.push(copy_scene(&all[i]));
            assert(scene_views(kept@) =~= before.push(av[i as int]));
        }
        assert(i < at ==> av.take(i + 1) =~= av.take(i as int).push(av[i as int]));
        assert(i == at ==> av.take(i + 1).remove(at as int) =~= av.take(i as int));
        assert(i > at ==> av.take(i + 1).remove(at as int) =~= av.take(i as int).remove(at as int).push(
            av[i as int],
        ));
        i = i + 1;
    }
    assert(av.take(all@.len() as int) =~= av);
    kept
}

/// What a removal moved out of the way.
#[derive(Debug, Clone, PartialEq, Eq)]
pub struct Removed {
    /// The scene as it was named before.
    pub id: String,
    /// Where its files went.
    pub moved_to: String,
    /// How many files went with it.
    pub files: usize,
    /// How many scenes are left.
    pub remaining: usize,
}

/// Where a scene went, and what travelled with it.
#[derive(Debug, Clone, PartialEq, Eq)]
pub struct Moved {
    /// The number the scene had before the move.
    pub was: String,
    /// The number it has now.
    pub now: String,
    /// Its position before, counting from one.
    pub from: usize,
    /// Its position after, counting from one.
    pub to: usize,
    /// Its files, under their new names.
    pub files: Vec<String>,
    /// Every scene after the move, in film order.
    pub scenes: Vec<Scene>,
}

/// The report of a move: the scene the operator moved is named by the
/// position it landed at in the folder as read again afterwards.
pub fn moved_report(was: String, from: usize, target: usize, after: Vec<Scene>) -> (r: Moved)
    requires
        from < usize::MAX,
        target < usize::MAX,
    ensures
        r.was@ == was@,
        r.from == from + 1,
        r.to == target + 1,
        scene_views(r.scenes@) == scene_views(after@),
        target < after@.len() ==> r.now@ == after@[target as int].id@ && string_views(r.files@)
            == string_views(after@[target as int].files@),
        target >= after@.len() ==> r.now@.len() == 0 && r.files@.len() == 0,
{
    let (now, files) = if target < after.len() {
        let landed = copy_scene(&after[target]);
        (landed.id, landed.files)
    } else {
        (String::new(), Vec::new())
    };
    Moved { was, now, from: from + 1, to: target + 1, files, scenes: after }
}

/// The name a file takes when its own is taken: `<stem>-<nth>.<extension>`,
/// with `fallback` for a file that has no stem.
pub open spec fn nth_name_of(file: Seq<char>, fallback: Seq<char>, nth: nat) -> Seq<char> {
    let stem = match file_stem_of(file) {
        Some(s) => s,
        None => fallback,
    };
    let ext = match extension_of(file) {
        Some(e) => e,
        None => Seq::empty(),
    };
    stem + "-"@ + decimal(nth) + "."@ + ext
}

/// The `nth` name for `file` when its own is taken.
pub fn nth_name(file: &str, fallback: &str, nth: usize) -> (r: String)
    ensures
        r@ == nth_name_of(file@, fallback@, nth as nat),
{
    let mut s = match file_stem(file) {
        Some(st) => owned(st),
        None => owned(fallback),
    };
    s.append("-");
    s.append(decimal_string(nth as u64).as_str());
    s.append(".");
    match extension(file) {
        Some(e) => s.append(e),
        None => {
            let ghost before = s@;
            s.append("");
            assert(""@ =~= Seq::<char>::empty()) by {
                reveal_strlit("");
            }
            assert(s@ =~= before);
        },
    }
    s
}

} // verus!

verus! {

/// Where `part` first occurs in `s` at or after `from`.
pub open spec fn first_at(s: Seq<char>, part: Seq<char>, from: int) -> Option<int>
    decreases s.len() - from,
{
    if from < 0 || from + part.len() > s.len() {
        None
    } else if occurs_at(s, part, from) {
        Some(from)
    } else if from >= s.len() {
        None
    } else {
        first_at(s, part, from + 1)
    }
}

proof fn lemma_first_at_found(s: Seq<char>, part: Seq<char>, from: int, at: int)
    requires
        0 <= from <= at,
        occurs_at(s, part, at),
        forall|b: int| 0 <= b < at ==> !occurs_at(s, part, b),
    ensures
        first_at(s, part, from) == Some(at),
    decreases at - from,
{
    if from < at {
        lemma_first_at_found(s, part, from + 1, at);
    }
}

proof fn lemma_first_at_none(s: Seq<char>, part: Seq<char>, from: int)
    requires
        0 <= from,
        !has_part(s, part),
    ensures
        first_at(s, part, from) is None,
    decreases s.len() - from,
{
    if from + part.len() <= s.len() && from < s.len() {
        assert(!occurs_at(s, part, from));
        lemma_first_at_none(s, part, from + 1);
    }
}

/// Where `part` first occurs in `s`.
fn find_first(s: &str, part: &str) -> (r: Option<usize>)
    ensures
        match r {
            Some(at) => first_at(s@, part@, 0) == Some(at as int) && at + part@.len() <= s@.len(),
            None => first_at(s@, part@, 0) is None,
        },
{
    match find(s, part) {
        Some(at) => {
            proof {
                lemma_first_at_found(s@, part@, 0, at as int);
            }
            Some(at)
        },
        None => {
            proof {
                lemma_first_at_none(s@, part@, 0);
            }
            None
        },
    }
}

/// The name a file wears while it is between two numbers:
/// `.arranging-<from>-to-<wanted>.<ext>` — a dot in front, and both numbers,
/// so an interrupted run can be finished or undone without guessing.
pub open spec fn parked_name_of(from: Seq<char>, wanted: Seq<char>, ext: Seq<char>) -> Seq<char> {
    ".arranging-"@ + from + "-to-"@ + wanted + "."@ + ext
}

/// The parked name for a file of scene `from` going to `wanted`.
pub fn parked_name(from: &str, wanted: &str, extension: &str) -> (r: String)
    ensures
        r@ == parked_name_of(from@, wanted@, extension@),
{
    let mut s = owned(".arranging-");
    s.append(from);
    s.append("-to-");
    s.append(wanted);
    s.append(".");
    s.append(extension);
    s
}

/// What a parked name says about itself — where the file came from, where
/// it was going, and its extension — read as the renumber wrote it, or as
/// an older build wrote it (`.arranging-<from>-<ext>.<ext>`, which only
/// says where it came from, and so asks for it to be put back).
pub open spec fn parked_parts_of(name: Seq<char>) -> Option<(Seq<char>, Seq<char>, Seq<char>)> {
    let prefix = ".arranging-"@;
    if !has_prefix(name, prefix) {
        None
    } else {
        let rest = name.skip(prefix.len() as int);
        match last_index_of(rest, '.') {
            None => None,
            Some(d) => {
                let stems = rest.take(d);
                let ext = rest.skip(d + 1);
                match first_at(stems, "-to-"@, 0) {
                    Some(t) => {
                        let w = stems.skip(t + "-to-"@.len());
                        let wanted = match first_index_of(w, '-') {
                            Some(k) => w.take(k),
                            None => w,
                        };
                        Some((stems.take(t), wanted, ext))
                    },
                    None => {
                        let suffix = "-"@ + ext;
                        if has_suffix(stems, suffix) {
                            let from = stems.take(stems.len() - suffix.len());
                            Some((from, from, ext))
                        } else {
                            None
                        }
                    },
                }
            },
        }
    }
}

/// The parts of a parked name, if `name` is one.
pub fn parked_parts(name: &str) -> (r: Option<(String, String, String)>)
    ensures
        match r {
            Some((f, w, e)) => parked_parts_of(name@) == Some((f@, w@, e@)),
            None => parked_parts_of(name@) is None,
        },
{
    let prefix = ".arranging-";
    if !starts_with(name, prefix) {
        return None;
    }
    let n = name.unicode_len();
    let rest = name.substring_char(prefix.unicode_len(), n);
    let d = match rfind_char(rest, '.') {
        Some(d) => d,
        None => return None,
    };
    proof {
        lemma_last_index_of(rest@, '.');
    }
    let stems = rest.substring_char(0, d);
    let ext = rest.substring_char(d + 1, rest.unicode_len());
    match find_first(stems, "-to-") {
        Some(t) => {
            let w = stems.substring_char(t + "-to-".unicode_len(), stems.unicode_len());
            let wanted = match find_char(w, '-') {
                Some(k) => {
                    proof {
                        lemma_first_index_of(w@, '-');
                    }
                    w.substring_char(0, k)
                },
                None => w,
            };
            let from = stems.substring_char(0, t);
            assert(w@.take(w@.len() as int) =~= w@);
            Some((owned(from), owned(wanted), owned(ext)))
        },
        None => {
            let suffix = joined("-", ext);
            if ends_with(stems, suffix.as_str()) {
                let from = stems.substring_char(0, stems.unicode_len() - suffix.as_str().unicode_len());
                Some((owned(from), owned(from), owned(ext)))
            } else {
                None
            }
        },
    }
}

} // verus!

verus! {

/// How many digits a renumber of `count` scenes writes: at least three.
pub open spec fn renumber_width(count: nat) -> nat {
    let d = decimal(count).len();
    if d > 3 {
        d
    } else {
        3
    }
}

/// A file's extension, or nothing.
pub open spec fn extension_or_empty(f: Seq<char>) -> Seq<char> {
    match extension_of(f) {
        Some(e) => e,
        None => Seq::empty(),
    }
}

/// One file's journey in a renumber: where it is, the parked name it waits
/// under, and the name it ends with.
#[derive(Debug, Clone, PartialEq, Eq)]
pub struct Rename {
    /// Where the file is now.
    pub file: String,
    /// The name it waits under between the two passes.
    pub parked: String,
    /// The name it ends with.
    pub destination: String,
}

/// The views of renames.
pub open spec fn rename_views(r: Seq<Rename>) -> Seq<(Seq<char>, Seq<char>, Seq<char>)> {
    r.map_values(|x: Rename| (x.file@, x.parked@, x.destination@))
}

/// The journeys of one scene's files, for the scene taking the number
/// `wanted`.
pub open spec fn scene_renames(scene: SceneView, wanted: Seq<char>) -> Seq<(Seq<char>, Seq<char>, Seq<char>)> {
    scene.files.map_values(
        |f: Seq<char>|
            (
                f,
                parked_name_of(scene.id, wanted, extension_or_empty(f)),
                wanted + "."@ + extension_or_empty(f),
            ),
    )
}

/// Every journey of a renumber that makes the folder read 001, 002, … in
/// the order of `order`.
pub open spec fn renames_of(order: Seq<SceneView>, width: nat) -> Seq<(Seq<char>, Seq<char>, Seq<char>)>
    decreases order.len(),
{
    if order.len() == 0 {
        Seq::empty()
    } else {
        renames_of(order.drop_last(), width) + scene_renames(
            order.last(),
            padded_decimal(order.len(), width),
        )
    }
}

/// The renames, in order, that number the scenes of `order` 001, 002, …:
/// every file of a scene goes with it, keeping its extension.
pub fn renumber_plan(order: &Vec<Scene>) -> (r: Vec<Rename>)
    ensures
        rename_views(r@) == renames_of(scene_views(order@), renumber_width(order@.len())),
{
    let ghost ov = scene_views(order@);
    let d = decimal_string(order.len() as u64).as_str().unicode_len();
    let width = if d > MIN_WIDTH {
        d
    } else {
        MIN_WIDTH
    };
    assert(width == renumber_width(ov.len()));
    let mut r: Vec<Rename> = Vec::new();
    let mut i: usize = 0;
    assert(ov.take(0) =~= Seq::<SceneView>::empty());
    while i < order.len()
        invariant
            0 <= i <= order@.len(),
            ov == scene_views(order@),
            width == renumber_width(ov.len()),
            rename_views(r@) == renames_of(ov.take(i as int), width as nat),
        decreases order@.len() - i,
    {
        let scene = &order[i];
        let wanted = padded_decimal_string((i + 1) as u64, width);
        let ghost start = rename_views(r@);
        let ghost sv = scene@;
        assert(sv == ov[i as int]);
        let mut j: usize = 0;
        while j < scene.files.len()
            invariant
                0 <= j <= scene.files@.len(),
                sv == scene@,
                wanted@ == padded_decimal((i + 1) as nat, width as nat),
                rename_views(r@) == start + scene_renames(sv, wanted@).take(j as int),
            decreases scene.files@.len() - j,
        {
            let f = scene.files[j].as_str();
            let ext = match extension(f) {
                Some(e) => owned(e),
                None => String::new(),
            };
            assert(ext@ == extension_or_empty(f@));
            let mut destination = owned(wanted.as_str());
            destination.append(".");
            destination.append(ext.as_str());
            let rename = Rename {
                file: owned(f),
                parked: parked_name(scene.id.as_str(), wanted.as_str(), ext.as_str()),
                destination,
            };
            let ghost before = rename_views(r@);
            r.push(rename);
            assert(sv.files[j as int] == f@);
            assert(rename_views(r@) =~= before.push(scene_renames(sv, wanted@)[j as int]));
            assert(scene_renames(sv, wanted@).take(j + 1) =~= scene_renames(sv, wanted@).take(
                j as int,
            ).push(scene_renames(sv, wanted@)[j as int]));
            j = j + 1;
        }
        assert(scene_renames(sv, wanted@).take(scene.files@.len() as int) =~= scene_renames(
            sv,
            wanted@,
        ));
        assert(ov.take(i + 1).drop_last() =~= ov.take(i as int));
        assert(ov.take(i + 1).last() == sv);
        i = i + 1;
    }
    assert(ov.take(order@.len() as int) =~= ov);
    r
}

/// A parked file found in the folder, and what its name says.
#[derive(Debug, Clone, PartialEq, Eq)]
pub struct Parked {
    /// Its name in the folder.
    pub name: String,
    /// The scene it came from.
    pub from: String,
    /// The scene it was going to.
    pub wanted: String,
    /// Its extension.
    pub extension: String,
}

/// The names among `names` that are parked files, in the order given.
pub open spec fn parked_names(names: Seq<Seq<char>>) -> Seq<Seq<char>>
    decreases names.len(),
{
    if names.len() == 0 {
        Seq::empty()
    } else {
        let rest = parked_names(names.drop_last());
        if parked_parts_of(names.last()) is Some {
            rest.push(names.last())
        } else {
            rest
        }
    }
}

/// What a parked file holds.
pub open spec fn parked_tuple(p: Parked) -> (Seq<char>, Seq<char>, Seq<char>, Seq<char>) {
    (p.name@, p.from@, p.wanted@, p.extension@)
}

/// The names of parked files.
pub open spec fn parked_views(p: Seq<Parked>) -> Seq<Seq<char>> {
    p.map_values(|x: Parked| x.name@)
}

/// The parked files among the files `names` of a folder, in text order of
/// their names, so two runs of a recovery resolve the same way.
pub fn parked_among(names: &Vec<String>) -> (r: Vec<Parked>)
    ensures
        text_sorted(parked_views(r@), parked_names(string_views(names@))),
        forall|i: int|
            0 <= i < r@.len() ==> parked_parts_of((#[trigger] r@[i]).name@) == Some(
                (r@[i].from@, r@[i].wanted@, r@[i].extension@),
            ),
{
    let ghost nv = string_views(names@);
    let mut found: Vec<Parked> = Vec::new();
    let mut i: usize = 0;
    assert(nv.take(0) =~= Seq::<Seq<char>>::empty());
    while i < names.len()
        invariant
            0 <= i <= names@.len(),
            nv == string_views(names@),
            parked_views(found@) == parked_names(nv.take(i as int)),
            forall|k: int|
                0 <= k < found@.len() ==> parked_parts_of((#[trigger] found@[k]).name@) == Some(
                    (found@[k].from@, found@[k].wanted@, found@[k].extension@),
                ),
        decreases names@.len() - i,
    {
        assert(nv.take(i + 1).drop_last() =~= nv.take(i as int));
        assert(nv.take(i + 1).last() == names@[i as int]@);
        match parked_parts(names[i].as_str()) {
            Some((from, wanted, extension)) => {
                let ghost before = parked_views(found@);
                found.push(Parked { name: owned(names[i].as_str()), from, wanted, extension });
                assert(parked_views(found@) =~= before.push(names@[i as int]@));
            },
            None => {},
        }
        i = i + 1;
    }
    assert(nv.take(names@.len() as int) =~= nv);
    let ghost fv = parked_views(found@);
    let mut keys: Vec<TextKey> = Vec::new();
    let mut i: usize = 0;
    while i < found.len()
        invariant
            0 <= i <= found@.len(),
            keys@.len() == i,
            forall|k: int| 0 <= k < i ==> (#[trigger] keys@[k]).0@ == found@[k].name@,
        decreases found@.len() - i,
    {
        keys.push(TextKey(owned(found[i].name.as_str())));
        i = i + 1;
    }
    let order = stable_order(&keys);
    let mut r: Vec<Parked> = Vec::new();
    let mut k: usize = 0;
    while k < order.len()
        invariant
            is_permutation(order@, found@.len()),
            0 <= k <= order@.len(),
            r@.len() == k,
            forall|p: int| 0 <= p < k ==> parked_tuple(#[trigger] r@[p]) == parked_tuple(found@[order@[p] as int]),
        decreases order@.len() - k,
    {
        let p = &found[order[k]];
        r.push(
            Parked {
                name: owned(p.name.as_str()),
                from: owned(p.from.as_str()),
                wanted: owned(p.wanted.as_str()),
                extension: owned(p.extension.as_str()),
            },
        );
        k = k + 1;
    }
    proof {
        let out = parked_views(r@);
        assert forall|p: int| 0 <= p < out.len() implies #[trigger] out[p] == fv[order@[p] as int] by {
            assert(parked_tuple(r@[p]) == parked_tuple(found@[order@[p] as int]));
        }
        assert forall|p: int, q: int| #![trigger out[p], out[q]] 0 <= p < q < out.len() implies text_le(
            out[p],
            out[q],
        ) by {
            assert(keys@[order@[p] as int].key_le(keys@[order@[q] as int]));
            assert(parked_tuple(r@[p]) == parked_tuple(found@[order@[p] as int]));
            assert(parked_tuple(r@[q]) == parked_tuple(found@[order@[q] as int]));
        }
        assert(is_permutation(order@, fv.len()));
        assert forall|i: int| 0 <= i < r@.len() implies parked_parts_of((#[trigger] r@[i]).name@)
            == Some((r@[i].from@, r@[i].wanted@, r@[i].extension@)) by {
            assert(parked_tuple(r@[i]) == parked_tuple(found@[order@[i] as int]));
        }
    }
    r
}

/// Where a parked file goes when an interrupted renumber is put right: to
/// the name it was going to if that is free — pass two resuming — or else
/// back to the name it came from if that is free — a rollback — or nowhere,
/// leaving it parked rather than overwriting a photograph.
pub open spec fn recovery_of(
    from: Seq<char>,
    wanted: Seq<char>,
    ext: Seq<char>,
    destination_taken: bool,
    origin_taken: bool,
) -> Option<Seq<char>> {
    if !destination_taken {
        Some(wanted + "."@ + ext)
    } else if !origin_taken {
        Some(from + "."@ + ext)
    } else {
        None
    }
}

/// The name a parked file is restored to, given whether its destination
/// and its origin are taken.
pub fn recovery_target(parked: &Parked, destination_taken: bool, origin_taken: bool) -> (r: Option<String>)
    ensures
        match r {
            Some(t) => recovery_of(parked.from@, parked.wanted@, parked.extension@, destination_taken, origin_taken) == Some(t@),
            None => recovery_of(parked.from@, parked.wanted@, parked.extension@, destination_taken, origin_taken) is None,
        },
{
    let base = if !destination_taken {
        parked.wanted.as_str()
    } else if !origin_taken {
        parked.from.as_str()
    } else {
        return None;
    };
    let mut t = owned(base);
    t.append(".");
    t.append(parked.extension.as_str());
    Some(t)
}

/// The name of a file in the folder after its scene is renumbered:
/// `<wanted>.<ext>`.
pub fn destination_name(wanted: &str, extension: &str) -> (r: String)
    ensures
        r@ == wanted@ + "."@ + extension@,
{
    let mut t = owned(wanted);
    t.append(".");
    t.append(extension);
    t
}

} // verus!

verus! {

/// Moving a scene to the position it already holds changes nothing.
pub proof fn lemma_move_in_place(all: Seq<SceneView>, from: int, to: nat)
    requires
        0 <= from < all.len(),
        landing(to, all.len()) == from,
    ensures
        all.remove(from).insert(from, all[from]) == all,
{
    assert(all.remove(from).insert(from, all[from]) =~= all);
}

/// A move puts the scene where it was asked to go, and every other scene
/// keeps its order relative to the rest.
pub proof fn lemma_move_keeps_the_rest(all: Seq<SceneView>, from: int, to: nat)
    requires
        0 <= from < all.len(),
    ensures
        ({
            let target = landing(to, all.len()) as int;
            let moved = all.remove(from).insert(target, all[from]);
            &&& moved.len() == all.len()
            &&& moved[target] == all[from]
            &&& moved.remove(target) == all.remove(from)
        }),
{
    let target = landing(to, all.len()) as int;
    let moved = all.remove(from).insert(target, all[from]);
    assert(moved.remove(target) =~= all.remove(from));
}

/// Every file of every scene is among a renumber's journeys, ending under
/// the number of its scene's position.
proof fn lemma_renames_cover(order: Seq<SceneView>, width: nat)
    ensures
        forall|i: int, j: int|
            0 <= i < order.len() && 0 <= j < order[i].files.len() ==> renames_of(order, width).contains(
                #[trigger] scene_renames(order[i], padded_decimal((i + 1) as nat, width))[j],
            ),
    decreases order.len(),
{
    if order.len() > 0 {
        let rest = order.drop_last();
        lemma_renames_cover(rest, width);
        let before = renames_of(rest, width);
        let last = (order.len() - 1) as int;
        let mine = scene_renames(order[last], padded_decimal(order.len(), width));
        assert(renames_of(order, width) == before + mine);
        assert forall|i: int, j: int|
            0 <= i < order.len() && 0 <= j < order[i].files.len() implies renames_of(order, width).contains(
            #[trigger] scene_renames(order[i], padded_decimal((i + 1) as nat, width))[j],
        ) by {
            let x = scene_renames(order[i], padded_decimal((i + 1) as nat, width))[j];
            if i < last {
                assert(rest[i] == order[i]);
                let k = choose|k: int| 0 <= k < before.len() && before[k] == x;
                assert((before + mine)[k] == x);
            } else {
                assert(mine[j] == x);
                assert((before + mine)[before.len() + j] == x);
            }
        }
    }
}

/// Moving a scene and renumbering puts the folder in the moved order: the
/// moved scene's files all end under the number of the position it was moved
/// to, and every scene's files under the number of its new position, each
/// keeping its extension.
pub proof fn lemma_a_move_renumbers_in_the_new_order(all: Seq<SceneView>, from: int, to: nat)
    requires
        0 <= from < all.len(),
    ensures
        ({
            let target = landing(to, all.len()) as int;
            let order = all.remove(from).insert(target, all[from]);
            let width = renumber_width(all.len());
            let now = padded_decimal((target + 1) as nat, width);
            &&& forall|j: int|
                0 <= j < all[from].files.len() ==> renames_of(order, width).contains(
                    (
                        all[from].files[j],
                        parked_name_of(all[from].id, now, extension_or_empty(all[from].files[j])),
                        now + "."@ + extension_or_empty(#[trigger] all[from].files[j]),
                    ),
                )
            &&& forall|i: int, j: int|
                0 <= i < order.len() && 0 <= j < order[i].files.len() ==> renames_of(order, width).contains(
                    #[trigger] scene_renames(order[i], padded_decimal((i + 1) as nat, width))[j],
                )
        }),
{
    let target = landing(to, all.len()) as int;
    let order = all.remove(from).insert(target, all[from]);
    let width = renumber_width(all.len());
    lemma_move_keeps_the_rest(all, from, to);
    lemma_renames_cover(order, width);
    let now = padded_decimal((target + 1) as nat, width);
    assert forall|j: int|
        0 <= j < all[from].files.len() implies renames_of(order, width).contains(
        (
            all[from].files[j],
            parked_name_of(all[from].id, now, extension_or_empty(all[from].files[j])),
            now + "."@ + extension_or_empty(#[trigger] all[from].files[j]),
        ),
    ) by {
        assert(order[target] == all[from]);
        assert(scene_renames(order[target], now)[j] == (
            all[from].files[j],
            parked_name_of(all[from].id, now, extension_or_empty(all[from].files[j])),
            now + "."@ + extension_or_empty(all[from].files[j]),
        ));
    }
}

/// A parked name reads back as what was written into it, as long as the
/// scene numbers hold no `-` and the extension no `.` — true of every name a
/// renumber writes, whose numbers are digits.
#[verifier::spinoff_prover]
#[verifier::rlimit(40)]
pub proof fn lemma_parked_round_trip(from: Seq<char>, wanted: Seq<char>, ext: Seq<char>)
    requires
        !from.contains('-'),
        !wanted.contains('-'),
        !ext.contains('.'),
    ensures
        parked_parts_of(parked_name_of(from, wanted, ext)) == Some((from, wanted, ext)),
{
    reveal_strlit(".arranging-");
    reveal_strlit("-to-");
    reveal_strlit(".");
    let prefix = ".arranging-"@;
    let name = parked_name_of(from, wanted, ext);
    let stems = from + "-to-"@ + wanted;
    assert(name =~= prefix + (stems + "."@ + ext));
    assert(name.subrange(0, prefix.len() as int) =~= prefix);
    let rest = name.skip(prefix.len() as int);
    assert(rest =~= stems + "."@ + ext);
    let d = stems.len() as int;
    assert(rest[d] == '.');
    assert forall|j: int| d < j < rest.len() implies rest[j] != '.' by {
        assert(rest[j] == ext[j - d - 1]);
    }
    lemma_last_index_of_is_at(rest, '.', d);
    assert(rest.take(d) =~= stems);
    assert(rest.skip(d + 1) =~= ext);
    let t = from.len() as int;
    assert(occurs_at(stems, "-to-"@, t)) by {
        assert(stems.subrange(t, t + 4) =~= "-to-"@);
    }
    assert forall|b: int| 0 <= b < t implies !occurs_at(stems, "-to-"@, b) by {
        if occurs_at(stems, "-to-"@, b) {
            assert(stems.subrange(b, b + 4)[0] == '-');
            if b + 3 < t {
                assert(from[b] == '-');
            } else {
                assert(stems[b + 3] == '-');
                assert(stems[b] == from[b]);
                assert(from.contains(from[b]));
                if b + 3 == t {
                    assert(stems[b + 3] == '-');
                    assert(stems.subrange(b, b + 4)[3] == '-');
                }
                assert(from[b] == '-');
            }
            assert(from.contains('-'));
        }
    }
    lemma_first_at_found(stems, "-to-"@, 0, t);
    let w = stems.skip(t + 4);
    assert(w =~= wanted);
    lemma_first_index_of(w, '-');
    match first_index_of(w, '-') {
        Some(k) => {
            assert(wanted.contains(w[k]));
        },
        None => {},
    }
    assert(stems.take(t) =~= from);
}

/// A number written in decimal holds no dot.
proof fn lemma_decimal_has_no_dot(n: nat)
    ensures
        !decimal(n).contains('.'),
    decreases n,
{
    if n >= 10 {
        lemma_decimal_has_no_dot(n / 10);
        assert(decimal(n) == decimal(n / 10).push(crate::text::digit_of(n % 10)));
        assert forall|i: int| 0 <= i < decimal(n).len() implies decimal(n)[i] != '.' by {
            if i < decimal(n / 10).len() {
                assert(decimal(n)[i] == decimal(n / 10)[i]);
            }
        }
    }
}

/// The name a parked file takes when its parked name is already taken —
/// `.arranging-<from>-to-<wanted>-<k>.<ext>` — reads back as the same
/// journey, so a collision during a renumber loses nothing a recovery needs.
#[verifier::spinoff_prover]
#[verifier::rlimit(40)]
pub proof fn lemma_parked_round_trip_after_collision(from: Seq<char>, wanted: Seq<char>, ext: Seq<char>, k: nat)
    requires
        !from.contains('-'),
        !wanted.contains('-'),
        !ext.contains('.'),
    ensures
        parked_parts_of(
            ".arranging-"@ + from + "-to-"@ + wanted + "-"@ + decimal(k) + "."@ + ext,
        ) == Some((from, wanted, ext)),
{
    reveal_strlit(".arranging-");
    reveal_strlit("-to-");
    reveal_strlit(".");
    reveal_strlit("-");
    lemma_decimal_has_no_dot(k);
    let prefix = ".arranging-"@;
    let tail = "-"@ + decimal(k);
    let name = ".arranging-"@ + from + "-to-"@ + wanted + "-"@ + decimal(k) + "."@ + ext;
    let stems = from + "-to-"@ + wanted + tail;
    assert(name =~= prefix + (stems + "."@ + ext));
    assert(name.subrange(0, prefix.len() as int) =~= prefix);
    let rest = name.skip(prefix.len() as int);
    assert(rest =~= stems + "."@ + ext);
    let d = stems.len() as int;
    assert(rest[d] == '.');
    assert forall|j: int| d < j < rest.len() implies rest[j] != '.' by {
        assert(rest[j] == ext[j - d - 1]);
    }
    lemma_last_index_of_is_at(rest, '.', d);
    assert(rest.take(d) =~= stems);
    assert(rest.skip(d + 1) =~= ext);
    let t = from.len() as int;
    assert(occurs_at(stems, "-to-"@, t)) by {
        assert(stems.subrange(t, t + 4) =~= "-to-"@);
    }
    assert forall|b: int| 0 <= b < t implies !occurs_at(stems, "-to-"@, b) by {
        if occurs_at(stems, "-to-"@, b) {
            assert(stems.subrange(b, b + 4)[0] == '-');
            assert(stems[b] == from[b]);
            assert(from.contains(from[b]));
            assert(from[b] == '-');
        }
    }
    lemma_first_at_found(stems, "-to-"@, 0, t);
    let w = stems.skip(t + 4);
    assert(w =~= wanted + tail);
    let q = wanted.len() as int;
    assert(w[q] == '-');
    assert forall|j: int| 0 <= j < q implies w[j] != '-' by {
        assert(w[j] == wanted[j]);
        assert(wanted.contains(wanted[j]));
    }
    lemma_first_index_of(w, '-');
    match first_index_of(w, '-') {
        Some(x) => {
            if x < q {
                assert(w[x] == '-');
            }
            if x > q {
                assert(w[q] == '-');
            }
            assert(x == q);
            assert(w.take(x) =~= wanted);
        },
        None => {
            assert(w.contains(w[q]));
        },
    }
    assert(stems.take(t) =~= from);
}

/// A scene name, written in decimal, never begins with a dot.
proof fn lemma_decimal_starts_with_digit(n: nat)
    ensures
        decimal(n).len() > 0,
        decimal(n)[0] != '.',
    decreases n,
{
    if n >= 10 {
        lemma_decimal_starts_with_digit(n / 10);
    }
}

/// A parked name never coincides with a name a renumber puts a file under:
/// it begins with a dot and a scene's number with a digit, so the first
/// pass never lands on a file the second pass fills, or the reverse.
pub proof fn lemma_parked_is_never_a_destination(
    from: Seq<char>,
    wanted: Seq<char>,
    ext: Seq<char>,
    number: nat,
    width: nat,
    other_ext: Seq<char>,
)
    ensures
        parked_name_of(from, wanted, ext) != padded_decimal(number, width) + "."@ + other_ext,
{
    reveal_strlit(".arranging-");
    lemma_decimal_starts_with_digit(number);
    let p = parked_name_of(from, wanted, ext);
    let d = padded_decimal(number, width) + "."@ + other_ext;
    assert(p[0] == '.');
    let digits = decimal(number);
    if digits.len() < width {
        assert(padded_decimal(number, width)[0] == '0');
    } else {
        assert(padded_decimal(number, width)[0] == digits[0]);
    }
    assert(d[0] != '.');
}

} // verus!

verus! {

/// A name an older build parked a file under, `.arranging-<from>-<ext>.<ext>`,
/// reads back as a request to put the file back where it came from.
pub proof fn lemma_older_parked_name_goes_back(from: Seq<char>, ext: Seq<char>)
    requires
        !from.contains('-'),
        !ext.contains('-'),
        !ext.contains('.'),
    ensures
        parked_parts_of(".arranging-"@ + from + "-"@ + ext + "."@ + ext) == Some((from, from, ext)),
{
    reveal_strlit(".arranging-");
    reveal_strlit("-to-");
    reveal_strlit("-");
    reveal_strlit(".");
    let prefix = ".arranging-"@;
    let name = ".arranging-"@ + from + "-"@ + ext + "."@ + ext;
    let stems = from + "-"@ + ext;
    assert(name =~= prefix + (stems + "."@ + ext));
    assert(name.subrange(0, prefix.len() as int) =~= prefix);
    let rest = name.skip(prefix.len() as int);
    assert(rest =~= stems + "."@ + ext);
    let d = stems.len() as int;
    assert(rest[d] == '.');
    assert forall|j: int| d < j < rest.len() implies rest[j] != '.' by {
        assert(rest[j] == ext[j - d - 1]);
    }
    lemma_last_index_of_is_at(rest, '.', d);
    assert(rest.take(d) =~= stems);
    assert(rest.skip(d + 1) =~= ext);
    assert forall|b: int| !occurs_at(stems, "-to-"@, b) by {
        if occurs_at(stems, "-to-"@, b) {
            let f = from.len() as int;
            assert(stems.subrange(b, b + 4)[0] == '-');
            assert(stems.subrange(b, b + 4)[3] == '-');
            assert(stems[b] == '-' && stems[b + 3] == '-');
            if b < f {
                assert(from[b] == '-');
                assert(from.contains(from[b]));
            } else if b > f {
                assert(ext[b - f - 1] == '-');
                assert(ext.contains(ext[b - f - 1]));
            } else {
                assert(ext[2] == '-');
                assert(ext.contains(ext[2]));
            }
        }
    }
    lemma_first_at_none(stems, "-to-"@, 0);
    let suffix = "-"@ + ext;
    assert(stems.subrange(stems.len() - suffix.len(), stems.len() as int) =~= suffix);
    assert(stems.take(stems.len() - suffix.len()) =~= from);
}

} // verus!

verus! {

/// What a move will do: the scenes in their new order, where the moved one
/// was and where it lands (counting from zero), and the number it had.
#[derive(Debug, Clone, PartialEq, Eq)]
pub struct MovePlan {
    /// Every scene, in the order the folder will read after the move.
    pub order: Vec<Scene>,
    /// Its position before the move.
    pub from: usize,
    /// Its position after the move.
    pub target: usize,
    /// The number it had.
    pub was: String,
}

/// Decide the move of the scene `id` names to position `to`, counting from
/// one: a position past the end means the end. Refused when `id` names no
/// scene.
pub fn move_to(all: &Vec<Scene>, id: &str, to: usize) -> (r: Result<MovePlan, ArrangeError>)
    ensures
        match r {
            Ok(plan) => {
                &&& plan.from < all@.len()
                &&& names_scene(all@[plan.from as int]@, id@)
                &&& forall|j: int| 0 <= j < plan.from ==> !names_scene(#[trigger] all@[j]@, id@)
                &&& plan.target == landing(to as nat, all@.len())
                &&& plan.was@ == all@[plan.from as int].id@
                &&& scene_views(plan.order@) == scene_views(all@).remove(plan.from as int).insert(
                    plan.target as int,
                    all@[plan.from as int]@,
                )
            },
            Err(e) => (forall|j: int| 0 <= j < all@.len() ==> !names_scene(#[trigger] all@[j]@, id@))
                && (e matches ArrangeError::NoSuchScene { id: x, count: c } && x@ == id@ && c
                == all@.len()),
        },
{
    let from = match position_of(all, id) {
        Ok(i) => i,
        Err(e) => return Err(e),
    };
    let was = owned(all[from].id.as_str());
    let (order, target) = moved_order(all, from, to);
    Ok(MovePlan { order, from, target, was })
}

/// Decide the removal of the scene `id` names: its position, and the scenes
/// that are left, in order. Refused when `id` names no scene.
pub fn remove(all: &Vec<Scene>, id: &str) -> (r: Result<(usize, Vec<Scene>), ArrangeError>)
    ensures
        match r {
            Ok((at, kept)) => {
                &&& at < all@.len()
                &&& names_scene(all@[at as int]@, id@)
                &&& forall|j: int| 0 <= j < at ==> !names_scene(#[trigger] all@[j]@, id@)
                &&& scene_views(kept@) == scene_views(all@).remove(at as int)
            },
            Err(e) => (forall|j: int| 0 <= j < all@.len() ==> !names_scene(#[trigger] all@[j]@, id@))
                && (e matches ArrangeError::NoSuchScene { id: x, count: c } && x@ == id@ && c
                == all@.len()),
        },
{
    let at = match position_of(all, id) {
        Ok(i) => i,
        Err(e) => return Err(e),
    };
    Ok((at, without(all, at)))
}

} // verus!

verus! {

/// A folder after `steps` renames, each `(from, to)` taking the file named
/// `from` to the name `to`, in order.
pub open spec fn renamed<C>(folder: Map<Seq<char>, C>, steps: Seq<(Seq<char>, Seq<char>)>) -> Map<Seq<char>, C>
    decreases steps.len(),
{
    if steps.len() == 0 {
        folder
    } else {
        let before = renamed(folder, steps.drop_last());
        let (from, to) = steps.last();
        before.remove(from).insert(to, before[from])
    }
}

/// A renumber's first pass: every file to its parked name.
pub open spec fn parking(plan: Seq<(Seq<char>, Seq<char>, Seq<char>)>) -> Seq<(Seq<char>, Seq<char>)> {
    plan.map_values(|r: (Seq<char>, Seq<char>, Seq<char>)| (r.0, r.1))
}

/// A renumber's second pass: every parked file to its destination.
pub open spec fn unparking(plan: Seq<(Seq<char>, Seq<char>, Seq<char>)>) -> Seq<(Seq<char>, Seq<char>)> {
    plan.map_values(|r: (Seq<char>, Seq<char>, Seq<char>)| (r.1, r.2))
}

/// A folder after both passes of a renumber `plan`.
pub open spec fn renumbered<C>(folder: Map<Seq<char>, C>, plan: Seq<(Seq<char>, Seq<char>, Seq<char>)>) -> Map<Seq<char>, C> {
    renamed(renamed(folder, parking(plan)), unparking(plan))
}

/// Whether some step of `steps` renames the file `x`.
pub open spec fn moves_from(steps: Seq<(Seq<char>, Seq<char>)>, x: Seq<char>) -> bool {
    exists|k: int| 0 <= k < steps.len() && (#[trigger] steps[k]).0 == x
}

/// Whether some step of `steps` lands a file on `x`.
pub open spec fn moves_to(steps: Seq<(Seq<char>, Seq<char>)>, x: Seq<char>) -> bool {
    exists|k: int| 0 <= k < steps.len() && (#[trigger] steps[k]).1 == x
}

proof fn lemma_renamed<C>(folder: Map<Seq<char>, C>, steps: Seq<(Seq<char>, Seq<char>)>)
    requires
        forall|k: int|
            0 <= k < steps.len() ==> folder.dom().contains((#[trigger] steps[k]).0) && !folder.dom().contains(
                steps[k].1,
            ),
        forall|j: int, k: int|
            0 <= j < k < steps.len() ==> (#[trigger] steps[j]).0 != (#[trigger] steps[k]).0 && steps[j].1
                != steps[k].1,
    ensures
        forall|k: int|
            0 <= k < steps.len() ==> renamed(folder, steps).dom().contains((#[trigger] steps[k]).1)
                && renamed(folder, steps)[steps[k].1] == folder[steps[k].0],
        forall|x: Seq<char>|
            #[trigger] renamed(folder, steps).dom().contains(x) <==> ((folder.dom().contains(x)
                && !moves_from(steps, x)) || moves_to(steps, x)),
        forall|x: Seq<char>|
            folder.dom().contains(x) && !moves_from(steps, x) ==> #[trigger] renamed(folder, steps)[x]
                == folder[x],
    decreases steps.len(),
{
    if steps.len() > 0 {
        let rest = steps.drop_last();
        assert forall|k: int|
            0 <= k < rest.len() implies folder.dom().contains((#[trigger] rest[k]).0) && !folder.dom().contains(
            rest[k].1,
        ) by {
            assert(rest[k] == steps[k]);
        }
        assert forall|j: int, k: int|
            0 <= j < k < rest.len() implies (#[trigger] rest[j]).0 != (#[trigger] rest[k]).0 && rest[j].1
            != rest[k].1 by {
            assert(rest[j] == steps[j] && rest[k] == steps[k]);
        }
        lemma_renamed(folder, rest);
        let g = renamed(folder, rest);
        let last = steps.len() - 1;
        let (a, b) = steps[last];
        assert(steps.last() == steps[last]);
        assert(!moves_from(rest, a)) by {
            if moves_from(rest, a) {
                let k = choose|k: int| 0 <= k < rest.len() && (#[trigger] rest[k]).0 == a;
                assert(rest[k] == steps[k]);
            }
        }
        assert(!moves_to(rest, b)) by {
            if moves_to(rest, b) {
                let k = choose|k: int| 0 <= k < rest.len() && (#[trigger] rest[k]).1 == b;
                assert(rest[k] == steps[k]);
            }
        }
        assert(g.dom().contains(a));
        assert(!g.dom().contains(b));
        assert(g[a] == folder[a]);
        let r = renamed(folder, steps);
        assert(r == g.remove(a).insert(b, g[a]));
        assert forall|k: int|
            0 <= k < steps.len() implies r.dom().contains((#[trigger] steps[k]).1) && r[steps[k].1]
            == folder[steps[k].0] by {
            if k < last {
                assert(rest[k] == steps[k]);
                assert(steps[k].1 != b);
                assert(steps[k].1 != a);
            }
        }
        assert forall|x: Seq<char>|
            #[trigger] r.dom().contains(x) <==> ((folder.dom().contains(x) && !moves_from(steps, x))
                || moves_to(steps, x)) by {
            if moves_from(steps, x) && x != a {
                let k = choose|k: int| 0 <= k < steps.len() && (#[trigger] steps[k]).0 == x;
                assert(k < last);
                assert(rest[k] == steps[k]);
                assert(moves_from(rest, x));
            }
            if moves_from(rest, x) {
                let k = choose|k: int| 0 <= k < rest.len() && (#[trigger] rest[k]).0 == x;
                assert(steps[k] == rest[k]);
            }
            if moves_to(steps, x) && x != b {
                let k = choose|k: int| 0 <= k < steps.len() && (#[trigger] steps[k]).1 == x;
                assert(k < last);
                assert(rest[k] == steps[k]);
                assert(moves_to(rest, x));
            }
            if moves_to(rest, x) {
                let k = choose|k: int| 0 <= k < rest.len() && (#[trigger] rest[k]).1 == x;
                assert(steps[k] == rest[k]);
            }
            assert(moves_from(steps, a)) by {
                assert(steps[last].0 == a);
            }
            assert(moves_to(steps, b)) by {
                assert(steps[last].1 == b);
            }
        }
        assert forall|x: Seq<char>|
            folder.dom().contains(x) && !moves_from(steps, x) implies #[trigger] r[x] == folder[x] by {
            assert(x != a) by {
                assert(steps[last].0 == a);
            }
            assert(!moves_from(rest, x)) by {
                if moves_from(rest, x) {
                    let k = choose|k: int| 0 <= k < rest.len() && (#[trigger] rest[k]).0 == x;
                    assert(steps[k] == rest[k]);
                }
            }
        }
    }
}

} // verus!

verus! {

/// Whether some journey of `plan` starts at the file `x`.
pub open spec fn plan_moves(plan: Seq<(Seq<char>, Seq<char>, Seq<char>)>, x: Seq<char>) -> bool {
    exists|k: int| 0 <= k < plan.len() && (#[trigger] plan[k]).0 == x
}

/// Whether some journey of `plan` ends at the name `x`.
pub open spec fn plan_lands(plan: Seq<(Seq<char>, Seq<char>, Seq<char>)>, x: Seq<char>) -> bool {
    exists|k: int| 0 <= k < plan.len() && (#[trigger] plan[k]).2 == x
}

/// What a renumber may be run on: every file it moves is in the folder,
/// under a name of its own; no parked name is taken; no two files end under
/// one name; no parked name is a destination; and a destination already in
/// the folder is one of the files that moves away.
pub open spec fn runnable<C>(folder: Map<Seq<char>, C>, plan: Seq<(Seq<char>, Seq<char>, Seq<char>)>) -> bool {
    &&& forall|k: int|
        0 <= k < plan.len() ==> folder.dom().contains((#[trigger] plan[k]).0) && !folder.dom().contains(
            plan[k].1,
        )
    &&& forall|j: int, k: int|
        0 <= j < k < plan.len() ==> (#[trigger] plan[j]).0 != (#[trigger] plan[k]).0 && plan[j].1
            != plan[k].1 && plan[j].2 != plan[k].2
    &&& forall|j: int, k: int|
        0 <= j < plan.len() && 0 <= k < plan.len() ==> (#[trigger] plan[j]).1 != (#[trigger] plan[k]).2
    &&& forall|k: int|
        0 <= k < plan.len() && folder.dom().contains((#[trigger] plan[k]).2) ==> plan_moves(plan, plan[k].2)
}

/// A renumber loses nothing and overwrites nothing: after both passes every
/// file's contents are under its destination; every other file is where it
/// was, untouched; and nothing else is in the folder.
pub proof fn lemma_a_renumber_loses_nothing<C>(folder: Map<Seq<char>, C>, plan: Seq<(Seq<char>, Seq<char>, Seq<char>)>)
    requires
        runnable(folder, plan),
    ensures
        ({
            let after = renumbered(folder, plan);
            &&& forall|k: int|
                0 <= k < plan.len() ==> after.dom().contains((#[trigger] plan[k]).2) && after[plan[k].2]
                    == folder[plan[k].0]
            &&& forall|x: Seq<char>|
                #![trigger after.dom().contains(x)]
                #![trigger after[x]]
                folder.dom().contains(x) && !plan_moves(plan, x) && !plan_lands(plan, x) ==> after.dom().contains(x)
                    && after[x] == folder[x]
            &&& forall|x: Seq<char>|
                #[trigger] after.dom().contains(x) ==> plan_lands(plan, x) || (folder.dom().contains(x)
                    && !plan_moves(plan, x))
        }),
{
    let one = parking(plan);
    let two = unparking(plan);
    assert forall|k: int|
        0 <= k < one.len() implies folder.dom().contains((#[trigger] one[k]).0) && !folder.dom().contains(one[k].1) by {
        assert(one[k] == (plan[k].0, plan[k].1));
    }
    assert forall|j: int, k: int|
        0 <= j < k < one.len() implies (#[trigger] one[j]).0 != (#[trigger] one[k]).0 && one[j].1 != one[k].1 by {
        assert(one[j] == (plan[j].0, plan[j].1));
        assert(one[k] == (plan[k].0, plan[k].1));
    }
    lemma_renamed(folder, one);
    let g = renamed(folder, one);
    assert forall|k: int|
        0 <= k < two.len() implies g.dom().contains((#[trigger] two[k]).0) && !g.dom().contains(two[k].1) by {
        assert(two[k] == (plan[k].1, plan[k].2));
        assert(one[k] == (plan[k].0, plan[k].1));
        assert(g.dom().contains(one[k].1));
        let d = plan[k].2;
        if g.dom().contains(d) {
            if moves_to(one, d) {
                let j = choose|j: int| 0 <= j < one.len() && (#[trigger] one[j]).1 == d;
                assert(one[j] == (plan[j].0, plan[j].1));
                assert(plan[j].1 != plan[k].2);
            } else {
                assert(folder.dom().contains(d) && !moves_from(one, d));
                assert(plan_moves(plan, d));
                let j = choose|j: int| 0 <= j < plan.len() && (#[trigger] plan[j]).0 == d;
                assert(one[j] == (plan[j].0, plan[j].1));
                assert(moves_from(one, d));
            }
        }
    }
    assert forall|j: int, k: int|
        0 <= j < k < two.len() implies (#[trigger] two[j]).0 != (#[trigger] two[k]).0 && two[j].1 != two[k].1 by {
        assert(two[j] == (plan[j].1, plan[j].2));
        assert(two[k] == (plan[k].1, plan[k].2));
    }
    lemma_renamed(g, two);
    let after = renamed(g, two);
    assert forall|k: int|
        0 <= k < plan.len() implies after.dom().contains((#[trigger] plan[k]).2) && after[plan[k].2]
        == folder[plan[k].0] by {
        assert(two[k] == (plan[k].1, plan[k].2));
        assert(one[k] == (plan[k].0, plan[k].1));
    }
    assert forall|x: Seq<char>|
        #![trigger after.dom().contains(x)]
        #![trigger after[x]]
        folder.dom().contains(x) && !plan_moves(plan, x) && !plan_lands(plan, x) implies after.dom().contains(x)
        && after[x] == folder[x] by {
        assert(!moves_from(one, x)) by {
            if moves_from(one, x) {
                let k = choose|k: int| 0 <= k < one.len() && (#[trigger] one[k]).0 == x;
                assert(one[k] == (plan[k].0, plan[k].1));
                assert(plan_moves(plan, x));
            }
        }
        assert(g.dom().contains(x));
        assert(!moves_from(two, x)) by {
            if moves_from(two, x) {
                let k = choose|k: int| 0 <= k < two.len() && (#[trigger] two[k]).0 == x;
                assert(two[k] == (plan[k].1, plan[k].2));
                assert(!folder.dom().contains(plan[k].1));
            }
        }
    }
    assert forall|x: Seq<char>|
        #[trigger] after.dom().contains(x) implies plan_lands(plan, x) || (folder.dom().contains(x)
        && !plan_moves(plan, x)) by {
        if moves_to(two, x) {
            let k = choose|k: int| 0 <= k < two.len() && (#[trigger] two[k]).1 == x;
            assert(two[k] == (plan[k].1, plan[k].2));
            assert(plan[k].2 == x);
        } else {
            assert(g.dom().contains(x) && !moves_from(two, x));
            if moves_to(one, x) {
                let k = choose|k: int| 0 <= k < one.len() && (#[trigger] one[k]).1 == x;
                assert(one[k] == (plan[k].0, plan[k].1));
                assert(two[k] == (plan[k].1, plan[k].2));
                assert(moves_from(two, x));
            }
            assert(folder.dom().contains(x) && !moves_from(one, x));
            if plan_moves(plan, x) {
                let k = choose|k: int| 0 <= k < plan.len() && (#[trigger] plan[k]).0 == x;
                assert(one[k] == (plan[k].0, plan[k].1));
                assert(moves_from(one, x));
            }
        }
    }
}

} // verus!

verus! {

/// Every journey of a renumber is one scene file's, parked under a parked
/// name and ending under its position's number.
proof fn lemma_renames_are_scene_renames(order: Seq<SceneView>, width: nat, k: int)
    requires
        0 <= k < renames_of(order, width).len(),
    ensures
        exists|i: int, j: int|
            0 <= i < order.len() && 0 <= j < order[i].files.len() && renames_of(order, width)[k]
                == #[trigger] scene_renames(order[i], padded_decimal((i + 1) as nat, width))[j],
    decreases order.len(),
{
    let rest = order.drop_last();
    let before = renames_of(rest, width);
    let last = (order.len() - 1) as int;
    let mine = scene_renames(order[last], padded_decimal(order.len(), width));
    assert(renames_of(order, width) == before + mine);
    if k < before.len() {
        lemma_renames_are_scene_renames(rest, width, k);
        let (i, j) = choose|i: int, j: int|
            0 <= i < rest.len() && 0 <= j < rest[i].files.len() && before[k]
                == #[trigger] scene_renames(rest[i], padded_decimal((i + 1) as nat, width))[j];
        assert(rest[i] == order[i]);
        assert(renames_of(order, width)[k] == before[k]);
    } else {
        let j = k - before.len();
        assert(renames_of(order, width)[k] == mine[j]);
        assert(mine[j] == scene_renames(order[last], padded_decimal((last + 1) as nat, width))[j]);
    }
}

/// No parked name of a renumber is any of its destinations.
proof fn lemma_no_parked_destination(order: Seq<SceneView>, width: nat)
    ensures
        forall|a: int, b: int|
            0 <= a < renames_of(order, width).len() && 0 <= b < renames_of(order, width).len()
                ==> (#[trigger] renames_of(order, width)[a]).1 != (#[trigger] renames_of(order, width)[b]).2,
{
    let plan = renames_of(order, width);
    assert forall|a: int, b: int|
        0 <= a < plan.len() && 0 <= b < plan.len() implies (#[trigger] plan[a]).1 != (#[trigger] plan[b]).2 by {
        lemma_renames_are_scene_renames(order, width, a);
        lemma_renames_are_scene_renames(order, width, b);
        let (i, j) = choose|i: int, j: int|
            0 <= i < order.len() && 0 <= j < order[i].files.len() && plan[a]
                == #[trigger] scene_renames(order[i], padded_decimal((i + 1) as nat, width))[j];
        let (p, q) = choose|i: int, j: int|
            0 <= i < order.len() && 0 <= j < order[i].files.len() && plan[b]
                == #[trigger] scene_renames(order[i], padded_decimal((i + 1) as nat, width))[j];
        lemma_parked_is_never_a_destination(
            order[i].id,
            padded_decimal((i + 1) as nat, width),
            extension_or_empty(order[i].files[j]),
            (p + 1) as nat,
            width,
            extension_or_empty(order[p].files[q]),
        );
    }
}

/// What a folder must be for a renumber to run on it: every file the plan
/// moves is there under a name of its own, no parked name is taken, no two
/// files end under one name, and a destination already in the folder is one
/// of the files that moves away.
pub open spec fn folder_ready<C>(folder: Map<Seq<char>, C>, plan: Seq<(Seq<char>, Seq<char>, Seq<char>)>) -> bool {
    &&& forall|k: int|
        0 <= k < plan.len() ==> folder.dom().contains((#[trigger] plan[k]).0) && !folder.dom().contains(
            plan[k].1,
        )
    &&& forall|j: int, k: int|
        0 <= j < k < plan.len() ==> (#[trigger] plan[j]).0 != (#[trigger] plan[k]).0 && plan[j].1
            != plan[k].1 && plan[j].2 != plan[k].2
    &&& forall|k: int|
        0 <= k < plan.len() && folder.dom().contains((#[trigger] plan[k]).2) ==> plan_moves(plan, plan[k].2)
}

/// Moving a scene, over the folder's files: after the move's renumber,
/// every scene's files hold what they held, under the number of the scene's
/// new position — the moved scene's under the number of the position it was
/// moved to — keeping their extensions; every file that is no scene's is
/// where it was; and nothing is lost or overwritten. This holds for any
/// folder the renumber may be run on.
#[verifier::spinoff_prover]
#[verifier::rlimit(60)]
pub proof fn lemma_moving_a_scene_over_the_folder<C>(all: Seq<SceneView>, from: int, to: nat, folder: Map<Seq<char>, C>)
    requires
        0 <= from < all.len(),
        folder_ready(
            folder,
            renames_of(
                all.remove(from).insert(landing(to, all.len()) as int, all[from]),
                renumber_width(all.len()),
            ),
        ),
    ensures
        ({
            let target = landing(to, all.len()) as int;
            let order = all.remove(from).insert(target, all[from]);
            let width = renumber_width(all.len());
            let plan = renames_of(order, width);
            let after = renumbered(folder, plan);
            &&& forall|i: int, j: int|
                0 <= i < order.len() && 0 <= j < order[i].files.len() ==> after[padded_decimal((i + 1) as nat, width)
                    + "."@ + extension_or_empty(#[trigger] order[i].files[j])] == folder[order[i].files[j]]
            &&& forall|j: int|
                0 <= j < all[from].files.len() ==> after[padded_decimal((target + 1) as nat, width) + "."@
                    + extension_or_empty(#[trigger] all[from].files[j])] == folder[all[from].files[j]]
            &&& forall|x: Seq<char>|
                #![trigger after.dom().contains(x)]
                #![trigger after[x]]
                folder.dom().contains(x) && !plan_moves(plan, x) && !plan_lands(plan, x) ==> after.dom().contains(x)
                    && after[x] == folder[x]
            &&& forall|x: Seq<char>|
                #[trigger] after.dom().contains(x) ==> plan_lands(plan, x) || (folder.dom().contains(x)
                    && !plan_moves(plan, x))
        }),
{
    let target = landing(to, all.len()) as int;
    let order = all.remove(from).insert(target, all[from]);
    let width = renumber_width(all.len());
    let plan = renames_of(order, width);
    let after = renumbered(folder, plan);
    lemma_no_parked_destination(order, width);
    assert(runnable(folder, plan));
    lemma_move_keeps_the_rest(all, from, to);
    lemma_renames_cover(order, width);
    lemma_a_renumber_loses_nothing(folder, plan);
    assert forall|i: int, j: int|
        0 <= i < order.len() && 0 <= j < order[i].files.len() implies after[padded_decimal((i + 1) as nat, width)
        + "."@ + extension_or_empty(#[trigger] order[i].files[j])] == folder[order[i].files[j]] by {
        let x = scene_renames(order[i], padded_decimal((i + 1) as nat, width))[j];
        assert(plan.contains(x));
        let k = choose|k: int| 0 <= k < plan.len() && plan[k] == x;
        assert(plan[k].2 == padded_decimal((i + 1) as nat, width) + "."@ + extension_or_empty(order[i].files[j]));
        assert(plan[k].0 == order[i].files[j]);
    }
    assert forall|j: int|
        0 <= j < all[from].files.len() implies after[padded_decimal((target + 1) as nat, width) + "."@
        + extension_or_empty(#[trigger] all[from].files[j])] == folder[all[from].files[j]] by {
        assert(order[target] == all[from]);
        assert(0 <= target < order.len());
        assert(order[target].files[j] == all[from].files[j]);
        let x = scene_renames(order[target], padded_decimal((target + 1) as nat, width))[j];
        assert(plan.contains(x));
        let k = choose|k: int| 0 <= k < plan.len() && plan[k] == x;
        assert(plan[k].0 == all[from].files[j]);
    }
}

} // verus!
