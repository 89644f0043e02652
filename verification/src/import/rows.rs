//! Where the rows come from: a CSV manifest, or the folder itself.
//!
//! In convention mode every file that shares a stem belongs to one scene —
//! `001.png`, `001.txt`, `001.mp3` — and scenes come in the natural order of
//! their stems. In manifest mode the CSV lists the scenes, one per row, and
//! its order is the film's.

use vstd::prelude::*;
use crate::import::{DraftView, DurationCell, DurationView, KindView, Problem, ProblemKind, ProblemView, SceneDraft, opt_text};
use crate::natural::{
    NaturalKey, NaturalPart, PartView, natural_parts, natural_parts_of, key_parts, natural_le,
    text_le, text_le_exec, lemma_part_order, lemma_text_order, part_le,
};
use crate::order::{
    SortKey, stable_order, is_permutation, appears_in, lemma_lex_total, lemma_lex_transitive,
};
use crate::text::{
    file_stem_of, last_index_of, lemma_last_index_of, owned, same_text, split_name_at_dot, trim,
    trimmed, file_name, file_stem, split_name, file_name_of, ascii_lowered, to_ascii_lowercase,
    extension_of, extension, decimal, decimal_string, joined, utf8_string, all_digits, is_digit_char,
    find_char, first_index_of, lemma_first_index_of, join_path, joined_path,
};

verus! {

/// The manifest looked for when `project.yaml` does not name one.
pub const DEFAULT_MANIFEST: &'static str = "scenes.csv";

/// Whether a lower-cased extension marks a still.
pub open spec fn is_image_extension(e: Seq<char>) -> bool {
    e == "jpg"@ || e == "jpeg"@ || e == "png"@ || e == "webp"@ || e == "tif"@ || e == "tiff"@
        || e == "bmp"@ || e == "heic"@
}

/// Whether a lower-cased extension marks a narration.
pub open spec fn is_audio_extension(e: Seq<char>) -> bool {
    e == "mp3"@ || e == "m4a"@ || e == "wav"@ || e == "aac"@ || e == "flac"@ || e == "ogg"@
        || e == "opus"@ || e == "wma"@
}

/// Whether a lower-cased extension marks a line to speak.
pub open spec fn is_text_extension(e: Seq<char>) -> bool {
    e == "txt"@ || e == "md"@
}

/// Whether `e` marks a still.
pub fn image_extension(e: &str) -> (r: bool)
    ensures
        r == is_image_extension(e@),
{
    same_text(e, "jpg") || same_text(e, "jpeg") || same_text(e, "png") || same_text(e, "webp")
        || same_text(e, "tif") || same_text(e, "tiff") || same_text(e, "bmp") || same_text(
        e,
        "heic",
    )
}

/// Whether `e` marks a narration.
pub fn audio_extension(e: &str) -> (r: bool)
    ensures
        r == is_audio_extension(e@),
{
    same_text(e, "mp3") || same_text(e, "m4a") || same_text(e, "wav") || same_text(e, "aac")
        || same_text(e, "flac") || same_text(e, "ogg") || same_text(e, "opus") || same_text(
        e,
        "wma",
    )
}

/// Whether `e` marks a line to speak.
pub fn text_extension(e: &str) -> (r: bool)
    ensures
        r == is_text_extension(e@),
{
    same_text(e, "txt") || same_text(e, "md")
}

/// Which mode a project resolved to.
#[derive(Debug, Clone, PartialEq, Eq)]
pub enum Mode {
    /// A CSV manifest, at this path.
    Manifest(String),
    /// Stem-keyed pairing over the folder.
    Convention,
}

/// Where the last separator of either kind, `/` or `\`, is.
pub open spec fn last_separator(s: Seq<char>) -> Option<int>
    decreases s.len(),
{
    if s.len() == 0 {
        None
    } else if s.last() == '/' || s.last() == '\\' {
        Some(s.len() - 1)
    } else {
        last_separator(s.drop_last())
    }
}

/// What follows the last separator of either kind.
pub open spec fn tail_of(s: Seq<char>) -> Seq<char> {
    match last_separator(s) {
        Some(k) => s.skip(k + 1),
        None => s,
    }
}

/// The stem a manifest cell names, in either separator style, trimmed;
/// `None` when there is none.
pub open spec fn manifest_stem(value: Seq<char>) -> Option<Seq<char>> {
    match file_stem_of(tail_of(value)) {
        Some(stem) => if trimmed(stem).len() > 0 {
            Some(trimmed(stem))
        } else {
            None
        },
        None => None,
    }
}

proof fn lemma_last_separator(s: Seq<char>)
    ensures
        match last_separator(s) {
            Some(k) => 0 <= k < s.len() && (s[k] == '/' || s[k] == '\\') && forall|j: int|
                k < j < s.len() ==> s[j] != '/' && s[j] != '\\',
            None => forall|j: int| 0 <= j < s.len() ==> s[j] != '/' && s[j] != '\\',
        },
    decreases s.len(),
{
    if s.len() > 0 && s.last() != '/' && s.last() != '\\' {
        let t = s.drop_last();
        lemma_last_separator(t);
        assert(forall|j: int| 0 <= j < t.len() ==> t[j] == s[j]);
    }
}

proof fn lemma_last_separator_is(s: Seq<char>, k: int)
    requires
        0 <= k < s.len(),
        s[k] == '/' || s[k] == '\\',
        forall|j: int| k < j < s.len() ==> s[j] != '/' && s[j] != '\\',
    ensures
        last_separator(s) == Some(k),
    decreases s.len(),
{
    if s.last() != '/' && s.last() != '\\' {
        lemma_last_separator_is(s.drop_last(), k);
    }
}

proof fn lemma_last_separator_none(s: Seq<char>)
    requires
        forall|j: int| 0 <= j < s.len() ==> s[j] != '/' && s[j] != '\\',
    ensures
        last_separator(s) == None::<int>,
    decreases s.len(),
{
    if s.len() > 0 {
        lemma_last_separator_none(s.drop_last());
    }
}

/// What follows the last separator of either kind.
fn tail<'a>(s: &'a str) -> (r: &'a str)
    ensures
        r@ == tail_of(s@),
{
    let n = s.unicode_len();
    let mut i: usize = n;
    while i > 0
        invariant
            n == s@.len(),
            0 <= i <= n,
            forall|j: int| i <= j < n ==> s@[j] != '/' && s@[j] != '\\',
        decreases i,
    {
        let c = s.get_char(i - 1);
        if c == '/' || c == '\\' {
            proof {
                lemma_last_separator_is(s@, i - 1);
            }
            let r = s.substring_char(i, n);
            assert(r@ =~= s@.skip(i as int));
            return r;
        }
        i = i - 1;
    }
    proof {
        lemma_last_separator_none(s@);
    }
    let r = s.substring_char(0, n);
    assert(r@ =~= s@);
    r
}

/// The stem a manifest cell names, written on any machine: `img\001.jpg`
/// and `img/001.jpg` both name `001`.
pub fn stem_of(value: &str) -> (r: Option<String>)
    ensures
        match r {
            Some(s) => manifest_stem(value@) == Some(s@),
            None => manifest_stem(value@).is_none(),
        },
{
    match file_stem(tail(value)) {
        Some(stem) => {
            let t = trim(stem);
            if t.unicode_len() > 0 {
                Some(owned(t))
            } else {
                None
            }
        },
        None => None,
    }
}

/// A cell with content, trimmed; a blank one is no value at all.
pub open spec fn non_empty_value(value: Option<Seq<char>>) -> Option<Seq<char>> {
    match value {
        Some(v) => if trimmed(v).len() > 0 {
            Some(trimmed(v))
        } else {
            None
        },
        None => None,
    }
}

/// The view of an optional string.
pub open spec fn opt_string_view(value: Option<String>) -> Option<Seq<char>> {
    match value {
        Some(v) => Some(v@),
        None => None,
    }
}

/// `Some(trimmed)` for a cell with content, `None` for a blank one.
pub fn non_empty(value: Option<String>) -> (r: Option<String>)
    ensures
        opt_string_view(r) == non_empty_value(opt_string_view(value)),
{
    match value {
        Some(v) => {
            let t = trim(v.as_str());
            if t.unicode_len() > 0 {
                Some(owned(t))
            } else {
                None
            }
        },
        None => None,
    }
}

/// A stem's natural sort key: digit runs as numbers, text lower-cased.
pub fn natural_key(stem: &str) -> (r: Vec<NaturalPart>)
    ensures
        r@.map_values(|p: NaturalPart| p@) == natural_parts(stem@, true),
{
    natural_parts_of(stem, true)
}

} // verus!

verus! {

/// The positions of `stems` in natural order: numbered stems first, numbers
/// compared as numbers, and equal keys in the order they came.
pub fn natural_order(stems: &Vec<String>) -> (order: Vec<usize>)
    ensures
        is_permutation(order@, stems@.len()),
        forall|p: int, q: int|
            #![trigger order@[p], order@[q]]
            0 <= p < q < order@.len() ==> {
                let a = natural_parts(stems@[order@[p] as int]@, true);
                let b = natural_parts(stems@[order@[q] as int]@, true);
                natural_le(a, b) && (natural_le(b, a) ==> order@[p] < order@[q])
            },
{
    let mut keys: Vec<NaturalKey> = Vec::new();
    let mut i: usize = 0;
    while i < stems.len()
        invariant
            0 <= i <= stems@.len(),
            keys@.len() == i,
            forall|k: int| 0 <= k < i ==> key_parts(#[trigger] keys@[k]) == natural_parts(
                stems@[k]@,
                true,
            ),
        decreases stems@.len() - i,
    {
        let parts = natural_key(stems[i].as_str());
        keys.push(NaturalKey(parts));
        i = i + 1;
    }
    let order = stable_order(&keys);
    proof {
        assert forall|p: int, q: int| #![trigger order@[p], order@[q]] 0 <= p < q < order@.len() implies {
            let a = natural_parts(stems@[order@[p] as int]@, true);
            let b = natural_parts(stems@[order@[q] as int]@, true);
            natural_le(a, b) && (natural_le(b, a) ==> order@[p] < order@[q])
        } by {
            assert(keys@[order@[p] as int].key_le(keys@[order@[q] as int]));
        }
    }
    order
}

/// What a file in the folder is for.
#[derive(Debug, Clone, Copy, PartialEq, Eq, Structural)]
pub enum Slot {
    /// The still.
    Image,
    /// A recording.
    Audio,
    /// A line to speak.
    Text,
}

/// What a file name is for, by its lower-cased extension: nothing, for a
/// hidden file, a name without both a stem and an extension, or an
/// extension that is none of the three.
pub open spec fn slot_of(name: Seq<char>) -> Option<Slot> {
    if name.len() > 0 && name[0] == '.' {
        None
    } else {
        match (file_stem_of(name), extension_of(name)) {
            (Some(_), Some(e)) => {
                let e = ascii_lowered(e);
                if is_image_extension(e) {
                    Some(Slot::Image)
                } else if is_audio_extension(e) {
                    Some(Slot::Audio)
                } else if is_text_extension(e) {
                    Some(Slot::Text)
                } else {
                    None
                }
            },
            _ => None,
        }
    }
}

/// The stem a file name files under.
pub open spec fn name_stem(name: Seq<char>) -> Seq<char> {
    file_stem_of(name).unwrap()
}

/// The first of `names` in `slot` with this stem.
pub open spec fn first_with(names: Seq<Seq<char>>, stem: Seq<char>, slot: Slot) -> Option<Seq<char>>
    decreases names.len(),
{
    if names.len() == 0 {
        None
    } else {
        match first_with(names.drop_last(), stem, slot) {
            Some(found) => Some(found),
            None => if slot_of(names.last()) == Some(slot) && name_stem(names.last()) == stem {
                Some(names.last())
            } else {
                None
            },
        }
    }
}

/// Whether some file of the folder files under this stem.
pub open spec fn has_member(names: Seq<Seq<char>>, stem: Seq<char>) -> bool {
    exists|j: int| 0 <= j < names.len() && slot_of(names[j]) is Some && name_stem(names[j]) == stem
}

/// Every file that shares one stem.
#[derive(Debug)]
pub struct Group {
    /// The shared stem.
    pub stem: String,
    /// The first still.
    pub image: Option<String>,
    /// The first recording.
    pub audio: Option<String>,
    /// The first script.
    pub text: Option<String>,
}

/// Which file of a group fills `slot`.
pub open spec fn group_slot(g: Group, slot: Slot) -> Option<Seq<char>> {
    match slot {
        Slot::Image => opt_string_view(g.image),
        Slot::Audio => opt_string_view(g.audio),
        Slot::Text => opt_string_view(g.text),
    }
}

/// The order groups come in: the natural key of the stem, then the stem.
pub open spec fn group_le(a: Seq<char>, b: Seq<char>) -> bool {
    let (x, y) = (natural_parts(a, true), natural_parts(b, true));
    natural_le(x, y) && (natural_le(y, x) ==> text_le(a, b))
}

/// What a group sorts by.
pub struct GroupKey {
    /// The stem's natural key.
    pub natural: NaturalKey,
    /// The stem itself.
    pub stem: String,
}

impl SortKey for GroupKey {
    open spec fn key_le(self, other: Self) -> bool {
        let (x, y) = (key_parts(self.natural), key_parts(other.natural));
        natural_le(x, y) && (natural_le(y, x) ==> text_le(self.stem@, other.stem@))
    }

    proof fn lemma_key_order() {
        lemma_part_order();
        lemma_text_order();
        let le = |x: PartView, y: PartView| part_le(x, y);
        let tle = |a: Seq<char>, b: Seq<char>| text_le(a, b);
        assert forall|a: GroupKey, b: GroupKey| a.key_le(b) || b.key_le(a) by {
            let (x, y) = (key_parts(a.natural), key_parts(b.natural));
            lemma_lex_total(x, y, le);
            assert(tle(a.stem@, b.stem@) || tle(b.stem@, a.stem@));
        }
        assert forall|a: GroupKey, b: GroupKey, c: GroupKey|
            #[trigger] a.key_le(b) && #[trigger] b.key_le(c) implies a.key_le(c) by {
            let (x, y, z) = (key_parts(a.natural), key_parts(b.natural), key_parts(c.natural));
            lemma_lex_transitive(x, y, z, le);
            if natural_le(z, x) {
                lemma_lex_transitive(z, x, y, le);
                lemma_lex_transitive(y, z, x, le);
                assert(tle(a.stem@, b.stem@) && tle(b.stem@, c.stem@));
            }
        }
    }

    fn le(&self, other: &Self) -> (r: bool) {
        let x = self.natural.le(&other.natural);
        let y = other.natural.le(&self.natural);
        x && (!y || text_le_exec(self.stem.as_str(), other.stem.as_str()))
    }
}

fn clone_text(o: &Option<String>) -> (r: Option<String>)
    ensures
        opt_string_view(r) == opt_string_view(*o),
{
    match o {
        Some(s) => Some(owned(s.as_str())),
        None => None,
    }
}

/// What `name` is for, if anything.
pub fn slot_of_name(name: &str) -> (r: Option<Slot>)
    ensures
        r == slot_of(name@),
{
    if name.unicode_len() > 0 && name.get_char(0) == '.' {
        return None;
    }
    match (file_stem(name), extension(name)) {
        (Some(_), Some(e)) => {
            let e = to_ascii_lowercase(e);
            if image_extension(e.as_str()) {
                Some(Slot::Image)
            } else if audio_extension(e.as_str()) {
                Some(Slot::Audio)
            } else if text_extension(e.as_str()) {
                Some(Slot::Text)
            } else {
                None
            }
        },
        _ => None,
    }
}

proof fn lemma_first_with_extend(names: Seq<Seq<char>>, i: int, stem: Seq<char>, slot: Slot)
    requires
        0 <= i < names.len(),
    ensures
        first_with(names.take(i + 1), stem, slot) == match first_with(names.take(i), stem, slot) {
            Some(found) => Some(found),
            None => if slot_of(names[i]) == Some(slot) && name_stem(names[i]) == stem {
                Some(names[i])
            } else {
                None
            },
        },
{
    assert(names.take(i + 1).drop_last() =~= names.take(i));
}

/// Gather a folder's files by stem, in the order their stems sort: every
/// still, recording and script lands in the one group of its stem, and each
/// group keeps the first file of each kind the listing gave it.
pub fn group_files(names: &Vec<String>) -> (groups: Vec<Group>)
    ensures
        ({
            let ns = names@.map_values(|s: String| s@);
            &&& forall|k: int| 0 <= k < groups@.len() ==> has_member(ns, (#[trigger] groups@[k]).stem@)
            &&& forall|j: int|
                0 <= j < ns.len() && (#[trigger] slot_of(ns[j])) is Some ==> exists|k: int|
                    0 <= k < groups@.len() && groups@[k].stem@ == name_stem(ns[j])
            &&& forall|k: int, l: int|
                0 <= k < l < groups@.len() ==> (#[trigger] groups@[k]).stem@ != (#[trigger] groups@[l]).stem@
            &&& forall|k: int, slot: Slot|
                0 <= k < groups@.len() ==> #[trigger] group_slot(groups@[k], slot) == first_with(
                    ns,
                    groups@[k].stem@,
                    slot,
                )
            &&& forall|k: int, l: int|
                0 <= k < l < groups@.len() ==> group_le(
                    (#[trigger] groups@[k]).stem@,
                    (#[trigger] groups@[l]).stem@,
                )
        }),
{
    let ghost ns = names@.map_values(|s: String| s@);
    let mut found: Vec<Group> = Vec::new();
    let mut i: usize = 0;
    while i < names.len()
        invariant
            0 <= i <= names@.len(),
            ns == names@.map_values(|s: String| s@),
            forall|k: int| 0 <= k < found@.len() ==> has_member(ns.take(i as int), (#[trigger] found@[k]).stem@),
            forall|j: int|
                0 <= j < i && (#[trigger] slot_of(ns[j])) is Some ==> exists|k: int|
                    0 <= k < found@.len() && found@[k].stem@ == name_stem(ns[j]),
            forall|k: int, l: int|
                0 <= k < l < found@.len() ==> (#[trigger] found@[k]).stem@ != (#[trigger] found@[l]).stem@,
            forall|k: int, slot: Slot|
                0 <= k < found@.len() ==> #[trigger] group_slot(found@[k], slot) == first_with(
                    ns.take(i as int),
                    found@[k].stem@,
                    slot,
                ),
        decreases names@.len() - i,
    {
        let name = names[i].as_str();
        let ghost before = found@;
        let ghost pre = ns.take(i as int);
        let ghost now = ns.take(i + 1);
        assert(now.drop_last() =~= pre);
        assert(ns[i as int] == name@);
        assert forall|k: int| 0 <= k < before.len() implies has_member(now, (#[trigger] before[k]).stem@) by {
            let j = choose|j: int| 0 <= j < pre.len() && slot_of(pre[j]) is Some && name_stem(pre[j]) == before[k].stem@;
            assert(now[j] == pre[j]);
        }
        match slot_of_name(name) {
            None => {
                assert forall|k: int, slot: Slot| 0 <= k < found@.len() implies #[trigger] group_slot(found@[k], slot)
                    == first_with(now, found@[k].stem@, slot) by {
                    lemma_first_with_extend(ns, i as int, found@[k].stem@, slot);
                    assert(ns.take(i as int) =~= pre);
                }
            },
            Some(slot) => {
                let stem = file_stem(name).unwrap();
                assert(name_stem(name@) == stem@);
                let mut k: usize = 0;
                while k < found.len() && !same_text(found[k].stem.as_str(), stem)
                    invariant
                        0 <= k <= found@.len(),
                        found@ == before,
                        forall|q: int| 0 <= q < k ==> (#[trigger] found@[q]).stem@ != stem@,
                    decreases found@.len() - k,
                {
                    k = k + 1;
                }
                if k == found.len() {
                    proof {
                        assert forall|s: Slot| first_with(pre, stem@, s) == None::<Seq<char>> by {
                            if first_with(pre, stem@, s) is Some {
                                lemma_first_with_member(pre, stem@, s);
                                let j = choose|j: int|
                                    0 <= j < pre.len() && slot_of(pre[j]) is Some && name_stem(pre[j])
                                        == stem@;
                                assert(pre[j] == ns[j]);
                                assert(slot_of(ns[j]) is Some);
                                let k2 = choose|k2: int|
                                    0 <= k2 < before.len() && before[k2].stem@ == name_stem(ns[j]);
                                assert(before[k2].stem@ != stem@);
                            }
                        }
                    }
                    found.push(Group { stem: owned(stem), image: None, audio: None, text: None });
                }
                let ghost mid = found@;
                assert(mid[k as int].stem@ == stem@);
                assert(forall|q: int| 0 <= q < before.len() ==> mid[q] == before[q]);
                assert(forall|q: int| 0 <= q < mid.len() && q != k ==> mid[q].stem@ != stem@);
                assert(forall|s: Slot| #[trigger] group_slot(mid[k as int], s) == first_with(pre, stem@, s));
                let target = &mut found[k];
                match slot {
                    Slot::Image => if target.image.is_none() {
                        target.image = Some(owned(name));
                    },
                    Slot::Audio => if target.audio.is_none() {
                        target.audio = Some(owned(name));
                    },
                    Slot::Text => if target.text.is_none() {
                        target.text = Some(owned(name));
                    },
                }
                proof {
                    assert(found@.len() == mid.len());
                    assert(forall|q: int| 0 <= q < mid.len() ==> (#[trigger] found@[q]).stem@ == mid[q].stem@);
                    assert(forall|q: int| 0 <= q < mid.len() && q != k ==> #[trigger] found@[q] == mid[q]);
                    assert forall|q: int, s: Slot| 0 <= q < found@.len() implies #[trigger] group_slot(found@[q], s)
                        == first_with(now, found@[q].stem@, s) by {
                        lemma_first_with_extend(ns, i as int, found@[q].stem@, s);
                        assert(ns.take(i as int) =~= pre);
                        assert(ns.take(i + 1) =~= now);
                        if q != k {
                            assert(found@[q] == mid[q]);
                            assert(q < before.len());
                            assert(group_slot(before[q], s) == first_with(pre, before[q].stem@, s));
                        }
                    }
                    assert forall|q: int| 0 <= q < found@.len() implies has_member(now, (#[trigger] found@[q]).stem@) by {
                        if q == k {
                            assert(now[i as int] == name@);
                        } else {
                            assert(found@[q] == mid[q]);
                            assert(has_member(now, before[q].stem@));
                        }
                    }
                    assert forall|j: int| 0 <= j < i + 1 && (#[trigger] slot_of(ns[j])) is Some implies exists|q: int|
                        0 <= q < found@.len() && found@[q].stem@ == name_stem(ns[j]) by {
                        if j == i {
                            assert(found@[k as int].stem@ == name_stem(ns[j]));
                        } else {
                            let q = choose|q: int| 0 <= q < before.len() && before[q].stem@ == name_stem(ns[j]);
                            assert(found@[q].stem@ == before[q].stem@);
                        }
                    }
                    assert forall|q: int, l: int| 0 <= q < l < found@.len() implies
                        (#[trigger] found@[q]).stem@ != (#[trigger] found@[l]).stem@ by {
                        if l < before.len() {
                            assert(before[q].stem@ != before[l].stem@);
                        }
                    }
                }
            },
        }
        i = i + 1;
    }
    assert(ns.take(names@.len() as int) =~= ns);
    let mut keys: Vec<GroupKey> = Vec::new();
    let mut k: usize = 0;
    while k < found.len()
        invariant
            0 <= k <= found@.len(),
            keys@.len() == k,
            forall|q: int| 0 <= q < k ==> key_parts((#[trigger] keys@[q]).natural) == natural_parts(found@[q].stem@, true)
                && keys@[q].stem@ == found@[q].stem@,
        decreases found@.len() - k,
    {
        let stem = found[k].stem.as_str();
        keys.push(GroupKey { natural: NaturalKey(natural_key(stem)), stem: owned(stem) });
        k = k + 1;
    }
    let order = stable_order(&keys);
    let mut groups: Vec<Group> = Vec::new();
    let mut p: usize = 0;
    while p < order.len()
        invariant
            is_permutation(order@, found@.len()),
            0 <= p <= order@.len(),
            groups@.len() == p,
            forall|q: int| 0 <= q < p ==> {
                let g = #[trigger] groups@[q];
                let f = found@[order@[q] as int];
                g.stem@ == f.stem@ && opt_string_view(g.image) == opt_string_view(f.image)
                    && opt_string_view(g.audio) == opt_string_view(f.audio)
                    && opt_string_view(g.text) == opt_string_view(f.text)
            },
        decreases order@.len() - p,
    {
        let f = &found[order[p]];
        groups.push(Group {
            stem: owned(f.stem.as_str()),
            image: clone_text(&f.image),
            audio: clone_text(&f.audio),
            text: clone_text(&f.text),
        });
        p = p + 1;
    }
    proof {
        assert forall|q: int, s: Slot| 0 <= q < groups@.len() implies #[trigger] group_slot(groups@[q], s)
            == first_with(ns, groups@[q].stem@, s) by {
            let f = found@[order@[q] as int];
            assert(group_slot(f, s) == first_with(ns, f.stem@, s));
        }
        assert forall|j: int| 0 <= j < ns.len() && (#[trigger] slot_of(ns[j])) is Some implies exists|q: int|
            0 <= q < groups@.len() && groups@[q].stem@ == name_stem(ns[j]) by {
            let k = choose|k: int| 0 <= k < found@.len() && found@[k].stem@ == name_stem(ns[j]);
            assert(appears_in(order@, k));
            let q = choose|q: int| 0 <= q < order@.len() && order@[q] == k;
            assert(groups@[q].stem@ == found@[k].stem@);
        }
        assert forall|q: int, l: int| 0 <= q < l < groups@.len() implies
            (#[trigger] groups@[q]).stem@ != (#[trigger] groups@[l]).stem@ by {
            let (a, b) = (order@[q] as int, order@[l] as int);
            assert(a != b);
            if a < b {
                assert(found@[a].stem@ != found@[b].stem@);
            } else {
                assert(found@[b].stem@ != found@[a].stem@);
            }
        }
        assert forall|q: int, l: int| 0 <= q < l < groups@.len() implies group_le(
            (#[trigger] groups@[q]).stem@,
            (#[trigger] groups@[l]).stem@,
        ) by {
            assert(keys@[order@[q] as int].key_le(keys@[order@[l] as int]));
        }
        assert forall|q: int| 0 <= q < groups@.len() implies has_member(ns, (#[trigger] groups@[q]).stem@) by {
            assert(has_member(ns, found@[order@[q] as int].stem@));
        }
    }
    groups
}

/// A file found first under a stem and a slot is one of the files.
proof fn lemma_first_with_member(names: Seq<Seq<char>>, stem: Seq<char>, slot: Slot)
    requires
        first_with(names, stem, slot) is Some,
    ensures
        has_member(names, stem),
    decreases names.len(),
{
    if let Some(f) = first_with(names.drop_last(), stem, slot) {
        lemma_first_with_member(names.drop_last(), stem, slot);
        let j = choose|j: int| 0 <= j < names.drop_last().len() && slot_of(names.drop_last()[j]) is Some
            && name_stem(names.drop_last()[j]) == stem;
        assert(names[j] == names.drop_last()[j]);
    } else {
        assert(slot_of(names[names.len() - 1]) is Some);
    }
}

} // verus!

verus! {

/// The view of a script's read: the words, or why they could not be had.
pub open spec fn read_view(read: Option<Result<String, String>>) -> Option<Result<Seq<char>, Seq<char>>> {
    match read {
        Some(Ok(t)) => Some(Ok(t@)),
        Some(Err(e)) => Some(Err(e@)),
        None => None,
    }
}

/// The problems one group contributes: a recording or script with no still
/// is reported, never dropped; a script that could not be read is reported
/// and the scene goes on without it.
pub open spec fn group_problems(g: Group, read: Option<Result<Seq<char>, Seq<char>>>) -> Seq<ProblemView> {
    if g.image is None {
        (if g.audio is Some {
            seq![ProblemView { scene: None, kind: KindView::UnpairedFile(g.audio.unwrap()@) }]
        } else {
            Seq::empty()
        }) + (if g.text is Some {
            seq![ProblemView { scene: None, kind: KindView::UnpairedFile(g.text.unwrap()@) }]
        } else {
            Seq::empty()
        })
    } else {
        match (g.text, read) {
            (Some(name), Some(Err(detail))) => seq![
                ProblemView {
                    scene: None,
                    kind: KindView::NotUsableMedia("text"@, name@, detail),
                },
            ],
            _ => Seq::empty(),
        }
    }
}

/// The row one group becomes, when it has a still: its stem, its still, its
/// words if they could be read, its recording, and the project's default
/// length when it has nothing to say at all.
pub open spec fn group_draft(g: Group, read: Option<Result<Seq<char>, Seq<char>>>) -> Option<DraftView> {
    match g.image {
        None => None,
        Some(image) => Some(
            DraftView {
                id: g.stem@,
                image: Some(image@),
                text: match (g.text, read) {
                    (Some(_), Some(Ok(t))) => Some(t),
                    _ => None,
                },
                audio: opt_text(g.audio),
                duration: if g.audio is None && g.text is None {
                    DurationView::ProjectDefault
                } else {
                    DurationView::Unset
                },
                voice: None,
                zoom_direction: None,
                zoom_anchor: None,
            },
        ),
    }
}

/// Every group's rows, in order.
pub open spec fn convention_drafts_of(
    groups: Seq<Group>,
    reads: Seq<Option<Result<Seq<char>, Seq<char>>>>,
) -> Seq<DraftView>
    decreases groups.len(),
{
    if groups.len() == 0 {
        Seq::empty()
    } else {
        let rest = convention_drafts_of(groups.drop_last(), reads.drop_last());
        match group_draft(groups.last(), reads.last()) {
            Some(d) => rest.push(d),
            None => rest,
        }
    }
}

/// Every group's problems, in order.
pub open spec fn convention_problems_of(
    groups: Seq<Group>,
    reads: Seq<Option<Result<Seq<char>, Seq<char>>>>,
) -> Seq<ProblemView>
    decreases groups.len(),
{
    if groups.len() == 0 {
        Seq::empty()
    } else {
        convention_problems_of(groups.drop_last(), reads.drop_last()) + group_problems(
            groups.last(),
            reads.last(),
        )
    }
}

fn copy_text(o: &Option<String>) -> (r: Option<String>)
    ensures
        opt_text(r) == opt_text(*o),
{
    match o {
        Some(s) => Some(owned(s.as_str())),
        None => None,
    }
}

/// The rows and problems of a convention-mode folder, from its groups and
/// what reading each group's script found (`None` where there was nothing to
/// read).
pub fn convention_drafts(
    groups: &Vec<Group>,
    reads: &Vec<Option<Result<String, String>>>,
) -> (r: (Vec<SceneDraft>, Vec<Problem>))
    requires
        reads@.len() == groups@.len(),
    ensures
        r.0@.map_values(|d: SceneDraft| d@) == convention_drafts_of(
            groups@,
            reads@.map_values(|x: Option<Result<String, String>>| read_view(x)),
        ),
        r.1@.map_values(|p: Problem| p@) == convention_problems_of(
            groups@,
            reads@.map_values(|x: Option<Result<String, String>>| read_view(x)),
        ),
{
    let ghost rv = reads@.map_values(|x: Option<Result<String, String>>| read_view(x));
    let mut drafts: Vec<SceneDraft> = Vec::new();
    let mut problems: Vec<Problem> = Vec::new();
    let mut k: usize = 0;
    while k < groups.len()
        invariant
            0 <= k <= groups@.len(),
            reads@.len() == groups@.len(),
            rv == reads@.map_values(|x: Option<Result<String, String>>| read_view(x)),
            drafts@.map_values(|d: SceneDraft| d@) == convention_drafts_of(
                groups@.take(k as int),
                rv.take(k as int),
            ),
            problems@.map_values(|p: Problem| p@) == convention_problems_of(
                groups@.take(k as int),
                rv.take(k as int),
            ),
        decreases groups@.len() - k,
    {
        let g = &groups[k];
        let read = &reads[k];
        let ghost gs = groups@.take(k + 1);
        let ghost rs = rv.take(k + 1);
        assert(gs.drop_last() =~= groups@.take(k as int));
        assert(rs.drop_last() =~= rv.take(k as int));
        assert(gs.last() == *g);
        assert(rs.last() == read_view(*read));
        let ghost before = problems@.map_values(|p: Problem| p@);
        let ghost drafts_before = drafts@.map_values(|d: SceneDraft| d@);
        match &g.image {
            None => {
                if let Some(a) = &g.audio {
                    problems.push(Problem {
                        scene: None,
                        kind: ProblemKind::UnpairedFile { value: owned(a.as_str()) },
                    });
                }
                if let Some(t) = &g.text {
                    problems.push(Problem {
                        scene: None,
                        kind: ProblemKind::UnpairedFile { value: owned(t.as_str()) },
                    });
                }
                assert(problems@.map_values(|p: Problem| p@) =~= before + group_problems(*g, read_view(*read)));
                assert(drafts@.map_values(|d: SceneDraft| d@) =~= drafts_before);
            },
            Some(image) => {
                let text = match (&g.text, read) {
                    (Some(name), Some(Err(detail))) => {
                        problems.push(Problem {
                            scene: None,
                            kind: ProblemKind::NotUsableMedia {
                                field: owned("text"),
                                value: owned(name.as_str()),
                                detail: owned(detail.as_str()),
                            },
                        });
                        None
                    },
                    (Some(_), Some(Ok(t))) => Some(owned(t.as_str())),
                    _ => None,
                };
                let duration = if g.audio.is_none() && g.text.is_none() {
                    DurationCell::ProjectDefault
                } else {
                    DurationCell::Unset
                };
                let draft = SceneDraft {
                    id: owned(g.stem.as_str()),
                    image: Some(owned(image.as_str())),
                    text,
                    audio: copy_text(&g.audio),
                    duration,
                    voice: None,
                    zoom_direction: None,
                    zoom_anchor: None,
                };
                drafts.push(draft);
                assert(problems@.map_values(|p: Problem| p@) =~= before + group_problems(*g, read_view(*read)));
                assert(drafts@.map_values(|d: SceneDraft| d@) =~= drafts_before.push(draft@));
            },
        }
        k = k + 1;
    }
    assert(groups@.take(groups@.len() as int) =~= groups@);
    assert(rv.take(groups@.len() as int) =~= rv);
    (drafts, problems)
}

} // verus!

verus! {

/// `s` without the byte-order marks at its start.
pub open spec fn without_boms(s: Seq<char>) -> Seq<char>
    decreases s.len(),
{
    if s.len() > 0 && s[0] == '\u{feff}' {
        without_boms(s.drop_first())
    } else {
        s
    }
}

/// What a script file holds as a line to speak: UTF-8, byte-order marks
/// stripped, white space trimmed — or why it could not be had.
pub open spec fn script_text(read: Result<Seq<u8>, Seq<char>>) -> Result<Seq<char>, Seq<char>> {
    match read {
        Err(e) => Err("could not read it: "@ + e),
        Ok(bytes) => if vstd::utf8::valid_utf8(bytes) {
            Ok(trimmed(without_boms(vstd::utf8::decode_utf8(bytes))))
        } else {
            Err("not UTF-8 text \u{2014} re-save it as UTF-8"@)
        },
    }
}

/// The view of a file read: its bytes, or the system's reason.
pub open spec fn bytes_view(read: Result<Vec<u8>, String>) -> Result<Seq<u8>, Seq<char>> {
    match read {
        Ok(b) => Ok(b@),
        Err(e) => Err(e@),
    }
}

/// Read a narration file's contents into the line to speak.
pub fn read_line(read: Result<Vec<u8>, String>) -> (r: Result<String, String>)
    ensures
        match r {
            Ok(t) => script_text(bytes_view(read)) == Ok::<Seq<char>, Seq<char>>(t@),
            Err(e) => script_text(bytes_view(read)) == Err::<Seq<char>, Seq<char>>(e@),
        },
{
    match read {
        Err(e) => Err(joined("could not read it: ", e.as_str())),
        Ok(bytes) => match utf8_string(bytes) {
            None => Err(owned("not UTF-8 text \u{2014} re-save it as UTF-8")),
            Some(text) => {
                let s = text.as_str();
                let n = s.unicode_len();
                let mut i: usize = 0;
                assert(s@.skip(0) =~= s@);
                while i < n && s.get_char(i) == '\u{feff}'
                    invariant
                        n == s@.len(),
                        0 <= i <= n,
                        without_boms(s@) == without_boms(s@.skip(i as int)),
                    decreases n - i,
                {
                    assert(s@.skip(i as int).drop_first() =~= s@.skip(i + 1));
                    i = i + 1;
                }
                let rest = s.substring_char(i, n);
                assert(rest@ =~= s@.skip(i as int));
                Ok(owned(trim(rest)))
            },
        },
    }
}

/// One manifest row, as the CSV spells it.
#[derive(Debug, Clone, PartialEq, Eq)]
pub struct ManifestRow {
    /// The still.
    pub image: String,
    /// A line to speak.
    pub text: Option<String>,
    /// A recording.
    pub audio_file: Option<String>,
    /// A voice for this row.
    pub voice: Option<String>,
    /// Seconds, as written.
    pub duration: Option<String>,
    /// A move.
    pub zoom_direction: Option<String>,
    /// Its anchor.
    pub zoom_anchor: Option<String>,
}

/// The id a manifest row gets: its still's stem, or `row N` counting from
/// one when the cell names none.
pub open spec fn row_id(index: nat, image: Seq<char>) -> Seq<char> {
    match manifest_stem(image) {
        Some(stem) => stem,
        None => "row "@ + decimal(index + 1),
    }
}

/// The row a manifest line becomes. Blank cells are no value at all; a
/// duration is carried as the text it was written as, and whether that text
/// is a number of seconds is the caller's to judge (see
/// [`unusable_duration`]).
pub fn draft_from_row(index: usize, row: ManifestRow) -> (r: SceneDraft)
    requires
        index < usize::MAX,
    ensures
        r.id@ == row_id(index as nat, row.image@),
        opt_text(r.image) == non_empty_value(Some(row.image@)),
        opt_text(r.text) == non_empty_value(opt_text(row.text)),
        opt_text(r.audio) == non_empty_value(opt_text(row.audio_file)),
        opt_text(r.voice) == non_empty_value(opt_text(row.voice)),
        opt_text(r.zoom_direction) == non_empty_value(opt_text(row.zoom_direction)),
        opt_text(r.zoom_anchor) == non_empty_value(opt_text(row.zoom_anchor)),
        r.duration@ == match non_empty_value(opt_text(row.duration)) {
            None => DurationView::Unset,
            Some(t) => DurationView::Declared(t),
        },
{
    let id = match stem_of(row.image.as_str()) {
        Some(stem) => stem,
        None => joined("row ", decimal_string((index + 1) as u64).as_str()),
    };
    let duration = match non_empty(row.duration) {
        None => DurationCell::Unset,
        Some(text) => DurationCell::Declared(text),
    };
    SceneDraft {
        id,
        image: non_empty(Some(row.image)),
        text: non_empty(row.text),
        audio: non_empty(row.audio_file),
        duration,
        voice: non_empty(row.voice),
        zoom_direction: non_empty(row.zoom_direction),
        zoom_anchor: non_empty(row.zoom_anchor),
    }
}

/// The problem with a duration cell that is not a number of seconds.
pub fn unusable_duration(text: &str) -> (r: ProblemKind)
    ensures
        r@ == KindView::UnusableSetting("duration"@, text@, "a number of seconds"@),
{
    ProblemKind::UnusableSetting {
        field: owned("duration"),
        value: owned(text),
        expected: owned("a number of seconds"),
    }
}

} // verus!

verus! {

/// Rows could not be collected at all.
#[derive(Debug, Clone, PartialEq, Eq)]
pub enum RowsError {
    /// The project folder could not be listed.
    Unreadable {
        /// Which folder.
        path: String,
        /// The system's reason.
        detail: String,
    },
    /// A manifest was named and is not there.
    ManifestMissing {
        /// Which file was expected.
        path: String,
    },
    /// The CSV will not parse, or its header is not one we accept.
    ManifestMalformed {
        /// Which file.
        path: String,
        /// What was wrong.
        detail: String,
    },
}

/// What a rows failure says.
pub open spec fn rows_message(e: RowsError) -> Seq<char> {
    match e {
        RowsError::Unreadable { path, detail } => "could not read "@ + path@ + ": "@ + detail@,
        RowsError::ManifestMissing { path } => "no manifest at "@ + path@,
        RowsError::ManifestMalformed { path, detail } => path@ + ": "@ + detail@,
    }
}

impl RowsError {
    /// The failure in words.
    pub fn message(&self) -> (r: String)
        ensures
            r@ == rows_message(*self),
    {
        match self {
            RowsError::Unreadable { path, detail } => {
                let mut s = owned("could not read ");
                s.append(path.as_str());
                s.append(": ");
                s.append(detail.as_str());
                s
            },
            RowsError::ManifestMissing { path } => joined("no manifest at ", path.as_str()),
            RowsError::ManifestMalformed { path, detail } => {
                let mut s = owned(path.as_str());
                s.append(": ");
                s.append(detail.as_str());
                s
            },
        }
    }
}

} // verus!

verus! {

/// Whether `s` is all ASCII digits, one or more.
pub open spec fn some_digits(s: Seq<char>) -> bool {
    s.len() > 0 && all_digits(s)
}

/// Digits with at most one point among them, and at least one digit.
pub open spec fn mantissa_text(m: Seq<char>) -> bool {
    match first_index_of(m, '.') {
        None => some_digits(m),
        Some(d) => all_digits(m.take(d)) && all_digits(m.skip(d + 1)) && (d > 0 || m.len() > d + 1),
    }
}

/// An exponent's digits, after the `e`: an optional sign, then digits.
pub open spec fn exponent_text(x: Seq<char>) -> bool {
    if x.len() > 0 && (x[0] == '+' || x[0] == '-') {
        some_digits(x.drop_first())
    } else {
        some_digits(x)
    }
}

/// Where the first `e` or `E` is.
pub open spec fn first_e(s: Seq<char>) -> Option<int> {
    match (first_index_of(s, 'e'), first_index_of(s, 'E')) {
        (Some(a), Some(b)) => Some(if a < b {
            a
        } else {
            b
        }),
        (Some(a), None) => Some(a),
        (None, Some(b)) => Some(b),
        (None, None) => None,
    }
}

/// Whether `str::parse::<f64>` accepts `s`: an optional sign, then `inf`,
/// `infinity` or `nan` in any case, or digits with an optional point and an
/// optional exponent — and no blanks anywhere.
pub open spec fn float_text(s: Seq<char>) -> bool {
    let body = if s.len() > 0 && (s[0] == '+' || s[0] == '-') {
        s.drop_first()
    } else {
        s
    };
    let lowered = ascii_lowered(body);
    lowered == "inf"@ || lowered == "infinity"@ || lowered == "nan"@ || match first_e(body) {
        Some(k) => mantissa_text(body.take(k)) && exponent_text(body.skip(k + 1)),
        None => mantissa_text(body),
    }
}

fn digits_only(s: &str) -> (r: bool)
    ensures
        r == all_digits(s@),
{
    let n = s.unicode_len();
    let mut i: usize = 0;
    while i < n
        invariant
            n == s@.len(),
            0 <= i <= n,
            forall|j: int| 0 <= j < i ==> crate::text::is_digit(#[trigger] s@[j]),
        decreases n - i,
    {
        if !is_digit_char(s.get_char(i)) {
            return false;
        }
        i = i + 1;
    }
    true
}

fn mantissa_ok(m: &str) -> (r: bool)
    ensures
        r == mantissa_text(m@),
{
    let n = m.unicode_len();
    match find_char(m, '.') {
        None => n > 0 && digits_only(m),
        Some(d) => {
            proof {
                lemma_first_index_of(m@, '.');
            }
            digits_only(m.substring_char(0, d)) && digits_only(m.substring_char(d + 1, n)) && (d > 0
                || n > d + 1)
        },
    }
}

fn exponent_ok(x: &str) -> (r: bool)
    ensures
        r == exponent_text(x@),
{
    let n = x.unicode_len();
    if n > 0 && (x.get_char(0) == '+' || x.get_char(0) == '-') {
        let rest = x.substring_char(1, n);
        assert(rest@ =~= x@.drop_first());
        rest.unicode_len() > 0 && digits_only(rest)
    } else {
        n > 0 && digits_only(x)
    }
}

/// Whether `text` reads as a number of seconds, as `str::parse::<f64>`
/// reads one.
pub fn parses_as_float(text: &str) -> (r: bool)
    ensures
        r == float_text(text@),
{
    let n = text.unicode_len();
    let body = if n > 0 && (text.get_char(0) == '+' || text.get_char(0) == '-') {
        let b = text.substring_char(1, n);
        assert(b@ =~= text@.drop_first());
        b
    } else {
        text
    };
    let lowered = to_ascii_lowercase(body);
    if same_text(lowered.as_str(), "inf") || same_text(lowered.as_str(), "infinity") || same_text(
        lowered.as_str(),
        "nan",
    ) {
        return true;
    }
    let bn = body.unicode_len();
    let e_small = find_char(body, 'e');
    let e_big = find_char(body, 'E');
    let e = match (e_small, e_big) {
        (Some(a), Some(b)) => Some(if a < b {
            a
        } else {
            b
        }),
        (Some(a), None) => Some(a),
        (None, Some(b)) => Some(b),
        (None, None) => None,
    };
    proof {
        lemma_first_index_of(body@, 'e');
        lemma_first_index_of(body@, 'E');
    }
    match e {
        Some(k) => mantissa_ok(body.substring_char(0, k)) && exponent_ok(body.substring_char(k + 1, bn)),
        None => mantissa_ok(body),
    }
}

/// What a collection produced.
#[derive(Debug, Clone, PartialEq, Eq)]
pub struct Rows {
    /// How the rows were found.
    pub mode: Mode,
    /// The rows, in render order.
    pub drafts: Vec<SceneDraft>,
    /// Anything unresolved, as warnings.
    pub problems: Vec<Problem>,
}

/// The row a manifest line becomes, and the problem with it if its duration
/// is not a number of seconds — in which case the row carries no duration.
pub open spec fn manifest_draft(index: nat, row: ManifestRow) -> DraftView {
    let id = row_id(index, row.image@);
    DraftView {
        id: id,
        image: non_empty_value(Some(row.image@)),
        text: non_empty_value(opt_text(row.text)),
        audio: non_empty_value(opt_text(row.audio_file)),
        duration: match non_empty_value(opt_text(row.duration)) {
            Some(t) => if float_text(t) {
                DurationView::Declared(t)
            } else {
                DurationView::Unset
            },
            None => DurationView::Unset,
        },
        voice: non_empty_value(opt_text(row.voice)),
        zoom_direction: non_empty_value(opt_text(row.zoom_direction)),
        zoom_anchor: non_empty_value(opt_text(row.zoom_anchor)),
    }
}

/// The problems a manifest's rows carry, in order: one for each duration
/// that is not a number of seconds, against its row's scene where
/// `accepted` says that row's id is one a scene may have, and against the
/// project where it is not.
pub open spec fn manifest_problems(rows: Seq<ManifestRow>, accepted: Seq<bool>) -> Seq<ProblemView>
    decreases rows.len(),
{
    if rows.len() == 0 {
        Seq::empty()
    } else {
        let rest = manifest_problems(rows.drop_last(), accepted);
        let row = rows.last();
        let index = (rows.len() - 1) as nat;
        match non_empty_value(opt_text(row.duration)) {
            Some(t) => if !float_text(t) {
                rest.push(
                    ProblemView {
                        scene: if accepted[index as int] {
                            Some(row_id(index, row.image@))
                        } else {
                            None
                        },
                        kind: KindView::UnusableSetting("duration"@, t, "a number of seconds"@),
                    },
                )
            } else {
                rest
            },
            None => rest,
        }
    }
}

/// The record at `i` is the first that would not read, and `e` says so.
pub open spec fn malformed_at(records: Seq<Result<ManifestRow, String>>, path: Seq<char>, e: RowsError, i: int) -> bool {
    &&& 0 <= i < records.len()
    &&& records[i] is Err
    &&& forall|j: int| 0 <= j < i ==> (#[trigger] records[j]) is Ok
    &&& e matches RowsError::ManifestMalformed { path: p, detail: d } && p@ == path && d@
        == records[i]->Err_0@
}

/// The rows of a manifest, read from the file at `path` one record at a
/// time: the first record that will not read refuses the whole file.
/// `accepted[i]` says whether the id row `i` gets (its still's stem, or
/// `row N`) is one a scene may have, by the project's rules for scene ids; a
/// problem with a row whose id is not is the project's.
pub fn from_manifest(path: &str, records: Vec<Result<ManifestRow, String>>, accepted: &Vec<bool>) -> (r: Result<Rows, RowsError>)
    requires
        records@.len() < usize::MAX,
        accepted@.len() == records@.len(),
    ensures
        match r {
            Ok(rows) => {
                &&& forall|i: int| 0 <= i < records@.len() ==> (#[trigger] records@[i]) is Ok
                &&& rows.mode == Mode::Manifest(rows.mode->0) && rows.mode->0@ == path@
                &&& rows.drafts@.len() == records@.len()
                &&& forall|i: int|
                    0 <= i < records@.len() ==> (#[trigger] rows.drafts@[i])@ == manifest_draft(
                        i as nat,
                        records@[i]->Ok_0,
                    )
                &&& rows.problems@.map_values(|p: Problem| p@) == manifest_problems(
                    records@.map_values(|x: Result<ManifestRow, String>| x->Ok_0),
                    accepted@,
                )
            },
            Err(e) => exists|i: int| #[trigger] malformed_at(records@, path@, e, i),
        },
{
    let ghost input = records@;
    let ghost rows_view = input.map_values(|x: Result<ManifestRow, String>| x->Ok_0);
    let mut pending = records;
    let total = pending.len();
    let mut reversed: Vec<Result<ManifestRow, String>> = Vec::new();
    while pending.len() > 0
        invariant
            pending@.len() + reversed@.len() == input.len(),
            input.len() == total,
            pending@ == input.take(pending@.len() as int),
            forall|k: int|
                0 <= k < reversed@.len() ==> #[trigger] reversed@[k] == input[input.len() - 1 - k],
        decreases pending@.len(),
    {
        let last = pending.pop().unwrap();
        reversed.push(last);
        assert(pending@ =~= input.take(pending@.len() as int));
    }
    let mut drafts: Vec<SceneDraft> = Vec::new();
    let mut problems: Vec<Problem> = Vec::new();
    let mut index: usize = 0;
    assert(rows_view.take(0) =~= Seq::<ManifestRow>::empty());
    while reversed.len() > 0
        invariant
            reversed@.len() + index == input.len(),
            input == records@,
            input.len() == total,
            total < usize::MAX,
            rows_view == input.map_values(|x: Result<ManifestRow, String>| x->Ok_0),
            forall|k: int|
                0 <= k < reversed@.len() ==> #[trigger] reversed@[k] == input[input.len() - 1 - k],
            forall|k: int| 0 <= k < index ==> (#[trigger] input[k]) is Ok,
            drafts@.len() == index,
            forall|k: int| 0 <= k < index ==> (#[trigger] drafts@[k])@ == manifest_draft(k as nat, rows_view[k]),
            accepted@.len() == total,
            problems@.map_values(|p: Problem| p@) == manifest_problems(rows_view.take(index as int), accepted@),
        decreases reversed@.len(),
    {
        let record = reversed.pop().unwrap();
        assert(record == input[index as int]);
        let row = match record {
            Ok(row) => row,
            Err(detail) => {
                assert(input[index as int] == Err::<ManifestRow, String>(detail));
                let ghost dv = detail@;
                let e = RowsError::ManifestMalformed { path: owned(path), detail };
                assert(e matches RowsError::ManifestMalformed { path: p, detail: d } && p@ == path@
                    && d@ == input[index as int]->Err_0@);
                assert(forall|j: int| 0 <= j < index ==> (#[trigger] input[j]) is Ok);
                assert(input[index as int] is Err);
                assert(malformed_at(input, path@, e, index as int));
                return Err(e);
            },
        };
        assert(rows_view[index as int] == row);
        let ghost rv = row;
        let duration_text = match &row.duration {
            Some(t) => Some(owned(t.as_str())),
            None => None,
        };
        let mut draft = draft_from_row(index, row);
        let ghost before = problems@.map_values(|p: Problem| p@);
        assert(rows_view.take(index + 1).drop_last() =~= rows_view.take(index as int));
        assert(rows_view.take(index + 1).last() == rv);
        match non_empty(duration_text) {
            Some(t) => {
                if !parses_as_float(t.as_str()) {
                    draft.duration = DurationCell::Unset;
                    let scene = if accepted[index] {
                        Some(owned(draft.id.as_str()))
                    } else {
                        None
                    };
                    problems.push(Problem { scene, kind: unusable_duration(t.as_str()) });
                    assert(problems@.map_values(|p: Problem| p@) =~= before.push(
                        problems@[problems@.len() - 1]@,
                    ));
                }
            },
            None => {},
        }
        drafts.push(draft);
        index = index + 1;
    }
    assert(rows_view.take(input.len() as int) =~= rows_view);
    Ok(Rows { mode: Mode::Manifest(owned(path)), drafts, problems })
}

/// Where a project's rows come from.
#[derive(Debug, Clone, PartialEq, Eq)]
pub enum RowSource {
    /// The manifest at this path.
    Manifest(String),
    /// Stem-keyed pairing over the folder.
    Convention,
}

/// The manifest a project reads: the one `project.yaml` names, or the
/// default name, in the project folder.
pub open spec fn manifest_path_of(root: Seq<char>, named: Option<Seq<char>>) -> Seq<char> {
    joined_path(
        root,
        match named {
            Some(n) => n,
            None => DEFAULT_MANIFEST@,
        },
    )
}

/// The path of the manifest a project at `root` would read.
pub fn manifest_path(root: &str, named: Option<&str>) -> (r: String)
    ensures
        r@ == manifest_path_of(
            root@,
            match named {
                Some(n) => Some(n@),
                None => None,
            },
        ),
{
    match named {
        Some(n) => join_path(root, n),
        None => join_path(root, DEFAULT_MANIFEST),
    }
}

/// Where the rows come from, given whether the manifest at `path` is a
/// file: a manifest that was named must be there — falling back to the folder
/// would render a different film from the one described — while the default
/// name being absent simply means the folder.
pub fn rows_source(named: bool, path: String, is_file: bool) -> (r: Result<RowSource, RowsError>)
    ensures
        match r {
            Ok(RowSource::Manifest(p)) => is_file && p@ == path@,
            Ok(RowSource::Convention) => !named && !is_file,
            Err(e) => named && !is_file && (e matches RowsError::ManifestMissing { path: p } && p@
                == path@),
        },
{
    if is_file {
        Ok(RowSource::Manifest(path))
    } else if named {
        Err(RowsError::ManifestMissing { path })
    } else {
        Ok(RowSource::Convention)
    }
}

} // verus!

verus! {

/// The documented still extensions, written out.
pub open spec fn documented_still(e: Seq<char>) -> bool {
    ||| e == "jpg"@
    ||| e == "jpeg"@
    ||| e == "png"@
    ||| e == "webp"@
    ||| e == "tif"@
    ||| e == "tiff"@
    ||| e == "bmp"@
    ||| e == "heic"@
}

/// The documented recording extensions, written out.
pub open spec fn documented_recording(e: Seq<char>) -> bool {
    ||| e == "mp3"@
    ||| e == "m4a"@
    ||| e == "wav"@
    ||| e == "aac"@
    ||| e == "flac"@
    ||| e == "ogg"@
    ||| e == "opus"@
    ||| e == "wma"@
}

/// The three extension checks are exactly the documented lists: a still
/// is one of jpg, jpeg, png, webp, tif, tiff, bmp and heic; a recording one
/// of mp3, m4a, wav, aac, flac, ogg, opus and wma; a line to speak txt or
/// md; and no extension is in two lists.
pub proof fn lemma_extension_lists(x: Seq<char>)
    ensures
        is_image_extension(x) == documented_still(x),
        is_audio_extension(x) == documented_recording(x),
        is_text_extension(x) == (x == "txt"@ || x == "md"@),
        documented_recording(x) ==> !is_image_extension(x),
        (x == "txt"@ || x == "md"@) ==> !is_image_extension(x) && !is_audio_extension(x),
{
    reveal_strlit("jpg");
    reveal_strlit("jpeg");
    reveal_strlit("png");
    reveal_strlit("webp");
    reveal_strlit("tif");
    reveal_strlit("tiff");
    reveal_strlit("bmp");
    reveal_strlit("heic");
    reveal_strlit("mp3");
    reveal_strlit("m4a");
    reveal_strlit("wav");
    reveal_strlit("aac");
    reveal_strlit("flac");
    reveal_strlit("ogg");
    reveal_strlit("opus");
    reveal_strlit("wma");
    reveal_strlit("txt");
    reveal_strlit("md");
    if x == "md"@ {
        assert(x[0] == 'm' && x.len() == 2);
    } else if x == "mp3"@ || x == "m4a"@ {
        assert(x[0] == 'm' && x.len() == 3);
    } else if x == "wav"@ || x == "wma"@ {
        assert(x[0] == 'w' && x.len() == 3);
    } else if x == "aac"@ {
        assert(x[0] == 'a');
    } else if x == "flac"@ {
        assert(x[0] == 'f');
    } else if x == "ogg"@ || x == "opus"@ {
        assert(x[0] == 'o');
    } else if x == "txt"@ {
        assert(x[0] == 't' && x[1] == 'x' && x.len() == 3);
    }
}


/// In a project folder, a visible file with a stem and an extension is a
/// still when its extension, in any case, is one of jpg, jpeg, png, webp,
/// tif, tiff, bmp and heic; a recording when it is one of mp3, m4a, wav,
/// aac, flac, ogg, opus and wma; a line to speak when it is txt or md; and
/// nothing otherwise.
pub proof fn lemma_a_folder_file_is_sorted_by_its_extension(name: Seq<char>, e: Seq<char>)
    requires
        !(name.len() > 0 && name[0] == '.'),
        file_stem_of(name) is Some,
        extension_of(name) == Some(e),
    ensures
        documented_still(ascii_lowered(e)) ==> slot_of(name) == Some(Slot::Image),
        documented_recording(ascii_lowered(e)) ==> slot_of(name) == Some(Slot::Audio),
        (ascii_lowered(e) == "txt"@ || ascii_lowered(e) == "md"@) ==> slot_of(name) == Some(Slot::Text),
        !documented_still(ascii_lowered(e)) && !documented_recording(ascii_lowered(e)) && ascii_lowered(e)
            != "txt"@ && ascii_lowered(e) != "md"@ ==> slot_of(name) is None,
{
    lemma_extension_lists(ascii_lowered(e));
}

/// A group of files sharing a stem becomes a row exactly when it has a
/// still; the row carries the stem, the still and the recording, and names
/// no voice or move. It holds the project's default length exactly when the
/// group has neither a recording nor a script — a still with a script lasts
/// as long as its spoken line — and it never declares a length of its own.
/// Its words are the script's, when the script was read.
pub proof fn lemma_a_still_with_words_is_not_silent(g: Group, read: Option<Result<Seq<char>, Seq<char>>>)
    ensures
        group_draft(g, read) is Some <==> g.image is Some,
        group_draft(g, read) matches Some(d) ==> {
            &&& d.id == g.stem@
            &&& d.image == opt_text(g.image)
            &&& d.audio == opt_text(g.audio)
            &&& (d.duration == DurationView::ProjectDefault) == (g.audio is None && g.text is None)
            &&& (d.duration == DurationView::ProjectDefault || d.duration == DurationView::Unset)
            &&& d.text == (if g.text is Some && read matches Some(Ok(t)) {
                Some(read->Some_0->Ok_0)
            } else {
                None
            })
            &&& d.voice is None && d.zoom_direction is None && d.zoom_anchor is None
        },
{
}

/// Every row read by stem is the row of one of the folder's groups, and
/// every group with a still gives one.
pub proof fn lemma_every_row_is_a_groups(groups: Seq<Group>, reads: Seq<Option<Result<Seq<char>, Seq<char>>>>)
    requires
        reads.len() == groups.len(),
    ensures
        forall|d: int|
            #![trigger convention_drafts_of(groups, reads)[d]]
            0 <= d < convention_drafts_of(groups, reads).len() ==> exists|k: int|
                0 <= k < groups.len() && #[trigger] group_draft(groups[k], reads[k]) == Some(
                    convention_drafts_of(groups, reads)[d],
                ),
        forall|k: int|
            0 <= k < groups.len() && (#[trigger] groups[k]).image is Some ==> convention_drafts_of(
                groups,
                reads,
            ).contains(group_draft(groups[k], reads[k])->Some_0),
    decreases groups.len(),
{
    if groups.len() > 0 {
        let rest = groups.drop_last();
        let rr = reads.drop_last();
        lemma_every_row_is_a_groups(rest, rr);
        let before = convention_drafts_of(rest, rr);
        let all = convention_drafts_of(groups, reads);
        let last = groups.len() - 1;
        assert(groups.last() == groups[last] && reads.last() == reads[last]);
        assert forall|d: int| #![trigger all[d]] 0 <= d < all.len() implies exists|k: int|
            0 <= k < groups.len() && #[trigger] group_draft(groups[k], reads[k]) == Some(all[d]) by {
            if d < before.len() {
                assert(all[d] == before[d]);
                let k = choose|k: int| 0 <= k < rest.len() && #[trigger] group_draft(rest[k], rr[k]) == Some(before[d]);
                assert(rest[k] == groups[k] && rr[k] == reads[k]);
            } else {
                assert(group_draft(groups[last], reads[last]) == Some(all[d]));
            }
        }
        assert forall|k: int| 0 <= k < groups.len() && (#[trigger] groups[k]).image is Some implies all.contains(
            group_draft(groups[k], reads[k])->Some_0,
        ) by {
            if k < last {
                assert(rest[k] == groups[k] && rr[k] == reads[k]);
                let x = group_draft(groups[k], reads[k])->Some_0;
                let d = choose|d: int| 0 <= d < before.len() && before[d] == x;
                assert(all[d] == before[d]);
            } else {
                assert(all[before.len() as int] == group_draft(groups[k], reads[k])->Some_0);
            }
        }
    }
}

} // verus!
