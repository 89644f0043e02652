//! Making a project, and filling it.
//!
//! The operator hands over whatever they have — `IMG_2931.HEIC`,
//! `Voice 014.m4a`, a `.txt` of words to speak — and it is copied in under
//! the names the rest of the system understands: `001.jpg`, `001.m4a`,
//! `001.txt`. Copy, never move; never overwrite; and nothing unusable is an
//! error, only a line in the report.
//!
//! Stills, recordings and scripts each sort into natural order, and a
//! recording or script belongs to the still whose stem it shares, or failing
//! that to the next still that has none, in order.

use vstd::prelude::*;
use crate::import::rows::{is_audio_extension, is_image_extension, is_text_extension, image_extension, audio_extension, text_extension};
use crate::natural::{NaturalKey, PartView, key_parts, natural_le, natural_parts, natural_parts_of};
use crate::order::{is_permutation, is_stably_sorted, stable_order, SortKey};
use crate::text::{
    ascii_lowered, decimal, decimal_string, extension, extension_of, file_name, file_name_of,
    file_stem, file_stem_of, joined, owned, padded_decimal, padded_decimal_string, parse_usize,
    joined_with, join_all, string_views,
    parsed_usize, same_text, to_ascii_lowercase, lemma_decimal_len,
};

verus! {

/// What one file turned out to be.
#[derive(Debug, Clone, Copy, PartialEq, Eq, Structural)]
pub enum Kind {
    /// A still.
    Image,
    /// A recording.
    Audio,
    /// A line to speak.
    Text,
}

/// What a path is, by its lower-cased extension.
pub open spec fn kind_of_path(p: Seq<char>) -> Option<Kind> {
    match extension_of(p) {
        Some(e) => {
            let e = ascii_lowered(e);
            if is_image_extension(e) {
                Some(Kind::Image)
            } else if is_audio_extension(e) {
                Some(Kind::Audio)
            } else if is_text_extension(e) {
                Some(Kind::Text)
            } else {
                None
            }
        },
        None => None,
    }
}

/// What `path` is.
pub fn kind_of(path: &str) -> (r: Option<Kind>)
    ensures
        r == kind_of_path(path@),
{
    match extension(path) {
        Some(e) => {
            let e = to_ascii_lowercase(e);
            if image_extension(e.as_str()) {
                Some(Kind::Image)
            } else if audio_extension(e.as_str()) {
                Some(Kind::Audio)
            } else if text_extension(e.as_str()) {
                Some(Kind::Text)
            } else {
                None
            }
        },
        None => None,
    }
}

/// A path's stem, folded to lower case for comparison, so `Shot.JPG` and
/// `shot.txt` pair on a volume that does not tell them apart.
pub open spec fn stem_key(p: Seq<char>) -> Seq<char> {
    ascii_lowered(
        match file_stem_of(p) {
            Some(s) => s,
            None => Seq::empty(),
        },
    )
}

/// A path's stem, folded for comparison.
pub fn stem_of(path: &str) -> (r: String)
    ensures
        r@ == stem_key(path@),
{
    match file_stem(path) {
        Some(s) => to_ascii_lowercase(s),
        None => {
            let r = to_ascii_lowercase("");
            assert(""@ =~= Seq::<char>::empty()) by {
                reveal_strlit("");
            }
            r
        },
    }
}

/// A path's natural sort key: its lower-cased file name, with runs of
/// digits compared as numbers.
pub open spec fn name_key(p: Seq<char>) -> Seq<PartView> {
    natural_parts(
        ascii_lowered(
            match file_name_of(p) {
                Some(n) => n,
                None => Seq::empty(),
            },
        ),
        false,
    )
}

/// A path's natural sort key.
pub fn natural_key(path: &str) -> (r: NaturalKey)
    ensures
        key_parts(r) == name_key(path@),
{
    let lowered = match file_name(path) {
        Some(n) => to_ascii_lowercase(n),
        None => {
            let r = to_ascii_lowercase("");
            assert(""@ =~= Seq::<char>::empty()) by {
                reveal_strlit("");
            }
            r
        },
    };
    NaturalKey(natural_parts_of(lowered.as_str(), false))
}

/// The positions of `paths` in natural order of their file names, equal
/// names in the order given.
pub fn natural_order(paths: &Vec<String>) -> (order: Vec<usize>)
    ensures
        is_permutation(order@, paths@.len()),
        forall|p: int, q: int|
            #![trigger order@[p], order@[q]]
            0 <= p < q < order@.len() ==> {
                let a = name_key(paths@[order@[p] as int]@);
                let b = name_key(paths@[order@[q] as int]@);
                natural_le(a, b) && (natural_le(b, a) ==> order@[p] < order@[q])
            },
{
    let mut keys: Vec<NaturalKey> = Vec::new();
    let mut i: usize = 0;
    while i < paths.len()
        invariant
            0 <= i <= paths@.len(),
            keys@.len() == i,
            forall|k: int| 0 <= k < i ==> key_parts(#[trigger] keys@[k]) == name_key(paths@[k]@),
        decreases paths@.len() - i,
    {
        keys.push(natural_key(paths[i].as_str()));
        i = i + 1;
    }
    let order = stable_order(&keys);
    proof {
        assert forall|p: int, q: int| #![trigger order@[p], order@[q]] 0 <= p < q < order@.len() implies {
            let a = name_key(paths@[order@[p] as int]@);
            let b = name_key(paths@[order@[q] as int]@);
            natural_le(a, b) && (natural_le(b, a) ==> order@[p] < order@[q])
        } by {
            assert(keys@[order@[p] as int].key_le(keys@[order@[q] as int]));
        }
    }
    order
}

/// `out` is `inp` rearranged by `order` into natural order of file names,
/// equal names keeping the order they came in.
pub open spec fn arranges(out: Seq<Seq<char>>, inp: Seq<Seq<char>>, order: Seq<usize>) -> bool {
    &&& is_permutation(order, inp.len())
    &&& out.len() == inp.len()
    &&& forall|p: int| 0 <= p < out.len() ==> #[trigger] out[p] == inp[order[p] as int]
    &&& forall|p: int, q: int|
        #![trigger out[p], out[q]]
        0 <= p < q < out.len() ==> natural_le(name_key(out[p]), name_key(out[q])) && (natural_le(
            name_key(out[q]),
            name_key(out[p]),
        ) ==> order[p] < order[q])
}

/// `out` is `inp` stably sorted into natural order of file names.
pub open spec fn sorted_arrangement(out: Seq<Seq<char>>, inp: Seq<Seq<char>>) -> bool {
    exists|order: Seq<usize>| #[trigger] arranges(out, inp, order)
}

/// `paths` in natural order, equal names in the order given.
pub fn sorted_naturally(paths: &Vec<String>) -> (r: Vec<String>)
    ensures
        sorted_arrangement(string_views(r@), string_views(paths@)),
{
    let order = natural_order(paths);
    let mut r: Vec<String> = Vec::new();
    let mut k: usize = 0;
    while k < order.len()
        invariant
            is_permutation(order@, paths@.len()),
            0 <= k <= order@.len(),
            r@.len() == k,
            forall|p: int| 0 <= p < k ==> #[trigger] r@[p]@ == paths@[order@[p] as int]@,
        decreases order@.len() - k,
    {
        r.push(owned(paths[order[k]].as_str()));
        k = k + 1;
    }
    proof {
        let out = string_views(r@);
        let inp = string_views(paths@);
        assert forall|p: int| 0 <= p < out.len() implies #[trigger] out[p] == inp[order@[p] as int] by {
            assert(r@[p]@ == paths@[order@[p] as int]@);
        }
        assert forall|p: int, q: int|
            #![trigger out[p], out[q]]
            0 <= p < q < out.len() implies natural_le(name_key(out[p]), name_key(out[q])) && (
            natural_le(name_key(out[q]), name_key(out[p])) ==> order@[p] < order@[q]) by {
            assert(order@[p] == order@[p]);
            assert(order@[q] == order@[q]);
            assert(out[p] == paths@[order@[p] as int]@);
            assert(out[q] == paths@[order@[q] as int]@);
        }
        assert(arranges(out, inp, order@));
    }
    r
}

} // verus!

verus! {

/// The first file left in `pool` whose folded stem is `stem`.
pub open spec fn first_match(pool: Seq<Option<Seq<char>>>, stem: Seq<char>) -> Option<int>
    decreases pool.len(),
{
    if pool.len() == 0 {
        None
    } else if pool[0] is Some && stem_key(pool[0].unwrap()) == stem {
        Some(0)
    } else {
        match first_match(pool.drop_first(), stem) {
            Some(j) => Some(j + 1),
            None => None,
        }
    }
}

/// The first pass over the first `k` stills: each takes the first file left
/// that shares its stem. Returns what each still took and what is left.
pub open spec fn by_stem(images: Seq<Seq<char>>, pool: Seq<Seq<char>>, k: nat) -> (
    Seq<Option<Seq<char>>>,
    Seq<Option<Seq<char>>>,
)
    decreases k,
{
    if k == 0 {
        (Seq::empty(), pool.map_values(|x: Seq<char>| Some(x)))
    } else {
        let (taken, left) = by_stem(images, pool, (k - 1) as nat);
        match first_match(left, stem_key(images[k - 1])) {
            Some(j) => (taken.push(left[j]), left.update(j, None)),
            None => (taken.push(None), left),
        }
    }
}

/// The files still present, in order.
pub open spec fn present(pool: Seq<Option<Seq<char>>>) -> Seq<Seq<char>>
    decreases pool.len(),
{
    if pool.len() == 0 {
        Seq::empty()
    } else {
        let rest = present(pool.drop_last());
        match pool.last() {
            Some(x) => rest.push(x),
            None => rest,
        }
    }
}

/// The second pass: whatever is left fills the stills that took nothing,
/// in order. Returns the filled slots and what is still left over.
pub open spec fn fill(slots: Seq<Option<Seq<char>>>, spare: Seq<Seq<char>>) -> (
    Seq<Option<Seq<char>>>,
    Seq<Seq<char>>,
)
    decreases slots.len(),
{
    if slots.len() == 0 {
        (Seq::empty(), spare)
    } else if slots[0] is None && spare.len() > 0 {
        let (rest, left) = fill(slots.drop_first(), spare.drop_first());
        (seq![Some(spare[0])] + rest, left)
    } else {
        let (rest, left) = fill(slots.drop_first(), spare);
        (seq![slots[0]] + rest, left)
    }
}

/// Which file goes with which still — by stem first, then by position — and
/// how many had no still left to belong to.
pub open spec fn assignment(images: Seq<Seq<char>>, pool: Seq<Seq<char>>) -> (Seq<Option<Seq<char>>>, nat) {
    let (taken, left) = by_stem(images, pool, images.len());
    let (slots, spare) = fill(taken, present(left));
    (slots, spare.len())
}

/// The views of optional strings.
pub open spec fn opt_views(v: Seq<Option<String>>) -> Seq<Option<Seq<char>>> {
    v.map_values(
        |o: Option<String>|
            match o {
                Some(s) => Some(s@),
                None => None,
            },
    )
}

/// Whether a slot still holds a file whose folded stem is `stem`.
fn slot_has_stem(slot: &Option<String>, stem: &str) -> (r: bool)
    ensures
        r == (slot is Some && stem_key(slot.unwrap()@) == stem@),
{
    match slot {
        Some(candidate) => same_text(stem_of(candidate.as_str()).as_str(), stem),
        None => false,
    }
}

proof fn lemma_fill_step(slots: Seq<Option<Seq<char>>>, spare: Seq<Seq<char>>)
    requires
        slots.len() > 0,
    ensures
        fill(slots, spare) == (if slots[0] is None && spare.len() > 0 {
            (seq![Some(spare[0])] + fill(slots.drop_first(), spare.drop_first()).0, fill(slots.drop_first(), spare.drop_first()).1)
        } else {
            (seq![slots[0]] + fill(slots.drop_first(), spare).0, fill(slots.drop_first(), spare).1)
        }),
{
}

/// Decide which recording, or which script, belongs to which still: a file
/// that shares a still's stem goes with that still, and what is left fills
/// the stills that matched nothing, in order.
pub fn assign(images: &Vec<String>, pool: &Vec<String>) -> (r: (Vec<Option<String>>, usize))
    ensures
        opt_views(r.0@) == assignment(string_views(images@), string_views(pool@)).0,
        r.1 == assignment(string_views(images@), string_views(pool@)).1,
{
    let ghost iv = string_views(images@);
    let ghost pv = string_views(pool@);
    let mut left: Vec<Option<String>> = Vec::new();
    let mut i: usize = 0;
    while i < pool.len()
        invariant
            0 <= i <= pool@.len(),
            pv == string_views(pool@),
            opt_views(left@) == pv.take(i as int).map_values(|x: Seq<char>| Some(x)),
        decreases pool@.len() - i,
    {
        let item = owned(pool[i].as_str());
        let ghost before = opt_views(left@);
        left.push(Some(item));
        assert(opt_views(left@) =~= before.push(Some(item@)));
        assert(pv[i as int] == item@);
        assert(pv.take(i + 1) =~= pv.take(i as int).push(pv[i as int]));
        assert(pv.take(i + 1).map_values(|x: Seq<char>| Some(x)) =~= pv.take(i as int).map_values(
            |x: Seq<char>| Some(x),
        ).push(Some(item@)));
        i = i + 1;
    }
    assert(pv.take(pool@.len() as int) =~= pv);
    let mut taken: Vec<Option<String>> = Vec::new();
    let mut k: usize = 0;
    while k < images.len()
        invariant
            0 <= k <= images@.len(),
            iv == string_views(images@),
            pv == string_views(pool@),
            (opt_views(taken@), opt_views(left@)) == by_stem(iv, pv, k as nat),
        decreases images@.len() - k,
    {
        let stem = stem_of(images[k].as_str());
        assert(iv[k as int] == images@[k as int]@);
        let ghost lv = opt_views(left@);
        let mut j: usize = 0;
        assert(lv.skip(0) =~= lv);
        while j < left.len() && !slot_has_stem(&left[j], stem.as_str())
            invariant
                0 <= j <= left@.len(),
                lv == opt_views(left@),
                first_match(lv, stem@) == match first_match(lv.skip(j as int), stem@) {
                    Some(q) => Some(q + j),
                    None => None,
                },
            decreases left@.len() - j,
        {
            assert(lv.skip(j as int).drop_first() =~= lv.skip(j + 1));
            j = j + 1;
        }
        let ghost before_taken = opt_views(taken@);
        if j < left.len() {
            assert(lv.skip(j as int)[0] == lv[j as int]);
            assert(first_match(lv, stem@) == Some(j as int));
            let found = owned(left[j].as_ref().unwrap().as_str());
            left.set(j, None);
            taken.push(Some(found));
            assert(opt_views(left@) =~= lv.update(j as int, None));
            assert(opt_views(taken@) =~= before_taken.push(lv[j as int]));
        } else {
            assert(lv.skip(j as int) =~= Seq::<Option<Seq<char>>>::empty());
            assert(first_match(lv, stem@) == None::<int>);
            taken.push(None);
            assert(opt_views(taken@) =~= before_taken.push(None));
        }
        k = k + 1;
    }
    assert(iv.len() == images@.len());
    let ghost lv = opt_views(left@);
    let mut spare: Vec<String> = Vec::new();
    let mut q: usize = 0;
    while q < left.len()
        invariant
            0 <= q <= left@.len(),
            lv == opt_views(left@),
            string_views(spare@) == present(lv.take(q as int)),
        decreases left@.len() - q,
    {
        assert(lv.take(q + 1).drop_last() =~= lv.take(q as int));
        if let Some(x) = &left[q] {
            spare.push(owned(x.as_str()));
            assert(string_views(spare@) =~= present(lv.take(q as int)).push(x@));
        }
        q = q + 1;
    }
    assert(lv.take(left@.len() as int) =~= lv);
    let ghost tv = opt_views(taken@);
    let ghost sv = string_views(spare@);
    let mut slots: Vec<Option<String>> = Vec::new();
    let mut next: usize = 0;
    let mut s: usize = 0;
    assert(tv.skip(0) =~= tv && sv.skip(0) =~= sv);
    while s < taken.len()
        invariant
            0 <= s <= taken@.len(),
            0 <= next <= spare@.len(),
            tv == opt_views(taken@),
            sv == string_views(spare@),
            fill(tv, sv).0 == opt_views(slots@) + fill(tv.skip(s as int), sv.skip(next as int)).0,
            fill(tv, sv).1 == fill(tv.skip(s as int), sv.skip(next as int)).1,
        decreases taken@.len() - s,
    {
        let ghost rest = tv.skip(s as int);
        let ghost avail = sv.skip(next as int);
        proof {
            lemma_fill_step(rest, avail);
        }
        assert(rest.drop_first() =~= tv.skip(s + 1));
        assert(rest[0] == tv[s as int]);
        let ghost before = opt_views(slots@);
        if taken[s].is_none() && next < spare.len() {
            assert(avail.drop_first() =~= sv.skip(next + 1));
            assert(avail[0] == spare@[next as int]@);
            slots.push(Some(owned(spare[next].as_str())));
            next = next + 1;
            assert(opt_views(slots@) =~= before.push(Some(avail[0])));
        } else {
            let item = match &taken[s] {
                Some(x) => Some(owned(x.as_str())),
                None => None,
            };
            slots.push(item);
            assert(opt_views(slots@) =~= before.push(rest[0]));
        }
        s = s + 1;
    }
    assert(tv.skip(taken@.len() as int) =~= Seq::<Option<Seq<char>>>::empty());
    (slots, spare.len() - next)
}

} // verus!

verus! {

/// The smallest number of digits a scene name gets: `001`, not `1`.
pub const MIN_WIDTH: usize = 3;

/// One file that was copied in, named both ways so the report can say what
/// became what.
#[derive(Debug, Clone, PartialEq, Eq)]
pub struct Copied {
    /// Where it came from. Untouched.
    pub source: String,
    /// What it is called inside the project, relative to the root.
    pub name: String,
}

/// One file that was not copied, and the reason in the operator's terms.
#[derive(Debug, Clone, PartialEq, Eq)]
pub struct Skipped {
    /// The file that was passed over.
    pub source: String,
    /// Why — a sentence, not a code.
    pub reason: String,
}

/// What a drop did.
#[derive(Debug, Clone, PartialEq, Eq)]
pub struct Ingested {
    /// Stills, in the order they became scenes.
    pub images: Vec<Copied>,
    /// Narrations, each sharing a stem with the still it paired with.
    pub audio: Vec<Copied>,
    /// Lines to speak, each sharing a stem with its still.
    pub scripts: Vec<Copied>,
    /// Files that were not media, or could not be used.
    pub skipped: Vec<Skipped>,
    /// Recordings with no photo left to pair with, so they were not copied.
    pub audio_without_image: usize,
    /// Scripts with no photo left to pair with, so they were not copied.
    pub script_without_image: usize,
    /// Stills that paired with neither a recording nor a script.
    pub image_without_audio: usize,
}

impl Default for Ingested {
    fn default() -> (r: Ingested)
        ensures
            r.images@.len() == 0,
            r.audio@.len() == 0,
            r.scripts@.len() == 0,
            r.skipped@.len() == 0,
            r.audio_without_image == 0,
            r.script_without_image == 0,
            r.image_without_audio == 0,
    {
        Ingested {
            images: Vec::new(),
            audio: Vec::new(),
            scripts: Vec::new(),
            skipped: Vec::new(),
            audio_without_image: 0,
            script_without_image: 0,
            image_without_audio: 0,
        }
    }
}

/// `""` for one, `"s"` for any other count.
pub open spec fn plural_of(n: nat) -> Seq<char> {
    if n == 1 {
        ""@
    } else {
        "s"@
    }
}

/// The plural ending for `n` things.
pub fn plural(n: usize) -> (r: &'static str)
    ensures
        r@ == plural_of(n as nat),
{
    if n == 1 {
        ""
    } else {
        "s"
    }
}

/// The first file of `pool` whose stem matches `name`'s.
pub open spec fn first_with_stem(pool: Seq<Copied>, name: Seq<char>) -> Option<int>
    decreases pool.len(),
{
    if pool.len() == 0 {
        None
    } else if stem_key(pool[0].name@) == stem_key(name) {
        Some(0)
    } else {
        match first_with_stem(pool.drop_first(), name) {
            Some(i) => Some(i + 1),
            None => None,
        }
    }
}

proof fn lemma_first_with_stem_bounds(pool: Seq<Copied>, name: Seq<char>)
    ensures
        match first_with_stem(pool, name) {
            Some(i) => 0 <= i < pool.len() && stem_key(pool[i].name@) == stem_key(name)
                && forall|j: int| 0 <= j < i ==> stem_key(#[trigger] pool[j].name@) != stem_key(name),
            None => forall|j: int| 0 <= j < pool.len() ==> stem_key(#[trigger] pool[j].name@) != stem_key(name),
        },
    decreases pool.len(),
{
    if pool.len() > 0 {
        lemma_first_with_stem_bounds(pool.drop_first(), name);
        assert forall|j: int| 1 <= j < pool.len() implies #[trigger] pool[j] == pool.drop_first()[j - 1] by {}
    }
}

/// The file in `pool` whose stem matches `name`'s: the first such.
pub fn with_stem<'a>(pool: &'a Vec<Copied>, name: &str) -> (r: Option<&'a Copied>)
    ensures
        match first_with_stem(pool@, name@) {
            Some(i) => r == Some(&pool@[i]),
            None => r is None,
        },
{
    let stem = stem_of(name);
    let mut i: usize = 0;
    while i < pool.len()
        invariant
            0 <= i <= pool@.len(),
            stem@ == stem_key(name@),
            forall|j: int| 0 <= j < i ==> stem_key(#[trigger] pool@[j].name@) != stem_key(name@),
        decreases pool@.len() - i,
    {
        let candidate = stem_of(pool[i].name.as_str());
        if same_text(candidate.as_str(), stem.as_str()) {
            proof {
                lemma_first_with_stem_bounds(pool@, name@);
                match first_with_stem(pool@, name@) {
                    Some(k) => {
                        if k < i {
                            assert(stem_key(pool@[k].name@) != stem_key(name@));
                        }
                        if k > i {
                            assert(stem_key(pool@[i as int].name@) != stem_key(name@));
                        }
                    },
                    None => {
                        assert(stem_key(pool@[i as int].name@) != stem_key(name@));
                    },
                }
            }
            return Some(&pool[i]);
        }
        i = i + 1;
    }
    proof {
        lemma_first_with_stem_bounds(pool@, name@);
        match first_with_stem(pool@, name@) {
            Some(k) => {
                assert(stem_key(pool@[k].name@) != stem_key(name@));
            },
            None => {},
        }
    }
    None
}

/// The report's one line, from the counts it is made of.
pub open spec fn summary_parts(
    images: nat,
    audio: nat,
    scripts: nat,
    silent: nat,
    orphans: nat,
    skipped: nat,
) -> Seq<Seq<char>> {
    let first = seq![decimal(images) + " photo"@ + plural_of(images)];
    let with_audio = if audio > 0 {
        first.push(decimal(audio) + " narration"@ + plural_of(audio) + " paired"@)
    } else {
        first
    };
    let with_scripts = if scripts > 0 {
        with_audio.push(decimal(scripts) + " script"@ + plural_of(scripts) + " to speak"@)
    } else {
        with_audio
    };
    let with_silent = if silent > 0 {
        with_scripts.push(decimal(silent) + " silent"@)
    } else {
        with_scripts
    };
    let with_orphans = if orphans > 0 {
        with_silent.push(decimal(orphans) + " file"@ + plural_of(orphans) + " with no photo"@)
    } else {
        with_silent
    };
    if skipped > 0 {
        with_orphans.push(decimal(skipped) + " skipped"@)
    } else {
        with_orphans
    }
}

/// `n` followed by `a`, `n`'s plural ending and `b`.
fn counted(n: usize, a: &str, b: &str) -> (r: String)
    ensures
        r@ == decimal(n as nat) + a@ + plural_of(n as nat) + b@,
{
    let mut s = decimal_string(n as u64);
    s.append(a);
    s.append(plural(n));
    s.append(b);
    s
}

/// `n` followed by `a`.
fn counted_plain(n: usize, a: &str) -> (r: String)
    ensures
        r@ == decimal(n as nat) + a@,
{
    let mut s = decimal_string(n as u64);
    s.append(a);
    s
}

impl Ingested {
    /// Whether anything at all landed in the project.
    pub fn is_empty(&self) -> (r: bool)
        ensures
            r == (self.images@.len() == 0 && self.audio@.len() == 0 && self.scripts@.len() == 0),
    {
        self.images.len() == 0 && self.audio.len() == 0 && self.scripts.len() == 0
    }

    /// The recording that came in with this still, if one did: matched by
    /// stem, never by position.
    pub fn narration_for(&self, image: &Copied) -> (r: Option<&Copied>)
        ensures
            match first_with_stem(self.audio@, image.name@) {
                Some(i) => r == Some(&self.audio@[i]),
                None => r is None,
            },
    {
        with_stem(&self.audio, image.name.as_str())
    }

    /// The script that came in with this still, if one did.
    pub fn script_for(&self, image: &Copied) -> (r: Option<&Copied>)
        ensures
            match first_with_stem(self.scripts@, image.name@) {
                Some(i) => r == Some(&self.scripts@[i]),
                None => r is None,
            },
    {
        with_stem(&self.scripts, image.name.as_str())
    }

    /// One line, in the shape both the terminal and the window want.
    pub fn summary(&self) -> (r: String)
        requires
            self.audio_without_image + self.script_without_image <= usize::MAX,
        ensures
            r@ == joined_with(
                summary_parts(
                    self.images@.len(),
                    self.audio@.len(),
                    self.scripts@.len(),
                    self.image_without_audio as nat,
                    (self.audio_without_image + self.script_without_image) as nat,
                    self.skipped@.len(),
                ),
                ", "@,
            ),
    {
        let orphans = self.audio_without_image + self.script_without_image;
        let ghost images = self.images@.len();
        let ghost audio = self.audio@.len();
        let ghost scripts = self.scripts@.len();
        let ghost silent = self.image_without_audio as nat;
        let ghost skipped = self.skipped@.len();
        let mut parts: Vec<String> = Vec::new();
        parts.push(counted(self.images.len(), " photo", ""));
        assert(string_views(parts@) =~= seq![decimal(images) + " photo"@ + plural_of(images)]) by {
            assert(decimal(images) + " photo"@ + plural_of(images) + ""@ =~= decimal(images) + " photo"@
                + plural_of(images)) by {
                reveal_strlit("");
            }
        }
        let ghost s1 = string_views(parts@);
        if self.audio.len() > 0 {
            parts.push(counted(self.audio.len(), " narration", " paired"));
        }
        assert(string_views(parts@) =~= (if audio > 0 {
            s1.push(decimal(audio) + " narration"@ + plural_of(audio) + " paired"@)
        } else {
            s1
        }));
        let ghost s2 = string_views(parts@);
        if self.scripts.len() > 0 {
            parts.push(counted(self.scripts.len(), " script", " to speak"));
        }
        assert(string_views(parts@) =~= (if scripts > 0 {
            s2.push(decimal(scripts) + " script"@ + plural_of(scripts) + " to speak"@)
        } else {
            s2
        }));
        let ghost s3 = string_views(parts@);
        if self.image_without_audio > 0 {
            parts.push(counted_plain(self.image_without_audio, " silent"));
        }
        assert(string_views(parts@) =~= (if silent > 0 {
            s3.push(decimal(silent) + " silent"@)
        } else {
            s3
        }));
        let ghost s4 = string_views(parts@);
        if orphans > 0 {
            parts.push(counted(orphans, " file", " with no photo"));
        }
        assert(string_views(parts@) =~= (if orphans > 0 {
            s4.push(decimal(orphans as nat) + " file"@ + plural_of(orphans as nat) + " with no photo"@)
        } else {
            s4
        }));
        let ghost s5 = string_views(parts@);
        if self.skipped.len() > 0 {
            parts.push(counted_plain(self.skipped.len(), " skipped"));
        }
        assert(string_views(parts@) =~= (if skipped > 0 {
            s5.push(decimal(skipped) + " skipped"@)
        } else {
            s5
        }));
        let r = join_all(&parts, ", ");
        r
    }
}

} // verus!

verus! {

/// The files of one kind — `None` for those that are no media at all — in
/// the order given.
pub open spec fn of_kind(files: Seq<Seq<char>>, k: Option<Kind>) -> Seq<Seq<char>>
    decreases files.len(),
{
    if files.len() == 0 {
        Seq::empty()
    } else {
        let rest = of_kind(files.drop_last(), k);
        if kind_of_path(files.last()) == k {
            rest.push(files.last())
        } else {
            rest
        }
    }
}

/// The sentence a file that is no media is skipped with.
pub const NOT_MEDIA: &'static str = "not a photo, a recording or a script";

/// The sentence a named file that is not there is skipped with.
pub const NO_SUCH_FILE: &'static str = "no such file";

/// How many digits the scene names of a drop get: at least three, and as
/// many as the last number needs.
pub open spec fn scene_width(start: nat, count: nat) -> nat {
    let last = if count > 0 {
        start + count - 1
    } else {
        start as int
    };
    let d = decimal(last as nat).len();
    if d > 3 {
        d
    } else {
        3
    }
}

/// How many stills took neither a recording nor a script.
pub open spec fn silent_count(narration: Seq<Option<Seq<char>>>, lines: Seq<Option<Seq<char>>>) -> nat
    decreases narration.len(),
{
    if narration.len() == 0 {
        0
    } else {
        silent_count(narration.drop_last(), lines.drop_last()) + if narration.last() is None
            && lines.last() is None {
            1nat
        } else {
            0nat
        }
    }
}

/// One scene a drop will make: its number, its still, and what pairs with it.
#[derive(Debug, Clone, PartialEq, Eq)]
pub struct PlannedScene {
    /// The scene's name without extension, such as `001`.
    pub stem: String,
    /// The still.
    pub image: String,
    /// The recording that pairs with it, if any.
    pub narration: Option<String>,
    /// The script that pairs with it, if any.
    pub script: Option<String>,
}

/// Everything a drop will do, decided before a byte is copied.
#[derive(Debug, Clone, PartialEq, Eq)]
pub struct MediaPlan {
    /// The scenes, in the order they are numbered.
    pub scenes: Vec<PlannedScene>,
    /// The files that are no media.
    pub skipped: Vec<Skipped>,
    /// Recordings with no still left to pair with.
    pub audio_without_image: usize,
    /// Scripts with no still left to pair with.
    pub script_without_image: usize,
    /// Stills that paired with neither a recording nor a script.
    pub image_without_audio: usize,
}

/// The stills of planned scenes.
pub open spec fn planned_images(scenes: Seq<PlannedScene>) -> Seq<Seq<char>> {
    scenes.map_values(|x: PlannedScene| x.image@)
}

/// The recordings of planned scenes.
pub open spec fn planned_narrations(scenes: Seq<PlannedScene>) -> Seq<Option<Seq<char>>> {
    scenes.map_values(
        |x: PlannedScene|
            match x.narration {
                Some(n) => Some(n@),
                None => None,
            },
    )
}

/// The scripts of planned scenes.
pub open spec fn planned_scripts(scenes: Seq<PlannedScene>) -> Seq<Option<Seq<char>>> {
    scenes.map_values(
        |x: PlannedScene|
            match x.script {
                Some(n) => Some(n@),
                None => None,
            },
    )
}

/// The sources of skipped files.
pub open spec fn skipped_sources(skipped: Seq<Skipped>) -> Seq<Seq<char>> {
    skipped.map_values(|x: Skipped| x.source@)
}

proof fn lemma_by_stem_len(images: Seq<Seq<char>>, pool: Seq<Seq<char>>, k: nat)
    ensures
        by_stem(images, pool, k).0.len() == k,
    decreases k,
{
    if k > 0 {
        lemma_by_stem_len(images, pool, (k - 1) as nat);
    }
}

proof fn lemma_fill_len(slots: Seq<Option<Seq<char>>>, spare: Seq<Seq<char>>)
    ensures
        fill(slots, spare).0.len() == slots.len(),
    decreases slots.len(),
{
    if slots.len() > 0 {
        lemma_fill_len(slots.drop_first(), spare);
        if spare.len() > 0 {
            lemma_fill_len(slots.drop_first(), spare.drop_first());
        }
    }
}

/// Each still takes exactly one slot, filled or not.
pub proof fn lemma_assignment_len(images: Seq<Seq<char>>, pool: Seq<Seq<char>>)
    ensures
        assignment(images, pool).0.len() == images.len(),
{
    lemma_by_stem_len(images, pool, images.len());
    let (taken, left) = by_stem(images, pool, images.len());
    lemma_fill_len(taken, present(left));
}

fn copy_optional(o: &Option<String>) -> (r: Option<String>)
    ensures
        match o {
            Some(x) => r matches Some(y) && y@ == x@,
            None => r is None,
        },
{
    match o {
        Some(x) => Some(owned(x.as_str())),
        None => None,
    }
}

/// Decide a drop: sort the files into stills, recordings, scripts and the
/// rest; put each kind in natural order; pair recordings and scripts with
/// stills, by stem first and then by position; and number the scenes from
/// `start`, at least three digits wide.
pub fn add_media(start: usize, files: &Vec<String>) -> (r: MediaPlan)
    requires
        of_kind(string_views(files@), Some(Kind::Image)).len() == 0 || start + of_kind(
            string_views(files@),
            Some(Kind::Image),
        ).len() - 1 <= usize::MAX,
    ensures
        ({
            let fv = string_views(files@);
            let imgs = planned_images(r.scenes@);
            let narr = planned_narrations(r.scenes@);
            let lines = planned_scripts(r.scenes@);
            &&& sorted_arrangement(imgs, of_kind(fv, Some(Kind::Image)))
            &&& exists|auds: Seq<Seq<char>>|
                #[trigger] sorted_arrangement(auds, of_kind(fv, Some(Kind::Audio))) && narr
                    == assignment(imgs, auds).0 && r.audio_without_image == assignment(imgs, auds).1
            &&& exists|texts: Seq<Seq<char>>|
                #[trigger] sorted_arrangement(texts, of_kind(fv, Some(Kind::Text))) && lines
                    == assignment(imgs, texts).0 && r.script_without_image == assignment(imgs, texts).1
            &&& r.image_without_audio == silent_count(narr, lines)
            &&& forall|i: int|
                0 <= i < r.scenes@.len() ==> (#[trigger] r.scenes@[i]).stem@ == padded_decimal(
                    (start + i) as nat,
                    scene_width(start as nat, imgs.len()),
                )
            &&& skipped_sources(r.skipped@) == of_kind(fv, None)
            &&& forall|i: int| 0 <= i < r.skipped@.len() ==> (#[trigger] r.skipped@[i]).reason@ == NOT_MEDIA@
        }),
{
    let ghost fv = string_views(files@);
    let mut images: Vec<String> = Vec::new();
    let mut audio: Vec<String> = Vec::new();
    let mut scripts: Vec<String> = Vec::new();
    let mut skipped: Vec<Skipped> = Vec::new();
    let mut i: usize = 0;
    assert(fv.take(0) =~= Seq::<Seq<char>>::empty());
    while i < files.len()
        invariant
            0 <= i <= files@.len(),
            fv == string_views(files@),
            string_views(images@) == of_kind(fv.take(i as int), Some(Kind::Image)),
            string_views(audio@) == of_kind(fv.take(i as int), Some(Kind::Audio)),
            string_views(scripts@) == of_kind(fv.take(i as int), Some(Kind::Text)),
            skipped_sources(skipped@) == of_kind(fv.take(i as int), None),
            forall|j: int| 0 <= j < skipped@.len() ==> (#[trigger] skipped@[j]).reason@ == NOT_MEDIA@,
        decreases files@.len() - i,
    {
        let ghost before = fv.take(i as int);
        assert(fv.take(i + 1).drop_last() =~= before);
        assert(fv.take(i + 1).last() == files@[i as int]@);
        let f = owned(files[i].as_str());
        let ghost vi = string_views(images@);
        let ghost va = string_views(audio@);
        let ghost vs = string_views(scripts@);
        let ghost vk = skipped_sources(skipped@);
        match kind_of(files[i].as_str()) {
            Some(Kind::Image) => {
                images.push(f);
                assert(string_views(images@) =~= vi.push(files@[i as int]@));
            },
            Some(Kind::Audio) => {
                audio.push(f);
                assert(string_views(audio@) =~= va.push(files@[i as int]@));
            },
            Some(Kind::Text) => {
                scripts.push(f);
                assert(string_views(scripts@) =~= vs.push(files@[i as int]@));
            },
            None => {
                skipped.push(Skipped { source: f, reason: owned(NOT_MEDIA) });
                assert(skipped_sources(skipped@) =~= vk.push(files@[i as int]@));
            },
        }
        i = i + 1;
    }
    assert(fv.take(files@.len() as int) =~= fv);
    let images = sorted_naturally(&images);
    let audio = sorted_naturally(&audio);
    let scripts = sorted_naturally(&scripts);
    let ghost iv = string_views(images@);
    assert(iv.len() == images@.len());
    let (narration, spare_audio) = assign(&images, &audio);
    let (lines, spare_scripts) = assign(&images, &scripts);
    let ghost nv = opt_views(narration@);
    let ghost lv = opt_views(lines@);
    proof {
        lemma_assignment_len(iv, string_views(audio@));
        lemma_assignment_len(iv, string_views(scripts@));
        assert(exists|order: Seq<usize>| #[trigger] arranges(iv, of_kind(fv, Some(Kind::Image)), order));
    }
    assert(narration@.len() == images@.len());
    assert(lines@.len() == images@.len());
    let mut silent: usize = 0;
    let mut k: usize = 0;
    assert(nv.take(0) =~= Seq::<Option<Seq<char>>>::empty());
    while k < images.len()
        invariant
            0 <= k <= images@.len(),
            narration@.len() == images@.len(),
            lines@.len() == images@.len(),
            nv == opt_views(narration@),
            lv == opt_views(lines@),
            silent <= k,
            silent == silent_count(nv.take(k as int), lv.take(k as int)),
        decreases images@.len() - k,
    {
        assert(nv.take(k + 1).drop_last() =~= nv.take(k as int));
        assert(lv.take(k + 1).drop_last() =~= lv.take(k as int));
        assert(nv.take(k + 1).last() == nv[k as int]);
        assert(lv.take(k + 1).last() == lv[k as int]);
        if narration[k].is_none() && lines[k].is_none() {
            silent = silent + 1;
        }
        k = k + 1;
    }
    assert(nv.take(images@.len() as int) =~= nv);
    assert(lv.take(images@.len() as int) =~= lv);
    let last = if images.len() > 0 {
        start + (images.len() - 1)
    } else {
        start
    };
    let digits = decimal_string(last as u64);
    let d = digits.as_str().unicode_len();
    let width = if d > MIN_WIDTH {
        d
    } else {
        MIN_WIDTH
    };
    assert(width == scene_width(start as nat, iv.len()));
    let mut scenes: Vec<PlannedScene> = Vec::new();
    let mut k: usize = 0;
    while k < images.len()
        invariant
            0 <= k <= images@.len(),
            narration@.len() == images@.len(),
            lines@.len() == images@.len(),
            iv == string_views(images@),
            nv == opt_views(narration@),
            lv == opt_views(lines@),
            images@.len() == 0 || start + images@.len() - 1 <= usize::MAX,
            width == scene_width(start as nat, iv.len()),
            planned_images(scenes@) == iv.take(k as int),
            planned_narrations(scenes@) == nv.take(k as int),
            planned_scripts(scenes@) == lv.take(k as int),
            forall|j: int|
                0 <= j < scenes@.len() ==> (#[trigger] scenes@[j]).stem@ == padded_decimal(
                    (start + j) as nat,
                    width as nat,
                ),
        decreases images@.len() - k,
    {
        let stem = padded_decimal_string((start + k) as u64, width);
        let scene = PlannedScene {
            stem,
            image: owned(images[k].as_str()),
            narration: copy_optional(&narration[k]),
            script: copy_optional(&lines[k]),
        };
        assert(scene.image@ == iv[k as int]);
        let ghost pi = planned_images(scenes@);
        let ghost pn = planned_narrations(scenes@);
        let ghost ps = planned_scripts(scenes@);
        let ghost si = scene.image@;
        scenes.push(scene);
        assert(planned_images(scenes@) =~= pi.push(si));
        assert(iv.take(k + 1) =~= iv.take(k as int).push(iv[k as int]));
        assert(planned_images(scenes@) =~= iv.take(k + 1));
        assert(planned_narrations(scenes@) =~= nv.take(k + 1));
        assert(planned_scripts(scenes@) =~= lv.take(k + 1));
        k = k + 1;
    }
    assert(iv.take(images@.len() as int) =~= iv);
    assert(nv.take(images@.len() as int) =~= nv);
    assert(lv.take(images@.len() as int) =~= lv);
    let r = MediaPlan {
        scenes,
        skipped,
        audio_without_image: spare_audio,
        script_without_image: spare_scripts,
        image_without_audio: silent,
    };
    proof {
        assert(sorted_arrangement(string_views(audio@), of_kind(fv, Some(Kind::Audio))));
        assert(sorted_arrangement(string_views(scripts@), of_kind(fv, Some(Kind::Text))));
    }
    r
}

} // verus!

verus! {

/// The name a file gets in the project: the scene's stem and the file's own
/// extension, lower-cased.
pub open spec fn scene_name(stem: Seq<char>, source: Seq<char>) -> Seq<char> {
    stem + "."@ + ascii_lowered(
        match extension_of(source) {
            Some(e) => e,
            None => Seq::empty(),
        },
    )
}

/// The name `source` is copied in under, for the scene `stem`.
pub fn scene_file_name(stem: &str, source: &str) -> (r: String)
    ensures
        r@ == scene_name(stem@, source@),
{
    let lowered = match extension(source) {
        Some(e) => to_ascii_lowercase(e),
        None => {
            let r = to_ascii_lowercase("");
            assert(""@ =~= Seq::<char>::empty()) by {
                reveal_strlit("");
            }
            r
        },
    };
    let mut name = owned(stem);
    name.append(".");
    name.append(lowered.as_str());
    name
}

/// What a copy is refused with when the scene's name is already taken.
pub const NAME_TAKEN: &'static str = "a file of that name is already in the project";

/// Why a folder could not be made, or filled.
#[derive(Debug, Clone, PartialEq, Eq)]
pub enum IngestError {
    /// The folder could not be created.
    CannotCreate {
        /// Where it was going.
        path: String,
        /// The operating system's reason.
        detail: String,
    },
    /// A project already lives there, and creating over it would mix two films.
    AlreadyAProject {
        /// The folder in question.
        path: String,
        /// How many stills are already in it.
        stills: usize,
    },
    /// The destination is not a folder we can fill.
    NotAProject {
        /// What was asked for.
        path: String,
    },
    /// A copy failed part-way. Everything before it is already in place.
    Copy {
        /// The source file.
        from: String,
        /// Where it was going.
        to: String,
        /// The operating system's reason.
        detail: String,
    },
}

/// What each refusal says.
pub open spec fn ingest_message(e: IngestError) -> Seq<char> {
    match e {
        IngestError::CannotCreate { path, detail } => "could not create "@ + path@ + ": "@ + detail@,
        IngestError::AlreadyAProject { path, stills } => path@ + " already holds "@ + decimal(
            stills as nat,
        ) + " still"@ + plural_of(stills as nat) + " — open it instead of creating it"@,
        IngestError::NotAProject { path } => path@ + " is not a folder"@,
        IngestError::Copy { from, to, detail } => "could not copy "@ + from@ + " to "@ + to@ + ": "@
            + detail@,
    }
}

impl IngestError {
    /// The refusal in words.
    pub fn message(&self) -> (r: String)
        ensures
            r@ == ingest_message(*self),
    {
        match self {
            IngestError::CannotCreate { path, detail } => {
                let mut s = owned("could not create ");
                s.append(path.as_str());
                s.append(": ");
                s.append(detail.as_str());
                s
            },
            IngestError::AlreadyAProject { path, stills } => {
                let mut s = owned(path.as_str());
                s.append(" already holds ");
                s.append(counted(*stills, " still", " — open it instead of creating it").as_str());
                s
            },
            IngestError::NotAProject { path } => {
                let mut s = owned(path.as_str());
                s.append(" is not a folder");
                s
            },
            IngestError::Copy { from, to, detail } => {
                let mut s = owned("could not copy ");
                s.append(from.as_str());
                s.append(" to ");
                s.append(to.as_str());
                s.append(": ");
                s.append(detail.as_str());
                s
            },
        }
    }
}

/// How many stills are among `names`.
pub fn stills_among(names: &Vec<String>) -> (r: usize)
    ensures
        r == of_kind(string_views(names@), Some(Kind::Image)).len(),
{
    let ghost nv = string_views(names@);
    let mut count: usize = 0;
    let mut i: usize = 0;
    assert(nv.take(0) =~= Seq::<Seq<char>>::empty());
    while i < names.len()
        invariant
            0 <= i <= names@.len(),
            nv == string_views(names@),
            count == of_kind(nv.take(i as int), Some(Kind::Image)).len(),
            count <= i,
        decreases names@.len() - i,
    {
        assert(nv.take(i + 1).drop_last() =~= nv.take(i as int));
        assert(nv.take(i + 1).last() == names@[i as int]@);
        if kind_of(names[i].as_str()) == Some(Kind::Image) {
            count = count + 1;
        }
        i = i + 1;
    }
    assert(nv.take(names@.len() as int) =~= nv);
    count
}

/// Whether an existing folder, holding the files `names`, may become a new
/// project: an empty one may; one that already holds stills is a project,
/// and the verb for it is open.
pub fn accept_existing_folder(path: &str, names: &Vec<String>) -> (r: Result<(), IngestError>)
    ensures
        ({
            let stills = of_kind(string_views(names@), Some(Kind::Image)).len();
            match r {
                Ok(()) => stills == 0,
                Err(e) => stills > 0 && (e matches IngestError::AlreadyAProject { path: p, stills: n }
                    && p@ == path@ && n == stills),
            }
        }),
{
    let stills = stills_among(names);
    if stills > 0 {
        Err(IngestError::AlreadyAProject { path: owned(path), stills })
    } else {
        Ok(())
    }
}

/// The scene number a file claims: the stem of a still, read as a count.
pub open spec fn scene_number(p: Seq<char>) -> Option<nat> {
    if kind_of_path(p) == Some(Kind::Image) {
        match file_stem_of(p) {
            Some(s) => parsed_usize(s),
            None => None,
        }
    } else {
        None
    }
}

/// The highest scene number among `names`, if any claims one.
pub open spec fn highest_scene_of(names: Seq<Seq<char>>) -> Option<nat>
    decreases names.len(),
{
    if names.len() == 0 {
        None
    } else {
        let rest = highest_scene_of(names.drop_last());
        match scene_number(names.last()) {
            Some(n) => match rest {
                Some(m) => Some(
                    if n > m {
                        n
                    } else {
                        m
                    },
                ),
                None => Some(n),
            },
            None => rest,
        }
    }
}

/// The scene number of one file, if it claims one.
fn scene_number_of(p: &str) -> (r: Option<usize>)
    ensures
        match r {
            Some(n) => scene_number(p@) == Some(n as nat),
            None => scene_number(p@) is None,
        },
{
    if kind_of(p) == Some(Kind::Image) {
        match file_stem(p) {
            Some(s) => parse_usize(s),
            None => None,
        }
    } else {
        None
    }
}

/// The highest scene number already taken among the files `names`.
pub fn highest_scene(names: &Vec<String>) -> (r: Option<usize>)
    ensures
        match r {
            Some(n) => highest_scene_of(string_views(names@)) == Some(n as nat),
            None => highest_scene_of(string_views(names@)) is None,
        },
{
    let ghost nv = string_views(names@);
    let mut best: Option<usize> = None;
    let mut i: usize = 0;
    assert(nv.take(0) =~= Seq::<Seq<char>>::empty());
    while i < names.len()
        invariant
            0 <= i <= names@.len(),
            nv == string_views(names@),
            match best {
                Some(n) => highest_scene_of(nv.take(i as int)) == Some(n as nat),
                None => highest_scene_of(nv.take(i as int)) is None,
            },
        decreases names@.len() - i,
    {
        assert(nv.take(i + 1).drop_last() =~= nv.take(i as int));
        assert(nv.take(i + 1).last() == names@[i as int]@);
        match scene_number_of(names[i].as_str()) {
            Some(n) => {
                best = match best {
                    Some(m) => Some(
                        if n > m {
                            n
                        } else {
                            m
                        },
                    ),
                    None => Some(n),
                };
            },
            None => {},
        }
        i = i + 1;
    }
    assert(nv.take(names@.len() as int) =~= nv);
    best
}

/// The number a new scene gets: one past the highest already among the
/// project's files `names`, or 1. Stills named `opening` or `middle` claim
/// no number.
pub fn next_index(names: &Vec<String>) -> (r: usize)
    requires
        highest_scene_of(string_views(names@)) != Some(usize::MAX as nat),
    ensures
        r == next_number(string_views(names@)),
{
    match highest_scene(names) {
        Some(n) => n + 1,
        None => 1,
    }
}

} // verus!

verus! {

/// How many slots hold something.
pub open spec fn count_some(s: Seq<Option<Seq<char>>>) -> nat
    decreases s.len(),
{
    if s.len() == 0 {
        0
    } else {
        count_some(s.drop_first()) + if s[0] is Some {
            1nat
        } else {
            0nat
        }
    }
}

proof fn lemma_count_some_last(s: Seq<Option<Seq<char>>>)
    requires
        s.len() > 0,
    ensures
        count_some(s) == count_some(s.drop_last()) + if s.last() is Some {
            1nat
        } else {
            0nat
        },
    decreases s.len(),
{
    if s.len() > 1 {
        lemma_count_some_last(s.drop_first());
        assert(s.drop_first().drop_last() =~= s.drop_last().drop_first());
        assert(s.drop_first().last() == s.last());
        assert(s.drop_last()[0] == s[0]);
        assert(count_some(s.drop_last()) == count_some(s.drop_last().drop_first()) + if s[0] is Some {
            1nat
        } else {
            0nat
        });
    } else {
        assert(s.drop_last().len() == 0);
        assert(s.drop_first().len() == 0);
        assert(count_some(s.drop_first()) == 0);
        assert(count_some(s.drop_last()) == 0);
        assert(s.last() == s[0]);
    }
}

proof fn lemma_count_some_update(s: Seq<Option<Seq<char>>>, j: int)
    requires
        0 <= j < s.len(),
        s[j] is Some,
    ensures
        count_some(s.update(j, None)) + 1 == count_some(s),
    decreases s.len(),
{
    if j > 0 {
        lemma_count_some_update(s.drop_first(), j - 1);
        assert(s.update(j, None).drop_first() =~= s.drop_first().update(j - 1, None));
    } else {
        assert(s.update(j, None).drop_first() =~= s.drop_first());
    }
}

proof fn lemma_count_some_all(pool: Seq<Seq<char>>)
    ensures
        count_some(pool.map_values(|x: Seq<char>| Some(x))) == pool.len(),
    decreases pool.len(),
{
    if pool.len() > 0 {
        lemma_count_some_all(pool.drop_first());
        assert(pool.map_values(|x: Seq<char>| Some(x)).drop_first() =~= pool.drop_first().map_values(
            |x: Seq<char>| Some(x),
        ));
    }
}

proof fn lemma_present_len(s: Seq<Option<Seq<char>>>)
    ensures
        present(s).len() == count_some(s),
    decreases s.len(),
{
    if s.len() > 0 {
        lemma_present_len(s.drop_last());
        lemma_count_some_last(s);
    }
}

proof fn lemma_first_match_some(pool: Seq<Option<Seq<char>>>, stem: Seq<char>)
    ensures
        match first_match(pool, stem) {
            Some(j) => 0 <= j < pool.len() && pool[j] is Some,
            None => true,
        },
    decreases pool.len(),
{
    if pool.len() > 0 {
        lemma_first_match_some(pool.drop_first(), stem);
    }
}

proof fn lemma_by_stem_conserves(images: Seq<Seq<char>>, pool: Seq<Seq<char>>, k: nat)
    ensures
        count_some(by_stem(images, pool, k).0) + count_some(by_stem(images, pool, k).1) == pool.len(),
    decreases k,
{
    if k == 0 {
        lemma_count_some_all(pool);
    } else {
        lemma_by_stem_conserves(images, pool, (k - 1) as nat);
        let (taken, left) = by_stem(images, pool, (k - 1) as nat);
        lemma_first_match_some(left, stem_key(images[k - 1]));
        match first_match(left, stem_key(images[k - 1])) {
            Some(j) => {
                lemma_count_some_update(left, j);
                lemma_count_some_last(taken.push(left[j]));
                assert(taken.push(left[j]).drop_last() =~= taken);
            },
            None => {
                lemma_count_some_last(taken.push(None));
                assert(taken.push(None).drop_last() =~= taken);
            },
        }
    }
}

proof fn lemma_fill_conserves(slots: Seq<Option<Seq<char>>>, spare: Seq<Seq<char>>)
    ensures
        count_some(fill(slots, spare).0) + fill(slots, spare).1.len() == count_some(slots) + spare.len(),
    decreases slots.len(),
{
    if slots.len() > 0 {
        if slots[0] is None && spare.len() > 0 {
            lemma_fill_conserves(slots.drop_first(), spare.drop_first());
            let rest = fill(slots.drop_first(), spare.drop_first()).0;
            assert((seq![Some(spare[0])] + rest).drop_first() =~= rest);
        } else {
            lemma_fill_conserves(slots.drop_first(), spare);
            let rest = fill(slots.drop_first(), spare).0;
            assert((seq![slots[0]] + rest).drop_first() =~= rest);
        }
    }
}

/// Nothing in a drop is lost: every recording (or script) either pairs with
/// a still or is counted among those with no still left.
pub proof fn lemma_assignment_conserves(images: Seq<Seq<char>>, pool: Seq<Seq<char>>)
    ensures
        count_some(assignment(images, pool).0) + assignment(images, pool).1 == pool.len(),
{
    lemma_by_stem_conserves(images, pool, images.len());
    let (taken, left) = by_stem(images, pool, images.len());
    lemma_present_len(left);
    lemma_fill_conserves(taken, present(left));
}

proof fn lemma_highest_bounds(names: Seq<Seq<char>>)
    ensures
        forall|i: int|
            0 <= i < names.len() && (#[trigger] scene_number(names[i])) is Some ==> highest_scene_of(
                names,
            ) is Some && scene_number(names[i]).unwrap() <= highest_scene_of(names).unwrap(),
    decreases names.len(),
{
    if names.len() > 0 {
        lemma_highest_bounds(names.drop_last());
        assert forall|i: int|
            0 <= i < names.len() && (#[trigger] scene_number(names[i])) is Some implies highest_scene_of(
            names,
        ) is Some && scene_number(names[i]).unwrap() <= highest_scene_of(names).unwrap() by {
            if i < names.len() - 1 {
                assert(names[i] == names.drop_last()[i]);
            }
        }
    }
}

/// The number `next_index` gives.
pub open spec fn next_number(names: Seq<Seq<char>>) -> nat {
    match highest_scene_of(names) {
        Some(n) => n + 1,
        None => 1,
    }
}

/// A second drop appends rather than overwrites: the number a new scene
/// gets is above every number a still in the project already claims.
pub proof fn lemma_next_index_is_fresh(names: Seq<Seq<char>>)
    ensures
        next_number(names) >= 1,
        forall|i: int|
            0 <= i < names.len() && (#[trigger] scene_number(names[i])) is Some ==> scene_number(
                names[i],
            ).unwrap() < next_number(names),
{
    lemma_highest_bounds(names);
}

} // verus!

verus! {

/// A dropped file is a still when its extension, in any case, is one of
/// jpg, jpeg, png, webp, tif, tiff, bmp and heic; a recording when it is one
/// of mp3, m4a, wav, aac, flac, ogg, opus and wma; a script when it is txt or
/// md; and nothing when it has none of these, or no extension at all.
pub proof fn lemma_a_drop_is_sorted_by_extension(p: Seq<char>)
    ensures
        extension_of(p) is None ==> kind_of_path(p) is None,
        extension_of(p) matches Some(e) ==> {
            let x = ascii_lowered(e);
            &&& crate::import::rows::documented_still(x) ==> kind_of_path(p) == Some(Kind::Image)
            &&& crate::import::rows::documented_recording(x) ==> kind_of_path(p) == Some(Kind::Audio)
            &&& (x == "txt"@ || x == "md"@) ==> kind_of_path(p) == Some(Kind::Text)
            &&& (!crate::import::rows::documented_still(x) && !crate::import::rows::documented_recording(x)
                && x != "txt"@ && x != "md"@) ==> kind_of_path(p) is None
        },
{
    match extension_of(p) {
        Some(e) => {
            let x = ascii_lowered(e);
            crate::import::rows::lemma_extension_lists(x);
        },
        None => {},
    }
}

} // verus!
