//! Which voice a render will use, and who chose it.
//!
//! Four answers, in a fixed order: the pick made for this render, the
//! project's own `tts.voice`, the machine's fallback, and — when none of those
//! names a voice — nothing, in which case each line is read in whatever voice
//! its own script suggests.

use vstd::prelude::*;
use crate::import::settings::DEFAULT_VOICE;
use crate::text::{has_part, joined, occurs_at, owned, same_text, trim, trimmed};

verus! {

/// Which of the four answers decided the voice.
#[derive(Debug, Clone, Copy, PartialEq, Eq, Structural)]
pub enum VoiceOrigin {
    /// The Voice screen's pick, for this render only.
    Run,
    /// `project.yaml`'s own `tts.voice`.
    Project,
    /// The machine's fallback, from Settings.
    Fallback,
    /// Nothing named one.
    Unchosen,
}

/// The voice a render will use, and who said so.
#[derive(Debug, Clone, PartialEq, Eq)]
pub struct VoiceChoice {
    /// The voice that will speak. Empty only when nobody named one and the
    /// provider could not say what it would fall back to.
    pub voice: String,
    /// Which of the four answers decided it.
    pub origin: VoiceOrigin,
    /// What a render request carries: `Some` only for the two answers that
    /// are the window's to make, and then the voice shown.
    pub override_for_render: Option<String>,
    /// Where it came from, in a few words.
    pub said: String,
    /// The same fact as a sentence that says what to do about it.
    pub detail: String,
    /// Whether the voice shown is already this machine's fallback.
    pub is_fallback: bool,
}

/// Whether a value names a voice: something other than blank or `default`.
pub open spec fn names_voice(value: Seq<char>) -> bool {
    trimmed(value).len() > 0 && trimmed(value) != DEFAULT_VOICE@
}

/// Whether an optional value names a voice.
pub open spec fn some_names_voice(value: Option<Seq<char>>) -> bool {
    match value {
        Some(v) => names_voice(v),
        None => false,
    }
}

/// Which answer decides, in the order this run, the project, the machine.
pub open spec fn decided_by(
    chosen: Option<Seq<char>>,
    project: Seq<char>,
    fallback: Option<Seq<char>>,
) -> VoiceOrigin {
    if some_names_voice(chosen) {
        VoiceOrigin::Run
    } else if names_voice(project) {
        VoiceOrigin::Project
    } else if some_names_voice(fallback) {
        VoiceOrigin::Fallback
    } else {
        VoiceOrigin::Unchosen
    }
}

/// The voice that answer names, trimmed.
pub open spec fn decided_voice(
    chosen: Option<Seq<char>>,
    project: Seq<char>,
    fallback: Option<Seq<char>>,
    provider_default: Seq<char>,
) -> Seq<char> {
    match decided_by(chosen, project, fallback) {
        VoiceOrigin::Run => trimmed(chosen.unwrap()),
        VoiceOrigin::Project => trimmed(project),
        VoiceOrigin::Fallback => trimmed(fallback.unwrap()),
        VoiceOrigin::Unchosen => trimmed(provider_default),
    }
}

/// The tag beside a voice decided by `origin`.
pub open spec fn said_for(origin: VoiceOrigin) -> Seq<char> {
    match origin {
        VoiceOrigin::Run => "Chosen for this render"@,
        VoiceOrigin::Project => "Named in project.yaml"@,
        VoiceOrigin::Fallback => "Your fallback voice"@,
        VoiceOrigin::Unchosen => "Nobody chose this"@,
    }
}

/// The sentence beside a voice decided by `origin`.
pub open spec fn detail_for(origin: VoiceOrigin, provider_default: Seq<char>) -> Seq<char> {
    match origin {
        VoiceOrigin::Run => "This voice reads every written line in the next render. \
                     Nothing here writes to project.yaml, so it lasts until you \
                     choose again."@,
        VoiceOrigin::Project => "This project asks for this voice itself, so every render of \
                     it sounds the same on any machine."@,
        VoiceOrigin::Fallback => "This project names no voice, so the one set in Settings is \
                     used. Every project that names none gets this same voice."@,
        VoiceOrigin::Unchosen => if provider_default.len() == 0 {
            "Nothing has named a voice. Each line will be read in whatever voice \
             its own script suggests. Choose one here, or set a fallback in \
             Settings, to keep several projects sounding the same."@
        } else {
            "Nothing has named a voice. English lines will be read by "@ + provider_default
                + ", and a line written in another script gets that \
             script's voice. Choose one here, or set a fallback in Settings, to \
             keep several projects sounding the same."@
        },
    }
}

/// Whether `value` names a voice: blank and `default` do not.
pub fn names_a_voice(value: &str) -> (r: bool)
    ensures
        r == names_voice(value@),
{
    let trimmed = trim(value);
    trimmed.unicode_len() > 0 && !same_text(trimmed, DEFAULT_VOICE)
}

fn some_names_a_voice(value: Option<&str>) -> (r: bool)
    ensures
        r == some_names_voice(
            match value {
                Some(v) => Some(v@),
                None => None,
            },
        ),
{
    match value {
        Some(v) => names_a_voice(v),
        None => false,
    }
}

/// The view of an optional string.
pub open spec fn opt_view(value: Option<&str>) -> Option<Seq<char>> {
    match value {
        Some(v) => Some(v@),
        None => None,
    }
}

/// Whether the fallback names this voice.
fn fallback_is(fallback: Option<&str>, voice: &str) -> (r: bool)
    ensures
        r == (some_names_voice(opt_view(fallback)) && trimmed(fallback.unwrap()@) == voice@),
{
    match fallback {
        Some(f) => names_a_voice(f) && same_text(trim(f), voice),
        None => false,
    }
}

/// Resolve the four answers into one, in the order: this run's pick, then the
/// project's own, then the machine's fallback, and only then nothing.
pub fn resolve(
    chosen: Option<&str>,
    project_voice: &str,
    fallback: Option<&str>,
    provider_default: &str,
) -> (r: VoiceChoice)
    ensures
        r.origin == decided_by(opt_view(chosen), project_voice@, opt_view(fallback)),
        r.voice@ == decided_voice(
            opt_view(chosen),
            project_voice@,
            opt_view(fallback),
            provider_default@,
        ),
        r.override_for_render is Some <==> (r.origin == VoiceOrigin::Run || r.origin
            == VoiceOrigin::Fallback),
        r.override_for_render matches Some(o) ==> o@ == r.voice@,
        r.said@ == said_for(r.origin),
        r.detail@ == detail_for(r.origin, provider_default@),
        r.is_fallback == (some_names_voice(opt_view(fallback)) && trimmed(fallback.unwrap()@)
            == r.voice@),
{
    if some_names_a_voice(chosen) {
        let voice = trim(chosen.unwrap());
        let is_fallback = fallback_is(fallback, voice);
        return VoiceChoice {
            voice: owned(voice),
            origin: VoiceOrigin::Run,
            override_for_render: Some(owned(voice)),
            is_fallback,
            said: owned("Chosen for this render"),
            detail: owned(
                "This voice reads every written line in the next render. \
                     Nothing here writes to project.yaml, so it lasts until you \
                     choose again.",
            ),
        };
    }
    if names_a_voice(project_voice) {
        let voice = trim(project_voice);
        let is_fallback = fallback_is(fallback, voice);
        return VoiceChoice {
            voice: owned(voice),
            origin: VoiceOrigin::Project,
            override_for_render: None,
            is_fallback,
            said: owned("Named in project.yaml"),
            detail: owned(
                "This project asks for this voice itself, so every render of \
                     it sounds the same on any machine.",
            ),
        };
    }
    if some_names_a_voice(fallback) {
        let voice = trim(fallback.unwrap());
        return VoiceChoice {
            voice: owned(voice),
            origin: VoiceOrigin::Fallback,
            override_for_render: Some(owned(voice)),
            is_fallback: true,
            said: owned("Your fallback voice"),
            detail: owned(
                "This project names no voice, so the one set in Settings is \
                     used. Every project that names none gets this same voice.",
            ),
        };
    }
    let detail = if provider_default.unicode_len() == 0 {
        owned(
            "Nothing has named a voice. Each line will be read in whatever voice \
             its own script suggests. Choose one here, or set a fallback in \
             Settings, to keep several projects sounding the same.",
        )
    } else {
        let head = joined("Nothing has named a voice. English lines will be read by ", provider_default);
        joined(
            head.as_str(),
            ", and a line written in another script gets that \
             script's voice. Choose one here, or set a fallback in Settings, to \
             keep several projects sounding the same.",
        )
    };
    VoiceChoice {
        voice: owned(trim(provider_default)),
        origin: VoiceOrigin::Unchosen,
        override_for_render: None,
        is_fallback: false,
        said: owned("Nobody chose this"),
        detail,
    }
}

} // verus!

verus! {

/// Each of the four answers reads differently: the tag beside a voice tells
/// who chose it, so no two origins share one.
pub proof fn lemma_each_origin_reads_differently(a: VoiceOrigin, b: VoiceOrigin)
    requires
        a != b,
    ensures
        said_for(a) != said_for(b),
{
    reveal_strlit("Chosen for this render");
    reveal_strlit("Named in project.yaml");
    reveal_strlit("Your fallback voice");
    reveal_strlit("Nobody chose this");
    assert(said_for(a).len() != said_for(b).len());
}

/// The opening of the unchosen sentence, before the provider's own voice.
spec fn unchosen_head() -> Seq<char> {
    "Nothing has named a voice. English lines will be read by "@
}

/// The rest of the unchosen sentence, after the provider's own voice.
spec fn unchosen_tail() -> Seq<char> {
    ", and a line written in another script gets that \
             script's voice. Choose one here, or set a fallback in Settings, to \
             keep several projects sounding the same."@
}

/// Whether `c` occurs nowhere in `s`, checked from the front.
spec fn lacks(s: Seq<char>, c: char) -> bool
    decreases s.len(),
{
    s.len() == 0 || (s[0] != c && lacks(s.drop_first(), c))
}

proof fn lemma_lacks(s: Seq<char>, c: char)
    requires
        lacks(s, c),
    ensures
        forall|i: int| 0 <= i < s.len() ==> s[i] != c,
    decreases s.len(),
{
    if s.len() > 0 {
        lemma_lacks(s.drop_first(), c);
        assert forall|i: int| 0 <= i < s.len() implies s[i] != c by {
            if i > 0 {
                assert(s[i] == s.drop_first()[i - 1]);
            }
        }
    }
}

/// Whether `a` is never directly followed by `b` in `s` from position `i`
/// on.
spec fn never_followed(s: Seq<char>, a: char, b: char, i: int) -> bool
    decreases s.len() - i,
{
    i < 0 || i + 1 >= s.len() || (!(s[i] == a && s[i + 1] == b) && never_followed(s, a, b, i + 1))
}

proof fn lemma_never_followed(s: Seq<char>, a: char, b: char, from: int)
    requires
        0 <= from,
        never_followed(s, a, b, from),
    ensures
        forall|i: int| from <= i && i + 1 < s.len() ==> !(#[trigger] s[i] == a && s[i + 1] == b),
    decreases s.len() - from,
{
    if from + 1 < s.len() {
        lemma_never_followed(s, a, b, from + 1);
    }
}

proof fn lemma_tail_never_sk()
    ensures
        forall|i: int| 0 <= i && i + 1 < unchosen_tail().len() ==> !(#[trigger] unchosen_tail()[i] == 's'
            && unchosen_tail()[i + 1] == 'k'),
{
    reveal_strlit(
        ", and a line written in another script gets that \
             script's voice. Choose one here, or set a fallback in Settings, to \
             keep several projects sounding the same.",
    );
    let t = unchosen_tail();
    assert(never_followed(t, 's', 'k', 120)) by {
        reveal_with_fuel(never_followed, 40);
    }
    assert(never_followed(t, 's', 'k', 80)) by {
        reveal_with_fuel(never_followed, 41);
    }
    assert(never_followed(t, 's', 'k', 40)) by {
        reveal_with_fuel(never_followed, 41);
    }
    assert(never_followed(t, 's', 'k', 0)) by {
        reveal_with_fuel(never_followed, 41);
    }
    lemma_never_followed(t, 's', 'k', 0);
}

/// A voice nobody chose does not claim anybody did: its tag does not
/// mention `project.yaml`, and its sentence never says a project "asks for"
/// it — while naming the voice the provider falls back to, saying that
/// another script gets its own voice, and pointing at Settings. This holds
/// for any fallback name that does not itself say "asks for".
pub proof fn lemma_an_unchosen_voice_claims_no_choice(provider_default: Seq<char>)
    requires
        provider_default.len() > 0,
        !has_part(provider_default, "asks for"@),
    ensures
        !has_part(said_for(VoiceOrigin::Unchosen), "project.yaml"@),
        has_part(detail_for(VoiceOrigin::Unchosen, provider_default), provider_default),
        has_part(detail_for(VoiceOrigin::Unchosen, provider_default), "script"@),
        has_part(detail_for(VoiceOrigin::Unchosen, provider_default), "Settings"@),
        !has_part(detail_for(VoiceOrigin::Unchosen, provider_default), "asks for"@),
{
    reveal_strlit("Nobody chose this");
    reveal_strlit("project.yaml");
    reveal_strlit("script");
    reveal_strlit("Settings");
    reveal_strlit("asks for");
    reveal_strlit("Nothing has named a voice. English lines will be read by ");
    reveal_strlit(
        ", and a line written in another script gets that \
             script's voice. Choose one here, or set a fallback in Settings, to \
             keep several projects sounding the same.",
    );
    let said = said_for(VoiceOrigin::Unchosen);
    assert forall|at: int| !occurs_at(said, "project.yaml"@, at) by {
        if occurs_at(said, "project.yaml"@, at) {
            assert(said.subrange(at, at + 12)[7] == '.');
            assert(said[at + 7] == '.');
        }
    }
    let d = provider_default;
    let h = unchosen_head();
    let t = unchosen_tail();
    let detail = detail_for(VoiceOrigin::Unchosen, d);
    assert(detail =~= h + d + t);
    let a = h.len() as int;
    let b = a + d.len();
    assert(h.len() == 57);
    assert(t.len() == 156);
    assert(detail.subrange(a, b) =~= d);
    assert(occurs_at(detail, d, a));
    assert(detail.subrange(b + 32, b + 38) =~= "script"@);
    assert(occurs_at(detail, "script"@, b + 32));
    assert(detail.subrange(b + 103, b + 111) =~= "Settings"@);
    assert(occurs_at(detail, "Settings"@, b + 103));
    assert forall|p: int| !occurs_at(detail, "asks for"@, p) by {
        if occurs_at(detail, "asks for"@, p) {
            let w = detail.subrange(p, p + 8);
            assert(w == "asks for"@);
            assert forall|j: int| 0 <= j < 8 implies detail[p + j] == "asks for"@[j] by {
                assert(w[j] == detail[p + j]);
            }
            assert("asks for"@[0] == 'a' && "asks for"@[2] == 'k');
            if p + 2 < a {
                assert(lacks(h, 'k')) by {
                    reveal_with_fuel(lacks, 58);
                }
                lemma_lacks(h, 'k');
                assert(detail[p + 2] == h[p + 2]);
                assert(false);
            } else if p < a {
                assert(detail[p] == h[p]);
                if p == a - 1 {
                    assert(h[56] == ' ');
                } else {
                    assert(p == a - 2);
                    assert(h[55] == 'y');
                }
                assert(false);
            } else if p + 8 <= b {
                assert(d.subrange(p - a, p - a + 8) =~= w);
                assert(occurs_at(d, "asks for"@, p - a));
                assert(false);
            } else if p < b {
                assert(detail[b] == t[0]);
                assert(detail[b] == "asks for"@[b - p]);
                assert(false);
            } else {
                lemma_tail_never_sk();
                assert("asks for"@[1] == 's');
                assert(detail[p + 2] == t[p + 2 - b]);
                assert(detail[p + 1] == t[p + 1 - b]);
                assert(false);
            }
        }
    }
}

} // verus!
