//! The diagnostics bundle: what it is called, and how a program's version
//! report is boiled down to the lines a remote diagnosis turns on.

use vstd::prelude::*;
use crate::text::{
    decimal, decimal_string, first_index_of, find_char, has_part, has_prefix, is_white_space,
    is_white_space_char, joined_with, join_all, lemma_first_index_of, owned, starts_with,
    string_views, trim, trim_start, trimmed, contains,
};

verus! {

/// A line without the carriage return of a `\r\n` ending.
pub open spec fn without_cr(line: Seq<char>) -> Seq<char> {
    if line.len() > 0 && line.last() == '\r' {
        line.drop_last()
    } else {
        line
    }
}

/// The lines of `text`, as `str::lines` gives them: split at `\n`, a `\r`
/// before it dropped, and no empty line after a final `\n`.
pub open spec fn lines_of(text: Seq<char>) -> Seq<Seq<char>>
    decreases text.len(),
{
    if text.len() == 0 {
        Seq::empty()
    } else {
        match first_index_of(text, '\n') {
            Some(k) => {
                proof {
                    crate::text::lemma_first_index_of(text, '\n');
                }
                seq![without_cr(text.take(k))] + lines_of(text.skip(k + 1))
            },
            None => seq![text],
        }
    }
}

/// The first line of a program's output, trimmed, or a placeholder when it
/// printed nothing.
pub open spec fn first_line_of(text: Seq<char>) -> Seq<char> {
    let lines = lines_of(text);
    if lines.len() == 0 {
        "<no output>"@
    } else {
        trimmed(lines[0])
    }
}

/// The first line of `text`, trimmed.
pub fn first_line(text: &str) -> (r: String)
    ensures
        r@ == first_line_of(text@),
{
    let n = text.unicode_len();
    if n == 0 {
        return owned("<no output>");
    }
    let line = match find_char(text, '\n') {
        Some(k) => {
            proof {
                lemma_first_index_of(text@, '\n');
            }
            let l = text.substring_char(0, k);
            let m = l.unicode_len();
            if m > 0 && l.get_char(m - 1) == '\r' {
                let s = l.substring_char(0, m - 1);
                assert(s@ =~= l@.drop_last());
                s
            } else {
                l
            }
        },
        None => text,
    };
    owned(trim(line))
}

/// How many characters from the start of `s` are not blanks.
pub open spec fn word_len(s: Seq<char>) -> nat
    decreases s.len(),
{
    if s.len() == 0 || is_white_space(s[0]) {
        0
    } else {
        1 + word_len(s.drop_first())
    }
}

/// A word runs up to the first blank, or the end.
pub proof fn lemma_word_len(s: Seq<char>)
    ensures
        word_len(s) <= s.len(),
        forall|i: int| 0 <= i < word_len(s) ==> !is_white_space(#[trigger] s[i]),
        word_len(s) < s.len() ==> is_white_space(s[word_len(s) as int]),
    decreases s.len(),
{
    if s.len() > 0 && !is_white_space(s[0]) {
        lemma_word_len(s.drop_first());
        assert forall|i: int| 0 <= i < word_len(s) implies !is_white_space(#[trigger] s[i]) by {
            if i > 0 {
                assert(s[i] == s.drop_first()[i - 1]);
            }
        }
        if word_len(s) < s.len() {
            assert(s[word_len(s) as int] == s.drop_first()[word_len(s.drop_first()) as int]);
        }
    }
}

/// The words of `s`, as `str::split_whitespace` gives them.
pub open spec fn words_of(s: Seq<char>) -> Seq<Seq<char>>
    decreases s.len(),
{
    if s.len() == 0 {
        Seq::empty()
    } else if is_white_space(s[0]) {
        words_of(s.drop_first())
    } else {
        proof {
            lemma_word_len(s);
        }
        seq![s.take(word_len(s) as int)] + words_of(s.skip(word_len(s) as int))
    }
}

/// The words of `s`.
pub fn words(s: &str) -> (r: Vec<String>)
    ensures
        string_views(r@) == words_of(s@),
{
    let n = s.unicode_len();
    let mut r: Vec<String> = Vec::new();
    let mut i: usize = 0;
    assert(s@.skip(0) =~= s@);
    while i < n
        invariant
            n == s@.len(),
            0 <= i <= n,
            words_of(s@) == string_views(r@) + words_of(s@.skip(i as int)),
        decreases n - i,
    {
        let ghost rest = s@.skip(i as int);
        let c = s.get_char(i);
        assert(rest[0] == c);
        if is_white_space_char(c) {
            assert(rest.drop_first() =~= s@.skip(i + 1));
            i = i + 1;
        } else {
            let mut j: usize = i;
            while j < n && !is_white_space_char(s.get_char(j))
                invariant
                    n == s@.len(),
                    i <= j <= n,
                    forall|k: int| i <= k < j ==> !is_white_space(#[trigger] s@[k]),
                decreases n - j,
            {
                j = j + 1;
            }
            proof {
                lemma_word_len(rest);
                assert(word_len(rest) == j - i) by {
                    if word_len(rest) < j - i {
                        assert(rest[word_len(rest) as int] == s@[i + word_len(rest)]);
                    }
                    if word_len(rest) > j - i {
                        assert(rest[j - i] == s@[j as int]);
                    }
                }
            }
            let word = s.substring_char(i, j);
            let ghost before = string_views(r@);
            r.push(owned(word));
            assert(string_views(r@) =~= before.push(word@));
            assert(rest.take(word_len(rest) as int) =~= word@);
            assert(rest.skip(word_len(rest) as int) =~= s@.skip(j as int));
            assert(seq![word@] + words_of(s@.skip(j as int)) == words_of(rest));
            assert(before.push(word@) + words_of(s@.skip(j as int)) =~= before + (seq![word@] + words_of(
                s@.skip(j as int),
            )));
            i = j;
        }
    }
    assert(s@.skip(n as int) =~= Seq::<char>::empty());
    assert(string_views(r@) + Seq::<Seq<char>>::empty() =~= string_views(r@));
    r
}

/// A build flag worth keeping: one that changes behaviour a report turns on.
pub open spec fn interesting_flag(f: Seq<char>) -> bool {
    has_part(f, "gpl"@) || has_part(f, "libx264"@) || has_part(f, "videotoolbox"@) || has_part(
        f,
        "nvenc"@,
    ) || has_part(f, "nonfree"@) || has_part(f, "version"@)
}

/// The interesting flags among `flags`, in order.
pub open spec fn interesting_flags(flags: Seq<Seq<char>>) -> Seq<Seq<char>>
    decreases flags.len(),
{
    if flags.len() == 0 {
        Seq::empty()
    } else {
        let rest = interesting_flags(flags.drop_last());
        if interesting_flag(flags.last()) {
            rest.push(flags.last())
        } else {
            rest
        }
    }
}

/// The first line that, with leading blanks set aside, begins
/// `configuration:`.
pub open spec fn configuration_line(lines: Seq<Seq<char>>) -> Option<Seq<char>>
    decreases lines.len(),
{
    if lines.len() == 0 {
        None
    } else if has_prefix(trim_start(lines[0]), "configuration:"@) {
        Some(lines[0])
    } else {
        configuration_line(lines.drop_first())
    }
}

/// A version report's build configuration, condensed: the flags that change
/// behaviour, and how many others were left out, rather than hundreds of
/// characters of flags or a silent truncation.
pub open spec fn condensed_configuration_of(text: Seq<char>) -> Seq<char> {
    match configuration_line(lines_of(text)) {
        None => "<not reported>"@,
        Some(line) => {
            let words = words_of(line);
            let flags = if words.len() > 0 {
                words.drop_first()
            } else {
                words
            };
            let kept = interesting_flags(flags);
            joined_with(kept, " "@) + " ("@ + decimal((flags.len() - kept.len()) as nat)
                + " other flags not shown)"@
        },
    }
}

proof fn lemma_interesting_len(flags: Seq<Seq<char>>)
    ensures
        interesting_flags(flags).len() <= flags.len(),
    decreases flags.len(),
{
    if flags.len() > 0 {
        lemma_interesting_len(flags.drop_last());
    }
}

/// The lines of `text`.
fn lines(text: &str) -> (r: Vec<String>)
    ensures
        string_views(r@) == lines_of(text@),
{
    let mut r: Vec<String> = Vec::new();
    let mut rest: &str = text;
    while rest.unicode_len() > 0
        invariant
            lines_of(text@) == string_views(r@) + lines_of(rest@),
        decreases rest@.len(),
    {
        let n = rest.unicode_len();
        let ghost before = string_views(r@);
        match find_char(rest, '\n') {
            Some(k) => {
                proof {
                    lemma_first_index_of(rest@, '\n');
                }
                let l = rest.substring_char(0, k);
                let m = l.unicode_len();
                let line = if m > 0 && l.get_char(m - 1) == '\r' {
                    let s = l.substring_char(0, m - 1);
                    assert(s@ =~= l@.drop_last());
                    s
                } else {
                    l
                };
                r.push(owned(line));
                let next = rest.substring_char(k + 1, n);
                assert(string_views(r@) =~= before.push(line@));
                assert(next@ =~= rest@.skip(k + 1));
                assert(before.push(line@) + lines_of(next@) =~= before + (seq![line@] + lines_of(next@)));
                rest = next;
            },
            None => {
                r.push(owned(rest));
                assert(string_views(r@) =~= before.push(rest@));
                let next = rest.substring_char(n, n);
                assert(next@ =~= Seq::<char>::empty());
                assert(before.push(rest@) + lines_of(next@) =~= before + seq![rest@]);
                rest = next;
            },
        }
    }
    assert(string_views(r@) + Seq::<Seq<char>>::empty() =~= string_views(r@));
    r
}

/// The build configuration in a version report, condensed.
pub fn condensed_configuration(text: &str) -> (r: String)
    ensures
        r@ == condensed_configuration_of(text@),
{
    let all = lines(text);
    let ghost lv = string_views(all@);
    let mut i: usize = 0;
    assert(lv.skip(0) =~= lv);
    while i < all.len() && !starts_with(crate::text::trim_start_str(all[i].as_str()), "configuration:")
        invariant
            0 <= i <= all@.len(),
            lv == string_views(all@),
            configuration_line(lv) == configuration_line(lv.skip(i as int)),
        decreases all@.len() - i,
    {
        assert(lv.skip(i as int)[0] == all@[i as int]@);
        assert(lv.skip(i as int).drop_first() =~= lv.skip(i + 1));
        i = i + 1;
    }
    if i == all.len() {
        assert(lv.skip(i as int) =~= Seq::<Seq<char>>::empty());
        return owned("<not reported>");
    }
    assert(lv.skip(i as int)[0] == all@[i as int]@);
    let ws = words(all[i].as_str());
    let ghost wv = string_views(ws@);
    let mut kept: Vec<String> = Vec::new();
    let mut flags: usize = 0;
    let mut k: usize = if ws.len() > 0 {
        1
    } else {
        0
    };
    let ghost fl = if wv.len() > 0 {
        wv.drop_first()
    } else {
        wv
    };
    assert(fl =~= wv.skip(k as int));
    assert(fl.take(0) =~= Seq::<Seq<char>>::empty());
    while k < ws.len()
        invariant
            0 < k <= ws@.len() || (k == 0 && ws@.len() == 0),
            wv == string_views(ws@),
            fl =~= wv.skip(if wv.len() > 0 {
                1int
            } else {
                0int
            }),
            flags == k - (if wv.len() > 0 {
                1int
            } else {
                0int
            }),
            string_views(kept@) == interesting_flags(fl.take(flags as int)),
        decreases ws@.len() - k,
    {
        let f = ws[k].as_str();
        assert(fl.take(flags + 1).drop_last() =~= fl.take(flags as int));
        assert(fl.take(flags + 1).last() == f@);
        if contains(f, "gpl") || contains(f, "libx264") || contains(f, "videotoolbox") || contains(
            f,
            "nvenc",
        ) || contains(f, "nonfree") || contains(f, "version") {
            let ghost before = string_views(kept@);
            kept.push(owned(f));
            assert(string_views(kept@) =~= before.push(f@));
        }
        k = k + 1;
        flags = flags + 1;
    }
    assert(fl.take(flags as int) =~= fl);
    proof {
        lemma_interesting_len(fl);
    }
    let mut s = join_all(&kept, " ");
    s.append(" (");
    s.append(decimal_string((flags - kept.len()) as u64).as_str());
    s.append(" other flags not shown)");
    s
}

/// The default name for an exported bundle, so a second export does not
/// overwrite the first and a file in a downloads folder says what it is.
pub fn default_bundle_name(stamp: &str) -> (r: String)
    ensures
        r@ == "spoonstill-diagnostics-"@ + stamp@ + ".txt"@,
{
    let mut s = owned("spoonstill-diagnostics-");
    s.append(stamp);
    s.append(".txt");
    s
}

} // verus!
