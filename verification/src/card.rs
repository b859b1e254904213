//! Turning looked-up entries into flash-card lines.
//!
//! A card line has three fields separated by `|`: the word as it was asked
//! for, the HTML of its entry (with newlines removed and `|` escaped as
//! `%7C`), and an Anki sound reference to the first `.wav` file that the HTML
//! names after `[sound:`.
use vstd::prelude::*;

use crate::dict::DslDict;
use crate::text::{chars_of, push_char, push_range};
use crate::word::Word;

verus! {

/// Whether `c` has the Unicode `White_Space` property.
pub open spec fn is_white_space(c: char) -> bool {
    ||| '\u{9}' <= c <= '\u{d}'
    ||| c == ' '
    ||| c == '\u{85}'
    ||| c == '\u{a0}'
    ||| c == '\u{1680}'
    ||| '\u{2000}' <= c <= '\u{200a}'
    ||| c == '\u{2028}'
    ||| c == '\u{2029}'
    ||| c == '\u{202f}'
    ||| c == '\u{205f}'
    ||| c == '\u{3000}'
}

/// `s` without its leading and trailing white space.
pub open spec fn trimmed(s: Seq<char>) -> Seq<char>
    decreases s.len(),
{
    if s.len() > 0 && is_white_space(s[0]) {
        trimmed(s.drop_first())
    } else if s.len() > 0 && is_white_space(s.last()) {
        trimmed(s.drop_last())
    } else {
        s
    }
}

/// Removes leading and trailing white space.
///
/// Trusted: calls `str::trim`, which std documents as removing leading and
/// trailing characters with the Unicode `White_Space` property; the contract
/// states exactly that.
#[verifier::external_body]
fn trim(s: &str) -> (t: &str)
    ensures
        t@ == trimmed(s@),
{
    s.trim()
}

/// The word that a line of the vocabulary list asks for: the line without
/// surrounding white space. `None` for a blank line, which ends the list.
pub fn vocabulary_word(line: &str) -> (w: Option<&str>)
    ensures
        match w {
            Some(t) => t@ == trimmed(line@) && t@.len() > 0,
            None => trimmed(line@).len() == 0,
        },
{
    let t = trim(line);
    if t.is_empty() {
        None
    } else {
        Some(t)
    }
}

/// The index of the first dictionary that has an entry for `key`, searching
/// from index `i` on.
pub open spec fn first_holder(dicts: Seq<DslDict>, key: Seq<char>, i: int) -> Option<int>
    decreases dicts.len() - i,
{
    if i < 0 || i >= dicts.len() {
        None
    } else if dicts[i].entries().contains_key(key) {
        Some(i)
    } else {
        first_holder(dicts, key, i + 1)
    }
}

/// The dictionary that `first_holder` picks holds the key and no dictionary
/// before it does; it picks none exactly when no dictionary holds the key.
pub proof fn law_first_holder_is_first(dicts: Seq<DslDict>, key: Seq<char>)
    ensures
        match first_holder(dicts, key, 0) {
            Some(i) => {
                &&& 0 <= i < dicts.len()
                &&& dicts[i].entries().contains_key(key)
                &&& forall|j: int| 0 <= j < i ==> !(#[trigger] dicts[j].entries()).contains_key(key)
            },
            None => forall|i: int|
                0 <= i < dicts.len() ==> !(#[trigger] dicts[i].entries()).contains_key(key),
        },
{
    lemma_first_holder_from(dicts, key, 0);
}

proof fn lemma_first_holder_from(dicts: Seq<DslDict>, key: Seq<char>, k: int)
    requires
        0 <= k,
    ensures
        match first_holder(dicts, key, k) {
            Some(i) => {
                &&& k <= i < dicts.len()
                &&& dicts[i].entries().contains_key(key)
                &&& forall|j: int| k <= j < i ==> !(#[trigger] dicts[j].entries()).contains_key(key)
            },
            None => forall|i: int|
                k <= i < dicts.len() ==> !(#[trigger] dicts[i].entries()).contains_key(key),
        },
    decreases dicts.len() - k,
{
    if k < dicts.len() && !dicts[k].entries().contains_key(key) {
        lemma_first_holder_from(dicts, key, k + 1);
    }
}

/// The entry for `word` in the first dictionary that has one.
pub fn lookup<'a>(dicts: &'a Vec<DslDict>, word: &str) -> (r: Option<&'a Word>)
    ensures
        match first_holder(dicts@, word@, 0) {
            Some(i) => r matches Some(w) && w@ == dicts@[i].entries()[word@],
            None => r is None,
        },
        r is None <==> forall|i: int|
            0 <= i < dicts@.len() ==> !(#[trigger] dicts@[i].entries()).contains_key(word@),
        r matches Some(w) ==> exists|i: int|
            0 <= i < dicts@.len() && (#[trigger] dicts@[i].entries()).contains_key(word@) && w@
                == dicts@[i].entries()[word@] && forall|j: int|
                0 <= j < i ==> !(#[trigger] dicts@[j].entries()).contains_key(word@),
{
    proof {
        law_first_holder_is_first(dicts@, word@);
    }
    let n = dicts.len();
    for i in 0..n
        invariant
            n == dicts@.len(),
            first_holder(dicts@, word@, 0) == first_holder(dicts@, word@, i as int),
    {
        let r = dicts[i].query(word);
        if r.is_some() {
            proof {
                law_first_holder_is_first(dicts@, word@);
            }
            assert(first_holder(dicts@, word@, 0) == Some(i as int));
            return r;
        }
    }
    None
}

/// How a character is written in a card field: newlines are dropped and `|`
/// becomes `%7C`.
pub open spec fn escape_char(c: char) -> Seq<char> {
    if c == '\n' {
        Seq::empty()
    } else if c == '|' {
        "%7C"@
    } else {
        seq![c]
    }
}

/// `s` written as a card field.
pub open spec fn escape_field(s: Seq<char>) -> Seq<char>
    decreases s.len(),
{
    if s.len() == 0 {
        Seq::empty()
    } else {
        escape_field(s.drop_last()) + escape_char(s.last())
    }
}

/// Writes `html` as a card field: without newlines, with `|` as `%7C`.
pub fn escape_html(html: &str) -> (r: String)
    ensures
        r@ == escape_field(html@),
{
    let cs = chars_of(html);
    let mut r = String::new();
    let n = cs.len();
    for i in 0..n
        invariant
            n == cs@.len(),
            cs@ == html@,
            r@ == escape_field(cs@.take(i as int)),
    {
        let c = cs[i];
        assert(cs@.take(i + 1).drop_last() =~= cs@.take(i as int));
        if c == '\n' {
            assert(r@ =~= escape_field(cs@.take(i as int)) + escape_char(c));
        } else if c == '|' {
            r.append("%7C");
        } else {
            push_char(&mut r, c);
        }
    }
    assert(cs@.take(n as int) =~= cs@);
    r
}

/// Whether `pat` occurs in `s` at index `i`.
pub open spec fn occurs_at(s: Seq<char>, pat: Seq<char>, i: int) -> bool {
    0 <= i && i + pat.len() <= s.len() && s.subrange(i, i + pat.len()) == pat
}

/// The first index at or after `i` where `pat` occurs in `s`.
pub open spec fn find_from(s: Seq<char>, pat: Seq<char>, i: int) -> Option<int>
    decreases s.len() + 1 - i,
{
    if i < 0 || i + pat.len() > s.len() {
        None
    } else if occurs_at(s, pat, i) {
        Some(i)
    } else {
        find_from(s, pat, i + 1)
    }
}

fn find_exec(s: &Vec<char>, pat: &Vec<char>, from: usize) -> (r: Option<usize>)
    ensures
        match find_from(s@, pat@, from as int) {
            Some(i) => r matches Some(e) && e == i + pat@.len(),
            None => r is None,
        },
        r matches Some(e) ==> from + pat@.len() <= e <= s@.len(),
{
    let n = s.len();
    let m = pat.len();
    let mut i = from;
    while i <= n && m <= n - i
        invariant
            n == s@.len(),
            m == pat@.len(),
            from <= i,
            find_from(s@, pat@, from as int) == find_from(s@, pat@, i as int),
        decreases n + 1 - i,
    {
        let mut j: usize = 0;
        while j < m && s[i + j] == pat[j]
            invariant
                n == s@.len(),
                m == pat@.len(),
                i + m <= n,
                j <= m,
                forall|t: int| 0 <= t < j ==> s@[i + t] == pat@[t],
            decreases m - j,
        {
            j += 1;
        }
        if j == m {
            assert(s@.subrange(i as int, i + m) =~= pat@);
            return Some(i + m);
        }
        assert(s@.subrange(i as int, i + m)[j as int] != pat@[j as int]);
        i += 1;
    }
    None
}

/// The sound file of a card: what follows the first `[sound:` up to and
/// including the first `.wav` after it; empty when there is none.
pub open spec fn audio_of(html: Seq<char>) -> Seq<char> {
    match find_from(html, "[sound:"@, 0) {
        None => Seq::empty(),
        Some(i) => {
            let start = i + "[sound:"@.len();
            match find_from(html, ".wav"@, start) {
                None => Seq::empty(),
                Some(j) => html.subrange(start, j + ".wav"@.len()),
            }
        },
    }
}

/// Finds the sound file that `html` refers to.
pub fn find_audio(html: &str) -> (r: String)
    ensures
        r@ == audio_of(html@),
{
    let cs = chars_of(html);
    let mark = chars_of("[sound:");
    let ext = chars_of(".wav");
    let mut r = String::new();
    match find_exec(&cs, &mark, 0) {
        None => {
            assert(find_from(html@, "[sound:"@, 0) is None);
        },
        Some(start) => {
            let ghost i = find_from(html@, "[sound:"@, 0)->0;
            assert(start == i + "[sound:"@.len());
            match find_exec(&cs, &ext, start) {
                None => {
                    assert(find_from(html@, ".wav"@, start as int) is None);
                },
                Some(end) => {
                    let ghost j = find_from(html@, ".wav"@, start as int)->0;
                    assert(end == j + ".wav"@.len());
                    push_range(&mut r, &cs, start, end);
                    assert(r@ =~= html@.subrange(start as int, end as int));
                },
            }
        },
    }
    r
}

/// The card line for `word`, whose entry rendered to `html`.
pub open spec fn card_of(word: Seq<char>, html: Seq<char>) -> Seq<char> {
    let field = escape_field(html);
    word + "|"@ + field + "|"@ + "[sound:"@ + audio_of(field) + "]\n"@
}

/// Writes the card line for `word`, whose entry rendered to `html`.
pub fn card_line(word: &str, html: &str) -> (r: String)
    ensures
        r@ == card_of(word@, html@),
{
    let field = escape_html(html);
    let audio = find_audio(field.as_str());
    let mut r = String::from_str(word);
    r.append("|");
    r.append(field.as_str());
    r.append("|");
    r.append("[sound:");
    r.append(audio.as_str());
    r.append("]\n");
    r
}

/// Writing a card field changes only newlines, which are dropped, and `|`,
/// which becomes `%7C`; every other character is kept as it is.
pub proof fn law_escape_field_step(s: Seq<char>, c: char)
    ensures
        c != '\n' && c != '|' ==> escape_field(s.push(c)) == escape_field(s).push(c),
        escape_field(s.push('\n')) == escape_field(s),
        escape_field(s.push('|')) == escape_field(s) + "%7C"@,
{
    assert(s.push(c).drop_last() =~= s);
    assert(s.push('\n').drop_last() =~= s);
    assert(s.push('|').drop_last() =~= s);
    assert(escape_field(s) + seq![c] =~= escape_field(s).push(c));
    assert(escape_field(s) + Seq::<char>::empty() =~= escape_field(s));
}

/// A field without newlines and `|` is written as it is.
pub proof fn law_escape_field_keeps_plain_text(s: Seq<char>)
    requires
        !s.contains('\n'),
        !s.contains('|'),
    ensures
        escape_field(s) == s,
    decreases s.len(),
{
    if s.len() > 0 {
        let f = s.drop_last();
        assert(!f.contains('\n') && !f.contains('|')) by {
            if f.contains('\n') || f.contains('|') {
                let i = choose|i: int| 0 <= i < f.len() && (f[i] == '\n' || f[i] == '|');
                assert(s[i] == f[i]);
            }
        }
        law_escape_field_keeps_plain_text(f);
        assert(s.last() == s[s.len() - 1]);
        law_escape_field_step(f, s.last());
        assert(f.push(s.last()) =~= s);
    }
}

/// `find_from` finds the first occurrence at or after `i`, and finds nothing
/// exactly when there is none.
pub proof fn law_find_from_first(s: Seq<char>, pat: Seq<char>, i: int)
    requires
        0 <= i,
    ensures
        match find_from(s, pat, i) {
            Some(j) => i <= j && occurs_at(s, pat, j) && forall|k: int|
                i <= k < j ==> !#[trigger] occurs_at(s, pat, k),
            None => forall|k: int| i <= k ==> !#[trigger] occurs_at(s, pat, k),
        },
    decreases s.len() + 1 - i,
{
    if i + pat.len() <= s.len() && !occurs_at(s, pat, i) {
        law_find_from_first(s, pat, i + 1);
    }
}

/// The sound file of a card, when there is one, ends in `.wav` and stands
/// right after a `[sound:` in the HTML.
pub proof fn law_audio_follows_sound_mark(html: Seq<char>)
    ensures
        audio_of(html).len() > 0 ==> {
            &&& exists|i: int|
                #![trigger occurs_at(html, "[sound:"@, i)]
                occurs_at(html, "[sound:"@, i) && html.subrange(
                    i + "[sound:"@.len(),
                    i + "[sound:"@.len() + audio_of(html).len(),
                ) == audio_of(html)
            &&& audio_of(html).len() >= ".wav"@.len()
            &&& audio_of(html).subrange(
                audio_of(html).len() - ".wav"@.len(),
                audio_of(html).len() as int,
            ) == ".wav"@
        },
{
    law_find_from_first(html, "[sound:"@, 0);
    if let Some(i) = find_from(html, "[sound:"@, 0) {
        let start = i + "[sound:"@.len();
        law_find_from_first(html, ".wav"@, start);
        if let Some(j) = find_from(html, ".wav"@, start) {
            let a = html.subrange(start, j + ".wav"@.len());
            assert(html.subrange(start, start + a.len()) =~= a);
            assert(a.subrange(a.len() - ".wav"@.len(), a.len() as int) =~= html.subrange(
                j,
                j + ".wav"@.len(),
            ));
        }
    }
}

/// HTML without newlines, `|` and any `[sound:` makes the card line
/// `word|html|[sound:]` and a newline.
pub proof fn law_card_of_plain_html(word: Seq<char>, html: Seq<char>)
    requires
        !html.contains('\n'),
        !html.contains('|'),
        forall|i: int| !#[trigger] occurs_at(html, "[sound:"@, i),
    ensures
        card_of(word, html) == word + "|"@ + html + "|"@ + "[sound:"@ + "]\n"@,
{
    law_escape_field_keeps_plain_text(html);
    law_find_from_first(html, "[sound:"@, 0);
    assert(audio_of(html) =~= Seq::<char>::empty());
    assert(word + "|"@ + html + "|"@ + "[sound:"@ + Seq::<char>::empty() + "]\n"@ =~= word
        + "|"@ + html + "|"@ + "[sound:"@ + "]\n"@);
}

/// A card field holds neither a newline nor a `|`, so the fields of a card
/// line stay apart.
pub proof fn law_escaped_field_has_no_separator(s: Seq<char>)
    ensures
        !escape_field(s).contains('\n'),
        !escape_field(s).contains('|'),
    decreases s.len(),
{
    reveal_strlit("%7C");
    if s.len() > 0 {
        law_escaped_field_has_no_separator(s.drop_last());
        let a = escape_field(s.drop_last());
        let b = escape_char(s.last());
        assert forall|i: int| 0 <= i < a.len() + b.len() implies (a + b)[i] != '\n' && (a + b)[i]
            != '|' by {
            if i < a.len() {
                assert(a[i] != '\n' && a[i] != '|') by {
                    if a[i] == '\n' || a[i] == '|' {
                        assert(a.contains(a[i]));
                    }
                }
            }
        }
    }
}

} // verus!
