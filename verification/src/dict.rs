//! A dictionary in DSL format: its entries and how its lines are read into them.
//!
//! A DSL file is a sequence of lines. A line that starts with `#` is a header
//! line; one that starts with a tab is a definition of the current entry; any
//! other line is a headword. The first headword names an entry, headwords that
//! follow it before any definition are its alternative spellings, and a
//! headword after definitions starts the next entry.
use vstd::prelude::*;
use vstd::hash_map::StringHashMap;

use crate::word::{empty_word, texts, Word, WordModel};

verus! {

/// A dictionary that can be asked for a word.
pub trait Dict {
    /// The entry for `word`, as text, if the dictionary has one.
    fn lookup(word: &str) -> Option<String>;
}

/// What a line of a DSL file turned out to be.
#[derive(Debug, Clone, Copy, PartialEq, Eq, Structural)]
pub enum LineKind {
    /// A header line (`#...`); it changes nothing.
    Comment,
    /// A definition line (tab first) while no entry is open; it is dropped.
    OrphanDefinition,
    /// A definition line added to the open entry.
    Definition,
    /// A headword that names the open entry or starts a new one.
    Headword,
    /// A headword added to the open entry as an alternative spelling.
    Alias,
}

/// Whether `line` begins with `c`.
pub open spec fn starts_with(line: Seq<char>, c: char) -> bool {
    line.len() > 0 && line[0] == c
}

/// The entries read so far and the entry still being built.
pub struct ParseState {
    pub entries: Map<Seq<char>, WordModel>,
    pub word: WordModel,
}

/// What a line is, given the entry being built.
pub open spec fn line_kind(word: WordModel, line: Seq<char>) -> LineKind {
    if starts_with(line, '#') {
        LineKind::Comment
    } else if starts_with(line, '\t') {
        if word.name.len() == 0 {
            LineKind::OrphanDefinition
        } else {
            LineKind::Definition
        }
    } else if word.name.len() == 0 || word.def.len() > 0 {
        LineKind::Headword
    } else {
        LineKind::Alias
    }
}

/// Reading one line. A headword that follows definitions stores the entry
/// being built under its name (replacing any entry of that name) and starts a
/// new entry with that headword.
pub open spec fn parse_step(st: ParseState, line: Seq<char>) -> ParseState {
    let w = st.word;
    if starts_with(line, '#') {
        st
    } else if starts_with(line, '\t') {
        if w.name.len() == 0 {
            st
        } else {
            ParseState { word: WordModel { def: w.def.push(line), ..w }, ..st }
        }
    } else if w.name.len() == 0 {
        ParseState { word: WordModel { name: line, ..w }, ..st }
    } else if w.def.len() > 0 {
        ParseState {
            entries: st.entries.insert(w.name, w),
            word: WordModel { name: line, ..empty_word() },
        }
    } else {
        ParseState { word: WordModel { alias: w.alias.push(line), ..w }, ..st }
    }
}

/// Reading the lines one after the other.
pub open spec fn parse_all(st: ParseState, lines: Seq<Seq<char>>) -> ParseState
    decreases lines.len(),
{
    if lines.len() == 0 {
        st
    } else {
        parse_step(parse_all(st, lines.drop_last()), lines.last())
    }
}

/// What each of the lines turned out to be.
pub open spec fn kinds_all(st: ParseState, lines: Seq<Seq<char>>) -> Seq<LineKind>
    decreases lines.len(),
{
    if lines.len() == 0 {
        Seq::empty()
    } else {
        kinds_all(st, lines.drop_last()).push(
            line_kind(parse_all(st, lines.drop_last()).word, lines.last()),
        )
    }
}

/// Whether `line` can be a headword: it starts with neither `#` nor a tab.
pub open spec fn is_headword_line(line: Seq<char>) -> bool {
    !starts_with(line, '#') && !starts_with(line, '\t')
}

/// Whether every definition line starts with a tab.
pub open spec fn defs_wf(defs: Seq<Seq<char>>) -> bool {
    forall|i: int| 0 <= i < defs.len() ==> starts_with(#[trigger] defs[i], '\t')
}

/// The entry being built is named by a headword line (or not yet named), and
/// its definitions are definition lines.
pub open spec fn word_wf(w: WordModel) -> bool {
    is_headword_line(w.name) && defs_wf(w.def)
}

/// Every stored entry is stored under its own headword, which is a non-empty
/// headword line, and has at least one definition, each a definition line.
pub open spec fn entries_wf(entries: Map<Seq<char>, WordModel>) -> bool {
    forall|k: Seq<char>|
        #[trigger] entries.contains_key(k) ==> {
            &&& entries[k].name == k
            &&& k.len() > 0
            &&& is_headword_line(k)
            &&& entries[k].def.len() > 0
            &&& defs_wf(entries[k].def)
        }
}

/// A dictionary read from a DSL file.
pub struct DslDict {
    file: String,
    words: StringHashMap<Word>,
}

impl DslDict {
    /// The path of the file that the dictionary is read from.
    pub closed spec fn path(&self) -> Seq<char> {
        self.file@
    }

    /// The stored entries, by headword.
    pub closed spec fn entries(&self) -> Map<Seq<char>, WordModel> {
        self.words@.map_values(|w: Word| w@)
    }

    /// An empty dictionary for the file at `file`.
    pub fn new(file: &str) -> (d: DslDict)
        ensures
            d.path() == file@,
            d.entries() == Map::<Seq<char>, WordModel>::empty(),
            entries_wf(d.entries()),
    {
        let d = DslDict { file: file.to_owned(), words: StringHashMap::new() };
        assert(d.entries() =~= Map::<Seq<char>, WordModel>::empty());
        d
    }

    /// The path of the file that the dictionary is read from.
    pub fn file(&self) -> (f: &str)
        ensures
            f@ == self.path(),
    {
        self.file.as_str()
    }

    /// The entry stored under the headword `p0`.
    pub fn query(&self, p0: &str) -> (r: Option<&Word>)
        ensures
            match r {
                Some(w) => self.entries().contains_key(p0@) && w@ == self.entries()[p0@],
                None => !self.entries().contains_key(p0@),
            },
    {
        self.words.get(p0)
    }

    /// Reads one line of the file, with `word` the entry being built.
    pub fn parse_line(&mut self, word: &mut Word, line: String) -> (k: LineKind)
        ensures
            k == line_kind(old(word)@, line@),
            (ParseState { entries: final(self).entries(), word: final(word)@ }) == parse_step(
                ParseState { entries: old(self).entries(), word: old(word)@ },
                line@,
            ),
            final(self).path() == old(self).path(),
    {
        let ghost st = ParseState { entries: self.entries(), word: word@ };
        let ghost line_v = line@;
        let first = if line.as_str().is_empty() {
            None
        } else {
            Some(line.as_str().get_char(0))
        };
        assert(first == Some('#') <==> starts_with(line_v, '#'));
        assert(first == Some('\t') <==> starts_with(line_v, '\t'));
        if first == Some('#') {
            LineKind::Comment
        } else if first == Some('\t') {
            if word.name.as_str().is_empty() {
                LineKind::OrphanDefinition
            } else {
                let ghost old_defs = word.def@;
                word.def.push(line);
                assert(texts(word.def@) =~= texts(old_defs).push(line_v));
                LineKind::Definition
            }
        } else if word.name.as_str().is_empty() {
            word.name = line;
            LineKind::Headword
        } else if word.def.len() > 0 {
            let mut stored = Word::default();
            std::mem::swap(word, &mut stored);
            let key = stored.name.clone();
            let ghost stored_v = stored@;
            self.words.insert(key, stored);
            word.name = line;
            assert(self.entries() =~= st.entries.insert(st.word.name, stored_v));
            LineKind::Headword
        } else {
            let ghost old_alias = word.alias@;
            word.alias.push(line);
            assert(texts(word.alias@) =~= texts(old_alias).push(line_v));
            LineKind::Alias
        }
    }

    /// Reads the lines of the file in order, starting with no entry open, and
    /// tells what each line was. The entry still open after the last line is
    /// not stored.
    pub fn parse_lines(&mut self, lines: &Vec<String>) -> (kinds: Vec<LineKind>)
        ensures
            final(self).entries() == parse_all(
                ParseState { entries: old(self).entries(), word: empty_word() },
                texts(lines@),
            ).entries,
            kinds@ == kinds_all(
                ParseState { entries: old(self).entries(), word: empty_word() },
                texts(lines@),
            ),
            final(self).path() == old(self).path(),
            entries_wf(old(self).entries()) ==> entries_wf(final(self).entries()),
    {
        let ghost st0 = ParseState { entries: self.entries(), word: empty_word() };
        proof {
            if entries_wf(st0.entries) {
                law_parse_all_keeps_entries_wf(st0.entries, texts(lines@));
            }
        }
        let ghost all = texts(lines@);
        let mut word = Word::default();
        let mut kinds: Vec<LineKind> = Vec::new();
        let n = lines.len();
        for i in 0..n
            invariant
                n == lines@.len(),
                all == texts(lines@),
                (ParseState { entries: self.entries(), word: word@ }) == parse_all(
                    st0,
                    all.take(i as int),
                ),
                kinds@ == kinds_all(st0, all.take(i as int)),
                self.path() == old(self).path(),
        {
            assert(all.take(i + 1).drop_last() =~= all.take(i as int));
            assert(all.take(i + 1).last() == lines@[i as int]@);
            let k = self.parse_line(&mut word, lines[i].clone());
            kinds.push(k);
        }
        assert(all.take(n as int) =~= all);
        kinds
    }
}

/// Reading a line keeps every stored entry under its own non-empty headword,
/// with at least one definition, every definition starting with a tab.
pub proof fn law_parse_step_keeps_entries_wf(st: ParseState, line: Seq<char>)
    requires
        entries_wf(st.entries),
        word_wf(st.word),
    ensures
        entries_wf(parse_step(st, line).entries),
        word_wf(parse_step(st, line).word),
{
    let w = st.word;
    if !starts_with(line, '#') && starts_with(line, '\t') && w.name.len() != 0 {
        let defs = w.def.push(line);
        assert forall|i: int| 0 <= i < defs.len() implies starts_with(#[trigger] defs[i], '\t') by {
            if i < w.def.len() {
                assert(defs[i] == w.def[i]);
            }
        }
    } else if !starts_with(line, '#') && !starts_with(line, '\t') && w.name.len() != 0
        && w.def.len() > 0 {
        assert(defs_wf(empty_word().def));
    }
}

/// Reading any lines, starting with no entry open, keeps every stored entry
/// under its own non-empty headword, which starts with neither `#` nor a tab,
/// with at least one definition, every definition starting with a tab.
pub proof fn law_parse_all_keeps_entries_wf(entries: Map<Seq<char>, WordModel>, lines: Seq<Seq<char>>)
    requires
        entries_wf(entries),
    ensures
        entries_wf(parse_all(ParseState { entries: entries, word: empty_word() }, lines).entries),
{
    lemma_parse_all_wf(ParseState { entries: entries, word: empty_word() }, lines);
}

proof fn lemma_parse_all_wf(st: ParseState, lines: Seq<Seq<char>>)
    requires
        entries_wf(st.entries),
        word_wf(st.word),
    ensures
        entries_wf(parse_all(st, lines).entries),
        word_wf(parse_all(st, lines).word),
    decreases lines.len(),
{
    if lines.len() > 0 {
        lemma_parse_all_wf(st, lines.drop_last());
        law_parse_step_keeps_entries_wf(parse_all(st, lines.drop_last()), lines.last());
    }
}

/// What reading lines stores does not depend on the entries already there:
/// it is what reading them into an empty dictionary stores, laid over them.
proof fn lemma_parse_all_overlays(st: ParseState, lines: Seq<Seq<char>>)
    ensures
        ({
            let fresh = parse_all(ParseState { entries: Map::empty(), word: st.word }, lines);
            &&& parse_all(st, lines).word == fresh.word
            &&& parse_all(st, lines).entries == st.entries.union_prefer_right(fresh.entries)
        }),
    decreases lines.len(),
{
    if lines.len() == 0 {
        assert(st.entries.union_prefer_right(Map::empty()) =~= st.entries);
    } else {
        let front = lines.drop_last();
        lemma_parse_all_overlays(st, front);
        let a = parse_all(st, front);
        let b = parse_all(ParseState { entries: Map::empty(), word: st.word }, front);
        let w = a.word;
        let line = lines.last();
        if !starts_with(line, '#') && !starts_with(line, '\t') && w.name.len() != 0
            && w.def.len() > 0 {
            assert(a.entries.insert(w.name, w) =~= st.entries.union_prefer_right(
                b.entries.insert(w.name, w),
            ));
        }
    }
}

/// Reading the same lines a second time, starting with no entry open, leaves
/// the entries as the first reading left them.
pub proof fn law_parse_twice_same_entries(entries: Map<Seq<char>, WordModel>, lines: Seq<Seq<char>>)
    ensures
        ({
            let once = parse_all(ParseState { entries: entries, word: empty_word() }, lines).entries;
            parse_all(ParseState { entries: once, word: empty_word() }, lines).entries == once
        }),
{
    let st1 = ParseState { entries: entries, word: empty_word() };
    let fresh = parse_all(ParseState { entries: Map::empty(), word: empty_word() }, lines);
    lemma_parse_all_overlays(st1, lines);
    let once = parse_all(st1, lines).entries;
    let st2 = ParseState { entries: once, word: empty_word() };
    lemma_parse_all_overlays(st2, lines);
    assert(once.union_prefer_right(fresh.entries) =~= once);
}

/// What a line does to the entry being built, by what it is: a header line
/// changes nothing; a definition line joins the definitions of a named entry
/// and is dropped while no entry is named; a headword names an unnamed entry,
/// joins the spellings of a named entry without definitions, and otherwise
/// starts a new entry. Only that last case stores anything.
pub proof fn law_line_roles(st: ParseState, line: Seq<char>)
    ensures
        starts_with(line, '#') ==> parse_step(st, line) == st,
        starts_with(line, '\t') && st.word.name.len() == 0 ==> parse_step(st, line) == st,
        starts_with(line, '\t') && st.word.name.len() > 0 ==> parse_step(st, line) == (ParseState {
            entries: st.entries,
            word: WordModel { name: st.word.name, alias: st.word.alias, def: st.word.def.push(line) },
        }),
        is_headword_line(line) && st.word.name.len() == 0 ==> parse_step(st, line) == (ParseState {
            entries: st.entries,
            word: WordModel { name: line, alias: st.word.alias, def: st.word.def },
        }),
        is_headword_line(line) && st.word.name.len() > 0 && st.word.def.len() == 0 ==> parse_step(
            st,
            line,
        ) == (ParseState {
            entries: st.entries,
            word: WordModel { name: st.word.name, alias: st.word.alias.push(line), def: st.word.def },
        }),
        !(is_headword_line(line) && st.word.name.len() > 0 && st.word.def.len() > 0) ==> parse_step(
            st,
            line,
        ).entries == st.entries,
{
}

/// A headword that follows definitions stores the entry being built, which a
/// lookup of its headword then finds, and opens a new entry named by the line.
pub proof fn law_headword_stores_entry(st: ParseState, line: Seq<char>)
    requires
        !starts_with(line, '#'),
        !starts_with(line, '\t'),
        st.word.name.len() > 0,
        st.word.def.len() > 0,
    ensures
        parse_step(st, line).entries.contains_key(st.word.name),
        parse_step(st, line).entries[st.word.name] == st.word,
        parse_step(st, line).word == (WordModel { name: line, ..empty_word() }),
{
}

/// Header lines can be added anywhere in a file without changing what is
/// read from it.
pub proof fn law_comment_lines_ignored(st: ParseState, lines: Seq<Seq<char>>, i: int, c: Seq<char>)
    requires
        0 <= i <= lines.len(),
        starts_with(c, '#'),
    ensures
        parse_all(st, lines.insert(i, c)) == parse_all(st, lines),
    decreases lines.len(),
{
    let ins = lines.insert(i, c);
    if i == lines.len() {
        assert(ins.drop_last() =~= lines);
    } else {
        assert(ins.drop_last() =~= lines.drop_last().insert(i, c));
        assert(ins.last() == lines.last());
        law_comment_lines_ignored(st, lines.drop_last(), i, c);
    }
}

} // verus!
