use dsl_dict::reader::{BufReader, CHUNK_BYTES};
use dsl_dict::word::Word;
use dsl_dict::{DslDict, LineKind};

fn utf16le(s: &str) -> Vec<u8> {
    s.encode_utf16().flat_map(|u| u.to_le_bytes()).collect()
}

/// Reads all complete lines of a UTF-16LE stream, as a file would deliver it.
fn read_lines(bytes: &[u8]) -> Vec<String> {
    let mut reader = BufReader::new();
    let mut lines = vec![];
    let mut rest = bytes;
    'outer: loop {
        if let Some(l) = reader.take_line() {
            lines.push(l);
            continue;
        }
        loop {
            if rest.is_empty() {
                break 'outer;
            }
            let n = rest.len().min(CHUNK_BYTES);
            let (chunk, r) = rest.split_at(n);
            rest = r;
            if let Some(l) = reader.feed(chunk) {
                lines.push(l);
                break;
            }
        }
    }
    lines
}

fn strings(v: &[&str]) -> Vec<String> {
    v.iter().map(|s| s.to_string()).collect()
}

const SAMPLE: &str = "#NAME\t\"Sample\"\n#INDEX_LANGUAGE\t\"English\"\n\nexecrate\n\t[m1]to hate very much[/m]\n\t[m1]to curse[/m]\nexecute\nexecuted\n\t[m1]to kill[/m]\n";

#[test]
fn mod_parse_test() {
    let mut dict = DslDict::new("a.dsl");
    let lines = read_lines(&utf16le(SAMPLE));
    let kinds = dict.parse_lines(&lines);
    assert_eq!(kinds.len(), lines.len());

    let word = dict.query("execrate");
    assert!(word.is_some());
    let word = word.unwrap();
    for i in &word.def {
        println!("{}", i);
    }
    assert_eq!(word.def, strings(&["\t[m1]to hate very much[/m]", "\t[m1]to curse[/m]"]));
}

#[test]
fn parse_lines_kinds() {
    let mut dict = DslDict::new("a.dsl");
    let lines = read_lines(&utf16le(SAMPLE));
    assert_eq!(lines[0], "#NAME\t\"Sample\"\n");
    let kinds = dict.parse_lines(&lines);
    assert_eq!(
        kinds,
        vec![
            LineKind::Comment,
            LineKind::Comment,
            LineKind::Headword,
            LineKind::Headword,
            LineKind::Definition,
            LineKind::Definition,
            LineKind::Headword,
            LineKind::Alias,
            LineKind::Definition,
        ]
    );
    // the entry still open after the last line is not stored
    assert!(dict.query("execute").is_none());
    assert!(dict.query("execrate").is_some());
}

#[test]
fn new_dict_is_empty() {
    let dict = DslDict::new("dicts/a.dsl");
    assert_eq!(dict.file(), "dicts/a.dsl");
    assert!(dict.query("anything").is_none());
}

#[test]
fn parse_line_steps() {
    let mut dict = DslDict::new("x.dsl");
    let mut word = Word::default();
    assert_eq!(dict.parse_line(&mut word, "#header".to_string()), LineKind::Comment);
    assert_eq!(dict.parse_line(&mut word, "\torphan".to_string()), LineKind::OrphanDefinition);
    assert_eq!(word.name, "");
    assert!(word.def.is_empty());
    assert_eq!(dict.parse_line(&mut word, "cat".to_string()), LineKind::Headword);
    assert_eq!(dict.parse_line(&mut word, "kitty".to_string()), LineKind::Alias);
    assert_eq!(dict.parse_line(&mut word, "\ta pet".to_string()), LineKind::Definition);
    assert_eq!(word.name, "cat");
    assert_eq!(word.alias, strings(&["kitty"]));
    assert_eq!(word.def, strings(&["\ta pet"]));
    assert!(dict.query("cat").is_none());
    assert_eq!(dict.parse_line(&mut word, "dog".to_string()), LineKind::Headword);
    let cat = dict.query("cat").unwrap();
    assert_eq!(cat.name, "cat");
    assert_eq!(cat.alias, strings(&["kitty"]));
    assert_eq!(cat.def, strings(&["\ta pet"]));
    assert_eq!(word.name, "dog");
    assert!(word.alias.is_empty());
    assert!(word.def.is_empty());
}

#[test]
fn later_entry_replaces_earlier_one() {
    let mut dict = DslDict::new("x.dsl");
    dict.parse_lines(&strings(&["cat", "\tfirst", "cat", "\tsecond", "end"]));
    assert_eq!(dict.query("cat").unwrap().def, strings(&["\tsecond"]));
}

#[test]
fn comment_lines_change_nothing() {
    let plain = strings(&["cat", "\ta pet", "dog", "\tanother", "end"]);
    let with_comments = strings(&["#a", "cat", "#b", "\ta pet", "dog", "#c", "\tanother", "end", "#d"]);
    let mut d1 = DslDict::new("x.dsl");
    let mut d2 = DslDict::new("x.dsl");
    d1.parse_lines(&plain);
    d2.parse_lines(&with_comments);
    for key in ["cat", "dog", "end"] {
        let a = d1.query(key).map(|w| (w.name.clone(), w.alias.clone(), w.def.clone()));
        let b = d2.query(key).map(|w| (w.name.clone(), w.alias.clone(), w.def.clone()));
        assert_eq!(a, b);
    }
    assert!(d1.query("cat").is_some() && d1.query("dog").is_some());
}

#[test]
fn stored_entries_have_definitions() {
    let mut dict = DslDict::new("x.dsl");
    dict.parse_lines(&strings(&["a", "b", "c", "\tdef", "d", "\tdef2", "e"]));
    let a = dict.query("a").unwrap();
    assert_eq!(a.name, "a");
    assert_eq!(a.alias, strings(&["b", "c"]));
    assert_eq!(a.def, strings(&["\tdef"]));
    assert!(dict.query("b").is_none());
    assert!(dict.query("c").is_none());
    let d = dict.query("d").unwrap();
    assert_eq!(d.name, "d");
    assert_eq!(d.def, strings(&["\tdef2"]));
    assert!(dict.query("e").is_none());
}

#[test]
fn parsing_same_lines_twice_keeps_entries() {
    let lines = strings(&["cat", "\tfirst", "cat", "\tsecond", "dog", "\tbarks", "end"]);
    let mut once = DslDict::new("x.dsl");
    once.parse_lines(&lines);
    let mut twice = DslDict::new("x.dsl");
    twice.parse_lines(&lines);
    twice.parse_lines(&lines);
    for key in ["cat", "dog", "end"] {
        let a = once.query(key).map(|w| (w.name.clone(), w.alias.clone(), w.def.clone()));
        let b = twice.query(key).map(|w| (w.name.clone(), w.alias.clone(), w.def.clone()));
        assert_eq!(a, b);
    }
}

#[test]
fn stored_keys_are_headword_lines() {
    let mut dict = DslDict::new("x.dsl");
    dict.parse_lines(&strings(&["", "\tlost", "#c", "", "a", "\tdef", "", "\tlost too", "b", "\tx", "c"]));
    assert!(dict.query("").is_none());
    assert!(dict.query("#c").is_none());
    assert!(dict.query("\tlost").is_none());
    let a = dict.query("a").unwrap();
    assert!(a.def.iter().all(|d| d.starts_with('\t')));
    assert_eq!(a.def, strings(&["\tdef"]));
    let b = dict.query("b").unwrap();
    assert_eq!(b.def, strings(&["\tx"]));
}
