use dsl_dict::card::{card_line, escape_html, find_audio, lookup, vocabulary_word};
use dsl_dict::DslDict;

fn strings(v: &[&str]) -> Vec<String> {
    v.iter().map(|s| s.to_string()).collect()
}

#[test]
fn escape_html_drops_newlines_and_escapes_bars() {
    assert_eq!(escape_html("a|b\nc"), "a%7Cbc");
    assert_eq!(escape_html(""), "");
    assert_eq!(escape_html("||\n\n"), "%7C%7C");
    assert_eq!(escape_html("plain"), "plain");
}

#[test]
fn find_audio_takes_first_sound_file() {
    assert_eq!(
        find_audio("<span class=\"voice\">[sound:z_throw__gb_1.wav]</span> [sound:b.wav]"),
        "z_throw__gb_1.wav"
    );
    assert_eq!(find_audio("no sound here"), "");
    assert_eq!(find_audio("[sound:a.mp3]"), "");
    assert_eq!(find_audio("x.wav [sound:a.mp3] b.wav"), "a.mp3] b.wav");
}

#[test]
fn card_line_has_three_fields() {
    let html = "<div>|throw|</div>\n<span class=\"voice\">[sound:t.wav]</span>";
    assert_eq!(
        card_line("throw", html),
        "throw|<div>%7Cthrow%7C</div><span class=\"voice\">[sound:t.wav]</span>|[sound:t.wav]\n"
    );
    assert_eq!(card_line("w", ""), "w||[sound:]\n");
}

#[test]
fn vocabulary_word_trims() {
    assert_eq!(vocabulary_word("  throw \r\n"), Some("throw"));
    assert_eq!(vocabulary_word("\u{3000}a b\u{a0}"), Some("a b"));
    assert_eq!(vocabulary_word(" \t\n"), None);
    assert_eq!(vocabulary_word(""), None);
}

#[test]
fn lookup_uses_first_dictionary_with_entry() {
    let mut d1 = DslDict::new("one.dsl");
    d1.parse_lines(&strings(&["cat", "\tfrom one", "end"]));
    let mut d2 = DslDict::new("two.dsl");
    d2.parse_lines(&strings(&["cat", "\tfrom two", "dog", "\tbarks", "end"]));
    let dicts = vec![d1, d2];
    assert_eq!(lookup(&dicts, "cat").unwrap().def, strings(&["\tfrom one"]));
    assert_eq!(lookup(&dicts, "dog").unwrap().def, strings(&["\tbarks"]));
    assert!(lookup(&dicts, "bird").is_none());
    assert!(lookup(&vec![], "cat").is_none());
}
