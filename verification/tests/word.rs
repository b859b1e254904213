use dsl_dict::markup::{render_definition, unclosed_commands};
use dsl_dict::word::Word;
use dsl_dict::Error;

fn html_of(w: &Word) -> String {
    match w.to_html() {
        Ok(h) => h,
        Err(e) => panic!("error: {}", e.to_string()),
    }
}

fn word_with(defs: &[&str]) -> Word {
    Word {
        name: "down".to_string(),
        alias: vec![],
        def: defs.iter().map(|d| d.to_string()).collect(),
    }
}

#[test]
fn to_html() {
    let word = Word {
        name: "down".to_string(),
        alias: vec![],
        def: vec![
            "[m2][ex][*]• [/*][/ex][ex[*]{{x}}The first lot of visitors has/have arrived.{{/x}} [/*][/ex]".to_owned(),
        ],
    };
    assert!(word.markup_is_well_formed());
    match word.to_html() {
        Ok(html) => {
            assert_eq!(
                html,
                "<div style=\"text-indent: 40px\">• The first lot of visitors has/have arrived. </div>"
            );
        }
        Err(e) => panic!("error: {}", e.to_string()),
    }
}

#[test]
fn to_html_plain_text_is_kept() {
    let w = word_with(&["hello world"]);
    assert_eq!(html_of(&w), "hello world</div>");
}

#[test]
fn to_html_each_definition_closed() {
    let w = word_with(&["one", "two"]);
    assert_eq!(html_of(&w), "one</div>two</div>");
}

#[test]
fn to_html_no_definitions() {
    let w = word_with(&[]);
    assert_eq!(html_of(&w), "");
}

#[test]
fn to_html_full_entry_line() {
    let w = word_with(&[
        "[m0][c darkgray] [/c][b][c red]throw[/c][/b] {{id=000044728}} [c orange]verb[/c] [p]BrE[/p] [s]z_throw__gb_1.wav[/s]",
    ]);
    assert_eq!(
        html_of(&w),
        "<div style=\"text-indent: 0px\"><span style=\"color: darkgray\"> </span><b><span style=\"color: red\">throw</span></b>  <span style=\"color: orange\">verb</span> <span style=\"color: green\">BrE</span> <span class=\"voice\">[sound:z_throw__gb_1.wav]</span></div>"
    );
}

#[test]
fn well_formed_rejects_bad_line() {
    let w = word_with(&["fine", "ends with \\"]);
    assert!(!w.markup_is_well_formed());
    let w = word_with(&["fine", "[b]ok[/b]"]);
    assert!(w.markup_is_well_formed());
}

#[test]
fn render_definition_escape() {
    assert_eq!(render_definition("\\[x\\]").unwrap(), "[x]");
    assert!(render_definition("abc\\").is_none());
}

#[test]
fn render_definition_slash() {
    assert_eq!(render_definition("a/b").unwrap(), "a/b");
    assert_eq!(render_definition("x/*]").unwrap(), "x]");
    assert_eq!(render_definition("/").unwrap(), "/");
}

#[test]
fn render_definition_braces() {
    assert_eq!(render_definition("{a}").unwrap(), "{a}");
    assert_eq!(render_definition("a{{b}}c").unwrap(), "ac");
    assert_eq!(render_definition("a{{b}c").unwrap(), "a{b}c");
    assert!(render_definition("a{{bc").is_none());
}

#[test]
fn render_definition_indent() {
    assert_eq!(render_definition("[m3]x").unwrap(), "<div style=\"text-indent: 60px\">x");
    assert_eq!(render_definition("[m+3]").unwrap(), "<div style=\"text-indent: 60px\">");
    assert_eq!(render_definition("[m]").unwrap(), "<div style=\"text-indent: 0px\">");
    assert_eq!(render_definition("[mx]y").unwrap(), "]y");
    assert_eq!(render_definition("[m4294967296]").unwrap(), "]");
    assert_eq!(
        render_definition("[m214748364]").unwrap(),
        "<div style=\"text-indent: 4294967280px\">"
    );
    assert!(render_definition("[m214748365]").is_none());
    assert_eq!(render_definition("[m1[b]").unwrap(), "<div style=\"text-indent: 20px\"><b>");
}

#[test]
fn render_definition_commands() {
    assert_eq!(render_definition("[c red]x[/c]").unwrap(), "<span style=\"color: red\">x</span>");
    assert_eq!(render_definition("[b]x[/b]").unwrap(), "<b>x</b>");
    assert_eq!(render_definition("[p]n[/p]").unwrap(), "<span style=\"color: green\">n</span>");
    assert_eq!(
        render_definition("[s]a.wav[/s]").unwrap(),
        "<span class=\"voice\">[sound:a.wav]</span>"
    );
    assert_eq!(render_definition("[i]x[/i]").unwrap(), "x");
    assert_eq!(render_definition("[/c]").unwrap(), "c]");
    assert_eq!(render_definition("[b]x[/c]y").unwrap(), "<b>xc]y");
    assert_eq!(render_definition("[").unwrap(), "");
    assert_eq!(render_definition("[c").unwrap(), "");
}

#[test]
fn error_text() {
    assert_eq!(Error::EOF.to_string(), "eof");
    assert_eq!(Error::UnknownErr("no such file".to_string()).to_string(), "no such file");
}

#[test]
fn unclosed_commands_after_line() {
    assert_eq!(unclosed_commands("[b]x[/b]").unwrap(), Vec::<String>::new());
    assert_eq!(unclosed_commands("[c red][b]x").unwrap(), vec!["c".to_string(), "b".to_string()]);
    assert_eq!(
        unclosed_commands("[m2][ex][*]• [/*][/ex][ex[*]{{x}}text{{/x}} [/*]").unwrap(),
        vec!["ex".to_string()]
    );
    assert_eq!(unclosed_commands("[b]x[/c]y").unwrap(), vec!["b".to_string()]);
    assert_eq!(unclosed_commands("[b]\\\\").unwrap(), vec!["b".to_string()]);
    assert!(unclosed_commands("[b]x\\").is_none());
    assert!(unclosed_commands("{{no end").is_none());
}
