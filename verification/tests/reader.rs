use dsl_dict::reader::{BufReader, ReadStep, CHUNK_BYTES};

fn utf16le(s: &str) -> Vec<u8> {
    s.encode_utf16().flat_map(|u| u.to_le_bytes()).collect()
}

#[test]
fn new_reader_has_nothing_waiting() {
    let mut r = BufReader::new();
    assert_eq!(r.take_line(), None);
}

#[test]
fn feed_returns_line_with_its_newline() {
    let mut r = BufReader::new();
    assert_eq!(r.take_line(), None);
    assert_eq!(r.feed(&utf16le("ab\ncd\nef")), Some("ab\n".to_string()));
    assert_eq!(r.take_line(), Some("cd".to_string()));
    assert_eq!(r.take_line(), None);
    assert_eq!(r.feed(&utf16le("g\nh")), Some("efg\n".to_string()));
    assert_eq!(r.take_line(), None);
    assert_eq!(r.feed(&[]), None);
}

#[test]
fn feed_without_newline_keeps_start_of_line() {
    let mut r = BufReader::new();
    assert_eq!(r.take_line(), None);
    assert_eq!(r.feed(&utf16le("abc")), None);
    assert_eq!(r.feed(&utf16le("de")), None);
    assert_eq!(r.feed(&utf16le("f\n")), Some("abcdef\n".to_string()));
    assert_eq!(r.take_line(), None);
}

#[test]
fn feed_ignores_odd_last_byte() {
    let mut r = BufReader::new();
    assert_eq!(r.take_line(), None);
    assert_eq!(r.feed(&[0x61, 0x00, 0x0a]), None);
    assert_eq!(r.feed(&[0x0a, 0x00]), Some("a\n".to_string()));
}

#[test]
fn feed_decodes_non_ascii_and_bad_units() {
    let mut r = BufReader::new();
    assert_eq!(r.take_line(), None);
    assert_eq!(r.feed(&utf16le("θrəʊ\n")), Some("θrəʊ\n".to_string()));
    assert_eq!(r.take_line(), None);
    // a lone high surrogate decodes to U+FFFD
    assert_eq!(r.feed(&[0x00, 0xd8, 0x0a, 0x00]), Some("\u{fffd}\n".to_string()));
}

#[test]
fn take_line_consumes_every_waiting_line() {
    let mut r = BufReader::new();
    assert_eq!(r.take_line(), None);
    assert_eq!(r.feed(&utf16le("x\n\n\ny\nz")), Some("x\n".to_string()));
    assert_eq!(r.take_line(), Some("".to_string()));
    assert_eq!(r.take_line(), Some("".to_string()));
    assert_eq!(r.take_line(), Some("y".to_string()));
    assert_eq!(r.take_line(), None);
    assert_eq!(r.feed(&utf16le("\n")), Some("z\n".to_string()));
}

#[test]
fn full_chunk_is_accepted() {
    let mut r = BufReader::new();
    assert_eq!(r.take_line(), None);
    let mut text = "a".repeat(CHUNK_BYTES / 2 - 1);
    text.push('\n');
    let bytes = utf16le(&text);
    assert_eq!(bytes.len(), CHUNK_BYTES);
    assert_eq!(r.feed(&bytes), Some(text));
    assert_eq!(r.take_line(), None);
}

#[test]
fn feed_decodes_surrogate_pairs() {
    let mut r = BufReader::new();
    assert_eq!(r.take_line(), None);
    // U+1F600 as a surrogate pair, then a low surrogate on its own
    assert_eq!(
        r.feed(&[0x3d, 0xd8, 0x00, 0xde, 0x00, 0xdc, 0x0a, 0x00]),
        Some("\u{1f600}\u{fffd}\n".to_string())
    );
    assert_eq!(r.take_line(), None);
    // a high surrogate followed by an ordinary unit
    assert_eq!(r.feed(&[0x00, 0xd8, 0x41, 0x00, 0x0a, 0x00]), Some("\u{fffd}A\n".to_string()));
}

#[test]
fn read_steps_end_of_stream() {
    let mut r = BufReader::new();
    assert_eq!(r.begin_line(), ReadStep::ReadChunk);
    assert_eq!(r.chunk_read(&utf16le("ab")), ReadStep::ReadChunk);
    assert_eq!(r.chunk_read(&[]), ReadStep::EndOfStream);
}

#[test]
fn read_steps_odd_chunk_waits_for_one_byte() {
    let mut r = BufReader::new();
    assert_eq!(r.begin_line(), ReadStep::ReadChunk);
    assert_eq!(r.chunk_read(&[0x61, 0x00, 0x0a]), ReadStep::ReadOneByte);
    assert_eq!(r.byte_read(Some(0x00)), ReadStep::Line("a\n".to_string()));
    assert_eq!(r.begin_line(), ReadStep::ReadChunk);
    assert_eq!(r.chunk_read(&[0x62, 0x00, 0x63]), ReadStep::ReadOneByte);
    assert_eq!(r.byte_read(None), ReadStep::ReadChunk);
    assert_eq!(r.chunk_read(&utf16le("d\ne\n")), ReadStep::Line("bd\n".to_string()));
    assert_eq!(r.begin_line(), ReadStep::Line("e".to_string()));
    assert_eq!(r.begin_line(), ReadStep::ReadChunk);
}

#[test]
fn stream_in_small_chunks_yields_all_units() {
    let text = "alpha\nbeta\n\ngamma delta\nend\n";
    let bytes = utf16le(text);
    let mut r = BufReader::new();
    let mut rest: &[u8] = &bytes;
    let mut joined = String::new();
    'lines: loop {
        let mut step = r.begin_line();
        loop {
            match step {
                ReadStep::Line(l) => {
                    joined.push_str(&l);
                    if !l.ends_with('\n') {
                        joined.push('\n');
                    }
                    continue 'lines;
                }
                ReadStep::EndOfStream => break 'lines,
                ReadStep::ReadChunk => {
                    let n = rest.len().min(6);
                    let (chunk, tail) = rest.split_at(n);
                    rest = tail;
                    step = r.chunk_read(chunk);
                }
                ReadStep::ReadOneByte => unreachable!(),
            }
        }
    }
    assert_eq!(joined, text);
}
