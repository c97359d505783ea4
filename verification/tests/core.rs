use textutils::decimal::{push_column, push_decimal};
use textutils::decode::{decode_lossy, decode_step};
use textutils::lines::{line_end, text_line_end};
use textutils::report::{push_diagnostic, Report};
use textutils::source::{resolve, ByteStream, OpenError, ReadError, SourceKind};
use textutils::text::{chars_of, push_chars};
use textutils::words::{count_words, is_space};

fn text_of(chars: &[char]) -> String {
    chars.iter().collect()
}

#[test]
fn decode_lossy_agrees_with_std_on_valid_text() {
    for text in ["", "plain", "héllo wörld", "日本語", "😀 emoji 😀", "\u{0}\u{7F}\u{80}\u{7FF}\u{800}\u{FFFF}\u{10000}\u{10FFFF}"] {
        let chars = decode_lossy(text.as_bytes());
        assert_eq!(chars, text.chars().collect::<Vec<char>>());
    }
}

#[test]
fn decode_lossy_agrees_with_std_on_malformed_bytes() {
    let samples: Vec<Vec<u8>> = vec![
        vec![0x80],
        vec![0xBF, b'a'],
        vec![0xC0, 0x80],
        vec![0xC1, 0xBF],
        vec![0xC2],
        vec![0xC2, b'a'],
        vec![0xE0, 0x80, 0x80],
        vec![0xE0, 0x9F, 0xBF],
        vec![0xE0, 0xA0],
        vec![0xE2, 0x82],
        vec![0xE2, 0x82, b'a'],
        vec![0xE2, b'a'],
        vec![0xED, 0xA0, 0x80],
        vec![0xED, 0x9F, 0xBF],
        vec![0xED, 0xBF, 0xBF],
        vec![0xEF, 0xBF, 0xBD],
        vec![0xF0, 0x80, 0x80, 0x80],
        vec![0xF0, 0x8F, 0xBF, 0xBF],
        vec![0xF0, 0x90, 0x80],
        vec![0xF0, 0x9F, 0x98],
        vec![0xF0, 0x9F, 0x98, b'a'],
        vec![0xF0, 0x9F, b'a'],
        vec![0xF0, b'a'],
        vec![0xF4, 0x8F, 0xBF, 0xBF],
        vec![0xF4, 0x90, 0x80, 0x80],
        vec![0xF5, 0x80, 0x80, 0x80],
        vec![0xF8, 0x88, 0x80, 0x80, 0x80],
        vec![0xFE],
        vec![0xFF, 0xFF],
        vec![b'a', 0xE2, 0x82, 0xE2, 0x82, 0xAC, 0xF0, 0x9F, 0xC3, 0xA9, 0x80],
        (0u8..=255).collect(),
        (0u8..=255).rev().collect(),
    ];
    for data in samples {
        let chars = decode_lossy(&data);
        assert_eq!(text_of(&chars), String::from_utf8_lossy(&data), "bytes {:?}", data);
        assert!(chars.len() <= data.len());
    }
}

#[test]
fn decode_lossy_agrees_with_std_on_all_pairs_after_a_lead() {
    for lead in [0xC2u8, 0xDF, 0xE0, 0xE1, 0xEC, 0xED, 0xEE, 0xEF, 0xF0, 0xF1, 0xF3, 0xF4] {
        for second in 0u8..=255 {
            for third in [0x00u8, 0x7F, 0x80, 0xBF, 0xC0] {
                let data = vec![lead, second, third, 0x80, b'z'];
                let chars = decode_lossy(&data);
                assert_eq!(text_of(&chars), String::from_utf8_lossy(&data), "bytes {:?}", data);
            }
        }
    }
}

#[test]
fn decode_step_takes_one_sequence() {
    let data = "a€".as_bytes();
    assert_eq!(decode_step(data, 0), ('a', 1));
    assert_eq!(decode_step(data, 1), ('€', 4));
    assert_eq!(decode_step(&[0xE2, 0x82], 0), ('\u{FFFD}', 2));
    assert_eq!(decode_step(&[0xFF, 0x41], 0), ('\u{FFFD}', 1));
}

#[test]
fn is_space_agrees_with_std_on_every_character() {
    for u in 0u32..=0x10FFFF {
        if let Some(c) = char::from_u32(u) {
            assert_eq!(is_space(c), c.is_whitespace(), "U+{:04X}", u);
        }
    }
}

#[test]
fn count_words_agrees_with_std() {
    for text in ["", " ", "a", " a ", "a b", "a  b\t\tc\n", "\u{3000}x\u{2003}y", "tab\tsep\r\nline"] {
        let chars: Vec<char> = text.chars().collect();
        assert_eq!(count_words(&chars), text.split_whitespace().count());
    }
    let chars: Vec<char> = "I don't want the world.".chars().collect();
    assert_eq!(count_words(&chars), 5);
}

#[test]
fn line_end_finds_the_end_of_each_line() {
    let data = b"ab\n\ncd";
    assert_eq!(line_end(data, 0), 3);
    assert_eq!(line_end(data, 1), 3);
    assert_eq!(line_end(data, 3), 4);
    assert_eq!(line_end(data, 4), 6);
    assert_eq!(line_end(data, 6), 6);
    let text: Vec<char> = "ab\n\ncd".chars().collect();
    assert_eq!(text_line_end(&text, 0), 3);
    assert_eq!(text_line_end(&text, 3), 4);
    assert_eq!(text_line_end(&text, 4), 6);
    assert_eq!(text_line_end(&text, 6), 6);
}

#[test]
fn push_decimal_writes_the_numeral() {
    for value in [0u128, 7, 10, 99, 100, 12345, u64::MAX as u128, u128::MAX] {
        let mut out = vec!['#'];
        push_decimal(&mut out, value);
        assert_eq!(text_of(&out), format!("#{}", value));
    }
}

#[test]
fn push_column_pads_to_the_width() {
    for (value, width) in [(0u128, 0usize), (0, 1), (5, 3), (123, 3), (1234, 3), (42, 8), (u128::MAX, 50)] {
        let mut out = vec!['#'];
        push_column(&mut out, value, width);
        assert_eq!(text_of(&out), format!("#{:>width$}", value, width = width));
    }
}

#[test]
fn chars_and_strings_convert_both_ways() {
    let text = "héllo\n日本語";
    let chars = chars_of(text);
    assert_eq!(chars, text.chars().collect::<Vec<char>>());
    let report = Report::new(chars, Vec::new(), None);
    assert_eq!(report.stdout, text);
    assert_eq!(report.stderr, "");
    assert!(report.completed());
}

#[test]
fn push_chars_appends() {
    let mut out = vec!['a'];
    push_chars(&mut out, &['b', 'c']);
    push_chars(&mut out, &[]);
    assert_eq!(out, vec!['a', 'b', 'c']);
}

#[test]
fn resolve_takes_the_dash_for_standard_input() {
    assert_eq!(resolve("-"), SourceKind::Stdin);
    assert_eq!(resolve("--"), SourceKind::Path);
    assert_eq!(resolve(""), SourceKind::Path);
    assert_eq!(resolve("./-"), SourceKind::Path);
    assert_eq!(resolve("/no/such/path"), SourceKind::Path);
}

#[test]
fn errors_keep_the_reason_verbatim() {
    let reason = "No such file or directory (os error 2)";
    assert_eq!(OpenError::new(reason.to_string()).to_string(), reason);
    assert_eq!(ReadError::new(reason.to_string()).to_string(), reason);
}

#[test]
fn diagnostic_names_the_source_and_the_reason() {
    let mut err: Vec<char> = Vec::new();
    let name: Vec<char> = "/no/such/path".chars().collect();
    let reason: Vec<char> = "No such file or directory (os error 2)".chars().collect();
    push_diagnostic(&mut err, &name, &reason);
    assert_eq!(text_of(&err), "/no/such/path: No such file or directory (os error 2)\n");
}

#[test]
fn stream_reads_lines_and_bytes() {
    let s = ByteStream::new(b"ab\ncd".to_vec());
    assert_eq!(s.read_line(0).unwrap(), b"ab\n");
    assert_eq!(s.read_line(3).unwrap(), b"cd");
    assert_eq!(s.read_line(5).unwrap(), b"");
    assert_eq!(s.read_bytes(1, 3).unwrap(), b"b\nc");
    assert_eq!(s.read_bytes(1, 10).unwrap(), b"b\ncd");
    assert_eq!(s.read_bytes(5, 0).unwrap(), b"");
    assert!(s.at_end().is_ok());
}

#[test]
fn broken_stream_fails_where_a_read_meets_its_end() {
    let s = ByteStream::broken(b"ab\ncd".to_vec(), "device error".to_string());
    assert_eq!(s.read_line(0).unwrap(), b"ab\n");
    assert_eq!(s.read_line(3).unwrap_err().to_string(), "device error");
    assert_eq!(s.read_line(5).unwrap_err().to_string(), "device error");
    assert_eq!(s.read_bytes(0, 5).unwrap(), b"ab\ncd");
    assert_eq!(s.read_bytes(0, 6).unwrap_err().to_string(), "device error");
    assert_eq!(s.at_end().unwrap_err().to_string(), "device error");
}
