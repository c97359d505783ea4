use textutils::config::ConfigError;
use textutils::source::{ByteStream, Input};
use textutils::wc::{
    arg, count, finish, format_counts, format_field, run, step, step_counted, Arg, FileInfo,
    Totals,
};

fn stream(text: &str) -> ByteStream {
    ByteStream::new(text.as_bytes().to_vec())
}

fn names(files: &[&str]) -> Vec<String> {
    files.iter().map(|f| f.to_string()).collect()
}

#[test]
fn test_count() {
    let text = "I don't want the world. I just want your half.\r\n";
    let info = count(&stream(text));
    assert!(info.is_ok());

    let expected = FileInfo {
        num_lines: 1,
        num_words: 10,
        num_bytes: 48,
        num_chars: 48,
    };

    assert_eq!(info.unwrap(), expected);
}

#[test]
fn test_format_field() {
    assert_eq!(format_field(1, false), "");
    assert_eq!(format_field(3, true), format!("{:>8}", 3));
    assert_eq!(format_field(10, true), format!("{:>8}", 10));
}

#[test]
fn format_field_exact_columns() {
    assert_eq!(format_field(0, true), "       0");
    assert_eq!(format_field(48, true), "      48");
    assert_eq!(format_field(12345678, true), "12345678");
    assert_eq!(format_field(123456789, true), "123456789");
    assert_eq!(format_field(usize::MAX, true), format!("{:>8}", usize::MAX));
    assert_eq!(format_field(usize::MAX, false), "");
}

#[test]
fn count_of_nothing_is_zero() {
    let info = count(&stream("")).unwrap();
    assert_eq!(info, FileInfo { num_lines: 0, num_words: 0, num_bytes: 0, num_chars: 0 });
}

#[test]
fn count_last_line_without_newline() {
    let info = count(&stream("one two\nthree")).unwrap();
    assert_eq!(info, FileInfo { num_lines: 2, num_words: 3, num_bytes: 13, num_chars: 13 });
}

#[test]
fn count_blank_lines() {
    let info = count(&stream("\n\n\n")).unwrap();
    assert_eq!(info, FileInfo { num_lines: 3, num_words: 0, num_bytes: 3, num_chars: 3 });
}

#[test]
fn count_multibyte_characters() {
    let text = "héllo wörld\n日本語 テキスト\n";
    let info = count(&stream(text)).unwrap();
    assert_eq!(info.num_lines, 2);
    assert_eq!(info.num_words, 4);
    assert_eq!(info.num_bytes, text.len());
    assert_eq!(info.num_chars, text.chars().count());
    assert!(info.num_chars < info.num_bytes);
}

#[test]
fn count_unicode_whitespace_splits_words() {
    let text = "a\u{00A0}b\u{2003}c\u{3000}d\u{0085}e\u{1680}f\u{205F}g\n";
    let info = count(&stream(text)).unwrap();
    assert_eq!(info.num_words, text.split_whitespace().count());
    assert_eq!(info.num_words, 7);
}

#[test]
fn count_malformed_bytes_as_replacements() {
    let data: Vec<u8> = vec![b'a', 0xFF, b' ', 0xE2, 0x82, b'\n', 0xC0, 0x80, b'b'];
    let info = count(&ByteStream::new(data.clone())).unwrap();
    assert_eq!(info.num_lines, 2);
    assert_eq!(info.num_bytes, 9);
    assert_eq!(info.num_chars, String::from_utf8_lossy(&data).chars().count());
    assert_eq!(info.num_chars, 8);
    assert_eq!(info.num_words, 3);
    assert!(info.num_chars <= info.num_bytes);
}

#[test]
fn count_never_more_characters_than_bytes() {
    let samples: Vec<Vec<u8>> = vec![
        vec![],
        vec![0x80],
        vec![0xF0, 0x9F, 0x98, 0x80],
        vec![0xF0, 0x9F, 0x98],
        vec![0xED, 0xA0, 0x80],
        vec![0xF4, 0x90, 0x80, 0x80],
        (0u8..=255).collect(),
    ];
    for data in samples {
        let info = count(&ByteStream::new(data.clone())).unwrap();
        assert!(info.num_chars <= info.num_bytes);
        assert!(info.num_words <= info.num_chars);
        assert_eq!(info.num_bytes, data.len());
        let newlines = data.iter().filter(|b| **b == b'\n').count();
        let open_tail = match data.last() {
            Some(b) => *b != b'\n',
            None => false,
        };
        assert_eq!(info.num_lines, newlines + if open_tail { 1 } else { 0 });
    }
}

#[test]
fn count_fails_on_broken_stream() {
    let broken = ByteStream::broken(b"one\ntwo\n".to_vec(), "device error".to_string());
    let res = count(&broken);
    assert!(res.is_err());
    assert_eq!(res.unwrap_err().to_string(), "device error");
}

#[test]
fn arg_defaults_to_lines_words_bytes() {
    let parsed = Arg::new(names(&["a.txt"]), false, false, false, false).unwrap();
    let a = arg(parsed);
    assert!(a.lines && a.words && a.bytes);
    assert!(!a.chars);
    assert_eq!(a.files, names(&["a.txt"]));
}

#[test]
fn arg_keeps_a_selection() {
    let a = arg(Arg::new(names(&["a.txt"]), false, true, false, false).unwrap());
    assert!(!a.lines && a.words && !a.bytes && !a.chars);
    let a = arg(Arg::new(names(&["a.txt"]), false, false, false, true).unwrap());
    assert!(!a.lines && !a.words && !a.bytes && a.chars);
}

#[test]
fn arg_without_files_reads_standard_input() {
    let a = Arg::new(Vec::new(), true, false, false, false).unwrap();
    assert_eq!(a.files, names(&["-"]));
}

#[test]
fn arg_rejects_bytes_with_chars() {
    let res = Arg::new(names(&["a.txt"]), false, false, true, true);
    assert!(res.is_err());
    let e = res.unwrap_err();
    assert_eq!(e, ConfigError::BytesWithChars);
    assert_eq!(e.to_string(), "the argument '--bytes' cannot be used with '--chars'");
}

#[test]
fn format_counts_twice_is_the_same() {
    let a = arg(Arg::new(names(&["x"]), false, false, false, false).unwrap());
    let info = FileInfo { num_lines: 1, num_words: 10, num_bytes: 48, num_chars: 48 };
    let first = format_counts(&a, &info, "x");
    let second = format_counts(&a, &info, "x");
    assert_eq!(first, second);
    assert_eq!(first, "       1      10      48 x");
}

#[test]
fn format_counts_standard_input_has_no_name() {
    let a = arg(Arg::new(Vec::new(), true, false, false, true).unwrap());
    let info = FileInfo { num_lines: 2, num_words: 3, num_bytes: 13, num_chars: 11 };
    assert_eq!(format_counts(&a, &info, "-"), "       2      11");
}

#[test]
fn run_two_files_prints_totals() {
    let a = arg(Arg::new(names(&["one.txt", "two.txt"]), false, false, false, false).unwrap());
    let inputs = vec![
        Input::ready("one.txt".to_string(), b"a b c\n".to_vec()),
        Input::ready("two.txt".to_string(), b"hello\nworld\n".to_vec()),
    ];
    let report = run(&a, &inputs);
    assert!(report.completed());
    assert_eq!(
        report.stdout,
        "       1       3       6 one.txt\n       2       2      12 two.txt\n       3       5      18 total\n"
    );
    assert_eq!(report.stderr, "");
}

#[test]
fn run_single_source_has_no_totals() {
    let a = arg(Arg::new(Vec::new(), false, false, false, false).unwrap());
    let inputs = vec![Input::ready("-".to_string(), b"a b c\n".to_vec())];
    let report = run(&a, &inputs);
    assert_eq!(report.stdout, "       1       3       6\n");
    assert_eq!(report.stderr, "");
    assert!(report.failure.is_none());
}

#[test]
fn run_passes_over_a_source_that_does_not_open() {
    let a = arg(Arg::new(names(&["/no/such/path", "two.txt"]), true, false, false, false).unwrap());
    let inputs = vec![
        Input::unopened(
            "/no/such/path".to_string(),
            "No such file or directory (os error 2)".to_string(),
        ),
        Input::ready("two.txt".to_string(), b"hello\nworld\n".to_vec()),
    ];
    let report = run(&a, &inputs);
    assert!(report.completed());
    assert_eq!(report.stderr, "/no/such/path: No such file or directory (os error 2)\n");
    assert_eq!(report.stdout, "       2 two.txt\n       2 total\n");
}

#[test]
fn count_run_stops_at_a_read_failure() {
    let a = arg(Arg::new(names(&["a", "b", "c"]), true, false, false, false).unwrap());
    let inputs = vec![
        Input::ready("a".to_string(), b"x\n".to_vec()),
        Input::broken("b".to_string(), b"y\n".to_vec(), "Input/output error".to_string()),
        Input::ready("c".to_string(), b"z\n".to_vec()),
    ];
    let report = run(&a, &inputs);
    assert!(!report.completed());
    assert_eq!(report.failure.unwrap().to_string(), "Input/output error");
    assert_eq!(report.stdout, "       1 a\n");
    assert_eq!(report.stderr, "");
}

#[test]
fn totals_add_sums_each_count() {
    let mut totals = Totals::new();
    totals.add(&FileInfo { num_lines: 1, num_words: 3, num_bytes: 6, num_chars: 6 });
    totals.add(&FileInfo { num_lines: 2, num_words: 2, num_bytes: 12, num_chars: 11 });
    assert_eq!(totals, Totals { lines: 3, words: 5, bytes: 18, chars: 17 });
}

#[test]
fn count_steps_one_after_another_are_the_run() {
    let a = arg(Arg::new(names(&["one.txt", "missing", "two.txt"]), false, false, false, false).unwrap());
    let inputs = vec![
        Input::ready("one.txt".to_string(), b"a b c\n".to_vec()),
        Input::unopened("missing".to_string(), "No such file or directory (os error 2)".to_string()),
        Input::ready("two.txt".to_string(), b"hello\nworld\n".to_vec()),
    ];
    let mut totals = Totals::new();
    let mut stdout = String::new();
    let mut stderr = String::new();
    for input in &inputs {
        assert!(totals.room());
        let report = step(&a, &mut totals, input);
        assert!(report.completed());
        stdout.push_str(&report.stdout);
        stderr.push_str(&report.stderr);
    }
    assert_eq!(totals, Totals { lines: 3, words: 5, bytes: 18, chars: 18 });
    stdout.push_str(&finish(&a, &totals, inputs.len()));
    let whole = run(&a, &inputs);
    assert_eq!(whole.stdout, stdout);
    assert_eq!(whole.stderr, stderr);
    assert_eq!(
        stdout,
        "       1       3       6 one.txt\n       2       2      12 two.txt\n       3       5      18 total\n"
    );
    assert_eq!(stderr, "missing: No such file or directory (os error 2)\n");
}

#[test]
fn count_step_of_a_broken_source_ends_the_run_and_adds_nothing() {
    let a = arg(Arg::new(names(&["b"]), false, false, false, false).unwrap());
    let mut totals = Totals::new();
    let broken = Input::broken("b".to_string(), b"y\n".to_vec(), "Input/output error".to_string());
    let report = step(&a, &mut totals, &broken);
    assert!(!report.completed());
    assert_eq!(report.stdout, "");
    assert_eq!(report.failure.unwrap().to_string(), "Input/output error");
    assert_eq!(totals, Totals::new());
}

#[test]
fn finish_writes_totals_for_two_sources_or_more() {
    let a = arg(Arg::new(names(&["x"]), true, false, false, false).unwrap());
    let totals = Totals { lines: 7, words: 8, bytes: 9, chars: 9 };
    assert_eq!(finish(&a, &totals, 0), "");
    assert_eq!(finish(&a, &totals, 1), "");
    assert_eq!(finish(&a, &totals, 2), "       7 total\n");
}

#[test]
fn totals_have_room_until_the_machine_is_full() {
    assert!(Totals::new().room());
    let full = Totals { lines: 0, words: 0, bytes: u128::MAX, chars: 0 };
    assert!(!full.room());
    let edge = Totals { lines: 0, words: 0, bytes: u128::MAX - 0xFFFF_FFFF_FFFF_FFFF, chars: 0 };
    assert!(edge.room());
}

#[test]
fn step_by_counts_is_the_step_of_the_source() {
    let a = arg(Arg::new(names(&["f", "g"]), false, false, false, false).unwrap());
    let data = b"one two\nthree\n".to_vec();
    let mut by_input = Totals::new();
    let mut by_counts = Totals::new();
    let whole = step(&a, &mut by_input, &Input::ready("f".to_string(), data.clone()));
    let mut info = FileInfo { num_lines: 0, num_words: 0, num_bytes: 0, num_chars: 0 };
    for line in data.split_inclusive(|b| *b == b'\n') {
        assert!(info.add_line(line));
    }
    assert!(!info.add_line(b""));
    let counted = step_counted(&a, &mut by_counts, "f", Ok(info));
    assert_eq!(counted.stdout, whole.stdout);
    assert_eq!(counted.stdout, "       2       3      14 f\n");
    assert_eq!(by_counts, by_input);
    let failed = step_counted(
        &a,
        &mut by_counts,
        "g",
        Err(textutils::source::ReadError::new("device error".to_string())),
    );
    assert_eq!(failed.stdout, "");
    assert_eq!(failed.failure.unwrap().to_string(), "device error");
    assert_eq!(by_counts, by_input);
}
