use textutils::cat::{
    format_number_lines, format_number_nonblank, line_step, run, step, Config,
};
use textutils::config::ConfigError;
use textutils::source::Input;

fn names(files: &[&str]) -> Vec<String> {
    files.iter().map(|f| f.to_string()).collect()
}

#[test]
fn number_lines_numbers_every_line() {
    assert_eq!(format_number_lines("a\n\nb\n"), "     1\ta\n     2\t\n     3\tb\n");
}

#[test]
fn number_nonblank_skips_blank_lines() {
    assert_eq!(format_number_nonblank("a\n\nb\n"), "     1\ta\n\n     2\tb\n");
}

#[test]
fn number_nonblank_takes_carriage_return_newline_as_blank() {
    assert_eq!(format_number_nonblank("a\r\n\r\nb\r\n"), "     1\ta\r\n\r\n     2\tb\r\n");
    assert_eq!(format_number_nonblank(" \n\r"), "     1\t \n     2\t\r");
}

#[test]
fn numbering_keeps_an_open_last_line_open() {
    assert_eq!(format_number_lines("a\nb"), "     1\ta\n     2\tb");
    assert_eq!(format_number_nonblank("a\nb"), "     1\ta\n     2\tb");
}

#[test]
fn numbering_nothing_gives_nothing() {
    assert_eq!(format_number_lines(""), "");
    assert_eq!(format_number_nonblank(""), "");
}

#[test]
fn numbers_are_right_aligned_in_six_columns() {
    let text = "x\n".repeat(12);
    let out = format_number_lines(&text);
    let lines: Vec<&str> = out.lines().collect();
    assert_eq!(lines.len(), 12);
    for (i, line) in lines.iter().enumerate() {
        assert_eq!(*line, format!("{:>6}\tx", i + 1));
    }
    assert_eq!(lines[9], "    10\tx");
}

#[test]
fn numbers_wider_than_the_column_are_not_cut() {
    let text = "\n".repeat(1_000_000);
    let out = format_number_lines(&text);
    assert!(out.ends_with("999999\t\n1000000\t\n"));
}

#[test]
fn config_rejects_both_numberings() {
    let res = Config::new(names(&["a"]), true, true);
    assert!(res.is_err());
    let e = res.unwrap_err();
    assert_eq!(e, ConfigError::NumberWithNonblank);
    assert_eq!(e.to_string(), "the argument '--number' cannot be used with '--number-nonblank'");
}

#[test]
fn config_without_files_reads_standard_input() {
    let c = Config::new(Vec::new(), false, true).unwrap();
    assert_eq!(c.files, names(&["-"]));
    assert!(c.number_nonblank);
    assert!(!c.number_lines);
}

#[test]
fn run_without_flags_reproduces_the_input() {
    let c = Config::new(names(&["a", "b"]), false, false).unwrap();
    let first = "héllo\r\nwörld\n\n";
    let second = "日本語\tテキスト";
    let inputs = vec![
        Input::ready("a".to_string(), first.as_bytes().to_vec()),
        Input::ready("b".to_string(), second.as_bytes().to_vec()),
    ];
    let report = run(&c, &inputs);
    assert!(report.completed());
    assert_eq!(report.stdout.as_bytes(), [first.as_bytes(), second.as_bytes()].concat());
    assert_eq!(report.stderr, "");
}

#[test]
fn run_numbers_each_source_from_one() {
    let c = Config::new(names(&["a", "b"]), true, false).unwrap();
    let inputs = vec![
        Input::ready("a".to_string(), b"x\ny\n".to_vec()),
        Input::ready("b".to_string(), b"z\n".to_vec()),
    ];
    let report = run(&c, &inputs);
    assert_eq!(report.stdout, "     1\tx\n     2\ty\n     1\tz\n");
}

#[test]
fn run_number_nonblank() {
    let c = Config::new(names(&["a"]), false, true).unwrap();
    let inputs = vec![Input::ready("a".to_string(), b"a\n\nb\n".to_vec())];
    let report = run(&c, &inputs);
    assert_eq!(report.stdout, "     1\ta\n\n     2\tb\n");
}

#[test]
fn run_shows_malformed_bytes_as_replacements() {
    let c = Config::new(names(&["a"]), false, false).unwrap();
    let data: Vec<u8> = vec![b'a', 0xFF, b'b', 0xE2, 0x82, b'\n'];
    let report = run(&c, &vec![Input::ready("a".to_string(), data.clone())]);
    assert_eq!(report.stdout, String::from_utf8_lossy(&data));
    assert_eq!(report.stdout, "a\u{FFFD}b\u{FFFD}\n");
}

#[test]
fn run_reports_a_source_that_does_not_open_and_goes_on() {
    let c = Config::new(names(&["/no/such/path", "b"]), false, false).unwrap();
    let inputs = vec![
        Input::unopened(
            "/no/such/path".to_string(),
            "No such file or directory (os error 2)".to_string(),
        ),
        Input::ready("b".to_string(), b"z\n".to_vec()),
    ];
    let report = run(&c, &inputs);
    assert!(report.completed());
    assert_eq!(report.stderr, "/no/such/path: No such file or directory (os error 2)\n");
    assert_eq!(report.stdout, "z\n");
}

#[test]
fn cat_stops_at_a_read_failure() {
    let c = Config::new(names(&["a", "b", "c"]), false, false).unwrap();
    let inputs = vec![
        Input::ready("a".to_string(), b"x\n".to_vec()),
        Input::broken("b".to_string(), b"y\n".to_vec(), "Is a directory (os error 21)".to_string()),
        Input::ready("c".to_string(), b"z\n".to_vec()),
    ];
    let report = run(&c, &inputs);
    assert!(!report.completed());
    assert_eq!(report.stdout, "x\ny\n");
    assert_eq!(report.failure.unwrap().to_string(), "Is a directory (os error 21)");
}

#[test]
fn cat_steps_one_after_another_are_the_run() {
    let c = Config::new(names(&["a", "missing", "b"]), true, false).unwrap();
    let inputs = vec![
        Input::ready("a".to_string(), b"x\ny\n".to_vec()),
        Input::unopened("missing".to_string(), "No such file or directory (os error 2)".to_string()),
        Input::ready("b".to_string(), b"z\n".to_vec()),
    ];
    let mut stdout = String::new();
    let mut stderr = String::new();
    for input in &inputs {
        let report = step(&c, input);
        assert!(report.completed());
        stdout.push_str(&report.stdout);
        stderr.push_str(&report.stderr);
    }
    let whole = run(&c, &inputs);
    assert_eq!(whole.stdout, stdout);
    assert_eq!(whole.stderr, stderr);
    assert_eq!(stdout, "     1\tx\n     2\ty\n     1\tz\n");
}

#[test]
fn cat_step_of_a_broken_source_ends_the_run() {
    let c = Config::new(names(&["b"]), false, false).unwrap();
    let broken = Input::broken("b".to_string(), b"y\n".to_vec(), "Is a directory (os error 21)".to_string());
    let report = step(&c, &broken);
    assert!(!report.completed());
    assert_eq!(report.stdout, "y\n");
    assert_eq!(report.failure.unwrap().to_string(), "Is a directory (os error 21)");
}

#[test]
fn numberings_agree_where_no_line_is_blank() {
    for text in ["", "a\n", "a\nb", " \n\t\nx\r\n", "\r"] {
        assert_eq!(format_number_nonblank(text), format_number_lines(text));
    }
    assert_ne!(format_number_nonblank("a\n\r\n"), format_number_lines("a\n\r\n"));
}

#[test]
fn writing_line_by_line_is_writing_the_whole() {
    let samples: Vec<Vec<u8>> = vec![
        b"".to_vec(),
        b"a\n\nb\n".to_vec(),
        b"a\r\n\r\nb".to_vec(),
        "h\u{e9}llo\n\u{65e5}\u{672c}\n".as_bytes().to_vec(),
        vec![b'a', 0xE2, 0x82, b'\n', 0xFF, b'\n', 0xC3],
    ];
    for data in samples {
        for (number_lines, number_nonblank) in [(false, false), (true, false), (false, true)] {
            let c = Config::new(names(&["f"]), number_lines, number_nonblank).unwrap();
            let whole = step(&c, &Input::ready("f".to_string(), data.clone())).stdout;
            let mut next: u128 = 1;
            let mut pieces = String::new();
            for line in data.split_inclusive(|b| *b == b'\n') {
                pieces.push_str(&line_step(&c, &mut next, line));
            }
            pieces.push_str(&line_step(&c, &mut next, b""));
            assert_eq!(pieces, whole, "bytes {:?}", data);
        }
    }
}

#[test]
fn line_step_numbers_and_counts_on() {
    let c = Config::new(names(&["f"]), false, true).unwrap();
    let mut next: u128 = 7;
    assert_eq!(line_step(&c, &mut next, b"a\n"), "     7\ta\n");
    assert_eq!(next, 8);
    assert_eq!(line_step(&c, &mut next, b"\n"), "\n");
    assert_eq!(line_step(&c, &mut next, b"\r\n"), "\r\n");
    assert_eq!(next, 8);
    assert_eq!(line_step(&c, &mut next, b""), "");
    assert_eq!(next, 8);
    let c = Config::new(names(&["f"]), true, false).unwrap();
    assert_eq!(line_step(&c, &mut next, b"\n"), "     8\t\n");
    assert_eq!(next, 9);
    assert_eq!(line_step(&c, &mut next, b""), "");
    assert_eq!(next, 9);
}
