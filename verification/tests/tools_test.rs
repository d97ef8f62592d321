use futsu_linux::files::{
    file_name_arg, mkdir_paths, mkdir_step_failure, newline_count, open_failure,
    opendir_failure, read_step, FileError, add_newlines, cat_chunk, head_wants_line,
};
use futsu_linux::grep::{grep_line, GrepError, Pattern};
use futsu_linux::headers::Headers;
use futsu_linux::tail::{normalize_lines, seek_tail, tail_output, tail_start};
use futsu_linux::text::{decimal_string, parse_count, split_first, text_eq};

/// What `tail` prints for `input` read from standard input.
fn tail_of_stdin(line_count: usize, input: &str) -> String {
    let content = normalize_lines(input);
    seek_tail(content.as_bytes(), line_count).unwrap()
}

/// What `tail` prints for a file holding `content`.
fn tail_of_file(line_count: usize, content: &str) -> String {
    seek_tail(content.as_bytes(), line_count).unwrap()
}

/// The lines `grep` prints.
fn grep_lines(pattern: &str, text: &str) -> String {
    let mut out = String::new();
    for line in text.lines() {
        if grep_line(pattern, line).unwrap() {
            out.push_str(line);
            out.push('\n');
        }
    }
    out
}

const GREP_TEXT: &str = "hello\nhogehoge\nhogiuuun\nhoguuun\nworld\n";

#[test]
fn test_success_stdio() {
    assert_eq!(tail_of_stdin(5, "1\n2\n3\n4\n5\n6\n\x1A"), "3\n4\n5\n6\n\x1A\n");
}

#[test]
fn test_success_stdio_big_line_count() {
    assert_eq!(
        tail_of_stdin(10, "1\n2\n3\n4\n5\n6\n\x1A"),
        "1\n2\n3\n4\n5\n6\n\x1A\n"
    );
}

#[test]
fn test_success_file() {
    assert_eq!(tail_of_file(5, "1\n2\n3\n4\n5\n6\n"), "2\n3\n4\n5\n6\n");
}

#[test]
fn grep_test_test_success() {
    assert_eq!(grep_lines("hoge", GREP_TEXT), "hogehoge\n");
}

#[test]
fn test_success_2() {
    assert_eq!(grep_lines("hog.*un", GREP_TEXT), "hogiuuun\nhoguuun\n");
}

#[test]
fn test_cat_arg_missing() {
    let err = file_name_arg(&vec!["cat".to_string()]).unwrap_err();
    assert_eq!(err, FileError::MissingFileName);
    assert_eq!(format!("Error: {}\n", err.message()), "Error: Please specify a file name\n");
    assert_eq!(
        file_name_arg(&vec!["cat".to_string(), "a.txt".to_string(), "b".to_string()]),
        Ok("a.txt".to_string())
    );
}

#[test]
fn test_cat_file_not_found() {
    let err = open_failure(libc::ENOENT).unwrap();
    assert_eq!(format!("Error: {}\n", err.message()), "Error: File not found\n");
}

#[test]
fn test_cat_file_no_permission() {
    let err = open_failure(libc::EACCES).unwrap();
    assert_eq!(format!("Error: {}\n", err.message()), "Error: No permission\n");
}

#[test]
fn open_failure_other_errors_go_on() {
    assert_eq!(open_failure(13), Some(FileError::NoPermission));
    assert_eq!(open_failure(2), Some(FileError::FileNotFound));
    assert_eq!(open_failure(libc::EISDIR), None);
    assert_eq!(FileError::ReadFailed.message(), "Failed to read file");
}

#[test]
fn test_success_empty_dir() {
    assert_eq!(opendir_failure(libc::ENOENT), Ok(()));
    assert_eq!(opendir_failure(libc::EACCES), Err(FileError::DirOpenFailed));
    assert_eq!(FileError::DirOpenFailed.message(), "Failed to open dir");
}

#[test]
fn test_success_p() {
    let paths = mkdir_paths("tmp/not_exist_dir_7/mkdir_test");
    assert_eq!(
        paths,
        vec![
            "tmp".to_string(),
            "tmp/not_exist_dir_7".to_string(),
            "tmp/not_exist_dir_7/mkdir_test".to_string()
        ]
    );
    assert_eq!(mkdir_step_failure(libc::EEXIST), Ok(()));
    assert_eq!(mkdir_step_failure(libc::ENOENT), Err(FileError::DirCreateFailed));
    assert_eq!(FileError::DirCreateFailed.message(), "Failed to create dir");
}

#[test]
fn mkdir_paths_odd_slashes() {
    assert_eq!(mkdir_paths("a"), vec!["a".to_string()]);
    assert_eq!(mkdir_paths("a//b"), vec!["a", "a/", "a/b"]);
    assert_eq!(mkdir_paths("a/b/"), vec!["a", "a/b", "a/b/"]);
    assert_eq!(mkdir_paths("/tmp/x"), vec!["", "tmp", "tmp/x"]);
    assert_eq!(mkdir_paths(""), vec![""]);
}

#[test]
fn newline_counts() {
    assert_eq!(newline_count(b""), 0);
    assert_eq!(newline_count(b"abc"), 0);
    assert_eq!(newline_count(b"a\nb\n\nc"), 3);
    assert_eq!(decimal_string(newline_count(b"\n\n\n\n\n\n\n\n\n\n\n\n")), "12");
}

#[test]
fn decimal_and_parse_counts() {
    assert_eq!(decimal_string(0), "0");
    assert_eq!(decimal_string(7), "7");
    assert_eq!(decimal_string(1024), "1024");
    assert_eq!(decimal_string(usize::MAX), usize::MAX.to_string());
    assert_eq!(parse_count("5"), Some(5));
    assert_eq!(parse_count("+5"), Some(5));
    assert_eq!(parse_count("007"), Some(7));
    assert_eq!(parse_count(""), None);
    assert_eq!(parse_count("+"), None);
    assert_eq!(parse_count("-1"), None);
    assert_eq!(parse_count("1a"), None);
    assert_eq!(parse_count(" 1"), None);
    assert_eq!(parse_count("18446744073709551616"), None);
    assert_eq!(parse_count(&usize::MAX.to_string()), Some(usize::MAX));
    for n in [0usize, 9, 10, 99, 12345, usize::MAX] {
        assert_eq!(parse_count(&decimal_string(n)), Some(n));
        assert_eq!(parse_count(&decimal_string(n)), decimal_string(n).parse::<usize>().ok());
    }
}

#[test]
fn tail_edge_cases() {
    assert_eq!(tail_of_file(0, "a\nb\n"), "\n");
    assert_eq!(tail_of_file(1, "a\nb\n"), "b\n");
    assert_eq!(tail_of_file(1, "a\nb"), "a\n\n");
    assert_eq!(tail_of_file(3, ""), "\n");
    assert_eq!(tail_of_file(usize::MAX, "x\ny\n"), "x\ny\n");
    assert_eq!(tail_start(b"a\nb\nc\n", 1), 4);
    assert_eq!(tail_start(b"\na", 1), 0);
    assert_eq!(tail_start(b"\na", 0), 1);
    assert_eq!(tail_output("hé"), "h\n");
}

#[test]
fn normalize_lines_cases() {
    assert_eq!(normalize_lines(""), "");
    assert_eq!(normalize_lines("a"), "a\n");
    assert_eq!(normalize_lines("a\r\nb\r"), "a\nb\r\n");
    assert_eq!(normalize_lines("\n\n"), "\n\n");
    let input = "x\r\ny\nz";
    let expected: String = input.lines().map(|l| format!("{}\n", l)).collect();
    assert_eq!(normalize_lines(input), expected);
}

#[test]
fn grep_invalid_pattern() {
    assert_eq!(grep_line("foo(bar", "foo(bar"), Err(GrepError::InvalidPattern));
    assert_eq!(grep_line("^a.c$", "abc"), Ok(true));
    assert_eq!(grep_line("^a.c$", "xabc"), Ok(false));
    let p = Pattern::new("b+").unwrap();
    assert!(p.is_match("abbc"));
    assert!(!p.is_match("ac"));
    assert!(Pattern::new("(").is_err());
}

#[test]
fn headers_read_back_what_was_written() {
    let mut h = Headers::new();
    assert_eq!(h.get("a"), None);
    h.insert("a".to_string(), "1".to_string());
    h.insert("b".to_string(), "2".to_string());
    h.insert("a".to_string(), "3".to_string());
    assert_eq!(h.get("a").map(|s| s.as_str()), Some("3"));
    assert_eq!(h.get("b").map(|s| s.as_str()), Some("2"));
    assert_eq!(h.get("c"), None);
}

#[test]
fn text_helpers() {
    assert!(text_eq("abc", "abc"));
    assert!(!text_eq("abc", "abd"));
    assert!(!text_eq("ab", "abc"));
    assert_eq!(split_first("a: b: c", ": "), ("a", Some("b: c")));
    assert_eq!(split_first("abc", ": "), ("abc", None));
    assert_eq!(split_first("ü ö", " "), ("ü", Some("ö")));
}

#[test]
fn read_steps() {
    assert_eq!(read_step(-1), Err(FileError::ReadFailed));
    assert_eq!(read_step(0), Ok(None));
    assert_eq!(read_step(1024), Ok(Some(1024)));
}

#[test]
fn wc_counts_add_up_block_by_block() {
    let text = b"a\nbb\n\nccc\nd";
    let whole = newline_count(text);
    let mut total = 0;
    for chunk in text.chunks(3) {
        total = add_newlines(total, chunk).unwrap();
    }
    assert_eq!(total, whole);
    assert_eq!(total, 4);
    assert_eq!(add_newlines(usize::MAX, b"\n"), None);
    assert_eq!(add_newlines(usize::MAX, b"x"), Some(usize::MAX));
}

#[test]
fn cat_chunks() {
    assert_eq!(cat_chunk(b""), Ok(None));
    assert_eq!(cat_chunk(b"hello\n"), Ok(Some("hello\n".to_string())));
    assert_eq!(cat_chunk("h\u{e9}".as_bytes()), Ok(Some("h\u{e9}".to_string())));
    assert_eq!(
        cat_chunk(&[0x68, 0xc3]),
        Err("incomplete utf-8 byte sequence from index 1".to_string())
    );
    assert_eq!(
        cat_chunk(&[0xff]),
        Err("invalid utf-8 sequence of 1 bytes from index 0".to_string())
    );
    assert_eq!(
        cat_chunk(&[0x61, 0xff]).unwrap_err(),
        std::str::from_utf8(&[0x61, 0xff]).unwrap_err().to_string()
    );
}

#[test]
fn head_line_decisions() {
    assert!(head_wants_line(0, 1));
    assert!(!head_wants_line(1, 1));
    assert!(!head_wants_line(0, 0));
    let mut printed = 0;
    while head_wants_line(printed, 3) {
        printed += 1;
    }
    assert_eq!(printed, 3);
}

#[test]
fn seek_tail_utf8() {
    assert_eq!(seek_tail(b"1\n2\n3", 1), Ok("2\n\n".to_string()));
    assert_eq!(seek_tail(&[0xff, b'\n', b'a', b'\n'], 0), Ok("\n".to_string()));
    assert_eq!(seek_tail(&[0xff, b'\n', b'a', b'\n'], 1), Ok("a\n".to_string()));
    assert_eq!(seek_tail(&[0xff, b'\n', b'a', b'\n'], 2), Err(FileError::InvalidUtf8));
    assert_eq!(FileError::InvalidUtf8.message(), "stream did not contain valid UTF-8");
    assert_eq!(seek_tail("x\né\n".as_bytes(), 1), Ok("é\n".to_string()));
}
