use final_project::analyzer::{
    analyze_file, countable, FileAnalysis, FileRead, FileStats, ProcessingError,
};
use final_project::listing::{collect_files, DirEntry};
use std::time::Instant;

fn read_of(lines: &[&str]) -> FileRead {
    let bytes: usize = lines.iter().map(|l| l.len() + 1).sum();
    FileRead {
        filename: "book.txt".to_string(),
        full_path: "/data/book.txt".to_string(),
        metadata: Ok(bytes as u64),
        lines: Ok(lines.iter().map(|l| Ok(l.to_string())).collect()),
    }
}

fn analyze(lines: &[&str]) -> FileAnalysis {
    analyze_file(read_of(lines), &Instant::now())
}

fn io_messages(analysis: &FileAnalysis) -> Vec<String> {
    analysis
        .errors
        .iter()
        .map(|e| match e {
            ProcessingError::IoError(text) => text.clone(),
            ProcessingError::Other(text) => panic!("not an I/O error: {}", text),
        })
        .collect()
}

#[test]
fn integration_analyze_real_file() {
    let read = FileRead {
        filename: "integration_book.txt".to_string(),
        full_path: "/tmp/integration_book.txt".to_string(),
        metadata: Ok(25),
        lines: Ok(vec![Ok("hello world".to_string()), Ok("another line".to_string())]),
    };

    let result = analyze_file(read, &Instant::now());
    assert_eq!(result.stats.line_count, 2);
    assert_eq!(result.stats.word_count, 4);
    assert!(result.errors.is_empty());
}

#[test]
fn error_handling_missing_file() {
    let cause = "No such file or directory (os error 2)".to_string();
    let read = FileRead {
        filename: "this_file_should_not_exist_12345.txt".to_string(),
        full_path: "/tmp/this_file_should_not_exist_12345.txt".to_string(),
        metadata: Err(cause.clone()),
        lines: Err(cause),
    };

    let result = analyze_file(read, &Instant::now());
    assert!(!result.errors.is_empty());
}

#[test]
fn missing_file_has_zero_statistics_and_two_errors() {
    let cause = "No such file or directory (os error 2)".to_string();
    let read = FileRead {
        filename: "gone.txt".to_string(),
        full_path: "/tmp/gone.txt".to_string(),
        metadata: Err(cause.clone()),
        lines: Err(cause),
    };
    let result = analyze_file(read, &Instant::now());
    assert_eq!(result.filename, "gone.txt");
    assert_eq!(result.full_path, "/tmp/gone.txt");
    assert_eq!(result.stats.word_count, 0);
    assert_eq!(result.stats.line_count, 0);
    assert_eq!(result.stats.size_bytes, 0);
    assert!(result.stats.char_frequencies.is_empty());
    assert_eq!(
        io_messages(&result),
        vec![
            "metadata error on /tmp/gone.txt: No such file or directory (os error 2)".to_string(),
            "open error on /tmp/gone.txt: No such file or directory (os error 2)".to_string(),
        ]
    );
}

#[test]
fn names_and_size_are_carried_over() {
    let read = FileRead {
        filename: "a.txt".to_string(),
        full_path: "dir/a.txt".to_string(),
        metadata: Ok(1234),
        lines: Ok(vec![]),
    };
    let result = analyze_file(read, &Instant::now());
    assert_eq!(result.filename, "a.txt");
    assert_eq!(result.full_path, "dir/a.txt");
    assert_eq!(result.stats.size_bytes, 1234);
    assert_eq!(result.stats.line_count, 0);
    assert_eq!(result.stats.word_count, 0);
    assert!(result.stats.char_frequencies.is_empty());
    assert!(result.errors.is_empty());
}

#[test]
fn words_are_runs_between_white_space() {
    assert_eq!(analyze(&[""]).stats.word_count, 0);
    assert_eq!(analyze(&["   \t  "]).stats.word_count, 0);
    assert_eq!(analyze(&["one"]).stats.word_count, 1);
    assert_eq!(analyze(&["  a  b\tc "]).stats.word_count, 3);
    assert_eq!(analyze(&["a,b;c"]).stats.word_count, 1);
    assert_eq!(analyze(&["x y", "", " z"]).stats.word_count, 3);
}

#[test]
fn unicode_white_space_separates_words() {
    // No-break space, ideographic space and line separator are white space;
    // the zero-width space is not.
    assert_eq!(analyze(&["a\u{00A0}b"]).stats.word_count, 2);
    assert_eq!(analyze(&["\u{3000}\u{8d8a}\u{3000}\u{5357}"]).stats.word_count, 2);
    assert_eq!(analyze(&["a\u{2028}b\u{0085}c"]).stats.word_count, 3);
    assert_eq!(analyze(&["a\u{200B}b"]).stats.word_count, 1);
}

#[test]
fn word_count_agrees_with_split_whitespace() {
    for line in ["", " ", "a", " a", "a ", "a b", "\ta\u{2003}bc  d\r", "\u{1680}x\u{205F}y\u{202F}"]
    {
        assert_eq!(analyze(&[line]).stats.word_count, line.split_whitespace().count(), "{:?}", line);
    }
}

#[test]
fn empty_lines_count_as_lines() {
    let result = analyze(&["", "", "x"]);
    assert_eq!(result.stats.line_count, 3);
    assert_eq!(result.stats.word_count, 1);
}

#[test]
fn characters_are_tallied_by_code_point() {
    let result = analyze(&["hello", "oh \u{e9}"]);
    let freq = &result.stats.char_frequencies;
    assert_eq!(freq.get(&('h' as u32)), Some(&2));
    assert_eq!(freq.get(&('e' as u32)), Some(&1));
    assert_eq!(freq.get(&('l' as u32)), Some(&2));
    assert_eq!(freq.get(&('o' as u32)), Some(&2));
    assert_eq!(freq.get(&(' ' as u32)), Some(&1));
    assert_eq!(freq.get(&0xe9), Some(&1));
    assert_eq!(freq.get(&('z' as u32)), None);
    assert_eq!(freq.len(), 6);
    let tallied: usize = freq.values().sum();
    assert_eq!(tallied, 9);
}

#[test]
fn reading_stops_at_the_first_failed_line() {
    let read = FileRead {
        filename: "broken.txt".to_string(),
        full_path: "/data/broken.txt".to_string(),
        metadata: Ok(40),
        lines: Ok(vec![
            Ok("one two".to_string()),
            Ok("three".to_string()),
            Err("stream did not contain valid UTF-8".to_string()),
            Ok("never counted".to_string()),
            Err("second failure".to_string()),
        ]),
    };
    let result = analyze_file(read, &Instant::now());
    // What was counted before the failure stays.
    assert_eq!(result.stats.line_count, 2);
    assert_eq!(result.stats.word_count, 3);
    assert_eq!(result.stats.size_bytes, 40);
    assert_eq!(result.stats.char_frequencies.get(&('e' as u32)), Some(&3));
    assert_eq!(result.stats.char_frequencies.get(&('v' as u32)), None);
    assert_eq!(
        io_messages(&result),
        vec!["line read error on /data/broken.txt: stream did not contain valid UTF-8".to_string()]
    );
}

#[test]
fn failure_on_the_first_line_counts_nothing() {
    let read = FileRead {
        filename: "b.bin".to_string(),
        full_path: "b.bin".to_string(),
        metadata: Ok(3),
        lines: Ok(vec![Err("bad".to_string()), Ok("x".to_string())]),
    };
    let result = analyze_file(read, &Instant::now());
    assert_eq!(result.stats.line_count, 0);
    assert_eq!(result.stats.word_count, 0);
    assert!(result.stats.char_frequencies.is_empty());
    assert_eq!(io_messages(&result), vec!["line read error on b.bin: bad".to_string()]);
}

#[test]
fn metadata_failure_does_not_stop_the_count() {
    let read = FileRead {
        filename: "odd.txt".to_string(),
        full_path: "/odd.txt".to_string(),
        metadata: Err("permission denied".to_string()),
        lines: Ok(vec![Ok("still read".to_string())]),
    };
    let result = analyze_file(read, &Instant::now());
    assert_eq!(result.stats.size_bytes, 0);
    assert_eq!(result.stats.line_count, 1);
    assert_eq!(result.stats.word_count, 2);
    assert_eq!(io_messages(&result), vec!["metadata error on /odd.txt: permission denied".to_string()]);
}

#[test]
fn metadata_error_comes_before_the_line_error() {
    let read = FileRead {
        filename: "f".to_string(),
        full_path: "f".to_string(),
        metadata: Err("m".to_string()),
        lines: Ok(vec![Ok("a".to_string()), Err("l".to_string())]),
    };
    let result = analyze_file(read, &Instant::now());
    assert_eq!(
        io_messages(&result),
        vec!["metadata error on f: m".to_string(), "line read error on f: l".to_string()]
    );
}

#[test]
fn default_statistics_are_zero() {
    let stats = FileStats::default();
    assert_eq!(stats.word_count, 0);
    assert_eq!(stats.line_count, 0);
    assert_eq!(stats.size_bytes, 0);
    assert!(stats.char_frequencies.is_empty());
}

#[test]
fn processing_time_is_measured_from_the_start() {
    let start = Instant::now();
    let result = analyze_file(read_of(&["a"]), &start);
    assert!(result.processing_time <= start.elapsed());
}

#[test]
fn ordinary_reads_are_countable() {
    assert!(countable(&read_of(&[])));
    assert!(countable(&read_of(&["hello world", "another line"])));
    let unopened = FileRead {
        filename: "x".to_string(),
        full_path: "x".to_string(),
        metadata: Ok(0),
        lines: Err("denied".to_string()),
    };
    assert!(countable(&unopened));
    let broken = FileRead {
        filename: "x".to_string(),
        full_path: "x".to_string(),
        metadata: Ok(0),
        lines: Ok(vec![Ok("a".to_string()), Err("bad".to_string()), Ok("b".to_string())]),
    };
    assert!(countable(&broken));
}

fn file(path: &str) -> DirEntry {
    DirEntry::File(path.to_string())
}

#[test]
fn files_are_collected_depth_first_in_reading_order() {
    let tree = vec![
        file("/r/a"),
        DirEntry::Directory(vec![
            file("/r/d/b"),
            DirEntry::Other,
            DirEntry::Directory(vec![file("/r/d/e/c")]),
            file("/r/d/f"),
        ]),
        DirEntry::Directory(vec![]),
        DirEntry::Other,
        file("/r/z"),
    ];
    let mut out = vec!["/earlier".to_string()];
    collect_files(&tree, &mut out);
    assert_eq!(out, vec!["/earlier", "/r/a", "/r/d/b", "/r/d/e/c", "/r/d/f", "/r/z"]);
}

#[test]
fn an_empty_tree_has_no_files() {
    let mut out: Vec<String> = Vec::new();
    collect_files(&Vec::new(), &mut out);
    assert!(out.is_empty());
    collect_files(&vec![DirEntry::Directory(vec![DirEntry::Other])], &mut out);
    assert!(out.is_empty());
}
