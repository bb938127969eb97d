use logbuddy::scanner::Config;
use logbuddy::scanner::FileEntry;
use logbuddy::scanner::Scanner;
use logbuddy::scanner::ext_of_name;
use logbuddy::text::split_lines;
use logbuddy::text::trim_preview;
use logbuddy::tokenizer::is_word_char;
use logbuddy::tokenizer::tokenize_words;

fn cfg(ext: Option<&str>, top: usize, find: Option<&str>) -> Config {
    Config {
        path: b"root".to_vec(),
        ext: ext.map(|e| e.as_bytes().to_vec()),
        top,
        find: find.map(|f| f.as_bytes().to_vec()),
    }
}

fn words(ts: &[&str]) -> Vec<Vec<u8>> {
    ts.iter().map(|t| t.as_bytes().to_vec()).collect()
}

#[test]
fn tokenize_example() {
    assert_eq!(tokenize_words(b"Error: code=42!!"), words(&["error", "code", "42"]));
}

#[test]
fn tokenize_empty_and_separators_only() {
    assert_eq!(tokenize_words(b""), words(&[]));
    assert_eq!(tokenize_words(b" .,;\t\n!"), words(&[]));
}

#[test]
fn tokenize_case_folds_and_keeps_underscores() {
    assert_eq!(tokenize_words(b"FooBAR baz_9 X"), words(&["foobar", "baz_9", "x"]));
}

#[test]
fn tokenize_tokens_are_wellformed() {
    let toks = tokenize_words("m\u{e9}l\u{e9}e mix-42_A".as_bytes());
    assert!(!toks.is_empty());
    for t in &toks {
        assert!(!t.is_empty());
        for &b in t {
            assert!(is_word_char(b));
            assert!(!(b'A'..=b'Z').contains(&b));
        }
    }
}

#[test]
fn is_word_char_classification() {
    assert!(is_word_char(b'a'));
    assert!(is_word_char(b'Z'));
    assert!(is_word_char(b'0'));
    assert!(is_word_char(b'_'));
    assert!(!is_word_char(b' '));
    assert!(!is_word_char(b'-'));
    assert!(!is_word_char(b'.'));
}

#[test]
fn split_lines_variants() {
    let empty: Vec<Vec<u8>> = vec![];
    assert_eq!(split_lines(b""), empty);
    assert_eq!(split_lines(b"a"), words(&["a"]));
    assert_eq!(split_lines(b"a\nb"), words(&["a", "b"]));
    assert_eq!(split_lines(b"a\nb\n"), words(&["a", "b"]));
    assert_eq!(split_lines(b"\n"), words(&[""]));
    assert_eq!(split_lines(b"a\r\nb"), words(&["a", "b"]));
    assert_eq!(split_lines(b"a\rb"), words(&["a\rb"]));
}

#[test]
fn trim_preview_short_line_unchanged() {
    assert_eq!(trim_preview(b"hello", 120), b"hello".to_vec());
}

#[test]
fn trim_preview_exact_width_unchanged() {
    let line = vec![b'x'; 120];
    assert_eq!(trim_preview(&line, 120), line);
}

#[test]
fn trim_preview_long_line_cut_with_ellipsis() {
    let line = vec![b'y'; 130];
    let mut expected = vec![b'y'; 120];
    expected.extend_from_slice("\u{2026}".as_bytes());
    assert_eq!(trim_preview(&line, 120), expected);
}

#[test]
fn trim_preview_counts_characters_not_bytes() {
    // 61 two-byte characters: 122 bytes but only 61 characters, so the
    // line stands unchanged at a width of 120.
    let line = "\u{e9}".repeat(61).into_bytes();
    assert_eq!(line.len(), 122);
    assert_eq!(trim_preview(&line, 120), line);
}

#[test]
fn trim_preview_cuts_on_character_boundaries() {
    let line = "\u{e9}".repeat(5).into_bytes();
    let mut expected = "\u{e9}".repeat(3).into_bytes();
    expected.extend_from_slice("\u{2026}".as_bytes());
    assert_eq!(trim_preview(&line, 3), expected);
    assert_eq!(trim_preview("a\u{e9}b".as_bytes(), 1), "a\u{2026}".as_bytes().to_vec());
    assert!(String::from_utf8(trim_preview(&line, 3)).is_ok());
}

#[test]
fn ext_of_name_variants() {
    assert_eq!(ext_of_name(&b"a.log".to_vec()), b"log".to_vec());
    assert_eq!(ext_of_name(&b"archive.tar.gz".to_vec()), b"gz".to_vec());
    assert_eq!(ext_of_name(&b"noext".to_vec()), b"".to_vec());
    assert_eq!(ext_of_name(&b".hidden".to_vec()), b"".to_vec());
    assert_eq!(ext_of_name(&b"file.".to_vec()), b"".to_vec());
}

#[test]
fn filter_accepts_everything_without_ext() {
    let s = Scanner::new(cfg(None, 10, None));
    assert!(s.wants_file(&b"a.log".to_vec()));
    assert!(s.wants_file(&b"noext".to_vec()));
}

#[test]
fn filter_matches_extension_exactly() {
    let s = Scanner::new(cfg(Some("log"), 10, None));
    assert!(s.wants_file(&b"a.log".to_vec()));
    assert!(!s.wants_file(&b"a.txt".to_vec()));
    assert!(!s.wants_file(&b"a.LOG".to_vec()));
    assert!(!s.wants_file(&b"noext".to_vec()));
    assert!(!s.wants_file(&b".log".to_vec()));
}

#[test]
fn filter_strips_leading_dot_of_configured_extension() {
    let s = Scanner::new(cfg(Some(".log"), 10, None));
    assert!(s.wants_file(&b"a.log".to_vec()));
    assert!(!s.wants_file(&b"a.txt".to_vec()));
}

#[test]
fn ingest_counts_files_lines_bytes_words() {
    let mut s = Scanner::new(cfg(None, 10, None));
    let ps = s.ingest(&b"f".to_vec(), &b"cat dog cat".to_vec());
    assert!(ps.is_empty());
    assert_eq!(s.totals.files_scanned, 1);
    assert_eq!(s.totals.total_lines, 1);
    assert_eq!(s.totals.total_bytes, 11);
    let top = s.report(10);
    assert_eq!(top.len(), 2);
    assert_eq!(top[0], (b"cat".to_vec(), 2));
    assert_eq!(top[1], (b"dog".to_vec(), 1));
}

#[test]
fn counts_sum_to_token_count() {
    let mut s = Scanner::new(cfg(None, 10, None));
    let text = b"one two two THREE three three\nfour?four".to_vec();
    s.ingest(&b"f".to_vec(), &text);
    let tokens = tokenize_words(&text);
    let sum: u64 = s.report(usize::MAX).iter().map(|p| p.1).sum();
    assert_eq!(sum, tokens.len() as u64);
}

#[test]
fn search_counts_hits_and_numbers_lines() {
    let mut s = Scanner::new(cfg(None, 10, Some("foo")));
    let ps = s.ingest(&b"f".to_vec(), &b"foo\nFOO bar\nbaz".to_vec());
    assert_eq!(s.totals.hits, 2);
    assert_eq!(ps.len(), 2);
    assert_eq!(ps[0].line_no, 1);
    assert_eq!(ps[0].text, b"foo".to_vec());
    assert_eq!(ps[1].line_no, 2);
    assert_eq!(ps[1].text, b"FOO bar".to_vec());
    assert_eq!(ps[0].path, b"f".to_vec());
}

#[test]
fn search_is_case_insensitive_both_ways() {
    let mut s = Scanner::new(cfg(None, 10, Some("ErRoR")));
    s.ingest(&b"f".to_vec(), &b"an error here\nnothing\nERROR again".to_vec());
    assert_eq!(s.totals.hits, 2);
}

#[test]
fn search_folds_beyond_ascii() {
    let mut s = Scanner::new(cfg(None, 10, Some("\u{e9}clair")));
    let text = "\u{c9}CLAIR here\nplain line\n\u{e9}clair too".as_bytes().to_vec();
    let ps = s.ingest(&b"f".to_vec(), &text);
    assert_eq!(s.totals.hits, 2);
    assert_eq!(ps.len(), 2);
    assert_eq!(ps[0].line_no, 1);
    assert_eq!(ps[1].line_no, 3);
}

#[test]
fn preview_cap_five_but_hits_keep_counting() {
    let mut s = Scanner::new(cfg(None, 10, Some("hit")));
    let text = b"hit 1\nhit 2\nhit 3\nhit 4\nhit 5\nhit 6\nhit 7".to_vec();
    let ps = s.ingest(&b"f".to_vec(), &text);
    assert_eq!(ps.len(), 5);
    assert_eq!(s.totals.hits, 7);
    assert_eq!(ps[4].line_no, 5);
}

#[test]
fn preview_cap_spans_the_whole_run() {
    let mut s = Scanner::new(cfg(None, 10, Some("x")));
    let a = s.ingest(&b"a".to_vec(), &b"x\nx\nx".to_vec());
    let b = s.ingest(&b"b".to_vec(), &b"x\nx\nx".to_vec());
    assert_eq!(a.len(), 3);
    assert_eq!(b.len(), 2);
    assert_eq!(s.totals.hits, 6);
}

#[test]
fn report_orders_by_count_then_word() {
    let mut s = Scanner::new(cfg(None, 10, None));
    s.ingest(&b"f".to_vec(), &b"b a b a c".to_vec());
    let top = s.report(10);
    assert_eq!(
        top,
        vec![(b"a".to_vec(), 2), (b"b".to_vec(), 2), (b"c".to_vec(), 1)]
    );
}

#[test]
fn report_takes_min_of_n_and_distinct() {
    let mut s = Scanner::new(cfg(None, 10, None));
    s.ingest(&b"f".to_vec(), &b"a b c".to_vec());
    assert_eq!(s.report(2).len(), 2);
    assert_eq!(s.report(3).len(), 3);
    assert_eq!(s.report(99).len(), 3);
    assert_eq!(s.report(0).len(), 0);
}

#[test]
fn report_is_deterministic_across_calls() {
    let mut s = Scanner::new(cfg(None, 10, None));
    s.ingest(&b"f".to_vec(), &b"pear plum pear apple plum fig".to_vec());
    assert_eq!(s.report(4), s.report(4));
}

fn entry(path: &str, name: &str, content: &str) -> FileEntry {
    FileEntry {
        path: path.as_bytes().to_vec(),
        name: name.as_bytes().to_vec(),
        content: content.as_bytes().to_vec(),
    }
}

#[test]
fn run_ingests_all_files_without_filter() {
    let mut s = Scanner::new(cfg(None, 10, None));
    let files = vec![
        entry("root/a.log", "a.log", "one two\nthree"),
        entry("root/sub/b.log", "b.log", "four\nfive\nsix"),
    ];
    let ps = s.run(&files);
    assert!(ps.is_empty());
    assert_eq!(s.totals.files_scanned, 2);
    assert_eq!(s.totals.total_lines, 5);
}

#[test]
fn run_skips_files_the_filter_rejects() {
    let mut s = Scanner::new(cfg(Some("log"), 10, None));
    let files = vec![
        entry("root/a.log", "a.log", "kept words"),
        entry("root/b.txt", "b.txt", "dropped words"),
    ];
    s.run(&files);
    assert_eq!(s.totals.files_scanned, 1);
    let top = s.report(10);
    assert_eq!(top, vec![(b"kept".to_vec(), 1), (b"words".to_vec(), 1)]);
}

#[test]
fn run_end_to_end_top_one() {
    let mut s = Scanner::new(cfg(None, 1, None));
    let files = vec![entry("root/only.txt", "only.txt", "cat dog cat")];
    s.run(&files);
    assert_eq!(s.totals.files_scanned, 1);
    let top = s.report(s.cfg.top);
    assert_eq!(top, vec![(b"cat".to_vec(), 2)]);
}

#[test]
fn run_previews_carry_paths_in_order() {
    let mut s = Scanner::new(cfg(None, 10, Some("foo")));
    let files = vec![
        entry("root/a.log", "a.log", "foo\nbar"),
        entry("root/b.log", "b.log", "nothing\nFOO too"),
    ];
    let ps = s.run(&files);
    assert_eq!(ps.len(), 2);
    assert_eq!(ps[0].path, b"root/a.log".to_vec());
    assert_eq!(ps[0].line_no, 1);
    assert_eq!(ps[1].path, b"root/b.log".to_vec());
    assert_eq!(ps[1].line_no, 2);
    assert_eq!(s.totals.hits, 2);
}
