use aygrep::meminfo::{parse_mem_available, parse_u64, skips_content_file, split_words};
use aygrep::meta::parse_repo_dir;
use aygrep::paths::{is_skipped_extension, keep_path, select_listed_paths};

#[test]
fn skipped_extensions() {
    for e in ["png", "jpg", "o", "a", "7z", "woff2", "sqlite3", "class"] {
        assert!(is_skipped_extension(e.as_bytes()), "{}", e);
    }
    for e in ["rs", "PNG", "cc", "", "sqlite4", "oo"] {
        assert!(!is_skipped_extension(e.as_bytes()), "{}", e);
    }
}

#[test]
fn paths_with_skipped_extensions_are_dropped() {
    assert!(keep_path(b"src/main.rs"));
    assert!(!keep_path(b"assets/logo.png"));
    assert!(!keep_path(b"assets/LOGO.PNG"));
    assert!(!keep_path(b"lib/libfoo.so"));
    assert!(keep_path(b"Makefile"));
    assert!(keep_path(b".gitignore"));
    assert!(!keep_path(b"dir/.hidden.png"));
    assert!(keep_path(b"archive.tar.gz.txt"));
    assert!(!keep_path(b"archive.tar.gz"));
}

#[test]
fn path_extension_is_taken_from_the_file_name() {
    assert!(keep_path(b"images.png/readme"));
    assert!(!keep_path(b"docs/a.pdf/"));
    assert!(!keep_path(b"docs/a.pdf/."));
    assert!(keep_path(b"docs/a.pdf/.."));
}

#[test]
fn empty_and_non_utf8_paths_are_dropped() {
    assert!(!keep_path(b""));
    assert!(!keep_path(b"bad\xff.rs"));
    assert!(keep_path("caf\u{e9}.rs".as_bytes()));
}

#[test]
fn extension_is_lower_cased_with_unicode_rules() {
    // KELVIN SIGN lower-cases to an ASCII 'k'
    assert!(!keep_path("x.pac\u{212a}".as_bytes()));
    assert!(keep_path("x.p\u{e4}ck".as_bytes()));
}

#[test]
fn listing_is_split_at_nul_bytes() {
    let listing = b"a.rs\0b.png\0\0c/d.txt\0e.JPG\0f";
    let got = select_listed_paths(listing);
    assert_eq!(got, vec![b"a.rs".to_vec(), b"c/d.txt".to_vec(), b"f".to_vec()]);
    assert!(select_listed_paths(b"").is_empty());
    assert!(select_listed_paths(b"\0\0").is_empty());
}

#[test]
fn words_split_at_unicode_white_space() {
    assert_eq!(
        split_words(b"  MemAvailable:\t 1234 kB\r"),
        vec![b"MemAvailable:".to_vec(), b"1234".to_vec(), b"kB".to_vec()]
    );
    assert_eq!(
        split_words("a\u{a0}b\u{3000}c\u{2003}d".as_bytes()),
        vec![b"a".to_vec(), b"b".to_vec(), b"c".to_vec(), b"d".to_vec()]
    );
    assert_eq!(split_words("\u{e9}".as_bytes()), vec!["\u{e9}".as_bytes().to_vec()]);
    assert!(split_words(b" \n ").is_empty());
}

#[test]
fn decimal_parsing_follows_str_parse() {
    for w in ["0", "42", "+7", "18446744073709551615", "007"] {
        assert_eq!(parse_u64(w.as_bytes()), w.parse::<u64>().ok(), "{}", w);
    }
    for w in ["", "+", "-1", "18446744073709551616", "99999999999999999999", "1a", " 1"] {
        assert_eq!(parse_u64(w.as_bytes()), None, "{}", w);
    }
}

#[test]
fn available_memory_from_report() {
    let report = b"MemTotal:       16000000 kB\nMemFree:  100 kB\nMemAvailable:    8000000 kB\nBuffers: 1 kB\n";
    assert_eq!(parse_mem_available(report), 8_000_000 * 1024);
}

#[test]
fn available_memory_missing_is_zero() {
    assert_eq!(parse_mem_available(b"MemTotal: 5 kB\n"), 0);
    assert_eq!(parse_mem_available(b""), 0);
    assert_eq!(parse_mem_available(b"MemAvailable:\nMemAvailable: x kB\n"), 0);
}

#[test]
fn available_memory_takes_first_line_that_parses() {
    let report = b"MemAvailable: oops\nMemAvailable: 3 kB\nMemAvailable: 9 kB";
    assert_eq!(parse_mem_available(report), 3 * 1024);
    assert_eq!(parse_mem_available(b"MemAvailable: 12"), 12 * 1024);
    assert_eq!(parse_mem_available(b"MemAvailable:7 kB\n"), 0);
}

#[test]
fn available_memory_multiplication_wraps() {
    assert_eq!(
        parse_mem_available(b"MemAvailable: 18446744073709551615 kB\n"),
        18446744073709551615u64.wrapping_mul(1024)
    );
}

#[test]
fn repo_dir_from_metadata() {
    let meta = b"repo_dir=/home/me/code\nfiles_indexed=3\n";
    assert_eq!(parse_repo_dir(meta), b"/home/me/code".to_vec());
}

#[test]
fn repo_dir_line_ending_and_repeats() {
    assert_eq!(parse_repo_dir(b"x=1\r\nrepo_dir=/a/b\r\n"), b"/a/b".to_vec());
    assert_eq!(parse_repo_dir(b"repo_dir=/a\r"), b"/a\r".to_vec());
    assert_eq!(parse_repo_dir(b"repo_dir=repo_dir=/c"), b"/c".to_vec());
    assert_eq!(parse_repo_dir(b"files=1\n"), Vec::<u8>::new());
    assert_eq!(parse_repo_dir(b" repo_dir=/x\nrepo_dir=/y"), b"/y".to_vec());
}

#[test]
fn content_file_is_skipped_under_eight_gib() {
    assert!(!skips_content_file(0));
    assert!(skips_content_file(1));
    assert!(skips_content_file(8 * 1024 * 1024 * 1024 - 1));
    assert!(!skips_content_file(8 * 1024 * 1024 * 1024));
}
