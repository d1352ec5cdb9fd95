use b2_backup::client::{Backoff, Pages, basic_authorization, content_sha1, hex_encode};
use b2_backup::plan::Blob;
use b2_backup::walk::{action, visit, Action, EntryKind, Visit};
use b2_backup::config::{path_lies_under, Config};
use b2_backup::glob::{glob_match, passes_filter};
use b2_backup::names::{archive_name, decimal_of, parse_id, parse_name, patchset_name};
use b2_backup::plan::{below_pattern, strip_root};
use b2_backup::sort::{rank_not_behind, sorted_order, Rank};

fn config(key: &str, excludes: &[&str]) -> Config {
    Config {
        app_key_id: String::new(),
        app_key: String::new(),
        bucket_id: String::new(),
        bucket_name: String::new(),
        key: key.to_string(),
        includes: vec![b"/a".to_vec()],
        excludes: excludes.iter().map(|e| e.as_bytes().to_vec()).collect(),
        keep_deleted_files: Config::def_keep_deleted_files(),
        num_threads: None,
        compression_level: Config::def_compression_level(),
        min_archive_len: Config::def_min_archive_len(),
        max_manifest_len: Config::def_max_manifest_len(),
        small_archives_upper_limit: Config::def_small_archives_upper_limit(),
        small_archives_lower_limit: Config::def_small_archives_lower_limit(),
        small_patchsets_limit: Config::def_small_patchsets_limit(),
    }
}

#[test]
fn defaults_are_the_documented_ones() {
    assert!(!Config::def_keep_deleted_files());
    assert_eq!(Config::def_compression_level(), 17);
    assert_eq!(Config::def_min_archive_len(), 50_000_000);
    assert_eq!(Config::def_max_manifest_len(), 10_000_000);
    assert_eq!(Config::def_small_archives_upper_limit(), 10);
    assert_eq!(Config::def_small_archives_lower_limit(), 5);
    assert_eq!(Config::def_small_patchsets_limit(), 25);
}

#[test]
fn key_is_read_from_sixty_four_hex_digits() {
    let text = "000102030405060708090a0b0c0d0e0f101112131415161718191A1B1C1D1E1F";
    let key = config(text, &[]).key().unwrap();
    let want: Vec<u8> = (0..32u8).collect();
    assert_eq!(key.to_vec(), want);
}

#[test]
fn key_of_all_ff_is_read_in_both_cases() {
    assert_eq!(config(&"ff".repeat(32), &[]).key(), Some([0xFFu8; 32]));
    assert_eq!(config(&"FF".repeat(32), &[]).key(), Some([0xFFu8; 32]));
}

#[test]
fn key_of_wrong_length_is_refused() {
    assert_eq!(config(&"ab".repeat(31), &[]).key(), None);
    assert_eq!(config(&"ab".repeat(33), &[]).key(), None);
    assert_eq!(config("", &[]).key(), None);
    assert_eq!(config(&"a".repeat(63), &[]).key(), None);
}

#[test]
fn key_with_another_character_is_refused() {
    let mut text = "ab".repeat(32);
    text.replace_range(10..11, "g");
    assert_eq!(config(&text, &[]).key(), None);
    let mut wide = "ab".repeat(31);
    wide.push('é');
    assert_eq!(config(&wide, &[]).key(), None);
}

#[test]
fn a_path_lies_under_itself_and_under_what_is_above_it() {
    assert!(path_lies_under(b"/a/b", b"/a/b"));
    assert!(path_lies_under(b"/a/b/c", b"/a/b"));
    assert!(path_lies_under(b"/a/b/c", b"/a/b/"));
    assert!(path_lies_under(b"/a/b", b"/"));
    assert!(path_lies_under(b"/a/b", b""));
    assert!(path_lies_under(b"/a/b", b"/a/b/"));
    assert!(path_lies_under(b"/a/b", b"/a/b//"));
    assert!(path_lies_under(b"/a", b"//"));
    assert!(!path_lies_under(b"a", b"/"));
    assert!(!path_lies_under(b"/a/bc", b"/a/b/"));
    assert!(!path_lies_under(b"/a/bc", b"/a/b"));
    assert!(!path_lies_under(b"/a", b"/a/b"));
    assert!(!path_lies_under(b"/x/b", b"/a/b"));
}

#[test]
fn the_first_exclude_that_covers_a_path_is_found() {
    let c = config("", &["/a/skip", "/a", "/b"]);
    assert_eq!(c.exclude_of(b"/a/skip/file"), Some(0));
    assert_eq!(c.exclude_of(b"/a/keep"), Some(1));
    assert_eq!(c.exclude_of(b"/b"), Some(2));
    assert_eq!(c.exclude_of(b"/c/file"), None);
    assert_eq!(config("", &[]).exclude_of(b"/a"), None);
}

#[test]
fn blob_names_hold_the_id_in_decimal() {
    assert_eq!(archive_name(5), b"archive_5".to_vec());
    assert_eq!(archive_name(1234567890), b"archive_1234567890".to_vec());
    assert_eq!(patchset_name(0), b"manifest_0".to_vec());
    assert_eq!(patchset_name(-17), b"manifest_-17".to_vec());
    assert_eq!(decimal_of(i64::MAX), b"9223372036854775807".to_vec());
    assert_eq!(decimal_of(i64::MIN), b"-9223372036854775808".to_vec());
}

#[test]
fn ids_are_read_from_blob_names() {
    assert_eq!(parse_name(b"archive_5", b"archive_"), Some(5));
    assert_eq!(parse_name(b"manifest_42", b"manifest_"), Some(42));
    assert_eq!(parse_name(b"manifest_manifest_7", b"manifest_"), Some(7));
    assert_eq!(parse_name(b"12", b"manifest_"), Some(12));
    assert_eq!(parse_name(&archive_name(i64::MAX), b"archive_"), Some(i64::MAX));
    assert_eq!(parse_name(&patchset_name(i64::MIN), b"manifest_"), Some(i64::MIN));
}

#[test]
fn names_without_an_id_are_refused() {
    assert_eq!(parse_name(b"manifest_", b"manifest_"), None);
    assert_eq!(parse_name(b"manifest_x1", b"manifest_"), None);
    assert_eq!(parse_name(b"manifest_1x", b"manifest_"), None);
    assert_eq!(parse_name(b"archive_5", b"manifest_"), None);
    assert_eq!(parse_name(b"manifest_ 5", b"manifest_"), None);
}

#[test]
fn numbers_are_read_as_the_standard_library_reads_them() {
    for text in ["0", "7", "007", "+7", "-7", "-0", "9223372036854775807", "-9223372036854775808",
        "9223372036854775808", "-9223372036854775809", "99999999999999999999999999", "", "+", "-",
        "1-", "--1", "1 ", " 1", "0x10", "1_000"]
    {
        assert_eq!(parse_id(text.as_bytes()), text.parse::<i64>().ok(), "{:?}", text);
    }
}

#[test]
fn glob_star_stands_for_any_run() {
    assert!(glob_match(b"*", b""));
    assert!(glob_match(b"*", b"/a/b/c"));
    assert!(glob_match(b"/a/*", b"/a/b/c"));
    assert!(glob_match(b"/a/*.txt", b"/a/b/c.txt"));
    assert!(glob_match(b"*a*b*", b"xxaxxbxx"));
    assert!(!glob_match(b"/a/*", b"/b/c"));
    assert!(!glob_match(b"*.txt", b"c.txt2"));
}

#[test]
fn glob_question_mark_stands_for_one_byte() {
    assert!(glob_match(b"a?c", b"abc"));
    assert!(!glob_match(b"a?c", b"ac"));
    assert!(!glob_match(b"a?c", b"abbc"));
    assert!(glob_match(b"??", b"xy"));
    assert!(!glob_match(b"?", b""));
}

#[test]
fn glob_other_bytes_stand_for_themselves() {
    assert!(glob_match(b"", b""));
    assert!(!glob_match(b"", b"a"));
    assert!(glob_match(b"/a/b", b"/a/b"));
    assert!(!glob_match(b"/a/b", b"/a/B"));
    assert!(!glob_match(b"/a/b", b"/a/bc"));
    assert!(glob_match(&[0xFF, b'*', 0x00], &[0xFF, 1, 2, 3, 0x00]));
}

#[test]
fn every_path_passes_where_there_is_no_filter() {
    assert!(passes_filter(None, b"/anything"));
    assert!(passes_filter(Some(b"/any*"), b"/anything"));
    assert!(!passes_filter(Some(b"/no*"), b"/anything"));
}

#[test]
fn ranks_are_compared_part_by_part() {
    let r = |a, b, c| Rank { a, b, c };
    assert!(rank_not_behind(&r(1, 9, 9), &r(2, 0, 0)));
    assert!(rank_not_behind(&r(1, 1, 9), &r(1, 2, 0)));
    assert!(rank_not_behind(&r(1, 1, 1), &r(1, 1, 1)));
    assert!(!rank_not_behind(&r(1, 1, 2), &r(1, 1, 1)));
    assert!(!rank_not_behind(&r(2, 0, 0), &r(1, 9, 9)));
}

#[test]
fn sorted_order_lists_lowest_rank_first_and_equals_in_their_order() {
    let ranks: Vec<Rank> = [5, 1, 3, 1, 4, 5, 0].iter().map(|&a| Rank { a, b: 0, c: 0 }).collect();
    assert_eq!(sorted_order(&ranks), vec![6, 1, 3, 2, 4, 0, 5]);
    assert_eq!(sorted_order(&Vec::new()), Vec::<usize>::new());
}

#[test]
fn upload_is_given_up_at_the_fifth_failure() {
    let mut backoff = Backoff::new();
    assert_eq!(backoff.failed(), Some(1));
    assert_eq!(backoff.failed(), Some(2));
    assert_eq!(backoff.failed(), Some(4));
    assert_eq!(backoff.failed(), Some(8));
    assert_eq!(backoff.failed(), None);
}

#[test]
fn paths_are_taken_relative_to_the_root() {
    assert_eq!(strip_root(b"/a/b"), Some(b"a/b".to_vec()));
    assert_eq!(strip_root(b"//a"), Some(b"a".to_vec()));
    assert_eq!(strip_root(b"/"), Some(Vec::new()));
    assert_eq!(strip_root(b"a/b"), None);
    assert_eq!(strip_root(b""), None);
}

#[test]
fn the_pattern_below_a_directory_ends_in_a_star() {
    assert_eq!(below_pattern(b"/a"), b"/a/*".to_vec());
    assert_eq!(below_pattern(b"/a/"), b"/a/*".to_vec());
    assert_eq!(below_pattern(b""), b"/*".to_vec());
}

#[test]
fn the_account_is_authorized_with_its_key_in_base64() {
    let mut c = config("", &[]);
    c.app_key_id = "user".to_string();
    c.app_key = "pass".to_string();
    assert_eq!(basic_authorization(&c), Some(b"Basic dXNlcjpwYXNz".to_vec()));
    c.app_key = "p".to_string();
    assert_eq!(basic_authorization(&c), Some(b"Basic dXNlcjpw".to_vec()));
    c.app_key_id = String::new();
    c.app_key = String::new();
    assert_eq!(basic_authorization(&c), Some(b"Basic Og==".to_vec()));
}

#[test]
fn an_upload_is_vouched_for_by_its_sha1_in_hex() {
    assert_eq!(content_sha1(b"abc"), b"a9993e364706816aba3e25717850c26c9cd0d89d".to_vec());
    assert_eq!(content_sha1(b""), b"da39a3ee5e6b4b0d3255bfef95601890afd80709".to_vec());
}

#[test]
fn the_walk_stops_on_interrupt_and_skips_what_is_excluded() {
    let c = config("", &["/a/skip"]);
    assert_eq!(visit(&c, true, b"/a/keep"), Visit::Interrupted);
    assert_eq!(visit(&c, true, b"/a/skip"), Visit::Interrupted);
    assert_eq!(visit(&c, false, b"/a/skip/x"), Visit::Excluded(0));
    assert_eq!(visit(&c, false, b"/a/keep"), Visit::Look);
}

#[test]
fn the_walk_acts_by_the_kind_of_what_it_finds() {
    assert_eq!(action(None), Action::Nothing);
    assert_eq!(action(Some(EntryKind::Directory)), Action::EnterDirectory);
    assert_eq!(action(Some(EntryKind::File)), Action::StoreFile);
    assert_eq!(action(Some(EntryKind::SymbolicLink)), Action::NoteSymbolicLink);
    assert_eq!(action(Some(EntryKind::Other)), Action::SkipUnsupported);
}

#[test]
fn a_listing_joins_its_pages() {
    let blob = |name: &str| Blob { name: name.as_bytes().to_vec(), file_id: Vec::new(), length: 1 };
    let mut pages = Pages::new();
    assert!(pages.next_start().is_none() && !pages.is_done());
    assert!(pages.take(vec![blob("a"), blob("b")], Some(b"c".to_vec())));
    assert_eq!(pages.next_start(), Some(&b"c".to_vec()));
    assert!(!pages.take(vec![blob("c")], None));
    assert!(pages.is_done() && pages.next_start().is_none());
    let names: Vec<Vec<u8>> = pages.into_blobs().into_iter().map(|b| b.name).collect();
    assert_eq!(names, vec![b"a".to_vec(), b"b".to_vec(), b"c".to_vec()]);
}

#[test]
fn glob_set_stands_for_one_byte_out_of_it() {
    assert!(glob_match(b"/a/[bc]*", b"/a/b1"));
    assert!(glob_match(b"/a/[bc]*", b"/a/c"));
    assert!(!glob_match(b"/a/[bc]*", b"/a/d1"));
    assert!(!glob_match(b"/a/[bc]", b"/a/"));
    assert!(glob_match(b"*[0-9]", b"file7"));
    assert!(!glob_match(b"*[0-9]", b"file"));
    assert!(glob_match(b"[a-c][a-c]", b"ca"));
    assert!(!glob_match(b"[a-c]", b"d"));
    assert!(glob_match(b"x[a-c-e]", b"x-"));
    assert!(glob_match(b"x[a-c-e]", b"xe"));
    assert!(!glob_match(b"x[a-c-e]", b"xd"));
    assert!(glob_match(b"[-a]", b"-"));
    assert!(glob_match(b"[a-]", b"-"));
    assert!(glob_match(b"[a-]", b"a"));
    assert!(!glob_match(b"[a-]", b"b"));
}

#[test]
fn glob_set_can_be_inverted_and_hold_a_closing_bracket() {
    assert!(glob_match(b"[^a]", b"b"));
    assert!(!glob_match(b"[^a]", b"a"));
    assert!(!glob_match(b"[^a]", b""));
    assert!(glob_match(b"[]]", b"]"));
    assert!(!glob_match(b"[]]", b"a"));
    assert!(glob_match(b"[]a]", b"a"));
    assert!(glob_match(b"[^]]", b"a"));
    assert!(!glob_match(b"[^]]", b"]"));
    assert!(glob_match(b"[[]", b"["));
    assert!(glob_match(b"[*?]", b"*"));
    assert!(!glob_match(b"[*?]", b"a"));
}

#[test]
fn glob_set_that_is_not_closed_matches_nothing() {
    assert!(!glob_match(b"[", b"["));
    assert!(!glob_match(b"[", b""));
    assert!(!glob_match(b"a[", b"a["));
    assert!(!glob_match(b"a[bc", b"ab"));
    assert!(!glob_match(b"[]", b"]"));
    assert!(!glob_match(b"[^]", b"a"));
    assert!(!glob_match(b"*[", b"abc"));
}

/// Every pattern of up to `len` of the given bytes.
fn words(alphabet: &[u8], len: usize) -> Vec<Vec<u8>> {
    let mut all = vec![Vec::new()];
    let mut last = vec![Vec::new()];
    for _ in 0..len {
        let mut next = Vec::new();
        for w in &last {
            for b in alphabet {
                let mut longer = w.clone();
                longer.push(*b);
                next.push(longer);
            }
        }
        all.extend(next.iter().cloned());
        last = next;
    }
    all
}

#[test]
fn glob_agrees_with_the_database_engine_on_short_patterns() {
    let conn = rusqlite::Connection::open_in_memory().unwrap();
    let mut stmt = conn.prepare("SELECT ?1 GLOB ?2").unwrap();
    let patterns = words(b"ab-]^[*?", 4);
    let texts = words(b"ab-]", 3);
    for pattern in &patterns {
        let p = std::str::from_utf8(pattern).unwrap();
        for text in &texts {
            let t = std::str::from_utf8(text).unwrap();
            let expected: bool = stmt.query_row((t, p), |row| row.get(0)).unwrap();
            assert_eq!(glob_match(pattern, text), expected, "{:?} against {:?}", p, t);
        }
    }
}

#[test]
fn glob_agrees_with_the_database_engine_on_sets() {
    let conn = rusqlite::Connection::open_in_memory().unwrap();
    let mut stmt = conn.prepare("SELECT ?1 GLOB ?2").unwrap();
    let texts = words(b"abc-]^", 2);
    for inner in words(b"ac-]^", 5) {
        let mut pattern = b"[".to_vec();
        pattern.extend_from_slice(&inner);
        pattern.extend_from_slice(b"]*");
        let p = std::str::from_utf8(&pattern).unwrap();
        for text in &texts {
            // bound as byte strings, as paths are
            let expected: bool = stmt.query_row((&text[..], &pattern[..]), |row| row.get(0)).unwrap();
            assert_eq!(glob_match(&pattern, text), expected, "{:?} against {:?}", p, text);
        }
    }
}

#[test]
fn hex_text_has_two_lower_case_digits_for_each_byte() {
    assert_eq!(hex_encode(b""), b"".to_vec());
    assert_eq!(hex_encode(&[0x00, 0x09, 0x0a, 0x9f, 0xa0, 0xff]), b"00090a9fa0ff".to_vec());
    let all: Vec<u8> = (0..=255u8).collect();
    assert_eq!(hex_encode(&all), hex::encode(&all).into_bytes());
}

#[test]
fn glob_reads_characters_not_bytes() {
    // one character of two bytes
    assert!(glob_match(b"/a/?.txt", "/a/\u{e9}.txt".as_bytes()));
    assert!(!glob_match(b"/a/??.txt", "/a/\u{e9}.txt".as_bytes()));
    assert!(glob_match("[\u{e0}-\u{ef}]".as_bytes(), "\u{e9}".as_bytes()));
    assert!(!glob_match("[\u{e0}-\u{e8}]".as_bytes(), "\u{e9}".as_bytes()));
    assert!(glob_match("*\u{e9}".as_bytes(), "caf\u{e9}".as_bytes()));
    // the second byte of a character is no character of the path
    assert!(!glob_match(&[b'*', 0xA9], &[0xC3, 0xA9]));
    // a zero byte ends pattern and path
    assert!(glob_match(&[b'a', 0, b'b'], &[b'a', 0, b'c']));
    assert!(glob_match(&[b'a', 0, b'b'], b"a"));
    assert!(!glob_match(&[b'a', b'b', 0], b"a"));
}

#[test]
fn glob_agrees_with_the_database_engine_on_bytes_that_are_no_text() {
    let conn = rusqlite::Connection::open_in_memory().unwrap();
    let mut stmt = conn.prepare("SELECT ?1 GLOB ?2").unwrap();
    let patterns = words(&[b'a', b'?', b'*', 0xC3, 0xA9, 0xFF, 0x00], 4);
    let texts = words(&[b'a', 0xC3, 0xA9, 0xFF, 0x00], 3);
    for pattern in &patterns {
        for text in &texts {
            let expected: bool = stmt.query_row((&text[..], &pattern[..]), |row| row.get(0)).unwrap();
            assert_eq!(glob_match(pattern, text), expected, "{:?} against {:?}", pattern, text);
        }
    }
}

#[test]
fn glob_agrees_with_the_database_engine_on_sets_of_characters() {
    let conn = rusqlite::Connection::open_in_memory().unwrap();
    let mut stmt = conn.prepare("SELECT ?1 GLOB ?2").unwrap();
    let texts = words(&[b'a', b'-', 0xC3, 0xA9, 0xE9], 2);
    for inner in words(&[b'a', b'-', b']', 0xC3, 0xA9, 0xE9], 4) {
        let mut pattern = b"[".to_vec();
        pattern.extend_from_slice(&inner);
        pattern.push(b']');
        for text in &texts {
            let expected: bool = stmt.query_row((&text[..], &pattern[..]), |row| row.get(0)).unwrap();
            assert_eq!(glob_match(&pattern, text), expected, "{:?} against {:?}", pattern, text);
        }
    }
}

#[test]
fn glob_agrees_with_the_database_engine_on_odd_characters() {
    let conn = rusqlite::Connection::open_in_memory().unwrap();
    let mut stmt = conn.prepare("SELECT ?1 GLOB ?2").unwrap();
    let odd: Vec<Vec<u8>> = vec![
        vec![0xED, 0xA0, 0x80],
        vec![0xEF, 0xBF, 0xBD],
        vec![0xC0, 0x80],
        vec![0xC1, 0xBF],
        vec![0xC2, 0x80],
        vec![0x80],
        vec![0xBF],
        vec![0xF4, 0x90, 0x80, 0x80],
        vec![0xF7, 0xBF, 0xBF, 0xBF],
        vec![0xF8, 0x88, 0x80, 0x80, 0x80],
        vec![0xFD, 0xBF, 0xBF, 0xBF, 0xBF, 0xBF],
        vec![0xFE, 0x83, 0xBF, 0xBF, 0xBF, 0xBF, 0xBF],
        vec![0xFF, 0xBF, 0xBF, 0xBF, 0xBF, 0xBF, 0xBF, 0xBF],
        vec![0xDF, 0xBF, 0xBF, 0xBF, 0xBF, 0xBF, 0xBF, 0xBF, 0xBF],
        vec![0xE2, 0x82, 0xAC],
        vec![0xE2, 0x82],
        vec![0xE2],
        vec![0xF0, 0x9F, 0x98, 0x80],
        vec![b'a'],
        vec![],
    ];
    let mut patterns = odd.clone();
    for o in &odd {
        patterns.push([&b"?"[..], &o[..]].concat());
        patterns.push([&o[..], &b"*"[..]].concat());
        patterns.push([&b"["[..], &o[..], &b"]"[..]].concat());
        patterns.push([&b"[^"[..], &o[..], &b"]"[..]].concat());
        patterns.push([&b"[a-"[..], &o[..], &b"]"[..]].concat());
        patterns.push([&b"["[..], &o[..], &b"-"[..], &[0xF4, 0x8F, 0xBF, 0xBF][..], &b"]"[..]].concat());
    }
    patterns.push(b"?".to_vec());
    patterns.push(b"??".to_vec());
    let mut texts = odd.clone();
    for o in &odd {
        texts.push([&b"a"[..], &o[..]].concat());
        texts.push([&o[..], &o[..]].concat());
    }
    for pattern in &patterns {
        for text in &texts {
            let expected: bool = stmt.query_row((&text[..], &pattern[..]), |row| row.get(0)).unwrap();
            assert_eq!(glob_match(pattern, text), expected, "{:?} against {:?}", pattern, text);
        }
    }
}
