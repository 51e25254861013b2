use loch::blob::{first_line_of, has_extension, has_shebang, sniff_binary};
use loch::counts::{Counts, LangTotals};
use loch::excludes::{bytes_equal, parse_excludes, path_components_of, step_excludes};
use loch::output::{
    bytes_less, clamp_timestamp, commit_rows, commit_rows_of_known, grand_total, languages_known,
    object_cache_bytes, sampled_indices,
    sorted_language_rows, RowError, MAX_RFC3339_SECONDS, MIN_RFC3339_SECONDS,
};
use loch::repo::ObjectKind;
use loch::walk::{chain_from_walk, oldest_first, peel_step, PeelStep, WalkError};

fn counts(files: u64, code: u64, comments: u64, blanks: u64) -> Counts {
    Counts { files, code, comments, blanks }
}

fn lang(l: tokei::LanguageType) -> u32 {
    l as u32
}

#[test]
fn excludes_normalize_slashes() {
    let parsed = parse_excludes(&[
        "vendor/".to_string(),
        "/src/generated".to_string(),
        "./docs".to_string(),
        "a//b/".to_string(),
        "/".to_string(),
        "".to_string(),
    ]);
    let as_strings: Vec<Vec<String>> = parsed
        .iter()
        .map(|p| p.iter().map(|c| String::from_utf8(c.clone()).unwrap()).collect())
        .collect();
    assert_eq!(
        as_strings,
        vec![
            vec!["vendor".to_string()],
            vec!["src".to_string(), "generated".to_string()],
            vec!["docs".to_string()],
            vec!["a".to_string(), "b".to_string()],
        ]
    );
}

#[test]
fn path_components_drop_empty_and_dot_parts() {
    assert_eq!(path_components_of(b"./a/./b//c/"), vec![b"a".to_vec(), b"b".to_vec(), b"c".to_vec()]);
    assert_eq!(path_components_of(b"../x"), vec![b"..".to_vec(), b"x".to_vec()]);
    assert!(path_components_of(b"/./").is_empty());
}

#[test]
fn counts_add_is_componentwise() {
    let mut a = counts(1, 10, 2, 3);
    a.add(&counts(2, 5, 7, 11));
    assert_eq!(a, counts(3, 15, 9, 14));
    let zero = Counts::default();
    assert_eq!(zero, counts(0, 0, 0, 0));
}

#[test]
fn checked_sum_reports_overflow() {
    let big = counts(0, u64::MAX, 0, 0);
    assert_eq!(big.checked_sum(&counts(0, 1, 0, 0)), None);
    assert_eq!(big.checked_sum(&counts(4, 0, 0, 0)), Some(counts(4, u64::MAX, 0, 0)));
}

#[test]
fn lang_totals_add_keeps_language_order() {
    let mut t = LangTotals::new();
    assert!(t.add_language_counts(7, counts(1, 1, 0, 0)).is_ok());
    assert!(t.add_language_counts(3, counts(1, 2, 0, 0)).is_ok());
    assert!(t.add_language_counts(7, counts(1, 4, 1, 1)).is_ok());
    assert_eq!(t.len(), 2);
    assert_eq!(t.to_entries()[0], (3, counts(1, 2, 0, 0)));
    assert_eq!(t.to_entries()[1], (7, counts(2, 5, 1, 1)));
    assert!(t.add_language_counts(3, counts(0, u64::MAX, 0, 0)).is_err());
    assert_eq!(t.to_entries()[0], (3, counts(1, 2, 0, 0)));
}

#[test]
fn lang_totals_merge_sums_languagewise() {
    let mut a = LangTotals::new();
    a.add_language_counts(1, counts(1, 10, 0, 0)).unwrap();
    a.add_language_counts(5, counts(1, 1, 1, 1)).unwrap();
    let mut b = LangTotals::new();
    b.add_language_counts(5, counts(2, 2, 2, 2)).unwrap();
    b.add_language_counts(9, counts(1, 3, 0, 0)).unwrap();
    a.merge(&b).unwrap();
    assert_eq!(a.len(), 3);
    assert_eq!(a.to_entries()[0], (1, counts(1, 10, 0, 0)));
    assert_eq!(a.to_entries()[1], (5, counts(3, 3, 3, 3)));
    assert_eq!(a.to_entries()[2], (9, counts(1, 3, 0, 0)));
}

#[test]
fn binary_sniff_looks_at_first_8_kib_only() {
    assert!(sniff_binary(b"\x89BIN\x00\x01\x02data"));
    assert!(!sniff_binary(b"plain text\n"));
    let mut late = vec![b'a'; 8 * 1024];
    late.push(0);
    assert!(!sniff_binary(&late));
    late[8 * 1024 - 1] = 0;
    assert!(sniff_binary(&late));
}

#[test]
fn first_line_stops_at_newline_and_limit() {
    assert_eq!(first_line_of(b"#!/bin/sh\necho hi\n"), b"#!/bin/sh".to_vec());
    assert_eq!(first_line_of(b"no newline"), b"no newline".to_vec());
    assert_eq!(first_line_of(b""), Vec::<u8>::new());
    let long = vec![b'x'; 5000];
    assert_eq!(first_line_of(&long).len(), 4096);
}

#[test]
fn shebang_allows_leading_whitespace() {
    assert!(has_shebang(b"#!/usr/bin/env python3"));
    assert!(has_shebang(b" \t#!/bin/sh"));
    assert!(!has_shebang(b"# !/bin/sh"));
    assert!(!has_shebang(b"#"));
    assert!(!has_shebang(b""));
}

#[test]
fn extension_follows_path_rules() {
    assert!(has_extension(b"main.rs"));
    assert!(has_extension(b"notes.xyzzy"));
    assert!(!has_extension(b"runme"));
    assert!(!has_extension(b".gitignore"));
    assert!(has_extension(b".eslintrc.json"));
    assert!(!has_extension(b".."));
    assert!(has_extension(b"archive.tar.gz"));
}

#[test]
fn exclude_step_prunes_whole_components() {
    let pats = parse_excludes(&["a/sub".to_string(), "notes.xyzzy".to_string()]);
    let root: Vec<(usize, usize)> = vec![(0, 0), (1, 0)];
    let (pruned, child) = step_excludes(&pats, &root, &b"a".to_vec());
    assert!(!pruned);
    assert_eq!(child, vec![(0, 1)]);
    let (pruned, _) = step_excludes(&pats, &child, &b"sub".to_vec());
    assert!(pruned);
    let (pruned, child2) = step_excludes(&pats, &child, &b"subway".to_vec());
    assert!(!pruned);
    assert!(child2.is_empty());
    let (pruned, _) = step_excludes(&pats, &root, &b"notes.xyzzy".to_vec());
    assert!(pruned);
    let (pruned, child3) = step_excludes(&pats, &root, &b"b".to_vec());
    assert!(!pruned);
    assert!(child3.is_empty());
}

#[test]
fn byte_comparisons() {
    assert!(bytes_equal(&b"abc".to_vec(), &b"abc".to_vec()));
    assert!(!bytes_equal(&b"abc".to_vec(), &b"abd".to_vec()));
    assert!(bytes_less(b"Python", b"Rust"));
    assert!(bytes_less(b"JSON", b"Jupyter Notebooks"));
    assert!(bytes_less(b"Rus", b"Rust"));
    assert!(!bytes_less(b"Rust", b"Rust"));
    assert!(!bytes_less(b"a", b"B"));
}

#[test]
fn history_is_reversed_to_oldest_first() {
    let ids = vec![(3u128, 3u32), (2, 2), (1, 1)];
    assert_eq!(oldest_first(ids), vec![(1u128, 1u32), (2, 2), (3, 3)]);
    assert!(oldest_first(Vec::new()).is_empty());
}

#[test]
fn walk_from_its_tip_is_listed_oldest_first() {
    let walked = vec![(3u128, 3u32), (2, 2), (1, 1)];
    assert_eq!(chain_from_walk((3, 3), walked).ok().unwrap(), vec![(1u128, 1u32), (2, 2), (3, 3)]);
    assert_eq!(chain_from_walk((7, 7), vec![(7u128, 7u32)]).ok().unwrap(), vec![(7u128, 7u32)]);
}

#[test]
fn walk_not_from_its_tip_is_refused() {
    assert!(matches!(chain_from_walk((3, 3), Vec::new()), Err(WalkError::NotFromTip((3, 3)))));
    assert!(matches!(
        chain_from_walk((3, 3), vec![(2u128, 2u32), (3, 3)]),
        Err(WalkError::NotFromTip((3, 3)))
    ));
}

#[test]
fn sampling_keeps_every_nth_and_the_tip() {
    assert_eq!(sampled_indices(8, 3), vec![0, 3, 6, 7]);
    assert_eq!(sampled_indices(7, 3), vec![0, 3, 6]);
    assert_eq!(sampled_indices(4, 1), vec![0, 1, 2, 3]);
    assert_eq!(sampled_indices(1, 5), vec![0]);
    assert!(sampled_indices(0, 2).is_empty());
}

#[test]
fn object_cache_budget_saturates() {
    assert_eq!(object_cache_bytes(256), 256 * 1024 * 1024);
    assert_eq!(object_cache_bytes(usize::MAX), usize::MAX);
}

#[test]
fn timestamps_are_clamped_to_rfc3339_range() {
    assert_eq!(clamp_timestamp(0), 0);
    assert_eq!(clamp_timestamp(i64::MAX), MAX_RFC3339_SECONDS);
    assert_eq!(clamp_timestamp(i64::MIN), MIN_RFC3339_SECONDS);
    assert_eq!(clamp_timestamp(MAX_RFC3339_SECONDS), 253_402_300_799);
}

fn sample_totals() -> LangTotals {
    let mut t = LangTotals::new();
    t.add_language_counts(lang(tokei::LanguageType::Rust), counts(2, 10, 2, 3)).unwrap();
    t.add_language_counts(lang(tokei::LanguageType::Python), counts(1, 3, 1, 1)).unwrap();
    t.add_language_counts(lang(tokei::LanguageType::Json), counts(1, 3, 0, 0)).unwrap();
    t
}

#[test]
fn language_rows_are_sorted_by_name() {
    let rows = sorted_language_rows(&sample_totals());
    let names: Vec<&str> = rows.iter().map(|r| r.name.as_str()).collect();
    assert_eq!(names, vec!["JSON", "Python", "Rust"]);
    assert_eq!(rows[2].counts, counts(2, 10, 2, 3));
    assert_eq!(rows[0].lang, lang(tokei::LanguageType::Json));
}

#[test]
fn grand_total_sums_all_languages() {
    assert_eq!(grand_total(&sample_totals()), Some(counts(4, 16, 3, 4)));
    assert_eq!(grand_total(&LangTotals::new()), Some(counts(0, 0, 0, 0)));
    let mut t = LangTotals::new();
    t.add_language_counts(1, counts(0, u64::MAX, 0, 0)).unwrap();
    t.add_language_counts(2, counts(0, 1, 0, 0)).unwrap();
    assert_eq!(grand_total(&t), None);
    assert!(matches!(commit_rows(0, (0, 0), &t, false), Err(RowError::CountOverflow)));
}

#[test]
fn commit_rows_format_time_sha_and_total() {
    let sha = (0x0123456789abcdef0011223344556677u128, 0x8899aabbu32);
    let rows = commit_rows(1_704_110_400, sha, &sample_totals(), true).unwrap();
    assert_eq!(rows.timestamp, "2024-01-01T12:00:00Z");
    assert_eq!(rows.sha, "0123456789abcdef00112233445566778899aabb");
    assert!(!rows.clamped);
    assert_eq!(rows.languages.len(), 3);
    assert_eq!(rows.total, counts(4, 16, 3, 4));

    let plain = commit_rows(0, sha, &sample_totals(), false).unwrap();
    assert_eq!(plain.timestamp, "1970-01-01T00:00:00Z");
    assert!(plain.languages.is_empty());

    let far = commit_rows(i64::MAX, sha, &LangTotals::new(), false).unwrap();
    assert!(far.clamped);
    assert_eq!(far.timestamp, "9999-12-31T23:59:59Z");
    let early = commit_rows(i64::MIN, sha, &LangTotals::new(), false).unwrap();
    assert!(early.clamped);
    assert_eq!(early.timestamp, "0000-01-01T00:00:00Z");
}

#[test]
fn unknown_languages_are_refused() {
    assert!(languages_known(&sample_totals()));
    assert!(languages_known(&LangTotals::new()));
    let mut t = sample_totals();
    t.add_language_counts(u32::MAX, counts(1, 1, 0, 0)).unwrap();
    assert!(!languages_known(&t));
    assert!(commit_rows_of_known(0, (0, 0), &t, true).is_none());
    let rows = commit_rows_of_known(0, (0, 0), &sample_totals(), true).unwrap().unwrap();
    assert_eq!(rows.languages.len(), 3);
    assert_eq!(rows.sha, "0000000000000000000000000000000000000000");
}

#[test]
fn nothing_countable_still_has_a_zero_total() {
    let rows = commit_rows(86_400, (1, 2), &LangTotals::new(), true).unwrap();
    assert!(rows.languages.is_empty());
    assert_eq!(rows.total, counts(0, 0, 0, 0));
    assert_eq!(rows.timestamp, "1970-01-02T00:00:00Z");
    assert_eq!(rows.sha, "0000000000000000000000000000000100000002");
}

#[test]
fn first_second_past_year_9999_is_clamped() {
    let rows = commit_rows(253_402_300_800, (0, 0), &LangTotals::new(), false).unwrap();
    assert!(rows.clamped);
    assert_eq!(rows.timestamp, "9999-12-31T23:59:59Z");
    assert_eq!(rows.sha, "0000000000000000000000000000000000000000");
    assert_eq!(rows.total, counts(0, 0, 0, 0));
    let epoch = commit_rows(0, (0, 0), &LangTotals::new(), true).unwrap();
    assert!(!epoch.clamped);
    assert_eq!(epoch.timestamp, "1970-01-01T00:00:00Z");
    assert!(epoch.languages.is_empty());
    assert_eq!(epoch.total, counts(0, 0, 0, 0));
}

#[test]
fn language_rows_add_up_to_the_total() {
    let rows = commit_rows(1_704_110_400, (1, 1), &sample_totals(), true).unwrap();
    let mut sum = counts(0, 0, 0, 0);
    for row in &rows.languages {
        sum = sum.checked_sum(&row.counts).unwrap();
    }
    assert_eq!(sum, rows.total);
}

#[test]
fn peeling_reaches_commits_follows_tags_and_refuses_the_rest() {
    assert_eq!(peel_step(ObjectKind::Commit), PeelStep::Done);
    assert_eq!(peel_step(ObjectKind::Tag), PeelStep::Follow);
    assert_eq!(peel_step(ObjectKind::Tree), PeelStep::Refuse);
    assert_eq!(peel_step(ObjectKind::Blob), PeelStep::Refuse);
}

#[test]
fn parsed_excludes_parse_back_to_themselves() {
    let texts: Vec<String> =
        ["vendor/", "/src/generated", "./docs", "a//b/", "/", ""].iter().map(|t| t.to_string()).collect();
    let parsed = parse_excludes(&texts);
    let joined: Vec<String> = parsed
        .iter()
        .map(|p| p.iter().map(|c| String::from_utf8(c.clone()).unwrap()).collect::<Vec<_>>().join("/"))
        .collect();
    assert_eq!(joined, vec!["vendor", "src/generated", "docs", "a/b"]);
    assert_eq!(parse_excludes(&joined), parsed);
}
