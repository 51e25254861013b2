use std::collections::BTreeMap;
use std::io::Write;

use gix::objs::tree::EntryKind;
use gix::refs::transaction::PreviousValue;
use tokei::{Config, LanguageType};

use loch::counter::Counter;
use loch::output::{commit_rows, sampled_indices};
use loch::walk::{commit_time_and_tree, first_parent_oldest_first, RepoLog};

/// 2024-01-01T12:00:00Z.
const DAY_ONE_NOON: i64 = 1_704_110_400;

fn oid_of(id: gix::ObjectId) -> (u128, u32) {
    let b = id.as_slice();
    (
        u128::from_be_bytes(b[..16].try_into().unwrap()),
        u32::from_be_bytes(b[16..].try_into().unwrap()),
    )
}

fn hex(id: gix::ObjectId) -> String {
    id.to_string()
}

/// The worktree: path -> (contents, executable).
type Files = BTreeMap<String, (Vec<u8>, bool)>;

fn write_tree(repo: &gix::Repository, files: &Files) -> gix::ObjectId {
    let mut entries = Vec::new();
    let mut dirs: BTreeMap<String, Files> = BTreeMap::new();
    for (path, (contents, executable)) in files {
        match path.split_once('/') {
            Some((dir, rest)) => {
                dirs.entry(dir.to_string())
                    .or_default()
                    .insert(rest.to_string(), (contents.clone(), *executable));
            }
            None => {
                let id = repo.write_blob(contents).unwrap().detach();
                let kind = if *executable { EntryKind::BlobExecutable } else { EntryKind::Blob };
                entries.push(gix::objs::tree::Entry {
                    mode: kind.into(),
                    filename: path.as_str().into(),
                    oid: id,
                });
            }
        }
    }
    for (dir, sub) in &dirs {
        let id = write_tree(repo, sub);
        entries.push(gix::objs::tree::Entry {
            mode: EntryKind::Tree.into(),
            filename: dir.as_str().into(),
            oid: id,
        });
    }
    entries.sort();
    repo.write_object(&gix::objs::Tree { entries }).unwrap().detach()
}

fn signature(day: u8) -> gix::actor::Signature {
    gix::actor::Signature {
        name: "Test".into(),
        email: "test@example.com".into(),
        time: gix::date::Time::new(DAY_ONE_NOON + (day as i64 - 1) * 86_400, 0),
    }
}

fn commit(repo: &gix::Repository, files: &Files, parents: Vec<gix::ObjectId>, day: u8) -> gix::ObjectId {
    let tree = write_tree(repo, files);
    let commit = gix::objs::Commit {
        tree,
        parents: parents.into(),
        author: signature(day),
        committer: signature(day),
        encoding: None,
        message: format!("day {day}\n").into(),
        extra_headers: Vec::new(),
    };
    repo.write_object(&commit).unwrap().detach()
}

/// One first-parent commit and the countable file model at that point.
/// `files` maps path -> (content, detected language); None = skipped
/// (binary / huge / unknown extension), so it contributes nothing.
struct CommitRec {
    sha: String,
    timestamp: String,
    files: BTreeMap<String, (String, Option<LanguageType>)>,
}

struct Fixture {
    _dir: tempfile::TempDir,
    repo: gix::Repository,
    ids: Vec<gix::ObjectId>,
    commits: Vec<CommitRec>,
}

const MAIN_RS_V1: &str = "// entry\nfn main() {\n    println!(\"hi\");\n}\n";
const MAIN_RS_V2: &str =
    "// entry\nfn main() {\n    println!(\"hi\");\n}\n\nfn helper() -> u32 {\n    41\n}\n";
const CONFIG_JSON_V1: &str = "{\n  \"a\": 1\n}\n";
const CONFIG_JSON_V2: &str = "{\n  \"a\": 1,\n  \"b\": 2\n}\n";
const LIB_PY: &str = "# lib\n\ndef f():\n    return 1\n";
const BIN_RUN: &str = "#!/usr/bin/env python3\nprint('x')\n";
const FEATURE_RS: &str = "/// doc\npub fn feat() {}\n";
const TEMP_PY: &str = "print('temp')\n";
const TOP_PY: &str = "x = 1\n";
const GEN_PY: &str = "# generated\ny = 2\n";
const RUNME: &str = " #!/bin/sh\necho hi\n"; // leading whitespace before the shebang
const NOTEBOOK: &str = r##"{
 "cells": [
  {"cell_type": "code", "execution_count": null, "metadata": {}, "outputs": [], "source": ["x = 1\n", "y = 2\n", "z = 3\n"]},
  {"cell_type": "markdown", "metadata": {}, "source": ["# Title\n", "prose\n"]}
 ],
 "metadata": {"kernelspec": {"language": "python", "name": "python3"}, "language_info": {"name": "python", "file_extension": ".py"}},
 "nbformat": 4,
 "nbformat_minor": 5
}
"##;

fn put(files: &mut Files, path: &str, contents: &[u8], executable: bool) {
    files.insert(path.to_string(), (contents.to_vec(), executable));
}

fn build_fixture() -> Fixture {
    let dir = tempfile::tempdir().unwrap();
    let repo = gix::init_bare(dir.path()).unwrap();
    let mut files: Files = BTreeMap::new();
    let mut model: BTreeMap<String, (String, Option<LanguageType>)> = BTreeMap::new();
    let mut commits: Vec<CommitRec> = Vec::new();
    let mut ids: Vec<gix::ObjectId> = Vec::new();

    let mut record = |id: gix::ObjectId,
                      model: &BTreeMap<String, (String, Option<LanguageType>)>,
                      day: u8| {
        ids.push(id);
        commits.push(CommitRec {
            sha: hex(id),
            timestamp: format!("2024-01-{day:02}T12:00:00Z"),
            files: model.clone(),
        });
    };

    // c1: Rust + JSON
    put(&mut files, "src/main.rs", MAIN_RS_V1.as_bytes(), false);
    put(&mut files, "config.json", CONFIG_JSON_V1.as_bytes(), false);
    model.insert("src/main.rs".into(), (MAIN_RS_V1.into(), Some(LanguageType::Rust)));
    model.insert("config.json".into(), (CONFIG_JSON_V1.into(), Some(LanguageType::Json)));
    let c1 = commit(&repo, &files, vec![], 1);
    record(c1, &model, 1);

    // c2: Python + modified Rust + a notebook (no Jupyter double-count)
    put(&mut files, "src/lib.py", LIB_PY.as_bytes(), false);
    put(&mut files, "src/main.rs", MAIN_RS_V2.as_bytes(), false);
    put(&mut files, "nb.ipynb", NOTEBOOK.as_bytes(), false);
    model.insert("src/lib.py".into(), (LIB_PY.into(), Some(LanguageType::Python)));
    model.insert("src/main.rs".into(), (MAIN_RS_V2.into(), Some(LanguageType::Rust)));
    model.insert("nb.ipynb".into(), (NOTEBOOK.into(), Some(LanguageType::Jupyter)));
    let c2 = commit(&repo, &files, vec![c1], 2);
    record(c2, &model, 2);

    // c3: executable shebang script, unknown extension, and two identical
    // directory trees (a/ and b/ share tree OIDs — the exclude/cache case)
    put(&mut files, "bin/run", BIN_RUN.as_bytes(), true);
    put(&mut files, "notes.xyzzy", b"who knows\n", false);
    // shebang content but unknown extension: tokei skips it, so must we
    put(&mut files, "deploy.xyzzy", b"#!/bin/sh\necho hi\n", false);
    // extensionless with whitespace-led shebang: tokei counts it, so must we
    put(&mut files, "runme", RUNME.as_bytes(), false);
    model.insert("deploy.xyzzy".into(), (String::new(), None));
    model.insert("runme".into(), (RUNME.into(), Some(LanguageType::Sh)));
    for d in ["a", "b"] {
        put(&mut files, &format!("{d}/top.py"), TOP_PY.as_bytes(), false);
        put(&mut files, &format!("{d}/sub/gen.py"), GEN_PY.as_bytes(), false);
        model.insert(format!("{d}/top.py"), (TOP_PY.into(), Some(LanguageType::Python)));
        model.insert(format!("{d}/sub/gen.py"), (GEN_PY.into(), Some(LanguageType::Python)));
    }
    model.insert("bin/run".into(), (BIN_RUN.into(), Some(LanguageType::Python)));
    model.insert("notes.xyzzy".into(), (String::new(), None));
    let c3 = commit(&repo, &files, vec![c2], 3);
    record(c3, &model, 3);

    // c4: binary blob with a known extension, and a huge (>10 MB) text blob
    put(&mut files, "texture.c", b"\x89BIN\x00\x01\x02data", false);
    let big = "# x\n".repeat(3_000_000); // 12 MB
    put(&mut files, "big.py", big.as_bytes(), false);
    model.insert("texture.c".into(), (String::new(), None));
    model.insert("big.py".into(), (String::new(), None));
    let c4 = commit(&repo, &files, vec![c3], 4);
    record(c4, &model, 4);

    // feature branch commit (day 5) — must NOT appear in the first-parent walk
    let mut feature_files = files.clone();
    put(&mut feature_files, "feature.rs", FEATURE_RS.as_bytes(), false);
    let feat = commit(&repo, &feature_files, vec![c4], 5);

    // c5 on main: modify JSON
    put(&mut files, "config.json", CONFIG_JSON_V2.as_bytes(), false);
    model.insert("config.json".into(), (CONFIG_JSON_V2.into(), Some(LanguageType::Json)));
    let c5 = commit(&repo, &files, vec![c4], 6);
    record(c5, &model, 6);

    // c6: merge commit — feature.rs arrives on the first-parent line
    put(&mut files, "feature.rs", FEATURE_RS.as_bytes(), false);
    model.insert("feature.rs".into(), (FEATURE_RS.into(), Some(LanguageType::Rust)));
    let c6 = commit(&repo, &files, vec![c5, feat], 7);
    record(c6, &model, 7);

    // c7: add a file...
    put(&mut files, "temp.py", TEMP_PY.as_bytes(), false);
    model.insert("temp.py".into(), (TEMP_PY.into(), Some(LanguageType::Python)));
    let c7 = commit(&repo, &files, vec![c6], 8);
    record(c7, &model, 8);

    // c8: ...and revert it
    files.remove("temp.py");
    model.remove("temp.py");
    let c8 = commit(&repo, &files, vec![c7], 9);
    record(c8, &model, 9);

    let head = repo.head_name().unwrap().unwrap();
    repo.reference(head, c8, PreviousValue::Any, "fixture").unwrap();
    Fixture { _dir: dir, repo, ids, commits }
}

/// What the command line writes for the history from `refname`, in CSV,
/// and the skip counts it reports.
fn run(
    repo: &gix::Repository,
    refname: &str,
    excludes: &[&str],
    per_language: bool,
    every: u64,
    caching: bool,
) -> (String, (usize, usize, usize)) {
    let commits = first_parent_oldest_first(repo, refname, &mut RepoLog::new()).ok().unwrap();
    let excludes: Vec<String> = excludes.iter().map(|e| e.to_string()).collect();
    let mut counter = Counter::new(repo, &excludes, caching);
    let mut out = String::from("timestamp,sha,language,files,code,comments,blanks\n");
    for i in sampled_indices(commits.len(), every) {
        let (seconds, tree) = commit_time_and_tree(repo, commits[i], &mut RepoLog::new()).ok().unwrap();
        let totals = counter.stats_tree(tree).ok().unwrap();
        let rows = commit_rows(seconds, commits[i], &totals, per_language).ok().unwrap();
        for row in &rows.languages {
            let c = row.counts;
            out.push_str(&format!(
                "{},{},{},{},{},{},{}\n",
                rows.timestamp, rows.sha, row.name, c.files, c.code, c.comments, c.blanks
            ));
        }
        let t = rows.total;
        out.push_str(&format!(
            "{},{},TOTAL,{},{},{},{}\n",
            rows.timestamp, rows.sha, t.files, t.code, t.comments, t.blanks
        ));
    }
    (out, counter.report_skips().unwrap_or((0, 0, 0)))
}

fn excluded(path: &str, excludes: &[&str]) -> bool {
    let comps: Vec<&str> = path.split('/').collect();
    excludes.iter().any(|pattern| {
        let pat: Vec<&str> = pattern.split('/').filter(|c| !c.is_empty()).collect();
        pat.len() <= comps.len() && pat.iter().zip(&comps).all(|(a, b)| a == b)
    })
}

/// Independent reimplementation of the aggregation, with tokei as the line-count oracle.
fn expected_csv(commits: &[CommitRec], excludes: &[&str], per_language: bool, every: usize) -> String {
    let config = Config::default();
    let mut out = String::from("timestamp,sha,language,files,code,comments,blanks\n");
    let last = commits.len() - 1;
    for (i, commit) in commits.iter().enumerate() {
        if i % every != 0 && i != last {
            continue;
        }
        let mut by_lang: BTreeMap<&'static str, (u64, u64, u64, u64)> = BTreeMap::new();
        for (path, (content, lang)) in &commit.files {
            let Some(lang) = lang else { continue };
            if excluded(path, excludes) {
                continue;
            }
            let parsed = lang.parse_from_str(content.as_str(), &config);
            let stats = if *lang == LanguageType::Jupyter { parsed } else { parsed.summarise() };
            let entry = by_lang.entry(lang.name()).or_default();
            entry.0 += 1;
            entry.1 += stats.code as u64;
            entry.2 += stats.comments as u64;
            entry.3 += stats.blanks as u64;
        }
        let mut total = (0u64, 0u64, 0u64, 0u64);
        for (_, (f, c, m, b)) in &by_lang {
            total.0 += f;
            total.1 += c;
            total.2 += m;
            total.3 += b;
        }
        if per_language {
            for (name, (f, c, m, b)) in &by_lang {
                out.push_str(&format!(
                    "{},{},{name},{f},{c},{m},{b}\n",
                    commit.timestamp, commit.sha
                ));
            }
        }
        out.push_str(&format!(
            "{},{},TOTAL,{},{},{},{}\n",
            commit.timestamp, commit.sha, total.0, total.1, total.2, total.3
        ));
    }
    out
}

#[test]
fn default_totals_match_model() {
    let fx = build_fixture();
    let (stdout, skipped) = run(&fx.repo, "HEAD", &[], false, 1, true);
    assert_eq!(stdout, expected_csv(&fx.commits, &[], false, 1));
    assert_eq!(skipped, (2, 1, 1), "skipped 2 unrecognized, 1 binary, 1 huge");
}

#[test]
fn per_language_rows_match_model() {
    let fx = build_fixture();
    let (stdout, _) = run(&fx.repo, "HEAD", &[], true, 1, true);
    assert_eq!(stdout, expected_csv(&fx.commits, &[], true, 1));
}

#[test]
fn excludes_apply_and_cache_stays_correct() {
    let fx = build_fixture();
    // a/ and b/ have identical tree OIDs; only a/sub must be pruned.
    let excludes = ["a/sub", "notes.xyzzy"];
    let (cached, _) = run(&fx.repo, "HEAD", &excludes, true, 1, true);
    assert_eq!(cached, expected_csv(&fx.commits, &excludes, true, 1));

    let (uncached, _) = run(&fx.repo, "HEAD", &excludes, true, 1, false);
    assert_eq!(cached, uncached, "cache-on and cache-off output must be byte-identical");
}

#[test]
fn no_cache_is_byte_identical_without_excludes() {
    let fx = build_fixture();
    let (cached, _) = run(&fx.repo, "HEAD", &[], true, 1, true);
    let (uncached, _) = run(&fx.repo, "HEAD", &[], true, 1, false);
    assert_eq!(cached, uncached);
}

#[test]
fn shallow_clone_warns_and_stops_at_boundary() {
    let fx = build_fixture();
    let boundary = fx.ids[fx.ids.len() - 2];
    let mut file = tempfile::Builder::new().tempfile_in(fx.repo.common_dir()).unwrap();
    file.write_all(format!("{boundary}\n").as_bytes()).unwrap();
    file.persist(fx.repo.shallow_file()).unwrap();
    assert!(fx.repo.is_shallow());
    let (stdout, _) = run(&fx.repo, "HEAD", &[], false, 1, true);
    let last_two = &fx.commits[fx.commits.len() - 2..];
    assert_eq!(stdout, expected_csv(last_two, &[], false, 1));
}

#[test]
fn top_level_exclude_leaves_out_only_that_component() {
    let dir = tempfile::tempdir().unwrap();
    let repo = gix::init_bare(dir.path()).unwrap();
    let mut kept: Files = BTreeMap::new();
    for path in ["vendored/a.py", "Vendor/b.py", "x/vendor/c.py", "main.rs"] {
        put(&mut kept, path, LIB_PY.as_bytes(), false);
    }
    let mut all = kept.clone();
    put(&mut all, "vendor/d.py", TOP_PY.as_bytes(), false);
    put(&mut all, "vendor/sub/e.rs", MAIN_RS_V1.as_bytes(), false);
    let full = write_tree(&repo, &all);
    let without = write_tree(&repo, &kept);
    for pattern in ["vendor", "vendor/"] {
        let mut excluding = Counter::new(&repo, &[pattern.to_string()], true);
        let mut plain = Counter::new(&repo, &[], true);
        let a = excluding.stats_tree(oid_of(full)).ok().unwrap().to_entries();
        let b = plain.stats_tree(oid_of(without)).ok().unwrap().to_entries();
        let c = plain.stats_tree(oid_of(full)).ok().unwrap().to_entries();
        assert_eq!(a, b);
        assert_ne!(a, c);
    }
}

#[test]
fn links_and_submodules_count_for_nothing() {
    let dir = tempfile::tempdir().unwrap();
    let repo = gix::init_bare(dir.path()).unwrap();
    let mut files: Files = BTreeMap::new();
    put(&mut files, "src/main.rs", MAIN_RS_V1.as_bytes(), false);
    put(&mut files, "lib.py", LIB_PY.as_bytes(), false);
    let plain = write_tree(&repo, &files);
    let mut entries = repo.find_tree(plain).unwrap().decode().unwrap().to_owned().entries;
    let target = repo.write_blob(b"src/main.rs").unwrap().detach();
    entries.push(gix::objs::tree::Entry {
        mode: EntryKind::Link.into(),
        filename: "link.rs".into(),
        oid: target,
    });
    entries.push(gix::objs::tree::Entry {
        mode: EntryKind::Commit.into(),
        filename: "module".into(),
        oid: gix::ObjectId::null(gix::hash::Kind::Sha1),
    });
    entries.sort();
    let linked = repo.write_object(&gix::objs::Tree { entries }).unwrap().detach();
    for caching in [true, false] {
        let mut counter = Counter::new(&repo, &[], caching);
        let a = counter.stats_tree(oid_of(plain)).ok().unwrap().to_entries();
        let b = counter.stats_tree(oid_of(linked)).ok().unwrap().to_entries();
        assert_eq!(a.len(), 2);
        assert_eq!(a, b);
    }
}

#[test]
fn skip_counts_do_not_depend_on_caching() {
    let fx = build_fixture();
    let (_, cached) = run(&fx.repo, "HEAD", &[], false, 1, true);
    let (_, uncached) = run(&fx.repo, "HEAD", &[], false, 1, false);
    assert_eq!(cached, (2, 1, 1));
    assert_eq!(cached, uncached);
    let excludes = ["a/sub", "notes.xyzzy"];
    let (_, cached) = run(&fx.repo, "HEAD", &excludes, false, 1, true);
    let (_, uncached) = run(&fx.repo, "HEAD", &excludes, false, 1, false);
    assert_eq!(cached, (1, 1, 1));
    assert_eq!(cached, uncached);
}

#[test]
fn sampling_keeps_stride_and_tip() {
    let fx = build_fixture();
    let (stdout, _) = run(&fx.repo, "HEAD", &[], false, 3, true);
    // 8 first-parent commits: indices 0, 3, 6 plus the tip (7).
    assert_eq!(stdout, expected_csv(&fx.commits, &[], false, 3));
    assert_eq!(stdout.lines().count(), 1 + 4);
}

#[test]
fn ref_flag_walks_annotated_and_lightweight_tags() {
    let fx = build_fixture();
    let target = fx.ids[3];
    let tag = gix::objs::Tag {
        target,
        target_kind: gix::objs::Kind::Commit,
        name: "v-mid".into(),
        tagger: Some(signature(10)),
        message: "midpoint".into(),
        pgp_signature: None,
    };
    let tag_id = fx.repo.write_object(&tag).unwrap().detach();
    fx.repo.tag_reference("v-mid", tag_id, PreviousValue::Any).unwrap();
    fx.repo.tag_reference("light", target, PreviousValue::Any).unwrap();
    let expected = expected_csv(&fx.commits[..4], &[], false, 1);
    for tag in ["v-mid", "light"] {
        let (stdout, _) = run(&fx.repo, tag, &[], false, 1, true);
        assert_eq!(stdout, expected, "walking -r {tag}");
    }
}

#[test]
fn history_is_first_parent_oldest_first() {
    let fx = build_fixture();
    let walked = first_parent_oldest_first(&fx.repo, "HEAD", &mut RepoLog::new()).ok().unwrap();
    let expected: Vec<(u128, u32)> = fx.ids.iter().map(|id| oid_of(*id)).collect();
    assert_eq!(walked, expected);
}

#[test]
fn tag_of_a_tree_is_not_a_commit() {
    let fx = build_fixture();
    let tree = fx.repo.find_commit(fx.ids[0]).unwrap().tree_id().unwrap().detach();
    let tag = gix::objs::Tag {
        target: tree,
        target_kind: gix::objs::Kind::Tree,
        name: "t-tree".into(),
        tagger: Some(signature(11)),
        message: "a tree".into(),
        pgp_signature: None,
    };
    let tag_id = fx.repo.write_object(&tag).unwrap().detach();
    fx.repo.tag_reference("t-tree", tag_id, PreviousValue::Any).unwrap();
    match first_parent_oldest_first(&fx.repo, "t-tree", &mut RepoLog::new()) {
        Err(loch::walk::WalkError::NotACommit(id, kind)) => {
            assert_eq!(id, oid_of(tree));
            assert_eq!(kind, loch::repo::ObjectKind::Tree);
        },
        _ => panic!("a tag of a tree was walked"),
    }
}

#[test]
fn unresolvable_ref_is_an_error() {
    let dir = tempfile::tempdir().unwrap();
    let repo = gix::init_bare(dir.path()).unwrap();
    assert!(matches!(
        first_parent_oldest_first(&repo, "HEAD", &mut RepoLog::new()),
        Err(loch::walk::WalkError::Resolve(_))
    ));
}

#[test]
fn huge_blobs_are_reported_once() {
    let fx = build_fixture();
    let mut counter = Counter::new(&fx.repo, &[], true);
    let mut warnings = Vec::new();
    for id in &fx.ids {
        let (_, tree) = commit_time_and_tree(&fx.repo, oid_of(*id), &mut RepoLog::new()).ok().unwrap();
        assert!(counter.stats_tree(tree).is_ok());
        warnings.extend(counter.take_warnings());
    }
    assert_eq!(warnings.len(), 1);
    assert_eq!(warnings[0].name.as_deref(), Some(&b"big.py"[..]));
    assert_eq!(warnings[0].size, 12_000_000);
}

#[test]
fn jupyter_top_level_already_includes_cells() {
    let config = Config::default();
    let plain = LanguageType::Jupyter.parse_from_str(NOTEBOOK, &config);
    assert!(plain.code > 0, "fixture notebook must be parseable by tokei");
    let folded = LanguageType::Jupyter.parse_from_str(NOTEBOOK, &config).summarise();
    // if this ever fails, tokei changed parse_jupyter and the counter's
    // special case (and this model's) should be re-examined
    assert_eq!(folded.code, 2 * plain.code);
}
