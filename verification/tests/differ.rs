use snapsync::catalog::SnapshotCatalog;
use snapsync::changeset::ChangeSet;
use snapsync::content::compare_streams;
use snapsync::differ::{deleted_paths, diff, MatchPolicy, MoveDiffer};
use snapsync::entry::Entry;
use snapsync::key::{FileKey, Timestamp};
use snapsync::path::RelativePath;

const T1: i64 = 1_600_000_000;
const T2: i64 = 1_600_000_500;

fn dp(text: &str) -> RelativePath {
    RelativePath::from_bytes(text.as_bytes().to_vec())
}

fn snapshot(files: &[(&str, u64, i64)]) -> SnapshotCatalog {
    let entries = files
        .iter()
        .map(|&(name, size, secs)| Entry::new(FileKey::new(size, Timestamp::new(secs, 0)), dp(name)))
        .collect();
    SnapshotCatalog::from_entries(entries).unwrap()
}

fn names(paths: &[RelativePath]) -> Vec<String> {
    paths.iter().map(|p| String::from_utf8(p.as_bytes().to_vec()).unwrap()).collect()
}

fn pairs(changes: &ChangeSet) -> Vec<(String, String)> {
    changes
        .copies
        .iter()
        .map(|c| {
            (
                String::from_utf8(c.src.as_bytes().to_vec()).unwrap(),
                String::from_utf8(c.dst.as_bytes().to_vec()).unwrap(),
            )
        })
        .collect()
}

fn pair(src: &str, dst: &str) -> (String, String) {
    (src.to_string(), dst.to_string())
}

const VERIFIED: MatchPolicy = MatchPolicy { by_name: true, verify_content: true };

/// Runs the differ with the bytes of the files at hand: `base_files` and
/// `target_files` give the content of each path. Returns the change-set
/// and the questions that were asked.
fn run_with_contents(
    base: &SnapshotCatalog,
    target: SnapshotCatalog,
    policy: MatchPolicy,
    base_files: &[(&str, &[u8])],
    target_files: &[(&str, &[u8])],
) -> (ChangeSet, Vec<(String, String)>) {
    let mut asked = Vec::new();
    let mut differ = MoveDiffer::new(base, target, policy);
    loop {
        let verdict = match differ.pending() {
            None => break,
            Some((candidate, path)) => {
                let left = base_files
                    .iter()
                    .find(|(name, _)| name.as_bytes() == candidate.as_bytes())
                    .unwrap()
                    .1;
                let right = target_files
                    .iter()
                    .find(|(name, _)| name.as_bytes() == path.as_bytes())
                    .unwrap()
                    .1;
                asked.push((
                    String::from_utf8(candidate.as_bytes().to_vec()).unwrap(),
                    String::from_utf8(path.as_bytes().to_vec()).unwrap(),
                ));
                compare_streams(left, right, 3, 5).unwrap()
            }
        };
        differ.answer(verdict);
    }
    assert!(differ.is_finished());
    (differ.finish(), asked)
}

#[test]
fn verified_move() {
    let base = snapshot(&[("a.txt", 10, T1)]);
    let target = snapshot(&[("sub/b.txt", 10, T1)]);
    let (changes, asked) = run_with_contents(
        &base,
        target,
        VERIFIED,
        &[("a.txt", b"XXXXXXXXXX")],
        &[("sub/b.txt", b"XXXXXXXXXX")],
    );
    assert_eq!(asked, vec![pair("a.txt", "sub/b.txt")]);
    assert_eq!(pairs(&changes), vec![pair("a.txt", "sub/b.txt")]);
    assert_eq!(names(&changes.deletes), vec!["a.txt"]);
    assert!(changes.adds.is_empty());
}

#[test]
fn rejected_fallback_match() {
    let base = snapshot(&[("a.txt", 10, T1)]);
    let target = snapshot(&[("b.txt", 10, T2)]);
    let (changes, asked) = run_with_contents(
        &base,
        target,
        VERIFIED,
        &[("a.txt", b"XXXXXXXXXX")],
        &[("b.txt", b"YYYYYYYYYY")],
    );
    assert_eq!(asked, vec![pair("a.txt", "b.txt")]);
    assert_eq!(names(&changes.adds), vec!["b.txt"]);
    assert!(changes.copies.is_empty());
    assert_eq!(names(&changes.deletes), vec!["a.txt"]);
}

#[test]
fn same_snapshot_gives_empty_change_set() {
    let files = [("a", 1, T1), ("b/c", 2, T1), ("b/d", 2, T1), ("e", 0, T2)];
    let changes = diff(&snapshot(&files), snapshot(&files), true);
    assert!(changes.is_empty());
    assert!(changes.copies.is_empty() && changes.adds.is_empty() && changes.deletes.is_empty());
    let base = snapshot(&files);
    let differ = MoveDiffer::new(&base, snapshot(&files), VERIFIED);
    assert!(differ.pending().is_none());
    assert!(differ.is_finished());
    assert!(differ.finish().is_empty());
}

#[test]
fn empty_snapshots_give_empty_change_set() {
    assert!(diff(&snapshot(&[]), snapshot(&[]), true).is_empty());
}

#[test]
fn unchanged_file_is_in_no_list_but_may_be_a_source() {
    let base = snapshot(&[("keep", 5, T1), ("gone", 6, T1)]);
    let target = snapshot(&[("keep", 5, T1), ("twin", 5, T1), ("new", 7, T2)]);
    let changes = diff(&base, target, false);
    assert_eq!(names(&changes.adds), vec!["new"]);
    assert_eq!(names(&changes.deletes), vec!["gone"]);
    assert_eq!(pairs(&changes), vec![pair("keep", "twin")]);
    assert!(!names(&changes.adds).contains(&"keep".to_string()));
    assert!(!names(&changes.deletes).contains(&"keep".to_string()));
    assert!(pairs(&changes).iter().all(|(_, dst)| dst != "keep"));
}

#[test]
fn pure_addition() {
    let base = snapshot(&[("old.bin", 100, T1)]);
    let target = snapshot(&[("old.bin", 100, T1), ("fresh.txt", 7, T2)]);
    let changes = diff(&base, target, true);
    assert_eq!(names(&changes.adds), vec!["fresh.txt"]);
    assert!(changes.copies.is_empty());
    assert!(changes.deletes.is_empty());
}

#[test]
fn pure_deletion() {
    let base = snapshot(&[("stay", 1, T1), ("leave", 2, T1)]);
    let target = snapshot(&[("stay", 1, T1)]);
    let changes = diff(&base, target, true);
    assert_eq!(names(&changes.deletes), vec!["leave"]);
    assert!(changes.adds.is_empty());
    assert!(changes.copies.is_empty());
}

#[test]
fn moved_file_is_both_deleted_and_copied() {
    let base = snapshot(&[("old/name", 42, T1)]);
    let target = snapshot(&[("new/name2", 42, T1)]);
    let changes = diff(&base, target, false);
    assert_eq!(pairs(&changes), vec![pair("old/name", "new/name2")]);
    assert_eq!(names(&changes.deletes), vec!["old/name"]);
    assert!(changes.adds.is_empty());
}

#[test]
fn touched_file_is_deleted_and_copied_from_itself() {
    let base = snapshot(&[("f", 9, T1)]);
    let target = snapshot(&[("f", 9, T2)]);
    let changes = diff(&base, target, false);
    assert_eq!(names(&changes.deletes), vec!["f"]);
    assert_eq!(pairs(&changes), vec![pair("f", "f")]);
    assert!(changes.adds.is_empty());
}

#[test]
fn metadata_alone_takes_the_first_candidate() {
    let base = snapshot(&[("z/copy", 8, T1), ("m/copy", 8, T1), ("b/copy", 8, T1)]);
    let target = snapshot(&[("moved", 8, T1)]);
    let changes = diff(&base, target, true);
    assert_eq!(pairs(&changes), vec![pair("b/copy", "moved")]);
    assert_eq!(names(&changes.deletes), vec!["b/copy", "m/copy", "z/copy"]);
}

#[test]
fn one_source_may_serve_many_destinations() {
    let base = snapshot(&[("orig", 3, T1)]);
    let target = snapshot(&[("orig", 3, T1), ("dup2", 3, T1), ("dup1", 3, T1)]);
    let changes = diff(&base, target, true);
    assert_eq!(pairs(&changes), vec![pair("orig", "dup1"), pair("orig", "dup2")]);
    assert!(changes.deletes.is_empty());
    assert!(changes.adds.is_empty());
}

#[test]
fn exact_match_is_preferred_to_size_match() {
    let base = snapshot(&[("a_same_size", 10, T2), ("z_same_key", 10, T1)]);
    let target = snapshot(&[("dest", 10, T1)]);
    let changes = diff(&base, target, true);
    assert_eq!(pairs(&changes), vec![pair("z_same_key", "dest")]);
}

#[test]
fn name_fallback_can_be_switched_off() {
    let base = snapshot(&[("dir/notes.txt", 10, T1)]);
    let with_names = diff(&base, snapshot(&[("other/notes.txt", 99, T2)]), true);
    assert_eq!(pairs(&with_names), vec![pair("dir/notes.txt", "other/notes.txt")]);
    assert!(with_names.adds.is_empty());
    let without = diff(&base, snapshot(&[("other/notes.txt", 99, T2)]), false);
    assert!(without.copies.is_empty());
    assert_eq!(names(&without.adds), vec!["other/notes.txt"]);
}

#[test]
fn verification_picks_the_first_candidate_with_the_same_bytes() {
    let base = snapshot(&[("c1", 4, T1), ("c2", 4, T1), ("c3", 4, T1)]);
    let target = snapshot(&[("t", 4, T1)]);
    let (changes, asked) = run_with_contents(
        &base,
        target,
        VERIFIED,
        &[("c1", b"aaaa"), ("c2", b"bbbb"), ("c3", b"bbbb")],
        &[("t", b"bbbb")],
    );
    assert_eq!(asked, vec![pair("c1", "t"), pair("c2", "t")]);
    assert_eq!(pairs(&changes), vec![pair("c2", "t")]);
    assert!(changes.adds.is_empty());
}

#[test]
fn verification_turns_all_candidates_down() {
    let base = snapshot(&[("c1", 4, T1), ("c2", 4, T1)]);
    let target = snapshot(&[("t", 4, T1), ("u", 4, T1)]);
    let (changes, asked) = run_with_contents(
        &base,
        target,
        VERIFIED,
        &[("c1", b"aaaa"), ("c2", b"bbbb")],
        &[("t", b"cccc"), ("u", b"bbbb")],
    );
    assert_eq!(
        asked,
        vec![pair("c1", "t"), pair("c2", "t"), pair("c1", "u"), pair("c2", "u")]
    );
    assert_eq!(names(&changes.adds), vec!["t"]);
    assert_eq!(pairs(&changes), vec![pair("c2", "u")]);
}

#[test]
fn candidates_of_another_size_are_never_compared() {
    let base = snapshot(&[("a/n", 3, T1), ("b/n", 5, T1), ("c/n", 4, T1)]);
    let target = snapshot(&[("new/n", 4, T2)]);
    let by_size = run_with_contents(
        &base,
        target,
        VERIFIED,
        &[("a/n", b"abc"), ("b/n", b"abcde"), ("c/n", b"abcd")],
        &[("new/n", b"abcd")],
    );
    assert_eq!(by_size.1, vec![pair("c/n", "new/n")]);
    assert_eq!(pairs(&by_size.0), vec![pair("c/n", "new/n")]);

    let base = snapshot(&[("a/n", 3, T1), ("b/n", 5, T1)]);
    let target = snapshot(&[("new/n", 4, T2)]);
    let by_name = run_with_contents(
        &base,
        target,
        VERIFIED,
        &[("a/n", b"abc"), ("b/n", b"abcde")],
        &[("new/n", b"abcd")],
    );
    assert!(by_name.1.is_empty());
    assert!(by_name.0.copies.is_empty());
    assert_eq!(names(&by_name.0.adds), vec!["new/n"]);
}

#[test]
fn without_verification_there_is_no_question() {
    let base = snapshot(&[("a", 1, T1)]);
    let target = snapshot(&[("b", 1, T1), ("c", 2, T1)]);
    let differ = MoveDiffer::new(&base, target, MatchPolicy { by_name: true, verify_content: false });
    assert!(differ.is_finished());
    assert!(differ.pending().is_none());
    let changes = differ.finish();
    assert_eq!(pairs(&changes), vec![pair("a", "b")]);
    assert_eq!(names(&changes.adds), vec!["c"]);
}

#[test]
fn outputs_are_sorted_by_path() {
    let base = snapshot(&[("z", 1, T1), ("m", 2, T1), ("a", 3, T1), ("k", 4, T1)]);
    let target = snapshot(&[
        ("y2", 1, T1),
        ("b2", 2, T1),
        ("q2", 3, T1),
        ("zz", 50, T2),
        ("aa", 60, T2),
        ("mm", 70, T2),
    ]);
    let changes = diff(&base, target, false);
    assert_eq!(names(&changes.deletes), vec!["a", "k", "m", "z"]);
    assert_eq!(names(&changes.adds), vec!["aa", "mm", "zz"]);
    assert_eq!(pairs(&changes), vec![pair("m", "b2"), pair("a", "q2"), pair("z", "y2")]);
}

#[test]
fn no_path_is_named_twice() {
    let base = snapshot(&[("a", 1, T1), ("b", 1, T1), ("c", 2, T1)]);
    let target = snapshot(&[("d", 1, T1), ("e", 1, T2), ("f", 9, T2), ("c", 2, T2)]);
    let changes = diff(&base, target, true);
    let mut named = names(&changes.adds);
    named.extend(pairs(&changes).into_iter().map(|(_, dst)| dst));
    let mut unique = named.clone();
    unique.sort();
    unique.dedup();
    assert_eq!(unique.len(), named.len());
    let mut deleted = names(&changes.deletes);
    let count = deleted.len();
    deleted.dedup();
    assert_eq!(deleted.len(), count);
}

#[test]
fn diff_is_deterministic() {
    let base_files = [("a", 1, T1), ("b", 1, T1), ("c/d", 2, T1), ("e", 3, T2)];
    let target_files = [("x", 1, T1), ("c/d", 2, T1), ("y", 3, T1), ("z", 9, T2)];
    let first = diff(&snapshot(&base_files), snapshot(&target_files), true);
    let second = diff(&snapshot(&base_files), snapshot(&target_files), true);
    assert_eq!(pairs(&first), pairs(&second));
    assert_eq!(names(&first.adds), names(&second.adds));
    assert_eq!(names(&first.deletes), names(&second.deletes));

    let mut base_reversed = base_files;
    base_reversed.reverse();
    let mut target_reversed = target_files;
    target_reversed.reverse();
    let third = diff(&snapshot(&base_reversed), snapshot(&target_reversed), true);
    assert_eq!(pairs(&first), pairs(&third));
    assert_eq!(names(&first.adds), names(&third.adds));
    assert_eq!(names(&first.deletes), names(&third.deletes));
}

#[test]
fn delete_pass_alone() {
    let base = snapshot(&[("a", 1, T1), ("b", 2, T1), ("c", 3, T1)]);
    let target = snapshot(&[("b", 2, T1), ("c", 3, T2), ("d", 1, T1)]);
    assert_eq!(names(&deleted_paths(&base, &target)), vec!["a", "c"]);
}

#[test]
fn change_set_is_empty_only_without_entries() {
    let base = snapshot(&[("a", 1, T1)]);
    assert!(!diff(&base, snapshot(&[]), true).is_empty());
    assert!(!diff(&snapshot(&[]), snapshot(&[("a", 1, T1)]), true).is_empty());
}
