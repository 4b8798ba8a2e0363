use dupesearch::digest::ContentHasher;
use dupesearch::filter::{admits_lowered, filter_admits};
use dupesearch::finder::{DuplicateFinder, FinderError, Phase};
use dupesearch::keeper::keeper_index;

fn digest_of(bytes: &[u8]) -> u64 {
    let mut h = ContentHasher::new();
    h.update(bytes);
    h.finish()
}

fn c(bytes: &[u8]) -> Option<&[u8]> {
    Some(bytes)
}

fn extension_of(path: &str) -> Option<&str> {
    let name = path.rsplit('/').next().unwrap();
    match name.rfind('.') {
        Some(0) | None => None,
        Some(i) => Some(&name[i + 1..]),
    }
}

/// Runs discovery over (path, content) files; `None` content stands for an unreadable file.
/// Outcomes are recorded in the order of the walk, or in the reverse order.
fn discover_in(formats: Option<Vec<String>>, files: &[(&str, Option<&[u8]>)], reverse: bool) -> DuplicateFinder {
    let mut f = DuplicateFinder::new("root".to_string(), formats);
    f.begin_scan().unwrap();
    let mut contents = Vec::new();
    for (path, content) in files {
        if f.add_entry(path.to_string(), false, extension_of(path)).unwrap() {
            contents.push(*content);
        }
    }
    f.finish_scan().unwrap();
    let mut order: Vec<usize> = (0..contents.len()).collect();
    if reverse {
        order.reverse();
    }
    for i in order {
        f.record_hash(i, contents[i].map(digest_of)).unwrap();
    }
    f.finish_hashing().unwrap();
    f
}

fn discover(formats: Option<Vec<String>>, files: &[(&str, Option<&[u8]>)]) -> DuplicateFinder {
    discover_in(formats, files, false)
}

fn resolve(f: &mut DuplicateFinder) -> Vec<String> {
    let mut removed = Vec::new();
    f.begin_deletion().unwrap();
    while let Some(paths) = f.next_removals() {
        removed.extend(paths);
        f.mark_group_resolved().unwrap();
    }
    f.finish_deletion().unwrap();
    removed
}

fn sorted(mut v: Vec<String>) -> Vec<String> {
    v.sort();
    v
}

#[test]
fn crc64_ecma_check_value() {
    assert_eq!(digest_of(b"123456789"), 0x6c40df5f0b497347);
    assert_eq!(digest_of(b""), 0);
}

#[test]
fn digest_independent_of_chunking() {
    let mut h = ContentHasher::new();
    h.update(b"1234");
    h.update(b"");
    h.update(b"56789");
    assert_eq!(h.finish(), 0x6c40df5f0b497347);
    assert_ne!(digest_of(b"X"), digest_of(b"Y"));
}

#[test]
fn filter_without_set_admits_everything() {
    assert!(filter_admits(&None, Some("png")));
    assert!(filter_admits(&None, None));
}

#[test]
fn filter_matches_case_insensitively_with_or_without_dot() {
    let dotted = Some(vec![".jpg".to_string()]);
    let bare = Some(vec!["png".to_string(), "jpg".to_string()]);
    assert!(filter_admits(&dotted, Some("jpg")));
    assert!(filter_admits(&dotted, Some("JPG")));
    assert!(!filter_admits(&dotted, Some("png")));
    assert!(!filter_admits(&dotted, None));
    assert!(filter_admits(&bare, Some("Jpg")));
    assert!(!filter_admits(&bare, Some("gif")));
    assert!(!filter_admits(&Some(vec![]), Some("jpg")));
}

#[test]
fn keeper_is_shortest_first_on_ties() {
    let g = vec!["dir/bb".to_string(), "a".to_string(), "c".to_string()];
    assert_eq!(keeper_index(&g), 1);
    let t = vec!["ab".to_string(), "cd".to_string()];
    assert_eq!(keeper_index(&t), 0);
}

#[test]
fn keeper_measures_bytes() {
    // "éé" is two characters but four bytes, longer than "abc".
    let g = vec!["éé".to_string(), "abc".to_string()];
    assert_eq!(keeper_index(&g), 1);
}

#[test]
fn scenario_two_equal_one_different() {
    let mut f = discover(
        None,
        &[("a.txt", c(b"X")), ("b.txt", c(b"X")), ("c.txt", c(b"Y"))],
    );
    let groups = f.get_duplicates();
    assert_eq!(groups.len(), 1);
    assert_eq!(groups[0], vec!["a.txt".to_string(), "b.txt".to_string()]);
    assert_eq!(f.get_file_count(), 3);
    assert_eq!(f.get_processed_count(), 3);
    let removed = resolve(&mut f);
    assert_eq!(removed, vec!["b.txt".to_string()]);
    assert_eq!(f.get_deleted_count(), 1);
    assert_eq!(f.get_phase(), Phase::Done);
}

#[test]
fn scenario_tie_keeps_first_in_group_order() {
    // Outcomes arriving in reverse order put b.txt first in its group.
    let mut f = discover_in(None, &[("a.txt", c(b"X")), ("b.txt", c(b"X"))], true);
    assert_eq!(f.get_duplicates()[0][0], "b.txt".to_string());
    let removed = resolve(&mut f);
    assert_eq!(removed, vec!["a.txt".to_string()]);
}

#[test]
fn scenario_empty_directory() {
    let mut f = discover(None, &[]);
    assert!(f.get_duplicates().is_empty());
    assert_eq!(f.get_file_count(), 0);
    assert_eq!(f.get_processed_count(), 0);
    assert_eq!(f.get_deleted_count(), 0);
    assert!(f.get_has_found_files());
    assert!(f.get_has_processed_files());
    assert!(f.get_has_finished());
    assert!(resolve(&mut f).is_empty());
}

#[test]
fn scenario_filter_excludes_other_extension() {
    let f = discover(
        Some(vec![".jpg".to_string()]),
        &[("p.jpg", c(b"same")), ("p.png", c(b"same"))],
    );
    assert_eq!(f.get_file_count(), 1);
    assert_eq!(f.get_processed_count(), 1);
    assert!(f.get_duplicates().is_empty());
}

#[test]
fn identical_contents_anywhere_form_one_group() {
    let mut f = discover(
        None,
        &[
            ("x/deep/one.bin", c(b"abc")),
            ("two.bin", c(b"abc")),
            ("y/three.bin", c(b"abc")),
            ("other.bin", c(b"abd")),
            ("z/other.bin", c(b"abd")),
        ],
    );
    let groups = f.get_duplicates();
    assert_eq!(groups.len(), 2);
    let mut sizes: Vec<usize> = groups.iter().map(|g| g.len()).collect();
    sizes.sort();
    assert_eq!(sizes, vec![2, 3]);
    let removed = sorted(resolve(&mut f));
    assert_eq!(removed, vec!["x/deep/one.bin".to_string(), "y/three.bin".to_string(), "z/other.bin".to_string()]);
    assert_eq!(f.get_deleted_count(), 2);
}

#[test]
fn distinct_contents_never_grouped() {
    let f = discover(None, &[("a", c(b"1")), ("b", c(b"2")), ("c", c(b"3"))]);
    assert!(f.get_duplicates().is_empty());
}

#[test]
fn unreadable_file_joins_no_group() {
    let f = discover(None, &[("a", c(b"1")), ("b", None), ("c", c(b"1"))]);
    assert_eq!(f.get_processed_count(), 3);
    let groups = f.get_duplicates();
    assert_eq!(groups.len(), 1);
    assert_eq!(sorted(groups[0].clone()), vec!["a".to_string(), "c".to_string()]);
}

#[test]
fn directories_are_not_candidates() {
    let mut f = DuplicateFinder::new("root".to_string(), None);
    f.begin_scan().unwrap();
    assert_eq!(f.add_entry("sub".to_string(), true, None), Ok(false));
    assert_eq!(f.add_entry("sub/f".to_string(), false, None), Ok(true));
    assert_eq!(f.get_file_count(), 1);
    assert_eq!(f.candidate_path(0), "sub/f".to_string());
}

#[test]
fn discovery_runs_once() {
    let mut f = DuplicateFinder::new("root".to_string(), None);
    assert_eq!(f.add_entry("a".to_string(), false, None), Err(FinderError::OutOfSequence));
    assert_eq!(f.begin_scan(), Ok(()));
    assert_eq!(f.begin_scan(), Err(FinderError::OutOfSequence));
    assert!(!f.get_has_found_files());
    assert_eq!(f.get_search_path(), "root".to_string());
}

#[test]
fn hashing_errors() {
    let mut f = DuplicateFinder::new("root".to_string(), None);
    f.begin_scan().unwrap();
    f.add_entry("a".to_string(), false, None).unwrap();
    f.add_entry("b".to_string(), false, None).unwrap();
    assert_eq!(f.record_hash(0, Some(1)), Err(FinderError::OutOfSequence));
    f.finish_scan().unwrap();
    assert!(f.get_has_found_files());
    assert_eq!(f.finish_scan(), Err(FinderError::OutOfSequence));
    assert_eq!(f.record_hash(2, Some(1)), Err(FinderError::UnknownCandidate));
    assert_eq!(f.record_hash(0, Some(1)), Ok(()));
    assert_eq!(f.record_hash(0, Some(1)), Err(FinderError::AlreadyHashed));
    assert_eq!(f.get_processed_count(), 1);
    assert_eq!(f.finish_hashing(), Err(FinderError::HashingIncomplete));
    assert!(!f.get_has_processed_files());
    assert_eq!(f.record_hash(1, Some(1)), Ok(()));
    assert_eq!(f.finish_hashing(), Ok(()));
    assert_eq!(f.get_duplicates().len(), 1);
}

#[test]
fn deletion_errors() {
    let mut f = DuplicateFinder::new("root".to_string(), None);
    assert_eq!(f.begin_deletion(), Err(FinderError::OutOfSequence));
    assert_eq!(f.mark_group_resolved(), Err(FinderError::OutOfSequence));
    assert_eq!(f.finish_deletion(), Err(FinderError::OutOfSequence));
    assert!(f.next_removals().is_none());
    let mut f = discover(None, &[("a", c(b"1")), ("bb", c(b"1"))]);
    f.begin_deletion().unwrap();
    assert_eq!(f.begin_deletion(), Err(FinderError::OutOfSequence));
    assert_eq!(f.finish_deletion(), Err(FinderError::DeletionIncomplete));
    assert_eq!(f.next_removals(), Some(vec!["bb".to_string()]));
    assert_eq!(f.mark_group_resolved(), Ok(()));
    assert_eq!(f.mark_group_resolved(), Err(FinderError::OutOfSequence));
    assert!(f.next_removals().is_none());
    assert_eq!(f.finish_deletion(), Ok(()));
    assert_eq!(f.get_deleted_count(), 1);
}

#[test]
fn lowered_extension_matches_entries_exactly() {
    let formats = Some(vec![".jpg".to_string(), "png".to_string()]);
    assert!(admits_lowered(&formats, &"jpg".to_string()));
    assert!(admits_lowered(&formats, &"png".to_string()));
    assert!(!admits_lowered(&formats, &"JPG".to_string()));
    assert!(!admits_lowered(&formats, &"gif".to_string()));
    assert!(!admits_lowered(&formats, &"jp".to_string()));
    assert!(!admits_lowered(&formats, &".png".to_string()));
    assert!(admits_lowered(&None, &"gif".to_string()));
}

#[test]
fn counters_untouched_by_discovery_and_deletion() {
    let mut f = discover(None, &[("a", c(b"1")), ("bb", c(b"1")), ("c", c(b"2"))]);
    assert_eq!(f.get_deleted_count(), 0);
    let groups = f.get_duplicates();
    resolve(&mut f);
    assert_eq!(f.get_file_count(), 3);
    assert_eq!(f.get_processed_count(), 3);
    assert_eq!(f.get_duplicates(), groups);
}
