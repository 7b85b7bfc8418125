use dirscan::file_utils::find_duplicate_groups;
use dirscan::file_utils::FileInfo;

fn record(path: &str, hash: &str) -> FileInfo {
    FileInfo { path: String::from(path), size: 1, hash: String::from(hash) }
}

#[test]
fn groups_need_two_members() {
    let files = vec![record("a", "h1"), record("b", "h1"), record("c", "h2")];
    let groups = find_duplicate_groups(&files);
    assert_eq!(groups.len(), 1);
    assert_eq!(groups[0].0, "h1");
    assert_eq!(groups[0].1.len(), 2);
}

#[test]
fn empty_fingerprints_are_never_grouped() {
    let files = vec![record("a", ""), record("b", ""), record("c", "")];
    let groups = find_duplicate_groups(&files);
    assert!(groups.is_empty());
}

#[test]
fn members_share_the_group_fingerprint_in_discovery_order() {
    let files = vec![
        record("a", "x"),
        record("b", "y"),
        record("c", "x"),
        record("d", "y"),
        record("e", "x"),
    ];
    let groups = find_duplicate_groups(&files);
    assert_eq!(groups.len(), 2);
    for (hash, members) in &groups {
        assert!(!hash.is_empty());
        assert!(members.len() >= 2);
        for m in members {
            assert_eq!(&m.hash, hash);
        }
    }
    let x_group = groups.iter().find(|g| g.0 == "x").unwrap();
    let member_paths: Vec<&str> = x_group.1.iter().map(|m| m.path.as_str()).collect();
    assert_eq!(member_paths, vec!["a", "c", "e"]);
}

#[test]
fn groups_are_ordered_by_member_count_descending() {
    let files = vec![
        record("a", "h1"),
        record("b", "h1"),
        record("c", "h2"),
        record("d", "h2"),
        record("e", "h2"),
        record("f", "h3"),
    ];
    let groups = find_duplicate_groups(&files);
    assert_eq!(groups.len(), 2);
    assert_eq!(groups[0].0, "h2");
    assert_eq!(groups[0].1.len(), 3);
    assert_eq!(groups[1].0, "h1");
    assert_eq!(groups[1].1.len(), 2);
}

#[test]
fn empty_input_gives_no_groups() {
    let files: Vec<FileInfo> = Vec::new();
    assert!(find_duplicate_groups(&files).is_empty());
}

#[test]
fn mixed_empty_and_shared_fingerprints() {
    let files = vec![record("a", ""), record("b", "h"), record("c", ""), record("d", "h")];
    let groups = find_duplicate_groups(&files);
    assert_eq!(groups.len(), 1);
    assert_eq!(groups[0].0, "h");
    let member_paths: Vec<&str> = groups[0].1.iter().map(|m| m.path.as_str()).collect();
    assert_eq!(member_paths, vec!["b", "d"]);
}
