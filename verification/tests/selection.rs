use dirscan::file_utils::get_largest_files;
use dirscan::file_utils::FileInfo;

fn record(path: &str, size: u64) -> FileInfo {
    FileInfo { path: String::from(path), size, hash: String::new() }
}

fn paths(records: &[FileInfo]) -> Vec<String> {
    records.iter().map(|f| f.path.clone()).collect()
}

#[test]
fn largest_files_come_first() {
    let files = vec![record("a", 5), record("b", 3), record("c", 8), record("d", 3)];
    let top = get_largest_files(&files, &2);
    assert_eq!(paths(&top), vec!["c".to_string(), "a".to_string()]);
}

#[test]
fn zero_returns_nothing() {
    let files = vec![record("a", 5)];
    let top = get_largest_files(&files, &0);
    assert!(top.is_empty());
}

#[test]
fn large_count_returns_everything_sorted() {
    let files = vec![record("a", 1), record("b", 9), record("c", 4)];
    let top = get_largest_files(&files, &10);
    assert_eq!(top.len(), 3);
    assert_eq!(paths(&top), vec!["b".to_string(), "c".to_string(), "a".to_string()]);
}

#[test]
fn length_is_min_of_count_and_len() {
    let files = vec![record("a", 1), record("b", 2), record("c", 3)];
    for n in 0..6usize {
        let top = get_largest_files(&files, &n);
        assert_eq!(top.len(), n.min(files.len()));
    }
}

#[test]
fn ties_keep_input_order() {
    let files = vec![record("first", 3), record("second", 3), record("big", 5), record("third", 3)];
    let top = get_largest_files(&files, &4);
    assert_eq!(
        paths(&top),
        vec!["big".to_string(), "first".to_string(), "second".to_string(), "third".to_string()]
    );
}

#[test]
fn selection_is_idempotent() {
    let files = vec![record("a", 2), record("b", 7), record("c", 7), record("d", 1)];
    let once = get_largest_files(&files, &3);
    let twice = get_largest_files(&once, &3);
    assert_eq!(paths(&once), paths(&twice));
    let sizes_once: Vec<u64> = once.iter().map(|f| f.size).collect();
    let sizes_twice: Vec<u64> = twice.iter().map(|f| f.size).collect();
    assert_eq!(sizes_once, sizes_twice);
}

#[test]
fn empty_input_gives_empty_output() {
    let files: Vec<FileInfo> = Vec::new();
    assert!(get_largest_files(&files, &5).is_empty());
}

#[test]
fn input_is_not_mutated() {
    let files = vec![record("a", 1), record("b", 2)];
    let _ = get_largest_files(&files, &1);
    assert_eq!(paths(&files), vec!["a".to_string(), "b".to_string()]);
}
