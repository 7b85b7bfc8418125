use dirscan::file_utils::calculate_hash;
use dirscan::file_utils::find_duplicate_groups;
use dirscan::file_utils::get_largest_files;
use dirscan::traversal::needs_hash;
use dirscan::traversal::traverse_directory;
use dirscan::traversal::WalkEvent;

fn file_event(path: &str, contents: &[u8], min_file_size: usize) -> WalkEvent {
    let size = contents.len() as u64;
    let hash = if needs_hash(size, &min_file_size) {
        calculate_hash(contents)
    } else {
        String::new()
    };
    WalkEvent::File { path: String::from(path), size, hash }
}

#[test]
fn empty_directory() {
    let events = vec![WalkEvent::Directory { depth: 0 }];
    let out = traverse_directory(&events, &100, &Vec::new());
    let stats = out.complete_statistics;
    assert_eq!(stats.n_directories_visited, 1);
    assert_eq!(stats.max_depth_visited, 0);
    assert_eq!(stats.n_files_identified, 0);
    assert_eq!(stats.n_files_considered, 0);
    assert_eq!(stats.n_files_hashed, 0);
    assert!(out.file_infos.is_empty());
    assert!(get_largest_files(&out.file_infos, &5).is_empty());
    assert!(find_duplicate_groups(&out.file_infos).is_empty());
}

#[test]
fn threshold_gates_dedup_by_size() {
    // A and B are byte-identical but below the threshold, so they are never
    // hashed and never flagged as duplicates; only C is hashed.
    let min = 100usize;
    let small = b"0123456789";
    let big = vec![7u8; 1_000_000];
    let events = vec![
        WalkEvent::Directory { depth: 0 },
        file_event("root/a", small, min),
        file_event("root/b", small, min),
        file_event("root/c", &big, min),
    ];
    let out = traverse_directory(&events, &min, &Vec::new());
    let stats = out.complete_statistics;
    assert_eq!(stats.n_files_identified, 3);
    assert_eq!(stats.n_files_considered, 3);
    assert_eq!(stats.n_files_hashed, 1);

    let top = get_largest_files(&out.file_infos, &2);
    assert_eq!(top.len(), 2);
    assert_eq!(top[0].path, "root/c");
    assert_eq!(top[1].path, "root/a");

    assert!(find_duplicate_groups(&out.file_infos).is_empty());
}

#[test]
fn zero_threshold_groups_small_duplicates() {
    let min = 0usize;
    let contents = b"same bytes";
    let events = vec![
        WalkEvent::Directory { depth: 0 },
        file_event("a", contents, min),
        file_event("b", contents, min),
    ];
    let out = traverse_directory(&events, &min, &Vec::new());
    assert_eq!(out.complete_statistics.n_files_hashed, 2);

    let groups = find_duplicate_groups(&out.file_infos);
    assert_eq!(groups.len(), 1);
    assert_eq!(groups[0].0, calculate_hash(contents));
    let member_paths: Vec<&str> = groups[0].1.iter().map(|m| m.path.as_str()).collect();
    assert_eq!(member_paths, vec!["a", "b"]);
}

#[test]
fn extension_filter_narrows_consideration() {
    let min = 1000usize;
    let exts = vec![String::from("txt")];
    let events = vec![
        WalkEvent::Directory { depth: 0 },
        file_event("notes.txt", &[1u8; 50], min),
        file_event("server.log", &[2u8; 50], min),
    ];
    let out = traverse_directory(&events, &min, &exts);
    let stats = out.complete_statistics;
    assert_eq!(stats.n_files_identified, 2);
    assert_eq!(stats.n_files_considered, 1);
    assert_eq!(stats.n_files_hashed, 0);
    assert_eq!(out.file_infos.len(), 1);
    assert_eq!(out.file_infos[0].path, "notes.txt");
    let top = get_largest_files(&out.file_infos, &5);
    assert_eq!(top.len(), 1);
    assert_eq!(top[0].path, "notes.txt");
}

#[test]
fn counts_are_always_ordered() {
    let min = 20usize;
    let exts = vec![String::from("rs")];
    let events = vec![
        WalkEvent::Directory { depth: 0 },
        WalkEvent::Directory { depth: 1 },
        file_event("src/main.rs", &[9u8; 100], min),
        file_event("src/lib.rs", &[8u8; 5], min),
        file_event("readme.md", &[7u8; 100], min),
    ];
    let out = traverse_directory(&events, &min, &exts);
    let stats = out.complete_statistics;
    assert!(stats.n_files_hashed <= stats.n_files_considered);
    assert!(stats.n_files_considered <= stats.n_files_identified);
    assert_eq!(stats.n_files_identified, 3);
    assert_eq!(stats.n_files_considered, 2);
    assert_eq!(stats.n_files_hashed, 1);
    assert_eq!(stats.n_directories_visited, 2);
    assert_eq!(stats.max_depth_visited, 1);
}

#[test]
fn rerunning_the_same_walk_gives_identical_results() {
    fn make_events() -> Vec<WalkEvent> {
        let min = 3usize;
        vec![
            WalkEvent::Directory { depth: 0 },
            WalkEvent::Directory { depth: 2 },
            file_event("x/one", b"abcdef", min),
            file_event("x/two", b"abcdef", min),
            file_event("x/three", b"zz", min),
        ]
    }
    let out1 = traverse_directory(&make_events(), &3, &Vec::new());
    let out2 = traverse_directory(&make_events(), &3, &Vec::new());
    assert_eq!(out1.complete_statistics, out2.complete_statistics);
    assert_eq!(out1.file_infos.len(), out2.file_infos.len());
    for (a, b) in out1.file_infos.iter().zip(out2.file_infos.iter()) {
        assert_eq!(a.path, b.path);
        assert_eq!(a.size, b.size);
        assert_eq!(a.hash, b.hash);
    }
}

#[test]
fn needs_hash_is_strictly_above_threshold() {
    assert!(!needs_hash(99, &100));
    assert!(!needs_hash(100, &100));
    assert!(needs_hash(101, &100));
    assert!(needs_hash(1, &0));
    assert!(!needs_hash(0, &0));
}

#[test]
fn below_threshold_records_have_empty_fingerprints() {
    let min = 50usize;
    let events = vec![
        file_event("small", &[1u8; 10], min),
        file_event("large", &[2u8; 200], min),
    ];
    let out = traverse_directory(&events, &min, &Vec::new());
    for f in &out.file_infos {
        if f.size <= min as u64 {
            assert!(f.hash.is_empty());
        } else {
            assert!(!f.hash.is_empty());
        }
    }
}
