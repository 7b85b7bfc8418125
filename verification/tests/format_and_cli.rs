use dirscan::cli::get_size_by_alias;
use dirscan::cli::parse_args;
use dirscan::cli::MainCommandArgs;
use dirscan::file_sizes::format_size;
use dirscan::file_utils::has_allowed_extension;

fn args(directory: &str, extensions: &str, min_file_size: &str, n_top: usize) -> MainCommandArgs {
    MainCommandArgs {
        directory: String::from(directory),
        file_extensions: String::from(extensions),
        min_file_size: String::from(min_file_size),
        n_top,
    }
}

#[test]
fn format_size_bytes() {
    assert_eq!(format_size(0), "0 bytes");
    assert_eq!(format_size(1), "1 bytes");
    assert_eq!(format_size(500), "500 bytes");
    assert_eq!(format_size(999), "999 bytes");
}

#[test]
fn format_size_kilobytes() {
    assert_eq!(format_size(1000), "1 KB");
    assert_eq!(format_size(1500), "1 KB");
    assert_eq!(format_size(999_999), "999 KB");
}

#[test]
fn format_size_megabytes_and_gigabytes() {
    assert_eq!(format_size(1_000_000), "1 MB");
    assert_eq!(format_size(2_500_000), "2 MB");
    assert_eq!(format_size(999_999_999), "999 MB");
    assert_eq!(format_size(1_000_000_000), "1 GB");
    assert_eq!(format_size(3_000_000_000), "3 GB");
}

#[test]
fn size_aliases_resolve() {
    assert_eq!(get_size_by_alias("blank"), Some(0));
    assert_eq!(get_size_by_alias("config"), Some(10));
    assert_eq!(get_size_by_alias("code"), Some(100_000));
    assert_eq!(get_size_by_alias("excel"), Some(1_000_000));
    assert_eq!(get_size_by_alias("document"), Some(5_000_000));
    assert_eq!(get_size_by_alias("image"), Some(10_000_000));
    assert_eq!(get_size_by_alias("gif"), Some(20_000_000));
    assert_eq!(get_size_by_alias("audio"), Some(50_000_000));
    assert_eq!(get_size_by_alias("video"), Some(500_000_000));
    assert_eq!(get_size_by_alias("large"), Some(1_000_000_000));
}

#[test]
fn size_alias_unknown_is_none() {
    assert_eq!(get_size_by_alias("huge"), None);
    assert_eq!(get_size_by_alias(""), None);
    assert_eq!(get_size_by_alias("Code"), None);
}

#[test]
fn parse_args_splits_extensions() {
    let parsed = parse_args(args("/tmp/data", "txt,log", "code", 5));
    assert_eq!(parsed.directory, "/tmp/data");
    assert_eq!(parsed.file_extensions, vec!["txt".to_string(), "log".to_string()]);
    assert_eq!(parsed.min_file_size, 100_000);
    assert_eq!(parsed.n_top, 5);
}

#[test]
fn parse_args_empty_extensions_means_no_filter() {
    let parsed = parse_args(args(".", "", "blank", 3));
    assert!(parsed.file_extensions.is_empty());
    assert_eq!(parsed.min_file_size, 0);
}

#[test]
fn parse_args_keeps_empty_segments() {
    let parsed = parse_args(args(".", "a,,b", "config", 1));
    assert_eq!(
        parsed.file_extensions,
        vec!["a".to_string(), "".to_string(), "b".to_string()]
    );
}

#[test]
fn parse_args_unknown_alias_falls_back() {
    let parsed = parse_args(args(".", "rs", "whatever", 2));
    assert_eq!(parsed.min_file_size, 100_000);
}

#[test]
fn extension_match_is_case_insensitive() {
    let exts = vec!["txt".to_string()];
    assert!(has_allowed_extension("dir/file.TXT", &exts));
    assert!(has_allowed_extension("dir/file.txt", &exts));
    let upper = vec!["TXT".to_string()];
    assert!(has_allowed_extension("dir/file.txt", &upper));
}

#[test]
fn extension_mismatch_and_edge_cases() {
    let exts = vec!["txt".to_string()];
    assert!(!has_allowed_extension("file.log", &exts));
    assert!(!has_allowed_extension("file", &exts));
    assert!(!has_allowed_extension("a.b/c", &vec!["b".to_string()]));
    assert!(!has_allowed_extension("file.txt", &Vec::new()));
}

#[test]
fn leading_dot_file_has_no_extension() {
    assert!(!has_allowed_extension(".gitignore", &vec!["gitignore".to_string()]));
    assert!(has_allowed_extension(".config.yml", &vec!["yml".to_string()]));
}

#[test]
fn last_extension_wins() {
    assert!(has_allowed_extension("foo.tar.gz", &vec!["gz".to_string()]));
    assert!(!has_allowed_extension("foo.tar.gz", &vec!["tar".to_string()]));
}
