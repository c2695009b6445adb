use shellcore::path_utils::candidate_paths;
use shellcore::path_utils::collect_executables;
use shellcore::path_utils::first_executable;
use shellcore::path_utils::is_executable_mode;
use shellcore::path_utils::join_path;
use shellcore::path_utils::path_separator;
use shellcore::path_utils::split_search_path;
use shellcore::path_utils::ScanEntry;

fn entry(name: &str, is_dir: bool, mode: u32) -> ScanEntry {
    ScanEntry { name: name.to_string(), is_dir, mode }
}

#[test]
fn separator_depends_on_the_platform_family() {
    assert_eq!(path_separator(false), ':');
    assert_eq!(path_separator(true), ';');
}

#[test]
fn search_path_splits_on_the_separator() {
    assert_eq!(
        split_search_path("/usr/bin:/bin:/opt/tools", ':'),
        vec!["/usr/bin".to_string(), "/bin".to_string(), "/opt/tools".to_string()]
    );
    assert_eq!(split_search_path("", ':'), vec!["".to_string()]);
    assert_eq!(
        split_search_path("/a::/b", ':'),
        vec!["/a".to_string(), "".to_string(), "/b".to_string()]
    );
}

#[test]
fn joined_paths_get_a_single_slash() {
    assert_eq!(join_path("/usr/bin", "ls"), "/usr/bin/ls");
    assert_eq!(join_path("/usr/bin/", "ls"), "/usr/bin/ls");
    assert_eq!(join_path("", "ls"), "ls");
}

#[test]
fn candidates_follow_search_order() {
    assert_eq!(
        candidate_paths("/usr/bin:/bin", ':', "ls"),
        vec!["/usr/bin/ls".to_string(), "/bin/ls".to_string()]
    );
}

#[test]
fn first_match_wins_across_directories() {
    let candidates = vec![
        ("/usr/bin/tool".to_string(), false),
        ("/bin/tool".to_string(), true),
        ("/opt/tool".to_string(), true),
    ];
    assert_eq!(first_executable(&candidates), Some("/bin/tool".to_string()));
    let none = vec![("/usr/bin/tool".to_string(), false)];
    assert_eq!(first_executable(&none), None);
}

#[test]
fn execute_bits_make_a_file_executable() {
    assert!(is_executable_mode(0o755));
    assert!(is_executable_mode(0o100));
    assert!(is_executable_mode(0o010));
    assert!(is_executable_mode(0o001));
    assert!(!is_executable_mode(0o644));
    assert!(!is_executable_mode(0));
}

#[test]
fn scan_keeps_only_executable_files() {
    // One directory holding an executable file and a non-executable file:
    // only the executable's name is reported.
    let entries = vec![entry("tool", false, 0o755), entry("notes.txt", false, 0o644)];
    assert_eq!(collect_executables(&entries), vec!["tool".to_string()]);
}

#[test]
fn scan_skips_directories_and_merges_duplicates() {
    // A missing directory on the search path contributes no entries and
    // must not disturb what valid directories report.
    let entries = vec![
        entry("tool", false, 0o755),
        entry("subdir", true, 0o755),
        entry("tool", false, 0o711),
        entry("other", false, 0o500),
    ];
    let mut found = collect_executables(&entries);
    found.sort();
    assert_eq!(found, vec!["other".to_string(), "tool".to_string()]);
}
