use discord_shortcut::resolver::{candidate_version, exe_path, find_newest_versioned, install_dir};

fn names(list: &[&str]) -> Vec<String> {
    list.iter().map(|s| s.to_string()).collect()
}

#[test]
fn picks_the_greatest_version() {
    let dirs = names(&["app-1.0.0", "app-2.3.1", "app-2.3.0", "not-app-9.9.9"]);
    assert_eq!(find_newest_versioned(&dirs), Some(1));
}

#[test]
fn nothing_found_in_empty_listing() {
    let dirs: Vec<String> = Vec::new();
    assert_eq!(find_newest_versioned(&dirs), None);
}

#[test]
fn nothing_found_without_candidates() {
    let dirs = names(&["random", "app-notaversion"]);
    assert_eq!(find_newest_versioned(&dirs), None);
}

#[test]
fn prefix_mismatch_is_excluded() {
    let dirs = names(&["App-9.9.9", "application-9.9.9", "app9.9.9", "not-app-9.9.9"]);
    assert_eq!(find_newest_versioned(&dirs), None);
    let dirs = names(&["napp-9.9.9", "app-0.0.1"]);
    assert_eq!(find_newest_versioned(&dirs), Some(1));
}

#[test]
fn unparsable_suffix_is_excluded_without_failing_the_scan() {
    let dirs = names(&["app-latest", "app-", "app-1.0.0", "app-01.2.3"]);
    assert_eq!(find_newest_versioned(&dirs), Some(2));
}

#[test]
fn pre_release_ranks_below_release() {
    let dirs = names(&["app-1.0.0-beta", "app-1.0.0"]);
    assert_eq!(find_newest_versioned(&dirs), Some(1));
    let dirs = names(&["app-1.0.0", "app-1.0.1-beta"]);
    assert_eq!(find_newest_versioned(&dirs), Some(1));
}

#[test]
fn first_of_equal_versions_wins() {
    let dirs = names(&["app-1.0.0+a", "app-1.0.0+b", "app-1.0.0"]);
    assert_eq!(find_newest_versioned(&dirs), Some(0));
}

#[test]
fn candidate_version_reads_the_suffix() {
    let v = candidate_version("app-0.305.9").expect("candidate");
    assert_eq!(v.major, 0);
    assert_eq!(v.minor, 305);
    assert_eq!(v.patch, 9);
    assert!(candidate_version("app-0.305").is_none());
    assert!(candidate_version("core-0.305.9").is_none());
    assert!(candidate_version("app").is_none());
}

#[test]
fn install_dir_appends_fixed_component() {
    assert_eq!(
        install_dir("C:\\Users\\u\\AppData\\Local"),
        "C:\\Users\\u\\AppData\\Local\\Discord"
    );
}

#[test]
fn exe_path_appends_fixed_executable() {
    assert_eq!(
        exe_path("C:\\Users\\u\\AppData\\Local\\Discord\\app-1.0.0"),
        "C:\\Users\\u\\AppData\\Local\\Discord\\app-1.0.0\\Discord.exe"
    );
}
