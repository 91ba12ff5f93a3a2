use lib::shadow::{find_shadows, resolve_name, split_path_var, DirListing, PathEntry, Shadow};

fn listing(dir: &str, names: &[&str]) -> DirListing {
    DirListing {
        identity: dir.to_string(),
        entries: names
            .iter()
            .map(|n| PathEntry {
                name: n.to_string(),
                path: format!("{dir}/{n}"),
                identity: format!("{dir}/{n}"),
            })
            .collect(),
    }
}

#[test]
fn split_path_drops_empty_and_duplicate_segments() {
    let dirs = split_path_var("/a/bin::/b/bin:/a/bin:/c/bin");
    assert_eq!(dirs, vec!["/a/bin".to_string(), "/b/bin".to_string(), "/c/bin".to_string()]);
}

#[test]
fn split_path_of_empty_string_is_empty() {
    assert!(split_path_var("").is_empty());
    assert!(split_path_var(":::").is_empty());
}

#[test]
fn earlier_path_entries_win() {
    let a = listing("/a", &["only-a", "rg"]);
    let b = listing("/b", &["only-b", "rg"]);
    let shadows = find_shadows(&vec![a, b]);
    assert_eq!(shadows.len(), 1);
    assert_eq!(shadows[0].name, "rg");
    assert_eq!(shadows[0].winner(), "/a/rg");
    assert_eq!(shadows[0].losers(), &["/b/rg".to_string()]);
}

#[test]
fn three_way_collisions_keep_path_order() {
    let a = listing("/a", &["fmt"]);
    let b = listing("/b", &["fmt"]);
    let c = listing("/c", &["fmt"]);
    let shadows = find_shadows(&vec![c, a, b]);
    assert_eq!(shadows[0].entries, vec!["/c/fmt", "/a/fmt", "/b/fmt"]);
}

#[test]
fn unique_names_are_not_shadows() {
    let a = listing("/a", &["alpha"]);
    let b = listing("/b", &["beta"]);
    assert!(find_shadows(&vec![a, b]).is_empty());
}

#[test]
fn missing_dirs_are_skipped_like_the_shell_does() {
    let a = listing("/a", &["tool"]);
    let ghost = listing("/nonexistent/binsweep-shadow-dir", &[]);
    let ghost2 = listing("/nonexistent/binsweep-shadow-dir", &[]);
    assert!(find_shadows(&vec![ghost, a, ghost2]).is_empty());
}

#[test]
fn shadows_come_back_sorted_by_name() {
    let a = listing("/a", &["aa", "zz"]);
    let b = listing("/b", &["aa", "zz"]);
    let shadows = find_shadows(&vec![a, b]);
    let names: Vec<&str> = shadows.iter().map(|s| s.name.as_str()).collect();
    assert_eq!(names, vec!["aa", "zz"]);
}

#[test]
fn usrmerge_alias_dirs_do_not_shadow_themselves() {
    // /bin -> /usr/bin: the same directory under two spellings.
    let real = listing("/usr/bin", &["cat", "ls"]);
    let mut alias = listing("/bin", &["cat", "ls"]);
    alias.identity = "/usr/bin".to_string();
    assert!(find_shadows(&vec![real, alias]).is_empty());
    let dirs = vec!["/usr/bin".to_string(), "/bin".to_string()];
    let ids = vec!["/usr/bin".to_string(), "/usr/bin".to_string()];
    assert_eq!(resolve_name(&dirs, &ids, "ls", &vec![true, true]).len(), 1);
}

#[test]
fn two_routes_to_the_same_file_are_not_a_shadow() {
    let a = listing("/a", &["tool"]);
    let mut b = listing("/b", &["tool"]);
    b.entries[0].identity = "/a/tool".to_string();
    let c = listing("/c", &["tool"]);
    let shadows = find_shadows(&vec![listing("/a", &["tool"]), b]);
    assert!(shadows.is_empty());
    let mut b2 = listing("/b", &["tool"]);
    b2.entries[0].identity = "/a/tool".to_string();
    let shadows = find_shadows(&vec![a, b2, c]);
    assert_eq!(shadows.len(), 1);
    assert_eq!(shadows[0].entries, vec!["/a/tool", "/c/tool"]);
}

#[test]
fn resolve_name_lists_every_occurrence_winner_first() {
    let dirs = vec!["/b".to_string(), "/a".to_string()];
    let ids = dirs.clone();
    let hits = resolve_name(&dirs, &ids, "tsc", &vec![true, true]);
    assert_eq!(hits, vec!["/b/tsc", "/a/tsc"]);
    assert!(resolve_name(&dirs, &ids, "nope", &vec![false, false]).is_empty());
}

#[test]
fn shadow_accessors_split_winner_from_losers() {
    let s = Shadow { name: "x".into(), entries: vec!["/1/x".into(), "/2/x".into(), "/3/x".into()] };
    assert_eq!(s.winner(), "/1/x");
    assert_eq!(s.losers(), &["/2/x".to_string(), "/3/x".to_string()]);
}
