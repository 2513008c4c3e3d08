use rapm::linker::{link_plan, NodeModules};
use rapm::lockfile::LockFile;

#[test]
fn node_modules_paths() {
    let mut modules = NodeModules::new("node_modules".to_owned());
    assert_eq!(modules.get_path(), "node_modules");
    assert_eq!(modules.get_destination("pkgA".to_owned()), "node_modules/pkgA");
}

#[test]
fn plan_for_single_package_has_no_links() {
    let mut lock = LockFile::new("demo".to_owned(), "0.1.0".to_owned());
    let mut no_deps: Vec<String> = Vec::new();
    lock.add_dependency(&"pkgA@1.0.0".to_owned(), "1.0.0".to_owned(), &mut no_deps);
    let plan = link_plan(&lock, "node_modules").unwrap();
    assert_eq!(plan.extracts.len(), 1);
    assert_eq!(plan.extracts[0].key, "pkgA@1.0.0");
    assert_eq!(plan.extracts[0].dest, "node_modules/pkgA");
    assert_eq!(plan.links.len(), 0);
}

#[test]
fn plan_hoists_first_version_and_nests_the_conflict() {
    // pkgA depends on pkgB@1.0.0; pkgC depends on pkgB@2.0.0
    let mut lock = LockFile::new("demo".to_owned(), "0.1.0".to_owned());
    let mut a_deps = vec!["pkgB@1.0.0".to_owned()];
    lock.add_dependency(&"pkgA@1.0.0".to_owned(), "1.0.0".to_owned(), &mut a_deps);
    let mut b1: Vec<String> = Vec::new();
    lock.add_dependency(&"pkgB@1.0.0".to_owned(), "1.0.0".to_owned(), &mut b1);
    let mut c_deps = vec!["pkgB@2.0.0".to_owned()];
    lock.add_dependency(&"pkgC@1.0.0".to_owned(), "1.0.0".to_owned(), &mut c_deps);
    let mut b2: Vec<String> = Vec::new();
    lock.add_dependency(&"pkgB@2.0.0".to_owned(), "2.0.0".to_owned(), &mut b2);

    let plan = link_plan(&lock, "node_modules").unwrap();
    // the first resolved pkgB claims the shared top level; the other
    // version is extracted under its full key, never colliding with it
    let dests: Vec<&str> = plan.extracts.iter().map(|e| e.dest.as_str()).collect();
    assert_eq!(
        dests,
        vec![
            "node_modules/pkgA",
            "node_modules/pkgB",
            "node_modules/pkgC",
            "node_modules/pkgB@2.0.0",
        ]
    );
    // pkgA's need for pkgB@1.0.0 is satisfied by the hoisted copy; pkgC
    // gets a private nested link to the conflicting version
    assert_eq!(plan.links.len(), 1);
    assert_eq!(plan.links[0].dir, "node_modules/pkgC/node_modules");
    assert_eq!(plan.links[0].dest, "node_modules/pkgC/node_modules/pkgB");
    assert_eq!(plan.links[0].target, "node_modules/pkgB@2.0.0");
}

#[test]
fn unpinned_dependency_is_satisfied_by_any_top_level_copy() {
    let mut lock = LockFile::new("demo".to_owned(), "0.1.0".to_owned());
    let mut a_deps = vec!["pkgB@*".to_owned()];
    lock.add_dependency(&"pkgA@1.0.0".to_owned(), "1.0.0".to_owned(), &mut a_deps);
    let mut b1: Vec<String> = Vec::new();
    lock.add_dependency(&"pkgB@3.0.0".to_owned(), "3.0.0".to_owned(), &mut b1);
    let plan = link_plan(&lock, "node_modules").unwrap();
    assert_eq!(plan.links.len(), 0);
}

#[test]
fn dangling_dependency_is_a_fatal_plan_error() {
    let mut lock = LockFile::new("demo".to_owned(), "0.1.0".to_owned());
    let mut a_deps = vec!["pkgB@1.0.0".to_owned()];
    lock.add_dependency(&"pkgA@1.0.0".to_owned(), "1.0.0".to_owned(), &mut a_deps);
    assert!(link_plan(&lock, "node_modules").is_err());
}

#[test]
fn caret_range_in_dependency_key_matches_its_base_version() {
    let mut lock = LockFile::new("demo".to_owned(), "0.1.0".to_owned());
    let mut a_deps = vec!["pkgB@^1.0.0".to_owned()];
    lock.add_dependency(&"pkgA@1.0.0".to_owned(), "1.0.0".to_owned(), &mut a_deps);
    let mut b1: Vec<String> = Vec::new();
    lock.add_dependency(&"pkgB@1.0.0".to_owned(), "1.0.0".to_owned(), &mut b1);
    let plan = link_plan(&lock, "node_modules").unwrap();
    // ^1.0.0 is normalized to 1.0.0, which the top level holds: no link
    assert_eq!(plan.links.len(), 0);
}
