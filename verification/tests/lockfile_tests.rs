use rapm::lockfile::{Dependency, LockFile};

fn sample_graph() -> LockFile {
    let mut lock = LockFile::new("demo".to_owned(), "0.1.0".to_owned());
    let mut deps_a = vec!["pkgB@^1.0.0".to_owned(), "pkgC@2.0.0".to_owned()];
    lock.add_dependency(&"pkgA@1.0.0".to_owned(), "1.0.0".to_owned(), &mut deps_a);
    let mut deps_b: Vec<String> = Vec::new();
    lock.add_dependency(&"pkgB@1.0.0".to_owned(), "1.0.0".to_owned(), &mut deps_b);
    let mut deps_c: Vec<String> = Vec::new();
    lock.add_dependency(&"pkgC@2.0.0".to_owned(), "2.0.0".to_owned(), &mut deps_c);
    lock
}

#[test]
fn test_lock_file() {
    let text = "name = demo\nversion = 0.1.0\n[pkgA@1.0.0]\nversion = 1.0.0\ndep = pkgB@^1.0.0\n";
    let lock = LockFile::load(text).unwrap();
    println!("{:?}", lock.get_name());
    println!("{:?}", lock.get_project_version());
    for (k, v) in lock.get_packages() {
        println!("key: {:?}", k);
        println!("version: {:?}", v.get_version());
        println!("deps: {:?}", v.get_dependency_keys());
    }
}

#[test]
fn save_then_load_gives_the_graph_back() {
    let lock = sample_graph();
    let text = lock.save();
    let loaded = LockFile::load(text.as_str()).expect("a saved graph must load");
    assert_eq!(loaded.get_name(), "demo");
    assert_eq!(loaded.get_project_version(), "0.1.0");
    let before = lock.get_packages();
    let after = loaded.get_packages();
    assert_eq!(before.len(), after.len());
    for i in 0..before.len() {
        assert_eq!(before[i].0, after[i].0);
        assert_eq!(before[i].1.get_version(), after[i].1.get_version());
        assert_eq!(before[i].1.get_dependency_keys(), after[i].1.get_dependency_keys());
    }
    // and the persisted text itself round-trips byte for byte
    assert_eq!(loaded.save(), text);
}

#[test]
fn save_shape() {
    let mut lock = LockFile::new("p".to_owned(), "1".to_owned());
    let mut deps = vec!["b@1".to_owned()];
    lock.add_dependency(&"a@1".to_owned(), "1".to_owned(), &mut deps);
    assert_eq!(lock.save(), "name = p\nversion = 1\n[a@1]\nversion = 1\ndep = b@1\n");
}

#[test]
fn load_of_empty_text_is_the_empty_graph() {
    let lock = LockFile::load("").unwrap();
    assert_eq!(lock.get_name(), "");
    assert_eq!(lock.get_project_version(), "");
    assert_eq!(lock.get_packages().len(), 0);
}

#[test]
fn load_rejects_malformed_text() {
    assert!(LockFile::load("nonsense").is_none());
    assert!(LockFile::load("name = a\n").is_none());
    // a duplicated key is rejected, not merged silently
    let dup = "name = a\nversion = 1\n[k@1]\nversion = 1\n[k@1]\nversion = 1\n";
    assert!(LockFile::load(dup).is_none());
}

#[test]
fn add_dependency_merges_and_overwrites() {
    let mut lock = LockFile::new("p".to_owned(), "1".to_owned());
    let key = "pkgA@1.0.0".to_owned();
    let mut deps1 = vec!["x@1".to_owned(), "y@1".to_owned(), "x@1".to_owned()];
    lock.add_dependency(&key, "1.0.0".to_owned(), &mut deps1);
    // re-adding the key unions the dependency sets and keeps one entry
    let mut deps2 = vec!["y@1".to_owned(), "z@1".to_owned()];
    lock.add_dependency(&key, "1.0.0".to_owned(), &mut deps2);
    let packages = lock.get_packages();
    assert_eq!(packages.len(), 1);
    assert_eq!(packages[0].0, "pkgA@1.0.0");
    assert_eq!(packages[0].1.get_version(), "1.0.0");
    assert_eq!(
        packages[0].1.get_dependency_keys(),
        &vec!["x@1".to_owned(), "y@1".to_owned(), "z@1".to_owned()]
    );
}

#[test]
fn add_same_entry_twice_saves_identically() {
    let mut one = LockFile::new("p".to_owned(), "1".to_owned());
    let mut deps = vec!["b@^1".to_owned()];
    one.add_dependency(&"a@1".to_owned(), "1".to_owned(), &mut deps);
    let first = one.save();
    let mut again = vec!["b@^1".to_owned()];
    one.add_dependency(&"a@1".to_owned(), "1".to_owned(), &mut again);
    assert_eq!(one.save(), first);
}

#[test]
fn dependency_names_are_deduplicated() {
    let dep = Dependency::new(
        "1.0.0".to_owned(),
        vec!["a@1".to_owned(), "a@2".to_owned(), "@s/b@1".to_owned()],
    );
    assert_eq!(dep.get_dependencies_name(), vec!["a".to_owned(), "@s/b".to_owned()]);
}

#[test]
fn get_dependency_finds_entries() {
    let lock = sample_graph();
    assert!(lock.get_dependency(&"pkgA@1.0.0".to_owned()).is_some());
    assert!(lock.get_dependency(&"pkgZ@9.9.9".to_owned()).is_none());
    assert!(lock.has_key(&"pkgB@1.0.0".to_owned()));
}
