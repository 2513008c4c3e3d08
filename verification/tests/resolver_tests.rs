use rapm::cache::TarballCache;
use rapm::command::{check_command, Command};
use rapm::lockfile::LockFile;
use rapm::package_json::Package;
use rapm::registry::{select_version, Dist, DistTags, Registry, Version};
use rapm::resolver::{Resolver, StepOutcome};

/// A pinned registry document: one version's data at the top level.
fn pinned_doc(name: &str, version: &str, deps: &[(&str, &str)]) -> Registry {
    Registry {
        id: name.to_owned(),
        rev: None,
        name: name.to_owned(),
        dist_tags: None,
        versions: None,
        time: None,
        maintainers: Vec::new(),
        description: String::new(),
        homepage: None,
        keywords: None,
        repository: None,
        author: None,
        license: None,
        readme: None,
        readme_file_name: None,
        dist: Some(Dist {
            shasum: String::new(),
            tarball: format!("https://registry.npmjs.org/{}/-/{}-{}.tgz", name, name, version),
            integrity: None,
            signature: None,
        }),
        sequence: None,
        dependencies: Some(
            deps.iter().map(|(k, v)| (k.to_string(), v.to_string())).collect(),
        ),
        dev_dependencies: None,
        peer_dependencies: None,
        optional_dependencies: None,
        bundled_dependencies: None,
        version: Some(version.to_owned()),
    }
}

/// A full registry document: dist-tags plus a versions map.
fn full_doc(name: &str, latest: &str, versions: &[(&str, &[(&str, &str)])]) -> Registry {
    let mut tags = DistTags::new();
    tags.insert("latest".to_owned(), latest.to_owned());
    let vs: Vec<(String, Version)> = versions
        .iter()
        .map(|(v, deps)| {
            (
                v.to_string(),
                Version {
                    name: name.to_owned(),
                    version: v.to_string(),
                    description: String::new(),
                    main: None,
                    types: None,
                    scripts: None,
                    repository: None,
                    dependencies: Some(
                        deps.iter().map(|(k, w)| (k.to_string(), w.to_string())).collect(),
                    ),
                    dev_dependencies: None,
                    peer_dependencies: None,
                    optional_dependencies: None,
                    bundled_dependencies: None,
                    engines: None,
                    os: None,
                    cpu: None,
                    private: None,
                    dist: Dist {
                        shasum: String::new(),
                        tarball: format!(
                            "https://registry.npmjs.org/{}/-/{}-{}.tgz",
                            name, name, v
                        ),
                        integrity: None,
                        signature: None,
                    },
                },
            )
        })
        .collect();
    Registry {
        id: name.to_owned(),
        rev: None,
        name: name.to_owned(),
        dist_tags: Some(tags),
        versions: Some(vs),
        time: None,
        maintainers: Vec::new(),
        description: String::new(),
        homepage: None,
        keywords: None,
        repository: None,
        author: None,
        license: None,
        readme: None,
        readme_file_name: None,
        dist: None,
        sequence: None,
        dependencies: None,
        dev_dependencies: None,
        peer_dependencies: None,
        optional_dependencies: None,
        bundled_dependencies: None,
        version: None,
    }
}

/// Drives a whole resolution run against an in-memory snapshot, returning
/// the finished state and the keys that were downloaded.
fn run_resolution(
    snapshot: &[(&str, Registry)],
    manifest: Package,
    lock: LockFile,
    cache: TarballCache,
    libs: Vec<String>,
    dev: bool,
    direct: bool,
) -> (Package, LockFile, TarballCache, Vec<String>) {
    let mut resolver = Resolver::new(manifest, lock, cache, libs, dev, direct);
    let mut downloads: Vec<String> = Vec::new();
    while let Some((name, _version)) = resolver.next_request() {
        let doc = snapshot
            .iter()
            .find(|(n, _)| *n == name)
            .map(|(_, d)| d)
            .expect("the snapshot must answer every request");
        match resolver.on_metadata(doc).expect("resolution must not fail here") {
            StepOutcome::Skip => {}
            StepOutcome::Recorded { key: _ } => {}
            StepOutcome::Download { key, url: _ } => downloads.push(key),
        }
    }
    let (manifest, lock, cache) = resolver.finish();
    (manifest, lock, cache, downloads)
}

#[test]
fn select_version_is_deterministic() {
    let doc = full_doc("pkgA", "2.1.0", &[("2.1.0", &[]), ("1.0.0", &[])]);
    let first = select_version(&doc, "latest");
    let second = select_version(&doc, "latest");
    assert_eq!(first, second);
    assert_eq!(first, Some("2.1.0".to_owned()));
    assert_eq!(select_version(&doc, ""), Some("2.1.0".to_owned()));
    assert_eq!(select_version(&doc, "*"), Some("2.1.0".to_owned()));
    // an exact request is taken literally, present or not
    assert_eq!(select_version(&doc, "9.9.9"), Some("9.9.9".to_owned()));
}

#[test]
fn select_version_of_pinned_document() {
    let doc = pinned_doc("pkgA", "1.0.0", &[]);
    assert_eq!(select_version(&doc, ""), Some("1.0.0".to_owned()));
}

#[test]
fn select_version_fails_without_latest() {
    let mut doc = pinned_doc("pkgA", "1.0.0", &[]);
    doc.version = None;
    assert_eq!(select_version(&doc, "latest"), None);
}

#[test]
fn scenario_single_package_without_dependencies() {
    let snapshot = vec![("pkgA", pinned_doc("pkgA", "1.0.0", &[]))];
    let (_, lock, _, downloads) = run_resolution(
        &snapshot,
        Package::new(),
        LockFile::new("demo".to_owned(), "0.1.0".to_owned()),
        TarballCache::new(),
        vec!["pkgA".to_owned()],
        false,
        true,
    );
    let packages = lock.get_packages();
    assert_eq!(packages.len(), 1);
    assert_eq!(packages[0].0, "pkgA@1.0.0");
    assert_eq!(packages[0].1.get_version(), "1.0.0");
    assert_eq!(packages[0].1.get_dependency_keys().len(), 0);
    assert_eq!(downloads, vec!["pkgA@1.0.0".to_owned()]);
}

#[test]
fn scenario_shared_transitive_dependency_downloads_once() {
    // pkgA and pkgC both require the identical pkgB@1.0.0
    let snapshot = vec![
        ("pkgA", pinned_doc("pkgA", "1.0.0", &[("pkgB", "1.0.0")])),
        ("pkgC", pinned_doc("pkgC", "1.0.0", &[("pkgB", "1.0.0")])),
        ("pkgB", pinned_doc("pkgB", "1.0.0", &[])),
    ];
    let (_, lock, _, downloads) = run_resolution(
        &snapshot,
        Package::new(),
        LockFile::new("demo".to_owned(), "0.1.0".to_owned()),
        TarballCache::new(),
        vec!["pkgA".to_owned(), "pkgC".to_owned()],
        false,
        true,
    );
    let b_downloads = downloads.iter().filter(|k| k.as_str() == "pkgB@1.0.0").count();
    assert_eq!(b_downloads, 1);
    let b_entries = lock
        .get_packages()
        .iter()
        .filter(|(k, _)| k.as_str() == "pkgB@1.0.0")
        .count();
    assert_eq!(b_entries, 1);
}

#[test]
fn second_run_downloads_nothing_and_saves_identically() {
    let snapshot = vec![
        ("pkgA", pinned_doc("pkgA", "1.0.0", &[("pkgB", "^1.0.0")])),
        ("pkgB", pinned_doc("pkgB", "1.0.0", &[])),
    ];
    let (manifest, lock, cache, downloads1) = run_resolution(
        &snapshot,
        Package::new(),
        LockFile::new("demo".to_owned(), "0.1.0".to_owned()),
        TarballCache::new(),
        vec!["pkgA".to_owned()],
        false,
        true,
    );
    assert_eq!(downloads1.len(), 2);
    let first_save = lock.save();
    // the same run against the unchanged snapshot, resuming on the saved
    // state: nothing is downloaded again, the file comes out byte-identical
    let (_, lock2, _, downloads2) = run_resolution(
        &snapshot,
        manifest,
        lock,
        cache,
        vec!["pkgA".to_owned()],
        false,
        true,
    );
    assert_eq!(downloads2.len(), 0);
    assert_eq!(lock2.save(), first_save);
}

#[test]
fn direct_dependency_lands_in_manifest() {
    let snapshot = vec![("pkgA", pinned_doc("pkgA", "1.0.0", &[]))];
    let (manifest, _, _, _) = run_resolution(
        &snapshot,
        Package::new(),
        LockFile::new("demo".to_owned(), "0.1.0".to_owned()),
        TarballCache::new(),
        vec!["pkgA".to_owned()],
        false,
        true,
    );
    let deps = manifest.get_dependencies();
    assert_eq!(deps.len(), 1);
    assert_eq!(deps[0].0, "pkgA");
    assert_eq!(deps[0].1, "1.0.0");
}

#[test]
fn dev_dependency_lands_in_dev_map() {
    let snapshot = vec![("pkgA", pinned_doc("pkgA", "1.0.0", &[]))];
    let (manifest, _, _, _) = run_resolution(
        &snapshot,
        Package::new(),
        LockFile::new("demo".to_owned(), "0.1.0".to_owned()),
        TarballCache::new(),
        vec!["pkgA".to_owned()],
        true,
        true,
    );
    assert_eq!(manifest.get_dependencies().len(), 0);
    let dev = manifest.get_dev_dependencies();
    assert_eq!(dev.len(), 1);
    assert_eq!(dev[0].0, "pkgA");
}

#[test]
fn cyclic_dependencies_terminate() {
    let snapshot = vec![
        ("pkgA", pinned_doc("pkgA", "1.0.0", &[("pkgB", "1.0.0")])),
        ("pkgB", pinned_doc("pkgB", "1.0.0", &[("pkgA", "1.0.0")])),
    ];
    let (_, lock, _, downloads) = run_resolution(
        &snapshot,
        Package::new(),
        LockFile::new("demo".to_owned(), "0.1.0".to_owned()),
        TarballCache::new(),
        vec!["pkgA".to_owned()],
        false,
        true,
    );
    assert_eq!(lock.get_packages().len(), 2);
    assert_eq!(downloads.len(), 2);
}

#[test]
fn missing_latest_tag_fails_the_branch() {
    let mut doc = pinned_doc("pkgA", "1.0.0", &[]);
    doc.version = None;
    let mut resolver = Resolver::new(
        Package::new(),
        LockFile::new("demo".to_owned(), "0.1.0".to_owned()),
        TarballCache::new(),
        vec!["pkgA".to_owned()],
        false,
        true,
    );
    assert!(resolver.next_request().is_some());
    assert!(resolver.on_metadata(&doc).is_err());
}

#[test]
fn unimplemented_subcommands_answer_with_an_error() {
    assert!(check_command(&Command::Install).is_ok());
    assert!(check_command(&Command::Run { script_key: "build".to_owned() }).is_ok());
    assert!(check_command(&Command::Add { libs: Vec::new(), dev: false }).is_ok());
    assert!(check_command(&Command::List).is_err());
    assert!(check_command(&Command::Version).is_err());
    assert!(check_command(&Command::Remove { libs: Vec::new() }).is_err());
}
