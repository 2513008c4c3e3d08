use rapm::package_json::{Package, VersionString};
use rapm::registry::{Author, Dist, DistTags, Registry, Time, Url, Version};
use rapm::command::{getbin, get_bing_path, split_words};

fn version_record(name: &str, v: &str, deps: &[(&str, &str)]) -> Version {
    Version {
        name: name.to_owned(),
        version: v.to_owned(),
        description: String::new(),
        main: None,
        types: None,
        scripts: None,
        repository: None,
        dependencies: Some(deps.iter().map(|(k, w)| (k.to_string(), w.to_string())).collect()),
        dev_dependencies: None,
        peer_dependencies: None,
        optional_dependencies: None,
        bundled_dependencies: None,
        engines: None,
        os: None,
        cpu: None,
        private: None,
        dist: Dist {
            shasum: "abc".to_owned(),
            tarball: format!("https://registry.npmjs.org/{}/-/{}-{}.tgz", name, name, v),
            integrity: None,
            signature: None,
        },
    }
}

fn empty_doc(name: &str) -> Registry {
    Registry {
        id: name.to_owned(),
        rev: None,
        name: name.to_owned(),
        dist_tags: None,
        versions: None,
        time: None,
        maintainers: Vec::new(),
        description: String::new(),
        homepage: None,
        keywords: None,
        repository: None,
        author: None,
        license: None,
        readme: None,
        readme_file_name: None,
        dist: None,
        sequence: None,
        dependencies: None,
        dev_dependencies: None,
        peer_dependencies: None,
        optional_dependencies: None,
        bundled_dependencies: None,
        version: None,
    }
}

#[test]
fn full_document_dependencies_and_tarball() {
    let mut doc = empty_doc("pkgA");
    let mut tags = DistTags::new();
    tags.insert("latest".to_owned(), "2.0.0".to_owned());
    doc.dist_tags = Some(tags);
    doc.versions = Some(vec![
        ("1.0.0".to_owned(), version_record("pkgA", "1.0.0", &[])),
        ("2.0.0".to_owned(), version_record("pkgA", "2.0.0", &[("pkgB", "^1.2.0")])),
    ]);
    assert_eq!(doc.get_latest_version(), Some(&"2.0.0".to_owned()));
    assert_eq!(doc.get_dependencies(), vec!["pkgB@^1.2.0".to_owned()]);
    assert_eq!(
        doc.get_tarball_url(),
        Some("https://registry.npmjs.org/pkgA/-/pkgA-2.0.0.tgz".to_owned())
    );
    assert_eq!(
        doc.get_tarball_name(),
        Some("pkgA-pkgA-2.0.0.tgz.tgz".to_owned())
    );
}

#[test]
fn pinned_document_dependencies_and_tarball() {
    let mut doc = empty_doc("pkgB");
    doc.version = Some("1.2.3".to_owned());
    doc.dependencies = Some(vec![("pkgC".to_owned(), "2.0.0".to_owned())]);
    doc.dist = Some(Dist {
        shasum: String::new(),
        tarball: "https://registry.npmjs.org/pkgB/-/pkgB-1.2.3.tgz".to_owned(),
        integrity: None,
        signature: None,
    });
    assert_eq!(doc.get_latest_version(), Some(&"1.2.3".to_owned()));
    assert_eq!(doc.get_dependencies(), vec!["pkgC@2.0.0".to_owned()]);
    assert_eq!(
        doc.get_tarball_url(),
        Some("https://registry.npmjs.org/pkgB/-/pkgB-1.2.3.tgz".to_owned())
    );
}

#[test]
fn document_without_archive_offers_none() {
    let doc = empty_doc("pkgA");
    assert_eq!(doc.get_tarball_url(), None);
    assert_eq!(doc.get_tarball_name(), None);
    assert_eq!(doc.get_dependencies(), Vec::<String>::new());
    assert!(doc.get_latest_version().is_none());
}

#[test]
fn dist_accessors() {
    let dist = Dist {
        shasum: "abc".to_owned(),
        tarball: "https://registry.npmjs.org/a/-/a-1.tgz".to_owned(),
        integrity: None,
        signature: None,
    };
    assert_eq!(dist.get_tarball(), "https://registry.npmjs.org/a/-/a-1.tgz");
    assert_eq!(dist.get_shasum(), "abc");
    assert!(dist.verify());
}

#[test]
fn publication_times_parse_as_instants() {
    let mut time = Time::new("2020-01-01T00:00:00Z", "2021-01-01T00:00:00+00:00")
        .expect("valid RFC 3339 dates must parse");
    assert_eq!(time.get_created(), 1577836800);
    assert_eq!(time.get_modified(), 1609459200);
    assert!(time.set("1.0.0".to_owned(), "2020-06-01T12:30:00Z"));
    assert_eq!(time.get_version_time(&"1.0.0".to_owned()), Some(1591014600));
    assert_eq!(time.get_version_time(&"2.0.0".to_owned()), None);
    assert!(!time.set("2.0.0".to_owned(), "not a date"));
    assert!(Time::new("nonsense", "2021-01-01T00:00:00Z").is_none());
}

#[test]
fn url_and_author_values() {
    let mut url = Url::new("https://example.com".to_owned());
    assert_eq!(url.get(), "https://example.com");
    url.set("https://example.org".to_owned());
    assert_eq!(url.get(), "https://example.org");
    let author = Author::new(Some("a".to_owned()), None, None);
    assert_eq!(author.name, Some("a".to_owned()));
}

#[test]
fn specific_versions_from_manifest_requests() {
    assert_eq!(VersionString::new("^1.0.0".to_owned()).to_specific_version(), "1.0.0");
    assert_eq!(VersionString::new("~2.3.4".to_owned()).to_specific_version(), "2.3.4");
    assert_eq!(VersionString::new("1.2.3".to_owned()).to_specific_version(), "1.2.3");
    assert_eq!(
        VersionString::new("^1.0.0 || ^2.0.0".to_owned()).to_specific_version(),
        "2.0.0"
    );
    let vs = VersionString::new("0.1.0".to_owned());
    assert_eq!(vs.to_string(), "0.1.0");
    assert_eq!(vs.to_str(), "0.1.0");
    assert_eq!(vs.to_owned().to_string(), "0.1.0");
}

#[test]
fn manifest_dependency_edits() {
    let mut package = Package::new();
    package.add_dependency("pkgA".to_owned(), "^0.1.0".to_owned());
    package.add_dependency("pkgB".to_owned(), "1.0.0".to_owned());
    // overwriting keeps one entry per name
    package.add_dependency("pkgA".to_owned(), "^0.2.0".to_owned());
    let deps = package.get_dependencies();
    assert_eq!(deps.len(), 2);
    assert_eq!(deps[0], ("pkgA".to_owned(), "0.2.0".to_owned()));
    assert_eq!(deps[1], ("pkgB".to_owned(), "1.0.0".to_owned()));
    package.add_dev_dependency("pkgT".to_owned(), "2.0.0".to_owned());
    let dev = package.get_dev_dependencies();
    assert_eq!(dev, vec![("pkgT".to_owned(), "2.0.0".to_owned())]);
}

#[test]
fn manifest_scripts_and_bin() {
    let mut package = Package::new();
    package.scripts = Some(vec![("start".to_owned(), "node index.js".to_owned())]);
    package.bin = Some(vec![("tool".to_owned(), "bin/tool.js".to_owned())]);
    assert_eq!(package.get_scripts().len(), 1);
    assert_eq!(package.get_script(&"start".to_owned()), Some(&"node index.js".to_owned()));
    assert_eq!(package.get_script(&"build".to_owned()), None);
    assert_eq!(
        get_bing_path(&package, &"tool".to_owned()),
        Some(&"bin/tool.js".to_owned())
    );
    assert_eq!(get_bing_path(&package, &"other".to_owned()), None);
    assert_eq!(getbin("tool", "bin/tool.js"), "./node_modules/tool/bin/tool.js");
}

#[test]
fn script_lines_split_into_words() {
    assert_eq!(split_words("node index.js"), vec!["node".to_owned(), "index.js".to_owned()]);
    assert_eq!(split_words("build"), vec!["build".to_owned()]);
    assert_eq!(split_words(""), vec!["".to_owned()]);
}
