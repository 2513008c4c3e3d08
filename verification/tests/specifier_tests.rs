use rapm::specifier::{parse_library_name, make_key};
use rapm::cache::{sanitize_key, cache_file_name};
use rapm::registry::{request_segment, tarball_name_of};

#[test]
fn parse_lib_version() {
    let lib = "socket-store@0.0.1";
    let (lib_name, version) = parse_library_name(lib.to_owned());
    assert_eq!(lib_name, "socket-store");
    assert_eq!(version, "0.0.1");
    assert_ne!(version, "0.0.2");
}

#[test]
fn parse_lib_without_version() {
    let lib = "socket-store";
    let (lib_name, version) = parse_library_name(lib.to_owned());
    assert_eq!(lib_name, "socket-store");
    assert_eq!(version, "");
}

#[test]
fn parse_lib_startwith_specific_word() {
    let lib = "@abcd/socket-store";
    let (lib_name, version) = parse_library_name(lib.to_owned());
    assert_eq!(lib_name, "@abcd/socket-store");
    assert_eq!(version, "");
}

#[test]
fn parse_lib_startwith_specific_() {
    let lib = "@abcd/socket-store@1.0.0";
    let (lib_name, version) = parse_library_name(lib.to_owned());
    assert_eq!(lib_name, "@abcd/socket-store");
    assert_eq!(version, "1.0.0");
}

#[test]
fn pasre_lib_version_start_with_specific_word() {
    let lib = "@abcd/socket-store@^1.0.0";
    let (lib_name, version) = parse_library_name(lib.to_owned());
    assert_eq!(lib_name, "@abcd/socket-store");
    assert_eq!(version, "1.0.0");
}

#[test]
fn parse_test() {
    let lib = "ipaddr.js@1.9.1";
    let (lib_name, version) = parse_library_name(lib.to_owned());
    assert_eq!(lib_name, "ipaddr.js");
    assert_eq!(version, "1.9.1");
}

#[test]
fn parse_range_takes_first_version_token() {
    // an unparseable range expression resolves to its first literal
    // version token
    let (name, version) = parse_library_name("pkg@>=1.0.1 <3".to_owned());
    assert_eq!(name, "pkg");
    assert_eq!(version, "1.0.1");
}

#[test]
fn parse_tilde_and_star() {
    let (_, v) = parse_library_name("a@~2.3.4".to_owned());
    assert_eq!(v, "2.3.4");
    let (_, v) = parse_library_name("a@*".to_owned());
    assert_eq!(v, "*");
}

#[test]
fn key_formatting() {
    assert_eq!(make_key("pkgA", "1.0.0"), "pkgA@1.0.0");
}

#[test]
fn sanitizes_scoped_names() {
    assert_eq!(sanitize_key("@scope/pkg@1.0.0"), "@scope-pkg@1.0.0");
    assert_eq!(cache_file_name("@scope/pkg@1.0.0"), "@scope-pkg@1.0.0.tgz");
    assert_eq!(cache_file_name("pkgA@1.0.0"), "pkgA@1.0.0.tgz");
}

#[test]
fn request_segments() {
    assert_eq!(request_segment("*"), "latest");
    assert_eq!(request_segment("^1.2.3"), "1.2.3");
    assert_eq!(request_segment("~1.2.3"), "1.2.3");
    assert_eq!(request_segment(""), "");
    assert_eq!(request_segment("1.2.3"), "1.2.3");
}

#[test]
fn tarball_names() {
    assert_eq!(
        tarball_name_of("https://registry.npmjs.org/axios/-/axios-0.21.1.tgz"),
        Some("axios-axios-0.21.1.tgz.tgz".to_owned())
    );
    assert_eq!(tarball_name_of("https://example.com/no-separator.tgz"), None);
}
