use nebula_dnf::parse::{parse_multi, parse_rpm_requires_output};
use nebula_dnf::pkg::DisplayablePackage;

#[test]
fn test_parse_rpm_deps() {
    let rpm_output = "rpmlib(CompressedFileNames) <= 3.0.4-1\n\
        rpmlib(FileDigests) <= 4.6.0-1\n\
        rpmlib(PayloadFilesHavePrefix) <= 4.0-1\n\
        rpmlib(PayloadIsXz) <= 5.2-1\n\
        libc.so.6()(64bit)\n\
        libm.so.6()(64bit)\n\
        libz.so.1()(64bit)\n\
        my-own-package-dep\n\
        /usr/bin/perl\n\
        perl(strict)\n\
        perl(warnings)";
    let deps = parse_rpm_requires_output(rpm_output, "my-main-package");
    assert!(deps.contains(&DisplayablePackage { name: "rpmlib".to_string() }));
    assert!(deps.contains(&DisplayablePackage { name: "libc.so.6".to_string() }));
    assert!(deps.contains(&DisplayablePackage { name: "my-own-package-dep".to_string() }));
    assert!(deps.contains(&DisplayablePackage { name: "perl".to_string() }));
    assert!(deps.contains(&DisplayablePackage { name: "perl(strict)".to_string() }));
}

#[test]
fn parse_requires_excludes_owner_and_none_marker() {
    // a single literal "(none)" line yields an empty set
    let deps = parse_rpm_requires_output("(none)\n", "thing");
    assert!(deps.is_empty());
    // the owner itself never appears among its own dependencies
    let deps = parse_rpm_requires_output("bash-5.2-1.x86_64\nfoo-1.0-1\n", "bash");
    let names: Vec<&str> = deps.iter().map(|d| d.name.as_str()).collect();
    assert_eq!(names, vec!["foo"]);
}

#[test]
fn parse_requires_sorts_and_dedups() {
    let deps = parse_rpm_requires_output("zlib-1.2-1\nbash-5.0-1\nzlib-1.3-2\n", "me");
    let names: Vec<&str> = deps.iter().map(|d| d.name.as_str()).collect();
    assert_eq!(names, vec!["bash", "zlib"]);
}

#[test]
fn parse_requires_skips_metadata_notice() {
    let deps = parse_rpm_requires_output(
        "Last metadata expiration check: 0:01:02 ago on Mon.\nfoo-1.0-1\n",
        "me",
    );
    let names: Vec<&str> = deps.iter().map(|d| d.name.as_str()).collect();
    assert_eq!(names, vec!["foo"]);
}

#[test]
fn multi_parses_header_and_providers() {
    // a provider naming the header's own package is excluded
    let text = "package: foo-1.0-1.x86_64\n  provider: bar-2.0-1.x86_64\n  provider: foo-1.0-1.x86_64\n";
    let entries = parse_multi(text);
    assert_eq!(entries.len(), 1);
    assert_eq!(entries[0].name, "foo");
    let deps: Vec<&str> = entries[0].dependencies.iter().map(|d| d.name.as_str()).collect();
    assert_eq!(deps, vec!["bar"]);
}

#[test]
fn multi_two_blocks_are_independent() {
    let text = "package: foo-1.0-1.x86_64\n  provider: bar-2.0-1.x86_64\n\
package: baz-3.0-1.x86_64\n  provider: qux-4.0-1.x86_64\n";
    let entries = parse_multi(text);
    assert_eq!(entries.len(), 2);
    assert_eq!(entries[0].name, "foo");
    assert_eq!(entries[1].name, "baz");
    let deps0: Vec<&str> = entries[0].dependencies.iter().map(|d| d.name.as_str()).collect();
    let deps1: Vec<&str> = entries[1].dependencies.iter().map(|d| d.name.as_str()).collect();
    assert_eq!(deps0, vec!["bar"]);
    assert_eq!(deps1, vec!["qux"]);
}

#[test]
fn multi_provider_before_header_is_dropped() {
    let text = "  provider: bar-2.0-1.x86_64\npackage: foo-1.0-1\n";
    let entries = parse_multi(text);
    assert_eq!(entries.len(), 1);
    assert_eq!(entries[0].name, "foo");
    assert!(entries[0].dependencies.is_empty());
}

#[test]
fn multi_header_with_no_providers_keeps_empty_entry() {
    let entries = parse_multi("package: lonely-1.0-1\nsome noise line\n");
    assert_eq!(entries.len(), 1);
    assert_eq!(entries[0].name, "lonely");
    assert!(entries[0].dependencies.is_empty());
}
