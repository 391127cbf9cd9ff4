use nebula_dnf::cache::{decode_cache, encode_cache};
use nebula_dnf::pkg::{DisplayablePackage, PackageCategory, UserPackageWithDependencies};

fn record(
    name: &str,
    category: PackageCategory,
    deps: &[&str],
) -> UserPackageWithDependencies {
    UserPackageWithDependencies {
        name: name.to_string(),
        category,
        dependencies: deps
            .iter()
            .map(|d| DisplayablePackage { name: d.to_string() })
            .collect(),
    }
}

fn assert_round_trip(data: Vec<UserPackageWithDependencies>) {
    let text = encode_cache(&data);
    let back = decode_cache(text.as_str()).expect("the encoded document must decode");
    assert_eq!(back.len(), data.len());
    for (a, b) in data.iter().zip(back.iter()) {
        assert_eq!(a.name, b.name);
        assert_eq!(a.category, b.category);
        let an: Vec<&str> = a.dependencies.iter().map(|d| d.name.as_str()).collect();
        let bn: Vec<&str> = b.dependencies.iter().map(|d| d.name.as_str()).collect();
        assert_eq!(an, bn);
    }
}

#[test]
fn cache_round_trip_empty() {
    assert_round_trip(Vec::new());
}

#[test]
fn cache_round_trip_one_record() {
    assert_round_trip(vec![record("bash", PackageCategory::System, &["glibc", "ncurses"])]);
}

#[test]
fn cache_round_trip_many_records() {
    assert_round_trip(vec![
        record("alpha", PackageCategory::Manual, &[]),
        record("beta", PackageCategory::Library, &["alpha"]),
        record("gamma", PackageCategory::Unknown, &["perl(strict)", "zlib"]),
    ]);
}

#[test]
fn cache_round_trip_every_category() {
    let categories = [
        PackageCategory::Manual,
        PackageCategory::DesktopEnvironment,
        PackageCategory::System,
        PackageCategory::Library,
        PackageCategory::Development,
        PackageCategory::Multimedia,
        PackageCategory::Office,
        PackageCategory::Games,
        PackageCategory::Utility,
        PackageCategory::Network,
        PackageCategory::Security,
        PackageCategory::OtherApplication,
        PackageCategory::Unknown,
    ];
    let data: Vec<UserPackageWithDependencies> = categories
        .iter()
        .enumerate()
        .map(|(i, c)| record(&format!("pkg{}", i), *c, &["dep"]))
        .collect();
    assert_round_trip(data);
}

#[test]
fn cache_decode_rejects_malformed_documents() {
    // a dependency line before any record
    assert!(decode_cache("d stray\n").is_none());
    // a record without its category line
    assert!(decode_cache("p bash\n").is_none());
    // an unknown category label
    assert!(decode_cache("p bash\nc banana\n").is_none());
    // an untagged line
    assert!(decode_cache("p bash\nc system\nwhat is this\n").is_none());
}

#[test]
fn cache_decode_empty_document_is_empty_cache() {
    // an empty document is the valid empty cache, distinct from a missing file
    let decoded = decode_cache("").expect("empty document is valid");
    assert!(decoded.is_empty());
}

#[test]
fn cache_encodes_line_oriented_document() {
    let text = encode_cache(&vec![record("bash", PackageCategory::System, &["glibc"])]);
    assert_eq!(text, "p bash\nc system\nd glibc\n");
}
