use nebula_dnf::normalize::extract_base_package_name;

#[test]
fn test_extract_name() {
    assert_eq!(extract_base_package_name("package-name-1.2.3-4.fc36.x86_64"), "package-name");
    assert_eq!(extract_base_package_name("package-name-1.2.3"), "package-name");
    assert_eq!(extract_base_package_name("package-name"), "package-name");
    assert_eq!(extract_base_package_name("package-name.x86_64"), "package-name");
    assert_eq!(extract_base_package_name("libX11-1.2.3-4.fc36.x86_64"), "libX11");
    assert_eq!(extract_base_package_name("python3-foobar-0.1.1-11.fc39.noarch"), "python3-foobar");
    assert_eq!(extract_base_package_name("my-package-devel-1.0-1.noarch"), "my-package-devel");
    assert_eq!(extract_base_package_name("package-1:1.0-1"), "package");
    assert_eq!(extract_base_package_name("perl(Some::Module)"), "perl(Some::Module)");
    assert_eq!(extract_base_package_name("rpmlib(VersionedDependencies)"), "rpmlib");
    assert_eq!(extract_base_package_name("/usr/bin/bash"), "bash");
    assert_eq!(extract_base_package_name("libcrypto.so.1.1()(64bit)"), "libcrypto.so.1.1");
    assert_eq!(extract_base_package_name("A spezielle.package-1.0"), "A spezielle.package");
}

#[test]
fn extract_name_trims_whitespace() {
    assert_eq!(extract_base_package_name("  bash-5.2.15-3.fc38.x86_64\n"), "bash");
    assert_eq!(extract_base_package_name("   "), "");
    assert_eq!(extract_base_package_name(""), "");
}

#[test]
fn extract_name_version_boundary() {
    // the name ends at the first dash followed by a digit
    assert_eq!(extract_base_package_name("a-2b"), "a");
    assert_eq!(extract_base_package_name("a-b-c"), "a-b-c");
    assert_eq!(extract_base_package_name("gcc-c++-13.2.1-1.fc38.x86_64"), "gcc-c++");
}

#[test]
fn extract_name_paths_and_capabilities() {
    assert_eq!(extract_base_package_name("/bin/sh"), "sh");
    assert_eq!(extract_base_package_name("rpmlib(CompressedFileNames) <= 3.0.4-1"), "rpmlib");
    assert_eq!(extract_base_package_name("perl(strict)"), "perl(strict)");
    assert_eq!(extract_base_package_name("(none)"), "");
}
