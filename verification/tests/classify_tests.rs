use nebula_dnf::classify::classify_group;
use nebula_dnf::pkg::PackageCategory;

#[test]
fn classify_unknown_on_empty_or_missing() {
    assert_eq!(classify_group(""), PackageCategory::Unknown);
    assert_eq!(classify_group("   "), PackageCategory::Unknown);
    assert_eq!(classify_group("package foo is not installed"), PackageCategory::Unknown);
    assert_eq!(classify_group("no such file or directory"), PackageCategory::Unknown);
}

#[test]
fn classify_desktop_environment() {
    assert_eq!(classify_group("User Interface/Desktops"), PackageCategory::DesktopEnvironment);
    assert_eq!(classify_group("xfce"), PackageCategory::DesktopEnvironment);
    assert_eq!(classify_group("KDE Frameworks"), PackageCategory::DesktopEnvironment);
    assert_eq!(classify_group("gnome desktop environment"), PackageCategory::DesktopEnvironment);
}

#[test]
fn classify_system() {
    assert_eq!(classify_group("System Environment/Base"), PackageCategory::System);
    assert_eq!(classify_group("System Environment/Kernel"), PackageCategory::System);
    assert_eq!(classify_group("System Environment"), PackageCategory::System);
}

#[test]
fn classify_keyword_rules() {
    assert_eq!(classify_group("Amusements/Games"), PackageCategory::Games);
    assert_eq!(classify_group("Applications/Multimedia"), PackageCategory::Multimedia);
    assert_eq!(classify_group("sound and video"), PackageCategory::Multimedia);
    assert_eq!(classify_group("Applications/Office"), PackageCategory::Office);
    assert_eq!(classify_group("Applications/Productivity"), PackageCategory::Office);
    assert_eq!(classify_group("System Environment/Daemons web server"), PackageCategory::Network);
    assert_eq!(classify_group("mail transport agent"), PackageCategory::Network);
    assert_eq!(classify_group("security tools"), PackageCategory::Security);
    assert_eq!(classify_group("firewall"), PackageCategory::Security);
}

#[test]
fn classify_applications_tree() {
    assert_eq!(classify_group("Applications/Development"), PackageCategory::Development);
    assert_eq!(classify_group("Applications/Debugging"), PackageCategory::Development);
    assert_eq!(classify_group("Applications/Utilities"), PackageCategory::Utility);
    assert_eq!(classify_group("Applications/Editors"), PackageCategory::OtherApplication);
    assert_eq!(classify_group("Development/Tools"), PackageCategory::Development);
}

#[test]
fn classify_library_and_fallbacks() {
    assert_eq!(classify_group("System Environment/Libraries"), PackageCategory::Library);
    // the development tree outranks the library keyword
    assert_eq!(classify_group("Development/Libraries"), PackageCategory::Development);
    assert_eq!(classify_group("somelib"), PackageCategory::Library);
    // a group outside the system environment tree counts as manually relevant
    assert_eq!(classify_group("Documentation"), PackageCategory::Manual);
    // inside the system environment tree but matching no rule
    assert_eq!(classify_group("System Environment/Shells"), PackageCategory::Unknown);
}

#[test]
fn classify_is_case_insensitive() {
    assert_eq!(classify_group("GAMES"), PackageCategory::Games);
    assert_eq!(classify_group("SYSTEM ENVIRONMENT/BASE"), PackageCategory::System);
    assert_eq!(classify_group("Shared Libraries"), PackageCategory::Library);
}

#[test]
fn classify_priority_order() {
    // desktop keywords outrank the games keyword
    assert_eq!(classify_group("gnome games"), PackageCategory::DesktopEnvironment);
    // the games keyword outranks multimedia
    assert_eq!(classify_group("games with sound"), PackageCategory::Games);
}

#[test]
fn category_default_is_unknown() {
    assert_eq!(PackageCategory::default(), PackageCategory::Unknown);
}
