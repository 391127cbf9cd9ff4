//! The category classifier: maps one raw package grouping string onto the
//! closed set of categories, by keyword rules evaluated in a fixed priority
//! order (most specific first), comparing case-insensitively.

use vstd::prelude::*;
use vstd::string::*;
use crate::pkg::PackageCategory;
use crate::text::{
    contains_ci, ends_with_ci, seq_eq_ci, starts_with_ci, str_contains_ci, str_ends_with_ci,
    str_eq_ci, str_starts_with_ci, trim_spec, trim_str,
};

verus! {

/// The category of a raw grouping string, after trimming, compared
/// case-insensitively.  The rules are ordered: an empty or "not installed"
/// answer is unknown; then desktop environments, base system groups, games,
/// multimedia, office, network and security keywords; then the
/// `applications/` and `development/` trees; then library markers; any other
/// group outside the `system environment/` tree counts as manually relevant.
pub open spec fn classify_spec(raw: Seq<char>) -> PackageCategory {
    let t = trim_spec(raw);
    if t.len() == 0 || contains_ci(t, "not installed"@) || contains_ci(t, "no such file"@) {
        PackageCategory::Unknown
    } else if contains_ci(t, "desktop environment"@) || contains_ci(t, "desktops"@) || contains_ci(
        t,
        "xfce"@,
    ) || contains_ci(t, "kde"@) || contains_ci(t, "gnome"@) {
        PackageCategory::DesktopEnvironment
    } else if starts_with_ci(t, "system environment/base"@) || starts_with_ci(
        t,
        "system environment/kernel"@,
    ) || seq_eq_ci(t, "system environment"@) {
        PackageCategory::System
    } else if contains_ci(t, "games"@) {
        PackageCategory::Games
    } else if contains_ci(t, "multimedia"@) || contains_ci(t, "sound"@) || contains_ci(
        t,
        "video"@,
    ) {
        PackageCategory::Multimedia
    } else if contains_ci(t, "office"@) || contains_ci(t, "productivity"@) {
        PackageCategory::Office
    } else if contains_ci(t, "network"@) || contains_ci(t, "web"@) || contains_ci(t, "mail"@) {
        PackageCategory::Network
    } else if contains_ci(t, "security"@) || contains_ci(t, "firewall"@) {
        PackageCategory::Security
    } else if starts_with_ci(t, "applications/"@) {
        if contains_ci(t, "development"@) || contains_ci(t, "debugging"@) {
            PackageCategory::Development
        } else if contains_ci(t, "utilities"@) {
            PackageCategory::Utility
        } else {
            PackageCategory::OtherApplication
        }
    } else if starts_with_ci(t, "development/"@) {
        PackageCategory::Development
    } else if contains_ci(t, "libraries"@) || ends_with_ci(t, "lib"@) || contains_ci(
        t,
        "shared libraries"@,
    ) {
        PackageCategory::Library
    } else if !starts_with_ci(t, "system environment/"@) {
        PackageCategory::Manual
    } else {
        PackageCategory::Unknown
    }
}

/// Classifies one raw grouping string as reported by the package manager.
pub fn classify_group(raw_group: &str) -> (c: PackageCategory)
    ensures
        c == classify_spec(raw_group@),
{
    let t = trim_str(raw_group);
    if t.unicode_len() == 0 || str_contains_ci(t, "not installed") || str_contains_ci(
        t,
        "no such file",
    ) {
        return PackageCategory::Unknown;
    }
    if str_contains_ci(t, "desktop environment") || str_contains_ci(t, "desktops")
        || str_contains_ci(t, "xfce") || str_contains_ci(t, "kde") || str_contains_ci(t, "gnome") {
        return PackageCategory::DesktopEnvironment;
    }
    if str_starts_with_ci(t, "system environment/base") || str_starts_with_ci(
        t,
        "system environment/kernel",
    ) || str_eq_ci(t, "system environment") {
        return PackageCategory::System;
    }
    if str_contains_ci(t, "games") {
        return PackageCategory::Games;
    }
    if str_contains_ci(t, "multimedia") || str_contains_ci(t, "sound") || str_contains_ci(
        t,
        "video",
    ) {
        return PackageCategory::Multimedia;
    }
    if str_contains_ci(t, "office") || str_contains_ci(t, "productivity") {
        return PackageCategory::Office;
    }
    if str_contains_ci(t, "network") || str_contains_ci(t, "web") || str_contains_ci(t, "mail") {
        return PackageCategory::Network;
    }
    if str_contains_ci(t, "security") || str_contains_ci(t, "firewall") {
        return PackageCategory::Security;
    }
    if str_starts_with_ci(t, "applications/") {
        if str_contains_ci(t, "development") || str_contains_ci(t, "debugging") {
            return PackageCategory::Development;
        }
        if str_contains_ci(t, "utilities") {
            return PackageCategory::Utility;
        }
        return PackageCategory::OtherApplication;
    }
    if str_starts_with_ci(t, "development/") {
        return PackageCategory::Development;
    }
    if str_contains_ci(t, "libraries") || str_ends_with_ci(t, "lib") || str_contains_ci(
        t,
        "shared libraries",
    ) {
        return PackageCategory::Library;
    }
    if !str_starts_with_ci(t, "system environment/") {
        return PackageCategory::Manual;
    }
    PackageCategory::Unknown
}

/// Classification is total: every input string, the empty one included,
/// falls into exactly one of the thirteen categories.
pub proof fn lemma_classify_total(raw: Seq<char>)
    ensures
        classify_spec(raw) matches PackageCategory::Manual
            || classify_spec(raw) matches PackageCategory::DesktopEnvironment
            || classify_spec(raw) matches PackageCategory::System
            || classify_spec(raw) matches PackageCategory::Library
            || classify_spec(raw) matches PackageCategory::Development
            || classify_spec(raw) matches PackageCategory::Multimedia
            || classify_spec(raw) matches PackageCategory::Office
            || classify_spec(raw) matches PackageCategory::Games
            || classify_spec(raw) matches PackageCategory::Utility
            || classify_spec(raw) matches PackageCategory::Network
            || classify_spec(raw) matches PackageCategory::Security
            || classify_spec(raw) matches PackageCategory::OtherApplication
            || classify_spec(raw) matches PackageCategory::Unknown,
{
}

} // verus!
