use nebula_dnf::listing::{filter_user_candidates, installed_packages_from_listing};

#[test]
fn installed_listing_is_sorted_and_deduplicated() {
    let output = "zsh-5.9-5.fc38.x86_64\nbash-5.2.15-3.fc38.x86_64\n\nzsh-5.9-6.fc39.x86_64\n";
    let pkgs = installed_packages_from_listing(output);
    let names: Vec<&str> = pkgs.iter().map(|p| p.name.as_str()).collect();
    assert_eq!(names, vec!["bash", "zsh"]);
}

#[test]
fn installed_listing_empty_output_is_empty() {
    assert!(installed_packages_from_listing("").is_empty());
    assert!(installed_packages_from_listing("\n  \n").is_empty());
}

#[test]
fn candidates_crossed_against_installed_set() {
    // the user-installed listing gives full specs; the installed listing
    // gives bare names; only confirmed names survive, once each
    let user = "bash-5.2.15-3.fc38.x86_64\nghost-1.0-1.fc38.x86_64\n\
Last metadata expiration check: 0:10:00 ago.\nbash-5.2.15-3.fc38.i686\nvim-enhanced-9.0-1.x86_64\n";
    let installed = "bash\nvim-enhanced\nzsh\n";
    let candidates = filter_user_candidates(user, installed);
    assert_eq!(candidates, vec!["bash".to_string(), "vim-enhanced".to_string()]);
}

#[test]
fn candidates_empty_when_either_listing_is_empty() {
    assert!(filter_user_candidates("", "bash\n").is_empty());
    assert!(filter_user_candidates("bash-5.2-1.x86_64\n", "").is_empty());
}
