use nebula_dnf::ops::{
    autoremove_command, uninstall_command, uninstall_invalidates_cache, uninstall_needs_cleanup,
    uninstall_outcome, update_command, update_outcome, CommandOutput, UninstallArgs, UninstallMode,
};

fn out(success: bool, stdout: &str, stderr: &str) -> CommandOutput {
    CommandOutput { success, stdout: stdout.to_string(), stderr: stderr.to_string() }
}

fn args(mode: UninstallMode, cleanup: bool) -> UninstallArgs {
    UninstallArgs { package_name: "x".to_string(), mode, cleanup_orphans: cleanup }
}

#[test]
fn update_command_is_privileged_assume_yes() {
    let plan = update_command("bash");
    assert_eq!(plan.program, "pkexec");
    assert_eq!(plan.args, vec!["dnf", "update", "bash", "--assumeyes"]);
}

#[test]
fn update_outcome_reports_both_streams() {
    let ok = update_outcome("bash", &out(true, "done", "warn"));
    assert!(ok.success);
    assert_eq!(ok.message, "Package 'bash' updated successfully.");
    assert_eq!(ok.details.as_deref(), Some("STDOUT:\ndone\nSTDERR:\nwarn"));
    let bad = update_outcome("bash", &out(false, "", "boom"));
    assert!(!bad.success);
    assert_eq!(bad.message, "Failed to update package 'bash'.");
    assert_eq!(bad.details.as_deref(), Some("STDOUT:\n\nSTDERR:\nboom"));
}

#[test]
fn uninstall_command_per_mode() {
    let p = uninstall_command(&args(UninstallMode::Safe, false));
    assert_eq!(p.program, "pkexec");
    assert_eq!(p.args, vec!["dnf", "remove", "x", "--assumeyes"]);
    let p = uninstall_command(&args(UninstallMode::Force, false));
    assert_eq!(p.program, "pkexec");
    assert_eq!(p.args, vec!["rpm", "-e", "--nodeps", "x"]);
    let p = uninstall_command(&args(UninstallMode::DryRunSafe, false));
    assert_eq!(p.program, "dnf");
    assert_eq!(p.args, vec!["remove", "x", "--assumeno"]);
    let p = uninstall_command(&args(UninstallMode::DryRunForce, false));
    assert_eq!(p.program, "rpm");
    assert_eq!(p.args, vec!["-e", "--nodeps", "x", "--test"]);
}

#[test]
fn autoremove_command_is_privileged_assume_yes() {
    let plan = autoremove_command();
    assert_eq!(plan.program, "pkexec");
    assert_eq!(plan.args, vec!["dnf", "autoremove", "--assumeyes"]);
}

#[test]
fn cleanup_owed_only_after_successful_safe_removal() {
    let ok = Ok(out(true, "", ""));
    let bad: Result<CommandOutput, String> = Ok(out(false, "", ""));
    let failed_launch: Result<CommandOutput, String> = Err("no pkexec".to_string());
    assert!(uninstall_needs_cleanup(&args(UninstallMode::Safe, true), &ok));
    assert!(!uninstall_needs_cleanup(&args(UninstallMode::Safe, false), &ok));
    assert!(!uninstall_needs_cleanup(&args(UninstallMode::Force, true), &ok));
    assert!(!uninstall_needs_cleanup(&args(UninstallMode::DryRunSafe, true), &ok));
    assert!(!uninstall_needs_cleanup(&args(UninstallMode::Safe, true), &bad));
    assert!(!uninstall_needs_cleanup(&args(UninstallMode::Safe, true), &failed_launch));
}

#[test]
fn failed_cleanup_fails_the_whole_operation() {
    // the primary removal succeeds but the orphan cleanup exits nonzero
    let a = args(UninstallMode::Safe, true);
    let primary = Ok(out(true, "removed x", "p-err"));
    let cleanup = Some(Ok(out(false, "cleanup out", "cleanup err")));
    let r = uninstall_outcome(&a, &primary, &cleanup, &None);
    assert!(!r.success);
    let details = r.details.expect("details are always reported");
    // the details carry both steps' captured output
    assert!(details.contains("removed x"));
    assert!(details.contains("p-err"));
    assert!(details.contains("cleanup out"));
    assert!(details.contains("cleanup err"));
    assert!(details.contains("--- Autoremove (Orphans) ---"));
}

#[test]
fn successful_safe_uninstall_with_cleanup() {
    let a = args(UninstallMode::Safe, true);
    let primary = Ok(out(true, "removed", ""));
    let cleanup = Some(Ok(out(true, "nothing to do", "")));
    let r = uninstall_outcome(&a, &primary, &cleanup, &Some("cache cleared".to_string()));
    assert!(r.success);
    assert!(r.message.contains("cache cleared"));
}

#[test]
fn dry_run_details_are_the_bare_stdout() {
    let a = args(UninstallMode::DryRunSafe, false);
    let primary = Ok(out(true, "would remove x", "noise"));
    let r = uninstall_outcome(&a, &primary, &None, &None);
    assert!(r.success);
    assert_eq!(r.details.as_deref(), Some("would remove x"));
}

#[test]
fn launch_error_is_a_failed_outcome() {
    let a = args(UninstallMode::Force, false);
    let primary: Result<CommandOutput, String> = Err("program not found".to_string());
    let r = uninstall_outcome(&a, &primary, &None, &None);
    assert!(!r.success);
    assert_eq!(
        r.details.as_deref(),
        Some("Error executing command for 'x': program not found")
    );
}

#[test]
fn cleanup_launch_error_fails_the_operation() {
    let a = args(UninstallMode::Safe, true);
    let primary = Ok(out(true, "removed", ""));
    let cleanup: Option<Result<CommandOutput, String>> = Some(Err("auth dismissed".to_string()));
    let r = uninstall_outcome(&a, &primary, &cleanup, &None);
    assert!(!r.success);
    let details = r.details.unwrap();
    assert!(details.contains("auth dismissed"));
}

#[test]
fn cache_invalidation_follows_actual_successful_removals_only() {
    assert!(uninstall_invalidates_cache(&args(UninstallMode::Safe, false), true));
    assert!(uninstall_invalidates_cache(&args(UninstallMode::Force, false), true));
    assert!(!uninstall_invalidates_cache(&args(UninstallMode::DryRunSafe, false), true));
    assert!(!uninstall_invalidates_cache(&args(UninstallMode::DryRunForce, false), true));
    assert!(!uninstall_invalidates_cache(&args(UninstallMode::Safe, false), false));
}
