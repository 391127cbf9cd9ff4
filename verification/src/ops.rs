//! The operation executor: chooses the external command for each
//! privileged operation, and judges and reports the outcome of what the
//! driver ran.  The driver only launches the chosen commands and hands the
//! captured results back.

use vstd::prelude::*;
use vstd::string::*;

verus! {

/// How a package is uninstalled: an actual safe removal, an actual forced
/// removal ignoring dependency checks, or the dry-run variant of either.
#[derive(Clone, Copy, Debug, PartialEq, Eq, Structural)]
pub enum UninstallMode {
    Safe,
    Force,
    DryRunSafe,
    DryRunForce,
}

/// The arguments of one uninstall operation.  Orphan cleanup is acted on
/// only in the safe mode.
pub struct UninstallArgs {
    pub package_name: String,
    pub mode: UninstallMode,
    pub cleanup_orphans: bool,
}

/// The reported outcome of one privileged operation.
pub struct PackageOperationResult {
    pub success: bool,
    pub message: String,
    pub details: Option<String>,
}

/// One external command to launch: a program and its arguments.
pub struct CommandPlan {
    pub program: String,
    pub args: Vec<String>,
}

/// What one launched command came back with.
pub struct CommandOutput {
    pub success: bool,
    pub stdout: String,
    pub stderr: String,
}

/// The mode performs no actual removal.
pub open spec fn is_dry_run(m: UninstallMode) -> bool {
    m is DryRunSafe || m is DryRunForce
}

/// The captured-output block of a report.
pub open spec fn std_block(out: Seq<char>, err: Seq<char>) -> Seq<char> {
    "STDOUT:\n"@ + out + "\nSTDERR:\n"@ + err
}

/// The update command: a privileged assume-yes update of one package.
pub fn update_command(package_name: &str) -> (r: CommandPlan)
    ensures
        r.program@ == "pkexec"@,
        r.args.deep_view() =~= seq!["dnf"@, "update"@, package_name@, "--assumeyes"@],
{
    let mut args: Vec<String> = Vec::new();
    args.push(String::from_str("dnf"));
    args.push(String::from_str("update"));
    args.push(String::from_str(package_name));
    args.push(String::from_str("--assumeyes"));
    CommandPlan { program: String::from_str("pkexec"), args }
}

/// The outcome of an update that ran: success is the command's exit
/// judgement, the details carry both captured streams, and the message
/// names the package.
pub fn update_outcome(package_name: &str, output: &CommandOutput) -> (r: PackageOperationResult)
    ensures
        r.success == output.success,
        r.details matches Some(d) && d@ == std_block(output.stdout@, output.stderr@),
        output.success ==> r.message@ == "Package '"@ + package_name@
            + "' updated successfully."@,
        !output.success ==> r.message@ == "Failed to update package '"@ + package_name@ + "'."@,
{
    let mut details = String::new();
    details.append("STDOUT:\n");
    details.append(output.stdout.as_str());
    details.append("\nSTDERR:\n");
    details.append(output.stderr.as_str());
    proof {
        assert(details@ =~= std_block(output.stdout@, output.stderr@));
    }
    let mut message = String::new();
    if output.success {
        message.append("Package '");
        message.append(package_name);
        message.append("' updated successfully.");
        proof {
            assert(message@ =~= "Package '"@ + package_name@ + "' updated successfully."@);
        }
    } else {
        message.append("Failed to update package '");
        message.append(package_name);
        message.append("'.");
        proof {
            assert(message@ =~= "Failed to update package '"@ + package_name@ + "'."@);
        }
    }
    PackageOperationResult { success: output.success, message, details: Some(details) }
}

/// The uninstall command for each mode: privileged assume-yes removal for
/// the safe mode, privileged forced removal for the force mode, and their
/// unprivileged assume-no and test-only dry-run counterparts.
pub fn uninstall_command(args: &UninstallArgs) -> (r: CommandPlan)
    ensures
        args.mode is Safe ==> r.program@ == "pkexec"@ && r.args.deep_view() =~= seq![
            "dnf"@,
            "remove"@,
            args.package_name@,
            "--assumeyes"@,
        ],
        args.mode is Force ==> r.program@ == "pkexec"@ && r.args.deep_view() =~= seq![
            "rpm"@,
            "-e"@,
            "--nodeps"@,
            args.package_name@,
        ],
        args.mode is DryRunSafe ==> r.program@ == "dnf"@ && r.args.deep_view() =~= seq![
            "remove"@,
            args.package_name@,
            "--assumeno"@,
        ],
        args.mode is DryRunForce ==> r.program@ == "rpm"@ && r.args.deep_view() =~= seq![
            "-e"@,
            "--nodeps"@,
            args.package_name@,
            "--test"@,
        ],
{
    let mut v: Vec<String> = Vec::new();
    match args.mode {
        UninstallMode::Safe => {
            v.push(String::from_str("dnf"));
            v.push(String::from_str("remove"));
            v.push(String::from_str(args.package_name.as_str()));
            v.push(String::from_str("--assumeyes"));
            CommandPlan { program: String::from_str("pkexec"), args: v }
        },
        UninstallMode::Force => {
            v.push(String::from_str("rpm"));
            v.push(String::from_str("-e"));
            v.push(String::from_str("--nodeps"));
            v.push(String::from_str(args.package_name.as_str()));
            CommandPlan { program: String::from_str("pkexec"), args: v }
        },
        UninstallMode::DryRunSafe => {
            v.push(String::from_str("remove"));
            v.push(String::from_str(args.package_name.as_str()));
            v.push(String::from_str("--assumeno"));
            CommandPlan { program: String::from_str("dnf"), args: v }
        },
        UninstallMode::DryRunForce => {
            v.push(String::from_str("-e"));
            v.push(String::from_str("--nodeps"));
            v.push(String::from_str(args.package_name.as_str()));
            v.push(String::from_str("--test"));
            CommandPlan { program: String::from_str("rpm"), args: v }
        },
    }
}

/// The orphan-cleanup command: a privileged assume-yes autoremove.
pub fn autoremove_command() -> (r: CommandPlan)
    ensures
        r.program@ == "pkexec"@,
        r.args.deep_view() =~= seq!["dnf"@, "autoremove"@, "--assumeyes"@],
{
    let mut args: Vec<String> = Vec::new();
    args.push(String::from_str("dnf"));
    args.push(String::from_str("autoremove"));
    args.push(String::from_str("--assumeyes"));
    CommandPlan { program: String::from_str("pkexec"), args }
}

/// Orphan cleanup is owed exactly when the primary removal ran and
/// succeeded, the mode is the actual safe removal, and cleanup was asked
/// for.
pub open spec fn needs_cleanup_spec(args: UninstallArgs, primary_ran: bool, primary_success: bool) -> bool {
    primary_ran && primary_success && args.mode is Safe && args.cleanup_orphans
}

/// Whether the orphan-cleanup phase must follow the primary removal.
pub fn uninstall_needs_cleanup(args: &UninstallArgs, primary: &Result<CommandOutput, String>) -> (r:
    bool)
    ensures
        r == needs_cleanup_spec(
            *args,
            *primary matches Ok(_),
            *primary matches Ok(p) && p.success,
        ),
{
    match primary {
        Ok(p) => p.success && matches!(args.mode, UninstallMode::Safe) && args.cleanup_orphans,
        Err(_) => false,
    }
}

/// The overall judgement of an uninstall: the primary command ran and
/// succeeded, and, where orphan cleanup was owed, the cleanup command ran
/// and succeeded too — a failed second phase fails the whole operation.
pub open spec fn uninstall_success_spec(
    args: UninstallArgs,
    primary: Result<CommandOutput, String>,
    cleanup: Option<Result<CommandOutput, String>>,
) -> bool {
    &&& primary matches Ok(p) && p.success
    &&& match cleanup {
        Some(c) => c matches Ok(co) && co.success,
        None => true,
    }
}

/// The cache is invalidated exactly after an overall successful actual
/// (non-dry-run) removal.
pub open spec fn invalidates_cache_spec(args: UninstallArgs, overall_success: bool) -> bool {
    overall_success && !is_dry_run(args.mode)
}

/// Whether the cache file must be invalidated after the operation.
pub fn uninstall_invalidates_cache(args: &UninstallArgs, overall_success: bool) -> (r: bool)
    ensures
        r == invalidates_cache_spec(*args, overall_success),
{
    overall_success && !matches!(args.mode, UninstallMode::DryRunSafe | UninstallMode::DryRunForce)
}

/// The details an uninstall reports: the launch error verbatim if the
/// primary command never ran; the bare standard output for a successful
/// dry run; otherwise both captured streams of the primary command,
/// followed, when orphan cleanup ran, by a marked block with the cleanup
/// command's captured streams or its launch error.
pub open spec fn uninstall_details_spec(
    args: UninstallArgs,
    primary: Result<CommandOutput, String>,
    cleanup: Option<Result<CommandOutput, String>>,
) -> Seq<char> {
    match primary {
        Result::Err(e) => "Error executing command for '"@ + args.package_name@ + "': "@ + e@,
        Result::Ok(p) => {
            if p.success && is_dry_run(args.mode) {
                p.stdout@
            } else {
                let base = std_block(p.stdout@, p.stderr@);
                match cleanup {
                    Option::None => base,
                    Option::Some(Result::Ok(c)) => base + "\n\n--- Autoremove (Orphans) ---\n"@
                        + std_block(c.stdout@, c.stderr@),
                    Option::Some(Result::Err(e2)) => base + "\n\n--- Autoremove (Orphans) ---\n"@
                        + "\nError during orphan cleanup: "@ + e2@,
                }
            }
        },
    }
}

/// The summary an uninstall reports, before any cache note: the launch
/// error verbatim if the primary command never ran; otherwise a sentence
/// naming the package and judging the phase that ran, with the outcome of
/// the orphan-cleanup phase appended where one ran.
pub open spec fn uninstall_message_spec(
    args: UninstallArgs,
    primary: Result<CommandOutput, String>,
    cleanup: Option<Result<CommandOutput, String>>,
) -> Seq<char> {
    match primary {
        Result::Err(e) => "Error executing command for '"@ + args.package_name@ + "': "@ + e@,
        Result::Ok(p) => {
            let head = if p.success {
                (if is_dry_run(args.mode) {
                    "Dry run operation for '"@
                } else {
                    "Uninstall operation for '"@
                }) + args.package_name@ + "' completed successfully."@
            } else {
                (if is_dry_run(args.mode) {
                    "Failed dry run for package '"@
                } else {
                    "Failed uninstall for package '"@
                }) + args.package_name@ + "'."@
            };
            match cleanup {
                Option::None => head,
                Option::Some(Result::Ok(c)) => head + (if c.success {
                    "\nOrphan cleanup successful."@
                } else {
                    "\nOrphan cleanup failed."@
                }),
                Option::Some(Result::Err(e2)) => head + "\nError during orphan cleanup: "@ + e2@,
            }
        },
    }
}

/// Judges and reports an uninstall from what the driver ran: the primary
/// command's result, and the cleanup command's result where cleanup was
/// owed.  Success follows `uninstall_success_spec`; the details carry
/// every captured output per `uninstall_details_spec`; `cache_note`, the
/// driver's report of the cache invalidation that followed an actual
/// successful removal, is appended to the message and never affects
/// success.
pub fn uninstall_outcome(
    args: &UninstallArgs,
    primary: &Result<CommandOutput, String>,
    cleanup: &Option<Result<CommandOutput, String>>,
    cache_note: &Option<String>,
) -> (r: PackageOperationResult)
    requires
        cleanup is Some <==> needs_cleanup_spec(
            *args,
            *primary matches Ok(_),
            *primary matches Ok(p) && p.success,
        ),
    ensures
        r.success == uninstall_success_spec(*args, *primary, *cleanup),
        r.details matches Some(d) && d@ == uninstall_details_spec(*args, *primary, *cleanup),
        r.message@ == uninstall_message_spec(*args, *primary, *cleanup) + (match *cache_note {
            Some(note) => "\n"@ + note@,
            None => Seq::<char>::empty(),
        }),
{
    let mut success: bool;
    let mut message = String::new();
    let mut details = String::new();
    match primary {
        Err(e) => {
            success = false;
            message.append("Error executing command for '");
            message.append(args.package_name.as_str());
            message.append("': ");
            message.append(e.as_str());
            details.append("Error executing command for '");
            details.append(args.package_name.as_str());
            details.append("': ");
            details.append(e.as_str());
            proof {
                assert(details@ =~= "Error executing command for '"@ + args.package_name@ + "': "@
                    + e@);
                assert(message@ =~= uninstall_message_spec(*args, *primary, *cleanup));
            }
        },
        Ok(p) => {
            success = p.success;
            let dry = matches!(args.mode, UninstallMode::DryRunSafe | UninstallMode::DryRunForce);
            if p.success {
                if dry {
                    message.append("Dry run operation for '");
                } else {
                    message.append("Uninstall operation for '");
                }
                message.append(args.package_name.as_str());
                message.append("' completed successfully.");
            } else {
                if dry {
                    message.append("Failed dry run for package '");
                } else {
                    message.append("Failed uninstall for package '");
                }
                message.append(args.package_name.as_str());
                message.append("'.");
            }
            proof {
                assert(dry == is_dry_run(args.mode));
            }
            let ghost head_v = message@;
            if p.success && dry {
                details.append(p.stdout.as_str());
                proof {
                    assert(details@ =~= p.stdout@);
                    assert(*cleanup is None);
                    assert(message@ =~= uninstall_message_spec(*args, *primary, *cleanup));
                }
            } else {
                details.append("STDOUT:\n");
                details.append(p.stdout.as_str());
                details.append("\nSTDERR:\n");
                details.append(p.stderr.as_str());
                proof {
                    assert(details@ =~= std_block(p.stdout@, p.stderr@));
                }
                let ghost base = details@;
                match cleanup {
                    None => {
                        proof {
                            assert(message@ =~= uninstall_message_spec(*args, *primary, *cleanup));
                        }
                    },
                    Some(c) => {
                        details.append("\n\n--- Autoremove (Orphans) ---\n");
                        match c {
                            Ok(co) => {
                                details.append("STDOUT:\n");
                                details.append(co.stdout.as_str());
                                details.append("\nSTDERR:\n");
                                details.append(co.stderr.as_str());
                                proof {
                                    assert(details@ =~= base
                                        + "\n\n--- Autoremove (Orphans) ---\n"@ + std_block(
                                        co.stdout@,
                                        co.stderr@,
                                    ));
                                }
                                if co.success {
                                    message.append("\nOrphan cleanup successful.");
                                    proof {
                                        assert(message@ =~= head_v
                                            + "\nOrphan cleanup successful."@);
                                        assert(message@ =~= uninstall_message_spec(
                                            *args,
                                            *primary,
                                            *cleanup,
                                        ));
                                    }
                                } else {
                                    success = false;
                                    message.append("\nOrphan cleanup failed.");
                                    proof {
                                        assert(message@ =~= head_v + "\nOrphan cleanup failed."@);
                                        assert(message@ =~= uninstall_message_spec(
                                            *args,
                                            *primary,
                                            *cleanup,
                                        ));
                                    }
                                }
                            },
                            Err(e2) => {
                                success = false;
                                details.append("\nError during orphan cleanup: ");
                                details.append(e2.as_str());
                                message.append("\nError during orphan cleanup: ");
                                message.append(e2.as_str());
                                proof {
                                    assert(details@ =~= base
                                        + "\n\n--- Autoremove (Orphans) ---\n"@
                                        + "\nError during orphan cleanup: "@ + e2@);
                                    assert(message@ =~= head_v
                                        + "\nError during orphan cleanup: "@ + e2@);
                                    assert(message@ =~= uninstall_message_spec(
                                        *args,
                                        *primary,
                                        *cleanup,
                                    ));
                                }
                            },
                        }
                    },
                }
            }
        },
    }
    proof {
        assert(message@ == uninstall_message_spec(*args, *primary, *cleanup));
    }
    match cache_note {
        Some(note) => {
            message.append("\n");
            message.append(note.as_str());
            proof {
                assert(message@ =~= uninstall_message_spec(*args, *primary, *cleanup) + ("\n"@
                    + note@));
            }
        },
        None => {
            proof {
                assert(message@ =~= uninstall_message_spec(*args, *primary, *cleanup)
                    + Seq::<char>::empty());
            }
        },
    }
    PackageOperationResult { success, message, details: Some(details) }
}

} // verus!
