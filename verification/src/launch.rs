//! The session launcher's decisions: the default shell entry point for a
//! platform family, and the exact argument vector of the external attach
//! command.

use vstd::prelude::*;
use crate::text::{contains_ci, str_contains_ci};
use vstd::string::StringExecFns;

verus! {

broadcast use crate::text::lemma_vec_deep_index;

/// The tag whose case-insensitive presence in a platform family marks a
/// Windows execution environment.
pub open spec fn windows_tag() -> Seq<char> {
    "windows"@
}

/// The shell started inside the container: an explicit entry point wins;
/// otherwise a Windows platform gets the Windows shell and anything else
/// the POSIX shell.
pub fn shell_entry_point(entry: Option<String>, platform: &str) -> (r: String)
    ensures
        entry.deep_view() matches Some(e) ==> r@ == e,
        entry is None ==> r@ == (if contains_ci(platform@, windows_tag()) {
            "powershell.exe"@
        } else {
            "/bin/bash"@
        }),
{
    if entry.is_some() {
        let e = entry.unwrap();
        e
    } else {
        if str_contains_ci(platform, "windows") {
            String::from_str("powershell.exe")
        } else {
            String::from_str("/bin/bash")
        }
    }
}

/// The arguments handed to the external attach command, after its own name:
/// the fixed sub-command tokens, the resolved cluster and task, the
/// interactive flag, the entry command, the profile, and the region only
/// where one was resolved.
pub open spec fn spec_attach_args(
    profile: Seq<char>,
    region: Option<Seq<char>>,
    cluster: Seq<char>,
    task: Seq<char>,
    entry: Seq<char>,
) -> Seq<Seq<char>> {
    let base = seq![
        "ecs"@,
        "execute-command"@,
        "--cluster"@,
        cluster,
        "--task"@,
        task,
        "--interactive"@,
        "--command"@,
        entry,
        "--profile"@,
        profile,
    ];
    match region {
        Some(r) => base + seq!["--region"@, r],
        None => base,
    }
}

/// Build the attach command's argument vector.
pub fn attach_command_args(
    profile: &str,
    region: &Option<String>,
    cluster: &str,
    task: &str,
    entry: &str,
) -> (r: Vec<String>)
    ensures
        r.deep_view() == spec_attach_args(profile@, region.deep_view(), cluster@, task@, entry@),
{
    let mut r: Vec<String> = Vec::new();
    r.push(String::from_str("ecs"));
    r.push(String::from_str("execute-command"));
    r.push(String::from_str("--cluster"));
    r.push(cluster.to_owned());
    r.push(String::from_str("--task"));
    r.push(task.to_owned());
    r.push(String::from_str("--interactive"));
    r.push(String::from_str("--command"));
    r.push(entry.to_owned());
    r.push(String::from_str("--profile"));
    r.push(profile.to_owned());
    if region.is_some() {
        r.push(String::from_str("--region"));
        r.push(region.as_ref().unwrap().clone());
    }
    proof {
        assert(r.deep_view() =~= spec_attach_args(
            profile@,
            region.deep_view(),
            cluster@,
            task@,
            entry@,
        ));
    }
    r
}

} // verus!
