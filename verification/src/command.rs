//! What the caller hands in and what is handed on to git: the options a
//! run is invoked with, the decision taken from an analysis outcome, and the
//! exact argument lists for the rewrite and for the diagnostic log.

use vstd::prelude::*;
use vstd::string::StringExecFns;
use crate::analyzer::AnalysisResult;
use crate::repo::opt_name;

verus! {

/// The options of one invocation: the repository to open, the rewrite mode
/// flags passed through untouched, and the optional upstream and branch
/// names.
pub struct Cli {
    pub repo_path: Option<String>,
    pub interactive: bool,
    pub dry_run: bool,
    pub onto: Option<String>,
    pub autostash: bool,
    pub upstream: Option<String>,
    pub branch: Option<String>,
}

/// What to do once an analysis has returned.
#[derive(Clone, Copy, Debug, PartialEq, Eq)]
pub enum NextStep {
    /// Safe, dry run: report safety and stop.
    ReportSafe,
    /// Safe, live run: hand off to the external rewrite.
    RunRebase,
    /// Unsafe: present the conflicting references.
    ReportUnsafe,
}

/// The decision taken from an analysis outcome: a safe result either stops
/// at a report (dry run) or proceeds to the rewrite; an unsafe result is
/// always reported, never acted on.
pub fn next_step(r: &AnalysisResult, dry_run: bool) -> (s: NextStep)
    ensures
        match r {
            AnalysisResult::Safe => s == (if dry_run {
                NextStep::ReportSafe
            } else {
                NextStep::RunRebase
            }),
            AnalysisResult::Unsafe { .. } => s == NextStep::ReportUnsafe,
        },
{
    match r {
        AnalysisResult::Safe => {
            if dry_run {
                NextStep::ReportSafe
            } else {
                NextStep::RunRebase
            }
        },
        AnalysisResult::Unsafe { .. } => NextStep::ReportUnsafe,
    }
}

/// The argument list of the rewrite invocation: the mode flags first, then
/// the resolved upstream identifier and the branch name.
pub open spec fn spec_rebase_args(
    u: Seq<char>,
    b: Seq<char>,
    interactive: bool,
    onto: Option<Seq<char>>,
) -> Seq<Seq<char>> {
    seq!["rebase"@] + (if interactive {
        seq!["--interactive"@]
    } else {
        Seq::<Seq<char>>::empty()
    }) + (match onto {
        Some(o) => seq!["--onto"@, o],
        None => Seq::<Seq<char>>::empty(),
    }) + seq![u, b]
}

/// Builds the rewrite invocation's arguments.
pub fn rebase_args(
    upstream_id: &str,
    branch_name: &str,
    interactive: bool,
    onto: Option<&str>,
) -> (args: Vec<String>)
    ensures
        args.deep_view() == spec_rebase_args(
            upstream_id@,
            branch_name@,
            interactive,
            opt_name(onto),
        ),
{
    let mut args: Vec<String> = Vec::new();
    args.push("rebase".to_owned());
    if interactive {
        args.push("--interactive".to_owned());
    }
    match onto {
        Some(o) => {
            args.push("--onto".to_owned());
            args.push(o.to_owned());
        },
        None => {},
    }
    args.push(upstream_id.to_owned());
    args.push(branch_name.to_owned());
    proof {
        assert(args.deep_view() =~= spec_rebase_args(
            upstream_id@,
            branch_name@,
            interactive,
            opt_name(onto),
        ));
    }
    args
}

/// The argument list of the diagnostic log: a graph log bounding the branch
/// and the upstream against every conflicting reference.
pub open spec fn spec_log_args(
    branch_ref: Seq<char>,
    u: Seq<char>,
    names: Seq<Seq<char>>,
) -> Seq<Seq<char>> {
    seq!["log"@, "--graph"@, "--oneline"@, branch_ref, u] + names
}

/// Builds the diagnostic log's arguments.
#[verifier::loop_isolation(false)]
pub fn log_args(branch_ref_name: &str, upstream_id: &str, conflicts: &Vec<String>) -> (args: Vec<
    String,
>)
    ensures
        args.deep_view() == spec_log_args(
            branch_ref_name@,
            upstream_id@,
            conflicts.deep_view(),
        ),
{
    let mut args: Vec<String> = Vec::new();
    args.push("log".to_owned());
    args.push("--graph".to_owned());
    args.push("--oneline".to_owned());
    args.push(branch_ref_name.to_owned());
    args.push(upstream_id.to_owned());
    let ghost head5 = args.deep_view();
    proof {
        assert(head5 =~= seq![
            "log"@,
            "--graph"@,
            "--oneline"@,
            branch_ref_name@,
            upstream_id@,
        ]);
    }
    let n = conflicts.len();
    let mut k: usize = 0;
    while k < n
        invariant
            k <= n,
            args.deep_view() == head5 + conflicts.deep_view().subrange(0, k as int),
        decreases n - k,
    {
        let ghost before = args.deep_view();
        args.push(conflicts[k].clone());
        proof {
            assert(args.deep_view() =~= before.push(conflicts@[k as int]@));
            assert(head5 + conflicts.deep_view().subrange(0, k as int + 1) =~= before.push(
                conflicts@[k as int]@,
            ));
        }
        k = k + 1;
    }
    proof {
        assert(conflicts.deep_view().subrange(0, n as int) =~= conflicts.deep_view());
    }
    args
}

} // verus!
