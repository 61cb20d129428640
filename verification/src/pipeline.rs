//! The driver's decision core: turn the filtered issues into a plan of
//! per-location actions, in source order. Executing the plan against the
//! filesystem is the surrounding binary's job.

use vstd::prelude::*;

use crate::classify::resolve_file_by_path;
use crate::classify::spec_parent_name;
use crate::classify::spec_resolve;
use crate::classify::IssueResolver;
use crate::report::Issue;
use crate::report::Location;

verus! {

/// The filesystem action planned for one location.
#[derive(Clone, Copy, Debug, PartialEq, Eq, Structural)]
pub enum Action {
    /// Delete the file at the location's path.
    DeleteFile,
    /// Rewrite the file at the location's path without its 1-indexed line.
    RemoveLine(u32),
    /// No action: no strategy applies, or the line to remove is unknown.
    Unsupported,
}

/// One planned remediation: the file it touches and what to do to it.
#[derive(Clone, Debug, PartialEq, Eq)]
pub struct Step {
    pub file: String,
    pub action: Action,
}

/// How the execution of one planned step ended. Failures are isolated to
/// their own location and never stop the remaining steps.
#[derive(Clone, Copy, Debug, PartialEq, Eq, Structural)]
pub enum Outcome {
    /// The planned action was applied.
    Applied,
    /// No strategy applied; nothing was done.
    Skipped,
    /// The file could not be deleted.
    DeletionFailed,
    /// The file could not be rewritten without the flagged line.
    RewriteFailed,
}

/// The action planned for one location: what its path classifies to, demoted
/// to `Unsupported` when the path has no parent directory to classify by, or
/// when a line removal is asked for but the report gave no line number.
pub open spec fn spec_action_for(loc: Location) -> Action {
    match spec_resolve(loc.file@) {
        None => Action::Unsupported,
        Some(resolver) => match resolver {
            IssueResolver::RemoveFile => Action::DeleteFile,
            IssueResolver::RemoveTag => match loc.line {
                Some(line) => Action::RemoveLine(line),
                None => Action::Unsupported,
            },
            IssueResolver::Unknown => Action::Unsupported,
        },
    }
}

/// The steps planned for one issue: one per location, in source order.
pub open spec fn spec_steps_for_issue(issue: Issue) -> Seq<Step> {
    issue.locations@.map_values(
        |loc: Location| Step { file: loc.file, action: spec_action_for(loc) },
    )
}

/// The whole plan: every issue's steps, issues in source order.
pub open spec fn spec_plan(issues: Seq<Issue>) -> Seq<Step>
    decreases issues.len(),
{
    if issues.len() == 0 {
        Seq::empty()
    } else {
        spec_steps_for_issue(issues[0]) + spec_plan(issues.drop_first())
    }
}

/// A location whose path holds no parent directory component is always
/// planned as unsupported: there is no directory name to classify by.
pub proof fn lemma_no_parent_unsupported(loc: Location)
    requires
        spec_parent_name(loc.file@) == None::<Seq<char>>,
    ensures
        spec_action_for(loc) == Action::Unsupported,
{
}

/// Plan the action for a single location.
pub fn plan_for_location(loc: &Location) -> (a: Action)
    ensures
        a == spec_action_for(*loc),
{
    match resolve_file_by_path(loc.file.as_str()) {
        None => Action::Unsupported,
        Some(resolver) => match resolver {
            IssueResolver::RemoveFile => Action::DeleteFile,
            IssueResolver::RemoveTag => match loc.line {
                Some(line) => Action::RemoveLine(line),
                None => Action::Unsupported,
            },
            IssueResolver::Unknown => Action::Unsupported,
        },
    }
}

/// Plan every issue's remediation, walking issues and their locations in
/// source order. The plan is exactly one step per location.
pub fn apply_issues(issues: Vec<Issue>) -> (plan: Vec<Step>)
    ensures
        plan@ == spec_plan(issues@),
{
    let mut steps: Vec<Step> = Vec::new();
    let mut rest = issues;
    let ghost orig = rest@;
    proof {
        assert(steps@ + spec_plan(rest@) =~= spec_plan(orig));
    }
    while rest.len() > 0
        invariant
            steps@ + spec_plan(rest@) == spec_plan(orig),
        decreases rest.len(),
    {
        let ghost prev = rest@;
        let issue = rest.remove(0);
        proof {
            assert(rest@ =~= prev.drop_first());
        }
        let ghost before_issue = steps@;
        let mut k: usize = 0;
        proof {
            assert(steps@ =~= before_issue + spec_steps_for_issue(issue).subrange(0, 0));
        }
        while k < issue.locations.len()
            invariant
                k <= issue.locations@.len(),
                steps@ == before_issue + spec_steps_for_issue(issue).subrange(0, k as int),
            decreases issue.locations@.len() - k,
        {
            let loc = &issue.locations[k];
            let action = plan_for_location(loc);
            let step = Step { file: loc.file.clone(), action };
            steps.push(step);
            k += 1;
            proof {
                assert(spec_steps_for_issue(issue)[k - 1] == (Step {
                    file: issue.locations@[k - 1].file,
                    action: spec_action_for(issue.locations@[k - 1]),
                }));
                assert(steps@ =~= before_issue + spec_steps_for_issue(issue).subrange(
                    0,
                    k as int,
                ));
            }
        }
        proof {
            assert(spec_steps_for_issue(issue).subrange(0, k as int) =~= spec_steps_for_issue(
                issue,
            ));
            assert(steps@ + spec_plan(rest@) =~= before_issue + spec_plan(prev));
        }
    }
    proof {
        assert(spec_plan(rest@) =~= Seq::<Step>::empty());
        assert(steps@ + spec_plan(rest@) =~= steps@);
    }
    steps
}

} // verus!
