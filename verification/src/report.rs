//! The report's data model and the loader core: category filtering and the
//! format-version check.

use vstd::prelude::*;

use crate::text::str_eq;

verus! {

/// One flagged point inside one file. `line` and `column` are written only by
/// later report schemas, so both are optional.
pub struct Location {
    pub file: String,
    pub line: Option<u32>,
    pub column: Option<u32>,
}

/// One lint finding: a category id, its explanatory texts, and the flagged
/// locations in source order.
pub struct Issue {
    pub id: String,
    pub message: String,
    pub explanation: String,
    pub locations: Vec<Location>,
}

/// The parsed report document: its declared format tag and its issues in
/// source order.
pub struct Report {
    pub format: String,
    pub issues: Vec<Issue>,
}

/// Why a report could not be turned into an issue list. Either kind aborts
/// the whole run: nothing can be remediated without a valid issue list.
#[derive(Clone, Copy, Debug, PartialEq, Eq, Structural)]
pub enum LoadError {
    /// The report file could not be read.
    IoFailure,
    /// The report's bytes do not form the expected document shape.
    MalformedReport,
}

/// The issues whose id equals `category`, in their original order.
pub open spec fn spec_filter_issues(issues: Seq<Issue>, category: Seq<char>) -> Seq<Issue>
    decreases issues.len(),
{
    if issues.len() == 0 {
        Seq::empty()
    } else if issues[0].id@ == category {
        seq![issues[0]] + spec_filter_issues(issues.drop_first(), category)
    } else {
        spec_filter_issues(issues.drop_first(), category)
    }
}

/// Every issue the filter keeps carries the requested category id.
pub proof fn lemma_filter_issues_ids(issues: Seq<Issue>, category: Seq<char>)
    ensures
        forall|k: int|
            0 <= k < spec_filter_issues(issues, category).len() ==> (#[trigger] spec_filter_issues(
                issues,
                category,
            )[k]).id@ == category,
    decreases issues.len(),
{
    if issues.len() == 0 {
    } else {
        lemma_filter_issues_ids(issues.drop_first(), category);
        let f = spec_filter_issues(issues, category);
        let rest = spec_filter_issues(issues.drop_first(), category);
        assert forall|k: int| 0 <= k < f.len() implies (#[trigger] f[k]).id@ == category by {
            if issues[0].id@ == category {
                if k > 0 {
                    assert(f[k] == rest[k - 1]);
                }
            } else {
                assert(f[k] == rest[k]);
            }
        }
    }
}

/// Loader core, after the document has been read and parsed: keep exactly the
/// issues whose id equals `category`, in source order, and report whether the
/// document's declared format differs from the supported one. The mismatch is
/// a warning for the caller to surface, never a failure.
pub fn load_report(report: Report, category: &str, supported_format: &str) -> (r: (
    bool,
    Vec<Issue>,
))
    ensures
        r.0 == (report.format@ != supported_format@),
        r.1@ == spec_filter_issues(report.issues@, category@),
{
    let warn = !str_eq(report.format.as_str(), supported_format);
    let mut rest = report.issues;
    let ghost orig = rest@;
    let mut kept: Vec<Issue> = Vec::new();
    proof {
        assert(kept@ + spec_filter_issues(rest@, category@) =~= spec_filter_issues(
            orig,
            category@,
        ));
    }
    while rest.len() > 0
        invariant
            kept@ + spec_filter_issues(rest@, category@) == spec_filter_issues(orig, category@),
        decreases rest.len(),
    {
        let ghost prev = rest@;
        let ghost kept_prev = kept@;
        let issue = rest.remove(0);
        proof {
            assert(rest@ =~= prev.drop_first());
        }
        if str_eq(issue.id.as_str(), category) {
            kept.push(issue);
            proof {
                assert(kept@ + spec_filter_issues(rest@, category@) =~= kept_prev
                    + spec_filter_issues(prev, category@));
            }
        } else {
            proof {
                assert(spec_filter_issues(prev, category@) == spec_filter_issues(
                    rest@,
                    category@,
                ));
            }
        }
    }
    proof {
        assert(spec_filter_issues(rest@, category@) =~= Seq::<Issue>::empty());
        assert(kept@ + spec_filter_issues(rest@, category@) =~= kept@);
    }
    (warn, kept)
}

} // verus!
