//! Maps a flagged file's parent directory name to a remediation strategy.

use vstd::prelude::*;

use crate::text::contains_sub;
use crate::text::spec_contains;
use crate::text::str_eq;

verus! {

/// The remediation strategy chosen for one flagged location.
#[derive(Clone, Copy, Debug, PartialEq, Eq, Structural)]
pub enum IssueResolver {
    /// Delete the flagged file outright.
    RemoveFile,
    /// Remove the single flagged line from the file.
    RemoveTag,
    /// No strategy applies; the location is reported and skipped.
    Unknown,
}

/// Strategy for a directory name: `drawable` or `layout` anywhere in the name
/// means whole-file deletion, `strings` anywhere in the name or the exact name
/// `values` means single-line removal, anything else is unsupported.
/// The deletion patterns are checked first, so they win any overlap.
pub open spec fn spec_resolver_for(name: Seq<char>) -> IssueResolver {
    if spec_contains(name, "drawable"@) || spec_contains(name, "layout"@) {
        IssueResolver::RemoveFile
    } else if spec_contains(name, "strings"@) || name == "values"@ {
        IssueResolver::RemoveTag
    } else {
        IssueResolver::Unknown
    }
}

/// Any directory name with `drawable` or `layout` anywhere in it classifies
/// to whole-file deletion, whatever else the name holds.
pub proof fn lemma_deletion_patterns_win(name: Seq<char>)
    requires
        spec_contains(name, "drawable"@) || spec_contains(name, "layout"@),
    ensures
        spec_resolver_for(name) == IssueResolver::RemoveFile,
{
}

/// A directory name matching none of the known patterns classifies to no
/// strategy at all.
pub proof fn lemma_unmatched_name_unsupported(name: Seq<char>)
    requires
        !spec_contains(name, "drawable"@),
        !spec_contains(name, "layout"@),
        !spec_contains(name, "strings"@),
        name != "values"@,
    ensures
        spec_resolver_for(name) == IssueResolver::Unknown,
{
}

/// A path without a parent directory component resolves to no strategy.
pub proof fn lemma_no_parent_no_resolver(p: Seq<char>)
    requires
        spec_parent_name(p) == None::<Seq<char>>,
    ensures
        spec_resolve(p) == None::<IssueResolver>,
{
}

/// Classify one directory name into its remediation strategy.
pub fn get_resolver_by_name(name: &str) -> (r: IssueResolver)
    ensures
        r == spec_resolver_for(name@),
{
    if contains_sub(name, "drawable") || contains_sub(name, "layout") {
        IssueResolver::RemoveFile
    } else if contains_sub(name, "strings") || str_eq(name, "values") {
        IssueResolver::RemoveTag
    } else {
        IssueResolver::Unknown
    }
}

/// Index of the last `/` in `p`, or `-1` if `p` holds none.
pub open spec fn spec_last_slash(p: Seq<char>) -> int
    decreases p.len(),
{
    if p.len() == 0 {
        -1
    } else if p[p.len() - 1] == '/' {
        p.len() - 1
    } else {
        spec_last_slash(p.drop_last())
    }
}

proof fn lemma_last_slash_charac(p: Seq<char>, k: int)
    requires
        0 <= k < p.len(),
        p[k] == '/',
        forall|j: int| k < j < p.len() ==> p[j] != '/',
    ensures
        spec_last_slash(p) == k,
    decreases p.len(),
{
    if k == p.len() - 1 {
    } else {
        assert(p.drop_last()[k] == p[k]);
        assert forall|j: int| k < j < p.drop_last().len() implies p.drop_last()[j] != '/' by {
            assert(p.drop_last()[j] == p[j]);
        }
        lemma_last_slash_charac(p.drop_last(), k);
    }
}

proof fn lemma_last_slash_none(p: Seq<char>)
    requires
        forall|j: int| 0 <= j < p.len() ==> p[j] != '/',
    ensures
        spec_last_slash(p) == -1,
    decreases p.len(),
{
    if p.len() == 0 {
    } else {
        assert forall|j: int| 0 <= j < p.drop_last().len() implies p.drop_last()[j] != '/' by {
            assert(p.drop_last()[j] == p[j]);
        }
        lemma_last_slash_none(p.drop_last());
    }
}

/// The name of the immediate parent directory written in the path `p`:
/// the characters between the last two separators (or between the start of
/// the path and its only separator). A path without a separator, or with an
/// empty parent component, has no parent directory name.
pub open spec fn spec_parent_name(p: Seq<char>) -> Option<Seq<char>> {
    let k = spec_last_slash(p);
    if k < 0 {
        None
    } else {
        let j = spec_last_slash(p.subrange(0, k));
        if j + 1 >= k {
            None
        } else {
            Some(p.subrange(j + 1, k))
        }
    }
}

/// Strategy for a whole path: classify its parent directory's name, or
/// nothing when the path has no parent directory to judge by.
pub open spec fn spec_resolve(p: Seq<char>) -> Option<IssueResolver> {
    match spec_parent_name(p) {
        None => None,
        Some(name) => Some(spec_resolver_for(name)),
    }
}

/// Last `/` strictly before position `end`, scanning backwards.
fn find_last_slash_before(s: &str, end: usize) -> (r: Option<usize>)
    requires
        end <= s@.len(),
    ensures
        match r {
            Some(k) => k < end && s@[k as int] == '/' && (forall|j: int|
                k < j < end ==> s@[j] != '/'),
            None => forall|j: int| 0 <= j < end ==> s@[j] != '/',
        },
{
    let mut i: usize = end;
    while i > 0
        invariant
            i <= end <= s@.len(),
            forall|j: int| i <= j < end ==> s@[j] != '/',
        decreases i,
    {
        i -= 1;
        if s.get_char(i) == '/' {
            return Some(i);
        }
    }
    None
}

/// Classify the file at `path` by its parent directory's name.
pub fn resolve_file_by_path(path: &str) -> (r: Option<IssueResolver>)
    ensures
        r == spec_resolve(path@),
{
    let len = path.unicode_len();
    match find_last_slash_before(path, len) {
        None => {
            proof {
                lemma_last_slash_none(path@);
            }
            None
        },
        Some(k) => {
            proof {
                lemma_last_slash_charac(path@, k as int);
            }
            let prev = find_last_slash_before(path, k);
            let start: usize = match prev {
                None => 0,
                Some(j) => j + 1,
            };
            proof {
                let pre = path@.subrange(0, k as int);
                match prev {
                    None => {
                        assert forall|t: int| 0 <= t < pre.len() implies pre[t] != '/' by {
                            assert(pre[t] == path@[t]);
                        }
                        lemma_last_slash_none(pre);
                    },
                    Some(j) => {
                        assert(pre[j as int] == path@[j as int]);
                        assert forall|t: int| j < t < pre.len() implies pre[t] != '/' by {
                            assert(pre[t] == path@[t]);
                        }
                        lemma_last_slash_charac(pre, j as int);
                    },
                }
            }
            if start >= k {
                None
            } else {
                let name = path.substring_char(start, k);
                Some(get_resolver_by_name(name))
            }
        },
    }
}

} // verus!
