//! The report over a directory of checkouts.
use vstd::prelude::*;
use crate::aggregate::{groups_fit, runs, stats_from_file_desc_list, lemma_runs_nonempty_groups, stats, FileDesc, GroupStat};
use crate::identity::{identity_of, PathError};
use crate::render::{chkout_list_to_string, human_size, size_text, summary_text};

verus! {

/// The report: nothing when the root is missing; otherwise a header with the
/// root and the cache's total size, then the summary table of the groups.
pub open spec fn report_text(
    root: Seq<char>,
    root_exists: bool,
    total: nat,
    limit: nat,
    d: Seq<FileDesc>,
) -> Seq<char> {
    if !root_exists {
        Seq::<char>::empty()
    } else {
        "\nSummary of: "@ + root + " ("@ + size_text(total) + " total)\n"@ + summary_text(
            limit,
            runs(d),
        )
    }
}

/// Nothing in, nothing out: no descriptors give no groups, and no groups
/// give the empty text.
pub proof fn lemma_empty_input(limit: nat)
    ensures
        runs(Seq::<FileDesc>::empty()) == Seq::<GroupStat>::empty(),
        summary_text(limit, Seq::<GroupStat>::empty()) == Seq::<char>::empty(),
{
}

/// The descriptors of the checkouts at `paths`, measured at `sizes`, in
/// order; an error when a path does not name a project.
pub fn file_desc_from_path(paths: &Vec<String>, sizes: &Vec<u64>) -> (r: Result<Vec<FileDesc>, PathError>)
    requires
        paths.len() == sizes.len(),
    ensures
        match r {
            Ok(d) => d.len() == paths.len() && forall|i: int|
                0 <= i < d.len() ==> identity_of(paths@[i]@) == Some(#[trigger] d@[i].name@)
                    && d@[i].path == paths@[i] && d@[i].size == sizes@[i],
            Err(e) => e == PathError::MalformedPath && exists|i: int|
                0 <= i < paths.len() && #[trigger] identity_of(paths@[i]@) is None,
        },
{
    let mut out: Vec<FileDesc> = Vec::new();
    let mut i: usize = 0;
    while i < paths.len()
        invariant
            i <= paths.len() == sizes.len(),
            out.len() == i,
            forall|k: int|
                0 <= k < i ==> identity_of(paths@[k]@) == Some(#[trigger] out@[k].name@)
                    && out@[k].path == paths@[k] && out@[k].size == sizes@[k],
        decreases paths.len() - i,
    {
        match FileDesc::new_from_git_checkouts(paths[i].clone(), sizes[i]) {
            Ok(d) => out.push(d),
            Err(e) => {
                return Err(e);
            },
        }
        i = i + 1;
    }
    Ok(out)
}

/// The report over the checkouts described by `file_descs`: empty when the
/// root `path` does not exist, else the header with `cache_total_size` and
/// the table of at most `limit` groups.
pub fn git_checkouts_stats(
    path: &str,
    path_exists: bool,
    cache_total_size: u64,
    limit: u32,
    file_descs: Vec<FileDesc>,
) -> (r: String)
    requires
        path_exists ==> groups_fit(runs(file_descs@)),
    ensures
        r@ == report_text(path@, path_exists, cache_total_size as nat, limit as nat, file_descs@),
{
    let mut output = String::new();
    if !path_exists {
        return output;
    }
    let ghost d = file_descs@;
    output.append("\nSummary of: ");
    output.append(path);
    output.append(" (");
    output.append(human_size(cache_total_size).as_str());
    output.append(" total)\n");
    let summary = stats_from_file_desc_list(file_descs);
    proof {
        lemma_runs_nonempty_groups(d);
        assert forall|i: int| 0 <= i < summary@.len() implies #[trigger] summary@[i].counter >= 1 by {
            assert(stats(summary@)[i].count >= 1);
        }
    }
    let table = chkout_list_to_string(limit, summary);
    output.append(table.as_str());
    output
}

} // verus!
