//! Checks that gate an operation.

use vstd::prelude::*;
use vstd::string::*;

use crate::check::{finding_views, Finding, FindingView, Severity};
use crate::lines::{sort_texts, sorted_texts};
use crate::text::{cat2, cat3, join_texts, joined, views};

verus! {

/// Stable identifier of the finding on active machines.
pub const CHECK_ACTIVE_NSPAWN_MACHINES: &'static str = "active-nspawn-machines";

/// Path where systemd-machined publishes registered machines.
pub const MACHINED_RUNTIME_DIR: &'static str = "/run/systemd/machines";

/// The finding on the active machines with the given names.
pub open spec fn machines_finding(names: Seq<Seq<char>>) -> FindingView {
    let listed = joined(sorted_texts(names), ", "@);
    FindingView {
        severity: Severity::Error,
        check: CHECK_ACTIVE_NSPAWN_MACHINES@,
        message: if names.len() == 1 {
            "nspawn machine registered with systemd-machined is active: "@ + listed
        } else {
            "nspawn machines registered with systemd-machined are active: "@ + listed
        },
        hint: Some(
            "stop the machine(s) with `machinectl terminate <name>` before restoring, or re-run with `--force` to proceed anyway"@,
        ),
    }
}

/// The findings that gate a restore while the named machines are registered
/// with systemd-machined: one error if there are any.
#[must_use]
pub fn find_active_nspawn_machines(names: &Vec<String>) -> (r: Vec<Finding>)
    ensures
        finding_views(r@) == if names@.len() == 0 {
            Seq::empty()
        } else {
            seq![machines_finding(views(names@))]
        },
{
    let mut out: Vec<Finding> = Vec::new();
    if names.len() == 0 {
        assert(finding_views(out@) =~= Seq::empty());
        return out;
    }
    let sorted = sort_texts(names);
    let listed = join_texts(&sorted, ", ");
    let message: String = if names.len() == 1 {
        cat2("nspawn machine registered with systemd-machined is active: ", listed.as_str())
    } else {
        cat2("nspawn machines registered with systemd-machined are active: ", listed.as_str())
    };
    let f = Finding::error(CHECK_ACTIVE_NSPAWN_MACHINES, message).with_hint(
        "stop the machine(s) with `machinectl terminate <name>` before restoring, or re-run with `--force` to proceed anyway".to_owned(),
    );
    out.push(f);
    assert(finding_views(out@) =~= seq![machines_finding(views(names@))]);
    out
}

/// Every check that gates a restore.
#[must_use]
pub fn preflight_restore(machines: &Vec<String>) -> (r: Vec<Finding>)
    ensures
        finding_views(r@) == if machines@.len() == 0 {
            Seq::empty()
        } else {
            seq![machines_finding(views(machines@))]
        },
{
    find_active_nspawn_machines(machines)
}

/// Whether some finding is an error.
pub open spec fn has_error(v: Seq<FindingView>) -> bool {
    exists|i: int| 0 <= i < v.len() && (#[trigger] v[i]).severity == Severity::Error
}

/// The summaries of the errors among the findings.
pub open spec fn error_texts(v: Seq<FindingView>) -> Seq<Seq<char>>
    decreases v.len(),
{
    if v.len() == 0 {
        Seq::empty()
    } else {
        let rest = error_texts(v.drop_last());
        if v.last().severity == Severity::Error {
            rest.push(v.last().check + ": "@ + v.last().message)
        } else {
            rest
        }
    }
}

/// The summary of the findings that block an operation, or `None` if none
/// does.
pub fn blocking_summary(findings: &Vec<Finding>) -> (r: Option<String>)
    ensures
        match r {
            Some(s) => has_error(finding_views(findings@)) && s@ == joined(
                error_texts(finding_views(findings@)),
                "; "@,
            ),
            None => !has_error(finding_views(findings@)),
        },
{
    let ghost v = finding_views(findings@);
    let mut parts: Vec<String> = Vec::new();
    let mut i: usize = 0;
    proof {
        assert(v.take(0) =~= Seq::empty());
        assert(views(parts@) =~= Seq::empty());
    }
    while i < findings.len()
        invariant
            i <= findings.len(),
            v == finding_views(findings@),
            views(parts@) == error_texts(v.take(i as int)),
            parts.len() > 0 ==> has_error(v),
            parts.len() == 0 ==> forall|j: int|
                0 <= j < i ==> (#[trigger] v[j]).severity != Severity::Error,
        decreases findings.len() - i,
    {
        let f = &findings[i];
        proof {
            assert(v[i as int] == f@);
            assert(v.take(i + 1).drop_last() =~= v.take(i as int));
            assert(v.take(i + 1).last() == f@);
        }
        if f.severity == Severity::Error {
            let item = cat3(f.check, ": ", f.message.as_str());
            proof {
                crate::text::lemma_views_push(parts@, item);
            }
            parts.push(item);
        }
        i = i + 1;
    }
    assert(v.take(v.len() as int) =~= v);
    if parts.len() == 0 {
        None
    } else {
        Some(join_texts(&parts, "; "))
    }
}

} // verus!
