//! Result aggregation for one run: tabulates pass/fail/invalid counts over
//! the collected actions and renders the textual run summary.
use vstd::prelude::*;
use crate::action::{Action, TaskResultStatus};
use crate::registry::{spec_target_label, string_views, Target, TargetView};
use crate::RunStatus;
use vstd::string::StringExecFns;

verus! {

/// How many results carry the given status.
pub open spec fn count_status(rs: Seq<Action>, s: TaskResultStatus) -> nat
    decreases rs.len(),
{
    if rs.len() == 0 {
        0
    } else {
        count_status(rs.drop_last(), s) + if rs.last().status == s {
            1nat
        } else {
            0nat
        }
    }
}

/// Tabulates the results: how many passed, failed, and were invalid.
pub fn count_results(results: &Vec<Action>) -> (r: (usize, usize, usize))
    ensures
        r.0 == count_status(results@, TaskResultStatus::Passed),
        r.1 == count_status(results@, TaskResultStatus::Failed),
        r.2 == count_status(results@, TaskResultStatus::Invalid),
{
    let mut pass_count: usize = 0;
    let mut fail_count: usize = 0;
    let mut invalid_count: usize = 0;
    let n = results.len();
    for k in 0..n
        invariant
            n == results@.len(),
            pass_count == count_status(results@.take(k as int), TaskResultStatus::Passed),
            fail_count == count_status(results@.take(k as int), TaskResultStatus::Failed),
            invalid_count == count_status(results@.take(k as int), TaskResultStatus::Invalid),
            pass_count <= k && fail_count <= k && invalid_count <= k,
    {
        proof {
            assert(results@.take(k + 1).drop_last() =~= results@.take(k as int));
            assert(results@.take(k + 1).last() == results@[k as int]);
        }
        match results[k].status {
            TaskResultStatus::Passed => {
                pass_count += 1;
            },
            TaskResultStatus::Failed => {
                fail_count += 1;
            },
            TaskResultStatus::Invalid => {
                invalid_count += 1;
            },
            TaskResultStatus::Skipped => {},
        }
    }
    proof {
        assert(results@.take(n as int) =~= results@);
    }
    (pass_count, fail_count, invalid_count)
}

/// Decimal digit character for a value below ten.
pub open spec fn dec_digit(d: nat) -> char {
    ((d + 48) as u8) as char
}

/// Base-10 rendering of a natural number, most significant digit first.
pub open spec fn dec_str(n: nat) -> Seq<char>
    decreases n,
{
    if n < 10 {
        seq![dec_digit(n)]
    } else {
        dec_str(n / 10).push(dec_digit(n % 10))
    }
}

/// Relies on `u64`'s `Display` implementation: it writes the value in
/// base 10, without sign, padding or separators.
#[verifier::external_body]
fn u64_to_string(n: u64) -> (r: String)
    ensures
        r@ == dec_str(n as nat),
{
    n.to_string()
}

/// What `humantime::format_duration` renders for a duration of the given
/// seconds and subsecond nanoseconds; the rendering depends on those two
/// values alone.
pub uninterp spec fn human_duration_of(secs: u64, nanos: u32) -> Seq<char>;

/// Relies on `humantime::format_duration`: the rendering is a function of
/// the duration's seconds and subsecond nanoseconds alone, and is never
/// empty (a zero duration renders as a unit string).
#[verifier::external_body]
fn format_human_duration(secs: u64, nanos: u32) -> (r: String)
    requires
        nanos < 1_000_000_000,
    ensures
        r@ == human_duration_of(secs, nanos),
        r@.len() > 0,
{
    humantime::format_duration(std::time::Duration::new(secs, nanos)).to_string()
}

/// Sequence of parts joined by a separator.
pub open spec fn join_parts(parts: Seq<Seq<char>>, sep: Seq<char>) -> Seq<char>
    decreases parts.len(),
{
    if parts.len() == 0 {
        Seq::empty()
    } else if parts.len() == 1 {
        parts[0]
    } else {
        join_parts(parts.drop_last(), sep) + sep + parts.last()
    }
}

/// The count phrases of a summary: one for each nonzero tally.
pub open spec fn stats_parts(p: nat, f: nat, i: nat) -> Seq<Seq<char>> {
    let a: Seq<Seq<char>> = if p > 0 {
        seq![dec_str(p) + " completed"@]
    } else {
        Seq::empty()
    };
    let b: Seq<Seq<char>> = if f > 0 {
        seq![dec_str(f) + " failed"@]
    } else {
        Seq::empty()
    };
    let c: Seq<Seq<char>> = if i > 0 {
        seq![dec_str(i) + " invalid"@]
    } else {
        Seq::empty()
    };
    a + b + c
}

/// The full run summary: the tallies of the results, then the elapsed time.
pub open spec fn spec_result_stats(results: Seq<Action>, secs: u64, nanos: u32) -> Seq<char> {
    "Tasks: "@ + join_parts(
        stats_parts(
            count_status(results, TaskResultStatus::Passed),
            count_status(results, TaskResultStatus::Failed),
            count_status(results, TaskResultStatus::Invalid),
        ),
        ", "@,
    ) + "\n Time: "@ + human_duration_of(secs, nanos) + "\n"@
}

/// Renders the stats of a finished run: one phrase for each nonzero count
/// of passed, failed and invalid results, joined by commas, followed by the
/// total wall-clock duration.
pub fn render_result_stats(
    results: &Vec<Action>,
    duration_secs: u64,
    duration_nanos: u32,
) -> (r: String)
    requires
        duration_nanos < 1_000_000_000,
    ensures
        r@ == spec_result_stats(results@, duration_secs, duration_nanos),
{
    let counts = count_results(results);
    let mut parts: Vec<String> = Vec::new();
    if counts.0 > 0 {
        let mut s = u64_to_string(counts.0 as u64);
        s.append(" completed");
        parts.push(s);
    }
    if counts.1 > 0 {
        let mut s = u64_to_string(counts.1 as u64);
        s.append(" failed");
        parts.push(s);
    }
    if counts.2 > 0 {
        let mut s = u64_to_string(counts.2 as u64);
        s.append(" invalid");
        parts.push(s);
    }
    proof {
        assert(crate::registry::string_views(parts@) =~= stats_parts(
            count_status(results@, TaskResultStatus::Passed),
            count_status(results@, TaskResultStatus::Failed),
            count_status(results@, TaskResultStatus::Invalid),
        ));
    }

    let mut out = String::new();
    out.append("Tasks: ");
    let n = parts.len();
    for k in 0..n
        invariant
            n == parts@.len(),
            out@ == "Tasks: "@ + join_parts(
                crate::registry::string_views(parts@).take(k as int),
                ", "@,
            ),
    {
        if k > 0 {
            out.append(", ");
        }
        out.append(parts[k].as_str());
        proof {
            let pv = crate::registry::string_views(parts@);
            assert(pv.take(k + 1).drop_last() =~= pv.take(k as int));
            assert(pv.take(k + 1).last() == pv[k as int]);
            assert(pv[k as int] == parts@[k as int]@);
            assert(out@ =~= "Tasks: "@ + join_parts(pv.take(k + 1), ", "@));
        }
    }
    proof {
        let pv = crate::registry::string_views(parts@);
        assert(pv.take(n as int) =~= pv);
    }
    out.append("\n Time: ");
    let dur = format_human_duration(duration_secs, duration_nanos);
    out.append(dur.as_str());
    out.append("\n");
    proof {
        assert(out@ =~= spec_result_stats(results@, duration_secs, duration_nanos));
    }
    out
}

/// The labels of a sequence of targets.
pub open spec fn labels_of(ts: Seq<TargetView>) -> Seq<Seq<char>> {
    ts.map_values(|t: TargetView| spec_target_label(t))
}

/// The message a run prints for requested targets that affected-filtering
/// eliminated; the classification is named unless the run selected all
/// touched files.
pub open spec fn spec_unaffected_message(ts: Seq<TargetView>, status: RunStatus) -> Seq<char> {
    let base = "Targets "@ + join_parts(labels_of(ts), ", "@)
        + " not affected by touched files"@;
    if status == RunStatus::All {
        base
    } else {
        base + " (using status "@ + status.spec_label() + ")"@
    }
}

/// Renders the not-affected message for the given targets.
#[verifier::loop_isolation(false)]
pub fn unaffected_message(targets: &Vec<Target>, status: &RunStatus) -> (r: String)
    ensures
        r@ == spec_unaffected_message(crate::registry::target_views(targets@), *status),
{
    let ghost ts = crate::registry::target_views(targets@);
    let mut out = String::new();
    out.append("Targets ");
    let n = targets.len();
    for k in 0..n
        invariant
            n == targets@.len(),
            out@ == "Targets "@ + join_parts(labels_of(ts).take(k as int), ", "@),
    {
        if k > 0 {
            out.append(", ");
        }
        let lab = targets[k].label();
        out.append(lab.as_str());
        proof {
            let lv = labels_of(ts);
            assert(lv.take(k + 1).drop_last() =~= lv.take(k as int));
            assert(lv.take(k + 1).last() == lv[k as int]);
            assert(lv[k as int] == spec_target_label(targets@[k as int]@));
            assert(out@ =~= "Targets "@ + join_parts(lv.take(k + 1), ", "@));
        }
    }
    proof {
        assert(labels_of(ts).take(n as int) =~= labels_of(ts));
    }
    out.append(" not affected by touched files");
    if !(*status == RunStatus::All) {
        out.append(" (using status ");
        out.append(status.label());
        out.append(")");
    }
    proof {
        assert(out@ =~= spec_unaffected_message(ts, *status));
    }
    out
}

} // verus!
