//! What holds of a conversion as a whole.

use vstd::prelude::*;
use crate::error::{IngestError, IngestErrorView};
use crate::export;
use crate::export::{ConversionView, Rejected, RejectedView, Tally};
use crate::job::{Job, JobId};
use crate::number;
use crate::order;
use crate::record;
use crate::record_laws;
use crate::row;
use crate::row::{Candidate, CandidateView, CauseView, Classified, RejectCause, Skip};
use crate::row_laws;
use crate::site;
use crate::site::{ClockView, DstCrossing, HoursView, MAX_EXPORT_HOURS};
use crate::table;
use crate::text;
use crate::tier_laws;
use crate::tiers;
use crate::tiers::{RuleView, Tier, MAX_WINDOW_HOURS};

verus! {

/// The number of lines that are not blank.
pub open spec fn rows_of(lines: Seq<Seq<char>>) -> nat
    decreases lines.len(),
{
    if lines.len() == 0 {
        0
    } else {
        rows_of(lines.drop_last()) + if export::is_blank(lines.last()) {
            0nat
        } else {
            1nat
        }
    }
}

/// Whether an export's candidates are placed in these hours.
pub open spec fn are_hours_of(hours: HoursView, candidates: Seq<CandidateView>, clock: ClockView) -> bool {
    match export::latest_key(candidates) {
        None => hours == site::no_hours(),
        Some(latest) => site::hours_until(clock, latest) == Ok::<HoursView, IngestErrorView>(hours),
    }
}

/// A conversion is the export's rows, placed in the export's hours.
proof fn lemma_placed(
    text: Seq<char>,
    legible: Seq<bool>,
    clock: ClockView,
    rules: Seq<RuleView>,
    allow_dst_crossing: bool,
) -> (hours: HoursView)
    requires
        export::conversion(text, legible, clock, rules, allow_dst_crossing) is Ok,
    ensures
        are_hours_of(hours, export::export_in(text, rules, legible).candidates, clock),
        export::conversion(text, legible, clock, rules, allow_dst_crossing)->Ok_0
            == export::placed_in(export::export_in(text, rules, legible), clock, hours),
        export::export_in(text, rules, legible).rows > 0,
{
    let read = export::export_in(text, rules, legible);
    match export::latest_key(read.candidates) {
        None => site::no_hours(),
        Some(latest) => site::hours_until(clock, latest)->Ok_0,
    }
}

proof fn lemma_rows(lines: Seq<Seq<char>>, rules: Seq<RuleView>, legible: Seq<bool>)
    ensures
        export::read_in(lines, rules, legible).rows == rows_of(lines),
    decreases lines.len(),
{
    if lines.len() > 0 {
        lemma_rows(lines.drop_last(), rules, legible);
    }
}

proof fn lemma_placement_counts(
    candidates: Seq<CandidateView>,
    clock: ClockView,
    hours: HoursView,
)
    ensures
        ({
            let made = export::placement(candidates, clock, hours);
            &&& made.jobs.len() + made.rejected.len() == candidates.len()
            &&& made.id_map.len() == made.jobs.len()
        }),
    decreases candidates.len(),
{
    if candidates.len() > 0 {
        lemma_placement_counts(candidates.drop_last(), clock, hours);
    }
}

/// The tally adds up to the file that was sent: its five counts are together
/// the number of lines that are not blank, and two of them are the numbers of
/// jobs and of refusals that the conversion holds.
pub proof fn law_tally_adds_up(
    text: Seq<char>,
    legible: Seq<bool>,
    clock: ClockView,
    rules: Seq<RuleView>,
    allow_dst_crossing: bool,
)
    requires
        export::conversion(text, legible, clock, rules, allow_dst_crossing) is Ok,
    ensures
        ({
            let made = export::conversion(text, legible, clock, rules, allow_dst_crossing)->Ok_0;
            let tally = made.tally;
            &&& tally.read == rows_of(text::lines_of(text))
            &&& tally.read > 0
            &&& tally.read == tally.kept + tally.steps + tally.unfinished + tally.non_gpu
                + tally.rejected
            &&& tally.kept == made.jobs.len()
            &&& tally.kept == made.id_map.len()
            &&& tally.rejected == made.rejected.len()
        }),
{
    let hours = lemma_placed(text, legible, clock, rules, allow_dst_crossing);
    let lines = text::lines_of(text);
    let unsorted = export::read_in(lines, rules, legible);
    let read = export::export_in(text, rules, legible);
    export::lemma_read_adds_up(lines, rules, legible);
    lemma_rows(lines, rules, legible);
    order::law_sorted::<Candidate>(unsorted.candidates);
    lemma_placement_counts(read.candidates, clock, hours);
    let made = export::placement(read.candidates, clock, hours);
    order::law_sorted::<Job>(made.jobs);
    order::law_sorted::<Rejected>(read.rejected + made.rejected);
}

/// Only a file with no rows at all has nothing to report.
pub proof fn law_no_rows_is_an_empty_file(
    text: Seq<char>,
    legible: Seq<bool>,
    clock: ClockView,
    rules: Seq<RuleView>,
    allow_dst_crossing: bool,
)
    ensures
        (export::conversion(text, legible, clock, rules, allow_dst_crossing) == Err::<
            ConversionView,
            IngestErrorView,
        >(IngestErrorView::NoRows)) <==> rows_of(text::lines_of(text)) == 0,
{
    lemma_rows(text::lines_of(text), rules, legible);
}

/// The candidates that have an hour and a deadline.
pub open spec fn placeable(
    candidates: Seq<CandidateView>,
    clock: ClockView,
    hours: HoursView,
) -> Seq<CandidateView>
    decreases candidates.len(),
{
    if candidates.len() == 0 {
        Seq::empty()
    } else {
        let before = placeable(candidates.drop_last(), clock, hours);
        if export::place_in(candidates.last(), clock, hours, JobId(0)) is Ok {
            before.push(candidates.last())
        } else {
            before
        }
    }
}

/// Whether a job and its line of the id map are a candidate placed as the one
/// that follows `before` jobs.
pub open spec fn is_placed(
    candidate: CandidateView,
    clock: ClockView,
    hours: HoursView,
    before: nat,
    job: Job,
    named: (JobId, Seq<char>),
) -> bool {
    &&& job.id == export::id_after(before)
    &&& named == (job.id, candidate.job_id)
    &&& export::place_in(candidate, clock, hours, job.id) == Ok::<(Job, Seq<char>), CauseView>(
        (job, candidate.job_id),
    )
}

proof fn lemma_placement(candidates: Seq<CandidateView>, clock: ClockView, hours: HoursView)
    ensures
        ({
            let made = export::placement(candidates, clock, hours);
            let kept = placeable(candidates, clock, hours);
            &&& made.jobs.len() == kept.len()
            &&& made.id_map.len() == kept.len()
            &&& forall|k: int|
                0 <= k < kept.len() ==> is_placed(
                    #[trigger] kept[k],
                    clock,
                    hours,
                    k as nat,
                    made.jobs[k],
                    made.id_map[k],
                )
        }),
    decreases candidates.len(),
{
    if candidates.len() > 0 {
        let less = candidates.drop_last();
        lemma_placement(less, clock, hours);
        let before = export::placement(less, clock, hours);
        let earlier = placeable(less, clock, hours);
        let made = export::placement(candidates, clock, hours);
        let kept = placeable(candidates, clock, hours);
        assert forall|k: int| 0 <= k < kept.len() implies is_placed(
            #[trigger] kept[k],
            clock,
            hours,
            k as nat,
            made.jobs[k],
            made.id_map[k],
        ) by {
            if k < earlier.len() {
                assert(is_placed(
                    earlier[k],
                    clock,
                    hours,
                    k as nat,
                    before.jobs[k],
                    before.id_map[k],
                ));
                assert(kept[k] == earlier[k]);
                assert(made.jobs[k] == before.jobs[k]);
                assert(made.id_map[k] == before.id_map[k]);
            }
        }
    }
}

proof fn lemma_placeable_in_order(
    candidates: Seq<CandidateView>,
    clock: ClockView,
    hours: HoursView,
)
    requires
        order::is_sorted::<Candidate>(candidates),
    ensures
        order::is_sorted::<Candidate>(placeable(candidates, clock, hours)),
        forall|k: int|
            0 <= k < placeable(candidates, clock, hours).len() ==> candidates.contains(
                #[trigger] placeable(candidates, clock, hours)[k],
            ),
    decreases candidates.len(),
{
    if candidates.len() > 0 {
        let less = candidates.drop_last();
        assert forall|i: int, j: int| 0 <= i < j < less.len() implies <Candidate as order::Ranked>::in_order(
            #[trigger] less[i],
            #[trigger] less[j],
        ) by {
            assert(less[i] == candidates[i] && less[j] == candidates[j]);
        }
        lemma_placeable_in_order(less, clock, hours);
        let earlier = placeable(less, clock, hours);
        let kept = placeable(candidates, clock, hours);
        assert forall|k: int| 0 <= k < earlier.len() implies #[trigger] kept[k] == earlier[k] by {}
        assert forall|k: int| 0 <= k < kept.len() implies candidates.contains(
            #[trigger] kept[k],
        ) by {
            if k < earlier.len() {
                let i = choose|i: int| 0 <= i < less.len() && less[i] == earlier[k];
                assert(candidates[i] == kept[k]);
            } else {
                assert(candidates[candidates.len() - 1] == kept[k]);
            }
        }
        assert forall|i: int, j: int| 0 <= i < j < kept.len() implies <Candidate as order::Ranked>::in_order(
            #[trigger] kept[i],
            #[trigger] kept[j],
        ) by {
            if j < earlier.len() {
                assert(kept[i] == earlier[i] && kept[j] == earlier[j]);
            } else {
                let p = choose|p: int| 0 <= p < less.len() && less[p] == earlier[i];
                assert(candidates[p] == kept[i]);
                assert(candidates[candidates.len() - 1] == kept[j]);
            }
        }
    }
}

/// Whether jobs stand in the order of their arrivals and, of one hour, of their
/// ids, and refusals in the order of their rows.
pub open spec fn in_field_order(made: ConversionView) -> bool {
    &&& forall|i: int, j: int|
        0 <= i < j < made.jobs.len() ==> (#[trigger] made.jobs[i]).arrival.0 < (
        #[trigger] made.jobs[j]).arrival.0 || (made.jobs[i].arrival.0 == made.jobs[j].arrival.0
            && made.jobs[i].id.0 <= made.jobs[j].id.0)
    &&& forall|i: int, j: int|
        0 <= i < j < made.rejected.len() ==> (#[trigger] made.rejected[i]).row <= (
        #[trigger] made.rejected[j]).row
}

/// Jobs are numbered from 0 without a gap, in the `(Submit, JobIDRaw)` order
/// of their rows; the id map lists them in that order, and the jobs file holds
/// the same jobs in `(arrival, id)` order. Refusals are in file order.
pub proof fn law_order_of_a_conversion(
    text: Seq<char>,
    legible: Seq<bool>,
    clock: ClockView,
    rules: Seq<RuleView>,
    allow_dst_crossing: bool,
) -> (r: (HoursView, Seq<CandidateView>, Seq<Job>))
    requires
        export::conversion(text, legible, clock, rules, allow_dst_crossing) is Ok,
    ensures
        ({
            let made = export::conversion(text, legible, clock, rules, allow_dst_crossing)->Ok_0;
            let (hours, kept, jobs) = r;
            &&& are_hours_of(hours, export::export_in(text, rules, legible).candidates, clock)
            &&& order::is_sorted::<Candidate>(kept)
            &&& kept.len() == made.id_map.len()
            &&& kept.len() == jobs.len()
            &&& forall|k: int|
                0 <= k < kept.len() ==> is_placed(
                    #[trigger] kept[k],
                    clock,
                    hours,
                    k as nat,
                    jobs[k],
                    made.id_map[k],
                )
            &&& made.jobs.to_multiset() == jobs.to_multiset()
            &&& order::is_sorted::<Job>(made.jobs)
            &&& order::is_sorted::<Rejected>(made.rejected)
            &&& in_field_order(made)
            &&& forall|i: int, j: int|
                0 <= i < j < kept.len() ==> text::precedes(
                    (#[trigger] kept[i]).submit,
                    (#[trigger] kept[j]).submit,
                ) || (kept[i].submit == kept[j].submit && kept[i].job_number <= kept[j].job_number)
            &&& forall|k: int|
                0 <= k < kept.len() && k <= u32::MAX ==> (#[trigger] jobs[k]).id.0 == k
                    && made.id_map[k] == (jobs[k].id, kept[k].job_id)
        }),
{
    let hours = lemma_placed(text, legible, clock, rules, allow_dst_crossing);
    let unsorted = export::read_in(text::lines_of(text), rules, legible);
    let read = export::export_in(text, rules, legible);
    order::law_sorted::<Candidate>(unsorted.candidates);
    lemma_placement(read.candidates, clock, hours);
    lemma_placeable_in_order(read.candidates, clock, hours);
    let made = export::placement(read.candidates, clock, hours);
    order::law_sorted::<Job>(made.jobs);
    order::law_sorted::<Rejected>(read.rejected + made.rejected);
    let kept = placeable(read.candidates, clock, hours);
    let all = export::conversion(text, legible, clock, rules, allow_dst_crossing)->Ok_0;
    assert forall|i: int, j: int| 0 <= i < j < all.jobs.len() implies (
    #[trigger] all.jobs[i]).arrival.0 < (#[trigger] all.jobs[j]).arrival.0 || (
    all.jobs[i].arrival.0 == all.jobs[j].arrival.0 && all.jobs[i].id.0 <= all.jobs[j].id.0) by {
        assert(<Job as order::Ranked>::in_order(all.jobs[i], all.jobs[j]));
    }
    assert forall|i: int, j: int| 0 <= i < j < all.rejected.len() implies (
    #[trigger] all.rejected[i]).row <= (#[trigger] all.rejected[j]).row by {
        assert(<Rejected as order::Ranked>::in_order(all.rejected[i], all.rejected[j]));
    }
    assert forall|i: int, j: int| 0 <= i < j < kept.len() implies text::precedes(
        (#[trigger] kept[i]).submit,
        (#[trigger] kept[j]).submit,
    ) || (kept[i].submit == kept[j].submit && kept[i].job_number <= kept[j].job_number) by {
        assert(<Candidate as order::Ranked>::in_order(kept[i], kept[j]));
    }
    assert forall|k: int| 0 <= k < kept.len() && k <= u32::MAX implies (
    #[trigger] made.jobs[k]).id.0 == k && made.id_map[k] == (made.jobs[k].id, kept[k].job_id) by {
        assert(is_placed(kept[k], clock, hours, k as nat, made.jobs[k], made.id_map[k]));
    }
    (hours, kept, made.jobs)
}

/// What a line of an export is classified as.
pub open spec fn outcome_at(
    lines: Seq<Seq<char>>,
    rules: Seq<RuleView>,
    legible: Seq<bool>,
    i: int,
) -> Result<Classified<CandidateView>, CauseView> {
    row::classified(
        (i + 1) as nat,
        text::trimmed_end(lines[i]),
        rules,
        export::answer(legible, i),
    )
}

proof fn lemma_read_holds(
    lines: Seq<Seq<char>>,
    rules: Seq<RuleView>,
    legible: Seq<bool>,
    i: int,
)
    requires
        0 <= i < lines.len(),
        !export::is_blank(lines[i]),
    ensures
        match outcome_at(lines, rules, legible, i) {
            Ok(Classified::Kept(candidate)) => export::read_in(
                lines,
                rules,
                legible,
            ).candidates.contains(candidate),
            Ok(Classified::Skipped(_)) => true,
            Err(cause) => export::read_in(lines, rules, legible).rejected.contains(
                RejectedView { row: (i + 1) as nat, cause },
            ),
        },
    decreases lines.len(),
{
    let read = export::read_in(lines, rules, legible);
    if i == lines.len() - 1 {
        match outcome_at(lines, rules, legible, i) {
            Ok(Classified::Kept(candidate)) => {
                assert(read.candidates[read.candidates.len() - 1] == candidate);
            },
            Ok(Classified::Skipped(_)) => {},
            Err(cause) => {
                assert(read.rejected[read.rejected.len() - 1] == (RejectedView {
                    row: (i + 1) as nat,
                    cause,
                }));
            },
        }
    } else {
        let less = lines.drop_last();
        let before = export::read_in(less, rules, legible);
        assert(less[i] == lines[i]);
        lemma_read_holds(less, rules, legible, i);
        match outcome_at(lines, rules, legible, i) {
            Ok(Classified::Kept(candidate)) => {
                let k = choose|k: int|
                    0 <= k < before.candidates.len() && before.candidates[k] == candidate;
                assert(read.candidates[k] == candidate);
            },
            Ok(Classified::Skipped(_)) => {},
            Err(cause) => {
                let refusal = RejectedView { row: (i + 1) as nat, cause };
                let k = choose|k: int|
                    0 <= k < before.rejected.len() && before.rejected[k] == refusal;
                assert(read.rejected[k] == refusal);
            },
        }
    }
}

proof fn lemma_placement_holds(
    candidates: Seq<CandidateView>,
    clock: ClockView,
    hours: HoursView,
    i: int,
)
    requires
        0 <= i < candidates.len(),
    ensures
        ({
            let made = export::placement(candidates, clock, hours);
            match export::place_in(candidates[i], clock, hours, JobId(0)) {
                Ok(_) => placeable(candidates, clock, hours).contains(candidates[i]),
                Err(cause) => made.rejected.contains(
                    RejectedView { row: candidates[i].row, cause },
                ),
            }
        }),
    decreases candidates.len(),
{
    let made = export::placement(candidates, clock, hours);
    let kept = placeable(candidates, clock, hours);
    if i == candidates.len() - 1 {
        match export::place_in(candidates[i], clock, hours, JobId(0)) {
            Ok(_) => {
                assert(kept[kept.len() - 1] == candidates[i]);
            },
            Err(cause) => {
                assert(made.rejected[made.rejected.len() - 1] == (RejectedView {
                    row: candidates[i].row,
                    cause,
                }));
            },
        }
    } else {
        let less = candidates.drop_last();
        assert(less[i] == candidates[i]);
        lemma_placement_holds(less, clock, hours, i);
        let before = export::placement(less, clock, hours);
        let earlier = placeable(less, clock, hours);
        match export::place_in(candidates[i], clock, hours, JobId(0)) {
            Ok(_) => {
                let k = choose|k: int| 0 <= k < earlier.len() && earlier[k] == candidates[i];
                assert(kept[k] == candidates[i]);
            },
            Err(cause) => {
                let refusal = RejectedView { row: candidates[i].row, cause };
                let k = choose|k: int|
                    0 <= k < before.rejected.len() && before.rejected[k] == refusal;
                assert(made.rejected[k] == refusal);
            },
        }
    }
}

/// Two lists that hold the same values each as often hold the same values.
proof fn lemma_same_members<T>(a: Seq<T>, b: Seq<T>, x: T)
    requires
        a.to_multiset() == b.to_multiset(),
        a.contains(x),
    ensures
        b.contains(x),
{
    a.to_multiset_ensures();
    b.to_multiset_ensures();
    assert(a.to_multiset().count(x) > 0);
    assert(b.to_multiset().count(x) > 0);
}

/// Whether a conversion holds the job that a candidate becomes: its id map
/// names the candidate's row, and its jobs hold it under that id.
pub open spec fn holds_job(
    made: ConversionView,
    candidate: CandidateView,
    clock: ClockView,
    hours: HoursView,
) -> bool {
    exists|k: int, job: Job|
        0 <= k < made.id_map.len() && #[trigger] made.jobs.contains(job) && is_placed(
            candidate,
            clock,
            hours,
            k as nat,
            job,
            #[trigger] made.id_map[k],
        )
}

/// No row is dropped quietly: of every line that is not blank, one that is at
/// fault is reported with its number and its cause, and one that is kept is
/// either a job or reported likewise.
pub proof fn law_no_row_is_lost(
    text: Seq<char>,
    legible: Seq<bool>,
    clock: ClockView,
    rules: Seq<RuleView>,
    allow_dst_crossing: bool,
    i: int,
) -> (hours: HoursView)
    requires
        export::conversion(text, legible, clock, rules, allow_dst_crossing) is Ok,
        0 <= i < text::lines_of(text).len(),
        !export::is_blank(text::lines_of(text)[i]),
    ensures
        are_hours_of(hours, export::export_in(text, rules, legible).candidates, clock),
        ({
            let made = export::conversion(text, legible, clock, rules, allow_dst_crossing)->Ok_0;
            match outcome_at(text::lines_of(text), rules, legible, i) {
                Ok(Classified::Kept(candidate)) => match export::place_in(
                    candidate,
                    clock,
                    hours,
                    JobId(0),
                ) {
                    Ok(_) => holds_job(made, candidate, clock, hours),
                    Err(cause) => made.rejected.contains(
                        RejectedView { row: (i + 1) as nat, cause },
                    ),
                },
                Ok(Classified::Skipped(_)) => true,
                Err(cause) => made.rejected.contains(RejectedView { row: (i + 1) as nat, cause }),
            }
        }),
{
    let made = export::conversion(text, legible, clock, rules, allow_dst_crossing)->Ok_0;
    let lines = text::lines_of(text);
    let hours = lemma_placed(text, legible, clock, rules, allow_dst_crossing);
    let unsorted = export::read_in(lines, rules, legible);
    let read = export::export_in(text, rules, legible);
    let placed = export::placement(read.candidates, clock, hours);
    let refusals = read.rejected + placed.rejected;
    lemma_read_holds(lines, rules, legible, i);
    order::law_sorted::<Candidate>(unsorted.candidates);
    order::law_sorted::<Rejected>(refusals);
    order::law_sorted::<Job>(placed.jobs);
    match outcome_at(lines, rules, legible, i) {
        Ok(Classified::Kept(candidate)) => {
            lemma_same_members(unsorted.candidates, read.candidates, candidate);
            let at = choose|at: int|
                0 <= at < read.candidates.len() && read.candidates[at] == candidate;
            lemma_placement_holds(read.candidates, clock, hours, at);
            match export::place_in(candidate, clock, hours, JobId(0)) {
                Ok(_) => {
                    lemma_placement(read.candidates, clock, hours);
                    let kept = placeable(read.candidates, clock, hours);
                    let k = choose|k: int| 0 <= k < kept.len() && kept[k] == candidate;
                    assert(is_placed(
                        kept[k],
                        clock,
                        hours,
                        k as nat,
                        placed.jobs[k],
                        placed.id_map[k],
                    ));
                    assert(placed.jobs.contains(placed.jobs[k]));
                    lemma_same_members(placed.jobs, made.jobs, placed.jobs[k]);
                    assert(made.id_map[k] == placed.id_map[k]);
                },
                Err(cause) => {
                    let refusal = RejectedView { row: (i + 1) as nat, cause };
                    let k = choose|k: int|
                        0 <= k < placed.rejected.len() && placed.rejected[k] == refusal;
                    assert(refusals[read.rejected.len() + k] == refusal);
                    lemma_same_members(refusals, made.rejected, refusal);
                },
            }
        },
        Ok(Classified::Skipped(_)) => {},
        Err(cause) => {
            let refusal = RejectedView { row: (i + 1) as nat, cause };
            let k = choose|k: int| 0 <= k < read.rejected.len() && read.rejected[k] == refusal;
            assert(refusals[k] == refusal);
            lemma_same_members(refusals, made.rejected, refusal);
        },
    }
    hours
}

/// A clock change is refused unless it is allowed, and allowing one changes
/// nothing else: what converts without leave converts alike with it, what
/// fails for another reason fails alike, and with leave no change is refused.
pub proof fn law_leave_to_cross(
    text: Seq<char>,
    legible: Seq<bool>,
    clock: ClockView,
    rules: Seq<RuleView>,
)
    ensures
        ({
            let refused = export::conversion(text, legible, clock, rules, false);
            let allowed = export::conversion(text, legible, clock, rules, true);
            &&& !(allowed matches Err(IngestErrorView::DstCrossing { .. }))
            &&& match refused {
                Ok(made) => allowed == Ok::<ConversionView, IngestErrorView>(made),
                Err(IngestErrorView::DstCrossing { .. }) => allowed is Ok,
                Err(e) => allowed == Err::<ConversionView, IngestErrorView>(e),
            }
        }),
{
}

/// A deadline is the arrival and the window together, never wrapped.
pub proof fn law_deadline_is_not_wrapped(
    candidate: CandidateView,
    clock: ClockView,
    hours: HoursView,
    id: JobId,
)
    ensures
        match export::place_in(candidate, clock, hours, id) {
            Ok((job, _)) => job.deadline.0 == job.arrival.0 + candidate.window_hours,
            Err(_) => true,
        },
{
}

/// The window that a rule of a mapping file gives is at most a year of hours.
proof fn lemma_window_sold(rules: Seq<RuleView>, qos: Seq<char>, partition: Seq<char>)
    requires
        tiers::is_map(rules),
    ensures
        tiers::first_rule(rules, qos, partition) matches Some(rule) ==> tiers::window_in(rule)
            <= MAX_WINDOW_HOURS,
{
    tier_laws::law_first_rule_wins(rules, qos, partition);
}

/// A bad GPU count is a fault of a field.
proof fn lemma_gpu_fault(entries: Seq<Seq<char>>, total: bool)
    ensures
        row::gpu_sum_in(entries, total) matches Err(cause) ==> cause is Field,
    decreases entries.len(),
{
    if entries.len() > 0 {
        lemma_gpu_fault(entries.drop_last(), total);
    }
}

proof fn lemma_classified_sold(line: Seq<char>, rules: Seq<RuleView>, row: nat, legible: bool)
    requires
        tiers::is_map(rules),
    ensures
        match row::classified(row, line, rules, legible) {
            Ok(Classified::Kept(candidate)) => candidate.window_hours <= MAX_WINDOW_HOURS,
            Ok(Classified::Skipped(_)) => true,
            Err(cause) => !(cause is Deadline),
        },
{
    match row::row_in(line) {
        Ok(fields) => {
            let entries = text::pieces(fields.tres, ',');
            lemma_gpu_fault(entries, true);
            lemma_gpu_fault(entries, false);
            lemma_window_sold(rules, fields.qos, fields.partition);
        },
        Err(_) => {},
    }
}

proof fn lemma_read_sold(lines: Seq<Seq<char>>, rules: Seq<RuleView>, legible: Seq<bool>)
    requires
        tiers::is_map(rules),
    ensures
        ({
            let read = export::read_in(lines, rules, legible);
            &&& forall|k: int|
                0 <= k < read.candidates.len() ==> (#[trigger] read.candidates[k]).window_hours
                    <= MAX_WINDOW_HOURS
            &&& forall|k: int|
                0 <= k < read.rejected.len() ==> !((#[trigger] read.rejected[k]).cause is Deadline)
        }),
    decreases lines.len(),
{
    if lines.len() > 0 {
        lemma_read_sold(lines.drop_last(), rules, legible);
        lemma_classified_sold(
            text::trimmed_end(lines.last()),
            rules,
            lines.len(),
            export::answer(legible, lines.len() - 1),
        );
    }
}

proof fn lemma_placement_sold(candidates: Seq<CandidateView>, clock: ClockView, hours: HoursView)
    requires
        forall|k: int|
            0 <= k < candidates.len() ==> (#[trigger] candidates[k]).window_hours
                <= MAX_WINDOW_HOURS,
        forall|reading: Seq<char>|
            (#[trigger] site::hour_in(hours, reading)) is Some ==> site::hour_in(
                hours,
                reading,
            )->Some_0.0 <= MAX_EXPORT_HOURS,
    ensures
        ({
            let made = export::placement(candidates, clock, hours);
            forall|k: int|
                0 <= k < made.rejected.len() ==> !((#[trigger] made.rejected[k]).cause is Deadline)
        }),
    decreases candidates.len(),
{
    if candidates.len() > 0 {
        let less = candidates.drop_last();
        assert forall|k: int| 0 <= k < less.len() implies (#[trigger] less[k]).window_hours
            <= MAX_WINDOW_HOURS by {
            assert(less[k] == candidates[k]);
        }
        lemma_placement_sold(less, clock, hours);
        assert(candidates[candidates.len() - 1].window_hours <= MAX_WINDOW_HOURS);
    }
}

/// With the rules of a mapping file no deadline lies past the last hour index:
/// no row of a conversion is refused for its deadline.
pub proof fn law_mapping_file_keeps_deadlines_in_reach(
    map_text: Seq<char>,
    text: Seq<char>,
    legible: Seq<bool>,
    clock: ClockView,
    allow_dst_crossing: bool,
    i: int,
)
    requires
        tiers::map_in(map_text) is Ok,
        site::is_clock(clock),
        export::conversion(
            text,
            legible,
            clock,
            tiers::map_in(map_text)->Ok_0,
            allow_dst_crossing,
        ) is Ok,
        0 <= i < export::conversion(
            text,
            legible,
            clock,
            tiers::map_in(map_text)->Ok_0,
            allow_dst_crossing,
        )->Ok_0.rejected.len(),
    ensures
        !(export::conversion(
            text,
            legible,
            clock,
            tiers::map_in(map_text)->Ok_0,
            allow_dst_crossing,
        )->Ok_0.rejected[i].cause is Deadline),
{
    let rules = tiers::map_in(map_text)->Ok_0;
    let made = export::conversion(text, legible, clock, rules, allow_dst_crossing)->Ok_0;
    tiers::lemma_map_holds(map_text);
    let hours = lemma_placed(text, legible, clock, rules, allow_dst_crossing);
    let lines = text::lines_of(text);
    let unsorted = export::read_in(lines, rules, legible);
    let read = export::export_in(text, rules, legible);
    lemma_read_sold(lines, rules, legible);
    order::law_sorted::<Candidate>(unsorted.candidates);
    assert forall|k: int| 0 <= k < read.candidates.len() implies (
    #[trigger] read.candidates[k]).window_hours <= MAX_WINDOW_HOURS by {
        lemma_same_members(read.candidates, unsorted.candidates, read.candidates[k]);
        let at = choose|at: int|
            0 <= at < unsorted.candidates.len() && unsorted.candidates[at] == read.candidates[k];
        assert(unsorted.candidates[at].window_hours <= MAX_WINDOW_HOURS);
    }
    assert forall|reading: Seq<char>|
        (#[trigger] site::hour_in(hours, reading)) is Some implies site::hour_in(
        hours,
        reading,
    )->Some_0.0 <= MAX_EXPORT_HOURS by {
        match export::latest_key(read.candidates) {
            None => {},
            Some(latest) => {
                let keys = site::hour_keys(clock.readings);
                site::law_end_is_first_later(keys, latest, 0);
                let end = site::first_later(keys, latest, 0);
                site::law_earliest_reading_wins(keys.take(end + 1), site::hour_key_in(reading));
            },
        }
    }
    lemma_placement_sold(read.candidates, clock, hours);
    let placed = export::placement(read.candidates, clock, hours);
    let refusals = read.rejected + placed.rejected;
    order::law_sorted::<Rejected>(refusals);
    lemma_same_members(made.rejected, refusals, made.rejected[i]);
    let at = choose|at: int| 0 <= at < refusals.len() && refusals[at] == made.rejected[i];
    if at < read.rejected.len() {
        assert(refusals[at] == read.rejected[at]);
    } else {
        assert(refusals[at] == placed.rejected[at - read.rejected.len()]);
    }
}

/// A stated GPU total is not added to: where an `AllocTRES` has one, an entry
/// of another name behind it changes nothing.
pub proof fn law_stated_total_is_not_added_to(tres: Seq<char>, more: Seq<char>)
    requires
        exists|i: int|
            0 <= i < text::pieces(tres, ',').len() && row::is_gpu_total(
                #[trigger] text::pieces(tres, ',')[i],
            ),
        !row::is_gpu_total(more),
        !more.contains(','),
    ensures
        row::gpus_in(tres + seq![','] + more) == row::gpus_in(tres),
{
    let entries = text::pieces(tres, ',');
    let longer = entries.push(more);
    text::law_one_more_piece(tres, ',', more);
    assert(longer.drop_last() =~= entries);
    let i = choose|i: int| 0 <= i < entries.len() && row::is_gpu_total(#[trigger] entries[i]);
    assert(longer[i] == entries[i]);
    assert(row::is_gpu_total(longer[i]));
}

/// The latest hour key is no earlier than any.
proof fn lemma_latest_key(candidates: Seq<CandidateView>, i: int)
    requires
        0 <= i < candidates.len(),
    ensures
        export::latest_key(candidates) matches Some(latest) && !text::precedes(
            latest,
            site::hour_key_in(candidates[i].submit),
        ),
    decreases candidates.len(),
{
    let less = candidates.drop_last();
    let last = site::hour_key_in(candidates.last().submit);
    if i < less.len() {
        lemma_latest_key(less, i);
        assert(less[i] == candidates[i]);
        let key = site::hour_key_in(candidates[i].submit);
        let before = export::latest_key(less)->Some_0;
        if !text::precedes(last, before) && text::precedes(last, key) {
            table::lemma_precedes_total(before, last);
            if before != last {
                table::lemma_precedes_transitive(before, last, key);
            }
        }
    } else {
        table::lemma_precedes_irreflexive(last);
        match export::latest_key(less) {
            Some(before) => table::lemma_precedes_total(last, before),
            None => {},
        }
    }
}

/// Every reading that is resolved is one that the clock itself shows: the hour
/// of a reading is the first, up to the end of the export, that the clock
/// shows with the same `YYYY-MM-DDTHH`, and a reading of an hour that the
/// clock never shows has none.
pub proof fn law_resolved_readings_are_the_clocks(
    clock: ClockView,
    until: Seq<char>,
    reading: Seq<char>,
)
    requires
        site::is_clock(clock),
        site::hours_until(clock, until) is Ok,
    ensures
        ({
            let hours = site::hours_until(clock, until)->Ok_0;
            let keys = site::hour_keys(clock.readings);
            let key = site::hour_key_in(reading);
            match site::hour_in(hours, reading) {
                Some(hour) => {
                    &&& hour.0 <= hours.past_end.0
                    &&& keys[hour.0 as int] == key
                    &&& forall|i: int| 0 <= i < hour.0 ==> #[trigger] keys[i] != key
                },
                None => forall|i: int| 0 <= i <= hours.past_end.0 ==> #[trigger] keys[i] != key,
            }
        }),
{
    let keys = site::hour_keys(clock.readings);
    let key = site::hour_key_in(reading);
    site::law_end_is_first_later(keys, until, 0);
    let end = site::first_later(keys, until, 0);
    let seen = keys.take(end + 1);
    site::law_earliest_reading_wins(seen, key);
    match site::hour_in(site::hours_until(clock, until)->Ok_0, reading) {
        Some(hour) => {
            assert forall|i: int| 0 <= i < hour.0 implies #[trigger] keys[i] != key by {
                assert(seen[i] == keys[i]);
            }
        },
        None => {
            assert forall|i: int| 0 <= i <= end implies #[trigger] keys[i] != key by {
                assert(seen[i] == keys[i]);
            }
        },
    }
}

/// Every job of a conversion arrives before the end of the export's hours, at
/// an hour at which the clock reads as its row's `Submit` does.
pub proof fn law_jobs_arrive_within_the_export(
    text: Seq<char>,
    legible: Seq<bool>,
    clock: ClockView,
    rules: Seq<RuleView>,
    allow_dst_crossing: bool,
    i: int,
) -> (r: (HoursView, CandidateView))
    requires
        site::is_clock(clock),
        export::conversion(text, legible, clock, rules, allow_dst_crossing) is Ok,
        0 <= i < export::conversion(
            text,
            legible,
            clock,
            rules,
            allow_dst_crossing,
        )->Ok_0.jobs.len(),
    ensures
        ({
            let job = export::conversion(
                text,
                legible,
                clock,
                rules,
                allow_dst_crossing,
            )->Ok_0.jobs[i];
            let (hours, candidate) = r;
            let candidates = export::export_in(text, rules, legible).candidates;
            &&& are_hours_of(hours, candidates, clock)
            &&& candidates.contains(candidate)
            &&& export::place_in(candidate, clock, hours, job.id) == Ok::<
                (Job, Seq<char>),
                CauseView,
            >((job, candidate.job_id))
            &&& job.arrival.0 < hours.past_end.0
            &&& site::hour_key_in(clock.readings[job.arrival.0 as int]) == site::hour_key_in(
                candidate.submit,
            )
        }),
{
    let made = export::conversion(text, legible, clock, rules, allow_dst_crossing)->Ok_0;
    let job = made.jobs[i];
    let hours = lemma_placed(text, legible, clock, rules, allow_dst_crossing);
    let unsorted = export::read_in(text::lines_of(text), rules, legible);
    let candidates = export::export_in(text, rules, legible).candidates;
    order::law_sorted::<Candidate>(unsorted.candidates);
    lemma_placement(candidates, clock, hours);
    lemma_placeable_in_order(candidates, clock, hours);
    let placed = export::placement(candidates, clock, hours);
    let kept = placeable(candidates, clock, hours);
    order::law_sorted::<Job>(placed.jobs);
    lemma_same_members(made.jobs, placed.jobs, job);
    let k = choose|k: int| 0 <= k < placed.jobs.len() && placed.jobs[k] == job;
    assert(is_placed(kept[k], clock, hours, k as nat, placed.jobs[k], placed.id_map[k]));
    let candidate = kept[k];
    let at = choose|at: int| 0 <= at < candidates.len() && candidates[at] == candidate;
    lemma_latest_key(candidates, at);
    let latest = export::latest_key(candidates)->Some_0;
    law_resolved_readings_are_the_clocks(clock, latest, candidate.submit);
    let keys = site::hour_keys(clock.readings);
    site::law_end_is_first_later(keys, latest, 0);
    (hours, candidate)
}

/// A character that separates nothing goes to the last piece.
proof fn lemma_longer_last_piece(s: Seq<char>, sep: char, c: char)
    requires
        c != sep,
    ensures
        text::pieces(s, sep).len() > 0,
        text::pieces(s.push(c), sep) == text::pieces(s, sep).update(
            text::pieces(s, sep).len() - 1,
            text::pieces(s, sep).last().push(c),
        ),
    decreases s.len(),
{
    let whole = s.push(c);
    text::lemma_position(s, sep);
    text::lemma_position(whole, sep);
    let at = text::position_of(s, sep);
    let pieces = text::pieces(s, sep);
    assert forall|i: int| 0 <= i < at implies #[trigger] whole[i] != sep by {
        assert(whole[i] == s[i]);
    }
    if at == s.len() {
        assert(text::position_of(whole, sep) == whole.len());
        assert(text::pieces(whole, sep) =~= pieces.update(0, pieces.last().push(c)));
    } else {
        let rest = s.skip(at + 1);
        assert(whole[at] == s[at]);
        assert(text::position_of(whole, sep) == at);
        assert(whole.take(at) =~= s.take(at));
        assert(whole.skip(at + 1) =~= rest.push(c));
        lemma_longer_last_piece(rest, sep, c);
        assert(pieces.last() == text::pieces(rest, sep).last());
        assert(text::pieces(whole, sep) =~= pieces.update(
            pieces.len() - 1,
            pieces.last().push(c),
        ));
    }
}

/// White space at the end of a text is trimmed.
proof fn lemma_trimmed_longer(s: Seq<char>, c: char)
    requires
        text::is_space(c),
    ensures
        text::trimmed_start(s.push(c)) == if text::trimmed_start(s).len() == 0 {
            Seq::empty()
        } else {
            text::trimmed_start(s).push(c)
        },
        text::trimmed(s.push(c)) == text::trimmed(s),
    decreases s.len(),
{
    let whole = s.push(c);
    if s.len() == 0 {
        assert(whole.skip(1) =~= Seq::<char>::empty());
        assert(text::trimmed_start(whole.skip(1)) =~= Seq::<char>::empty());
        assert(text::trimmed_start(whole) =~= Seq::<char>::empty());
        assert(text::trimmed_start(s) =~= Seq::<char>::empty());
    } else if text::is_space(s[0]) {
        assert(whole[0] == s[0]);
        assert(whole.skip(1) =~= s.skip(1).push(c));
        lemma_trimmed_longer(s.skip(1), c);
    } else {
        assert(whole[0] == s[0]);
        assert(text::trimmed_start(whole) == whole);
        assert(text::trimmed_start(s) == s);
    }
    let start = text::trimmed_start(s);
    if start.len() == 0 {
        assert(start =~= Seq::<char>::empty());
    } else {
        assert(start.push(c).drop_last() =~= start);
    }
}

/// White space at the end of a line is in no field.
proof fn lemma_fields_of_trimmed(line: Seq<char>)
    ensures
        record::fields_in(text::trimmed_end(line)) == record::fields_in(line),
    decreases line.len(),
{
    if line.len() > 0 && text::is_space(line.last()) {
        let less = line.drop_last();
        let c = line.last();
        lemma_fields_of_trimmed(less);
        lemma_longer_last_piece(less, '|', c);
        let pieces = text::pieces(less, '|');
        assert(line =~= less.push(c));
        lemma_trimmed_longer(pieces.last(), c);
        assert(record::fields_in(line) =~= record::fields_in(less));
    }
}

/// Whether two lines are the same, or are both rows of the documented format
/// that differ in no field but `Start`, `End` and `User`.
pub open spec fn same_but_unread(a: Seq<char>, b: Seq<char>) -> bool {
    a == b || {
        &&& record::fields_in(a).len() == record::FORMAT_FIELDS
        &&& record::fields_in(b).len() == record::FORMAT_FIELDS
        &&& forall|i: int|
            0 <= i < record::FORMAT_FIELDS && i != 2 && i != 3 && i != 10 ==> (
            #[trigger] record::fields_in(a)[i]) == record::fields_in(b)[i]
    }
}

proof fn lemma_unread(a: Seq<char>, b: Seq<char>)
    requires
        same_but_unread(a, b),
    ensures
        row::row_in(text::trimmed_end(a)) == row::row_in(text::trimmed_end(b)),
        export::is_blank(a) == export::is_blank(b),
{
    lemma_fields_of_trimmed(a);
    lemma_fields_of_trimmed(b);
    if a != b {
        let f = record::fields_in(a);
        let g = record::fields_in(b);
        assert(f[0] == g[0] && f[1] == g[1] && f[4] == g[4] && f[5] == g[5]);
        assert(f[6] == g[6] && f[7] == g[7] && f[8] == g[8] && f[9] == g[9]);
        let nothing = Seq::<char>::empty();
        assert(text::pieces(nothing, '|').len() == 1);
        if export::is_blank(a) {
            assert(text::trimmed_end(a) =~= nothing);
        }
        if export::is_blank(b) {
            assert(text::trimmed_end(b) =~= nothing);
        }
    }
}

proof fn lemma_read_unread(
    a: Seq<Seq<char>>,
    b: Seq<Seq<char>>,
    rules: Seq<RuleView>,
    legible: Seq<bool>,
)
    requires
        a.len() == b.len(),
        forall|i: int| 0 <= i < a.len() ==> same_but_unread(#[trigger] a[i], b[i]),
    ensures
        export::read_in(a, rules, legible) == export::read_in(b, rules, legible),
    decreases a.len(),
{
    if a.len() > 0 {
        let n = a.len() - 1;
        assert forall|i: int| 0 <= i < n implies same_but_unread(
            #[trigger] a.drop_last()[i],
            b.drop_last()[i],
        ) by {
            assert(a.drop_last()[i] == a[i]);
        }
        lemma_read_unread(a.drop_last(), b.drop_last(), rules, legible);
        assert(same_but_unread(a[n], b[n]));
        lemma_unread(a[n], b[n]);
    }
}

/// `Start`, `End` and `User` are dropped: two exports whose lines differ in
/// nothing else convert alike, and ask for the same instants.
pub proof fn law_unread_fields_are_dropped(
    text: Seq<char>,
    other: Seq<char>,
    legible: Seq<bool>,
    clock: ClockView,
    rules: Seq<RuleView>,
    allow_dst_crossing: bool,
)
    requires
        text::lines_of(text).len() == text::lines_of(other).len(),
        forall|i: int|
            0 <= i < text::lines_of(text).len() ==> same_but_unread(
                #[trigger] text::lines_of(text)[i],
                text::lines_of(other)[i],
            ),
    ensures
        export::conversion(text, legible, clock, rules, allow_dst_crossing) == export::conversion(
            other,
            legible,
            clock,
            rules,
            allow_dst_crossing,
        ),
        forall|i: int|
            0 <= i < text::lines_of(text).len() ==> row::instant_in(
                text::trimmed_end(#[trigger] text::lines_of(text)[i]),
                rules,
            ) == row::instant_in(text::trimmed_end(text::lines_of(other)[i]), rules),
{
    let a = text::lines_of(text);
    let b = text::lines_of(other);
    lemma_read_unread(a, b, rules, legible);
    assert forall|i: int| 0 <= i < a.len() implies row::instant_in(
        text::trimmed_end(#[trigger] a[i]),
        rules,
    ) == row::instant_in(text::trimmed_end(b[i]), rules) by {
        lemma_unread(a[i], b[i]);
    }
}

/// A candidate without the place of its row.
pub open spec fn rowless(candidate: CandidateView) -> CandidateView {
    CandidateView { row: 0, ..candidate }
}

/// What some candidates hold but for the place of their rows.
pub open spec fn all_rowless(candidates: Seq<CandidateView>) -> Seq<CandidateView> {
    candidates.map_values(|candidate: CandidateView| rowless(candidate))
}

/// The causes of some refusals.
pub open spec fn causes(rejected: Seq<RejectedView>) -> Seq<CauseView> {
    rejected.map_values(|refusal: RejectedView| refusal.cause)
}

/// Each line with the answer for it.
pub open spec fn answered(lines: Seq<Seq<char>>, legible: Seq<bool>) -> Seq<(Seq<char>, bool)> {
    Seq::new(lines.len(), |i: int| (lines[i], export::answer(legible, i)))
}

/// What a line is classified as, but for the place of its row, where it is not
/// blank.
pub open spec fn sorted_out(line: (Seq<char>, bool), rules: Seq<RuleView>) -> Option<
    Result<Classified<CandidateView>, CauseView>,
> {
    if export::is_blank(line.0) {
        None
    } else {
        Some(row::classified(0, text::trimmed_end(line.0), rules, line.1))
    }
}

spec fn kept_by(rules: Seq<RuleView>) -> spec_fn((Seq<char>, bool)) -> Option<CandidateView> {
    |line: (Seq<char>, bool)|
        match sorted_out(line, rules) {
            Some(Ok(Classified::Kept(candidate))) => Some(candidate),
            _ => None,
        }
}

spec fn refused_by(rules: Seq<RuleView>) -> spec_fn((Seq<char>, bool)) -> Option<CauseView> {
    |line: (Seq<char>, bool)|
        match sorted_out(line, rules) {
            Some(Err(cause)) => Some(cause),
            _ => None,
        }
}

spec fn skipped_by(rules: Seq<RuleView>, skip: Skip) -> spec_fn((Seq<char>, bool)) -> Option<
    Skip,
> {
    |line: (Seq<char>, bool)|
        match sorted_out(line, rules) {
            Some(Ok(Classified::Skipped(found))) => if found == skip {
                Some(skip)
            } else {
                None
            },
            _ => None,
        }
}

spec fn counted_by(rules: Seq<RuleView>) -> spec_fn((Seq<char>, bool)) -> Option<()> {
    |line: (Seq<char>, bool)|
        if sorted_out(line, rules) is Some {
            Some(())
        } else {
            None
        }
}

/// What is read of an export, but for the places of rows, is what is picked of
/// its lines and their answers.
proof fn lemma_read_is_picked(lines: Seq<Seq<char>>, rules: Seq<RuleView>, legible: Seq<bool>)
    ensures
        ({
            let read = export::read_in(lines, rules, legible);
            let all = answered(lines, legible);
            &&& all_rowless(read.candidates) == order::picked(all, kept_by(rules))
            &&& causes(read.rejected) == order::picked(all, refused_by(rules))
            &&& read.rows == order::picked(all, counted_by(rules)).len()
            &&& read.skipped.steps == order::picked(all, skipped_by(rules, Skip::Step)).len()
            &&& read.skipped.unfinished == order::picked(
                all,
                skipped_by(rules, Skip::Unfinished),
            ).len()
            &&& read.skipped.non_gpu == order::picked(all, skipped_by(rules, Skip::NoGpu)).len()
        }),
    decreases lines.len(),
{
    let read = export::read_in(lines, rules, legible);
    let all = answered(lines, legible);
    if lines.len() > 0 {
        let less = lines.drop_last();
        lemma_read_is_picked(less, rules, legible);
        let before = export::read_in(less, rules, legible);
        assert(all.drop_last() =~= answered(less, legible));
        let line = (lines.last(), export::answer(legible, lines.len() - 1));
        assert(all.last() == line);
        let trimmed = text::trimmed_end(lines.last());
        match row::classified(lines.len(), trimmed, rules, line.1) {
            Ok(Classified::Kept(candidate)) => {
                assert(row::classified(0, trimmed, rules, line.1) == Ok::<
                    Classified<CandidateView>,
                    CauseView,
                >(Classified::Kept(rowless(candidate))));
                assert(all_rowless(before.candidates.push(candidate)) =~= all_rowless(
                    before.candidates,
                ).push(rowless(candidate)));
            },
            Ok(Classified::Skipped(_)) => {},
            Err(cause) => {
                let refusal = RejectedView { row: lines.len(), cause };
                assert(causes(before.rejected.push(refusal)) =~= causes(before.rejected).push(
                    cause,
                ));
            },
        }
    } else {
        assert(all_rowless(read.candidates) =~= Seq::<CandidateView>::empty());
        assert(causes(read.rejected) =~= Seq::<CauseView>::empty());
    }
}

/// The latest hour key is one of the keys.
proof fn lemma_latest_is_one(candidates: Seq<CandidateView>)
    ensures
        match export::latest_key(candidates) {
            Some(latest) => exists|i: int|
                0 <= i < candidates.len() && latest == site::hour_key_in(
                    (#[trigger] candidates[i]).submit,
                ),
            None => candidates.len() == 0,
        },
    decreases candidates.len(),
{
    if candidates.len() > 0 {
        let less = candidates.drop_last();
        lemma_latest_is_one(less);
        let latest = export::latest_key(candidates)->Some_0;
        let n = candidates.len() - 1;
        if latest == site::hour_key_in(candidates[n].submit) {
        } else {
            let i = choose|i: int|
                0 <= i < less.len() && latest == site::hour_key_in((#[trigger] less[i]).submit);
            assert(candidates[i] == less[i]);
        }
    }
}

/// The latest hour key does not depend on the order or the places of rows.
proof fn lemma_same_latest(a: Seq<CandidateView>, b: Seq<CandidateView>)
    requires
        all_rowless(a).to_multiset() == all_rowless(b).to_multiset(),
    ensures
        export::latest_key(a) == export::latest_key(b),
{
    all_rowless(a).to_multiset_ensures();
    all_rowless(b).to_multiset_ensures();
    assert(all_rowless(a).len() == all_rowless(b).len());
    lemma_latest_is_one(a);
    lemma_latest_is_one(b);
    if a.len() > 0 {
        let x = export::latest_key(a)->Some_0;
        let y = export::latest_key(b)->Some_0;
        let i = choose|i: int|
            0 <= i < a.len() && x == site::hour_key_in((#[trigger] a[i]).submit);
        let j = choose|j: int|
            0 <= j < b.len() && y == site::hour_key_in((#[trigger] b[j]).submit);
        assert(all_rowless(a).contains(all_rowless(a)[i]));
        lemma_same_members(all_rowless(a), all_rowless(b), all_rowless(a)[i]);
        let k = choose|k: int|
            0 <= k < all_rowless(b).len() && all_rowless(b)[k] == all_rowless(a)[i];
        lemma_latest_key(b, k);
        assert(all_rowless(b).contains(all_rowless(b)[j]));
        lemma_same_members(all_rowless(b), all_rowless(a), all_rowless(b)[j]);
        let l = choose|l: int|
            0 <= l < all_rowless(a).len() && all_rowless(a)[l] == all_rowless(b)[j];
        lemma_latest_key(a, l);
        table::lemma_precedes_total(x, y);
    }
}

spec fn placed_by(clock: ClockView, hours: HoursView) -> spec_fn(CandidateView) -> Option<
    CandidateView,
> {
    |candidate: CandidateView|
        match export::place_in(candidate, clock, hours, JobId(0)) {
            Ok(_) => Some(rowless(candidate)),
            Err(_) => None,
        }
}

spec fn unplaced_by(clock: ClockView, hours: HoursView) -> spec_fn(CandidateView) -> Option<
    CauseView,
> {
    |candidate: CandidateView|
        match export::place_in(candidate, clock, hours, JobId(0)) {
            Ok(_) => None,
            Err(cause) => Some(cause),
        }
}

/// What is placed and what is refused, but for the places of rows, is what is
/// picked of the candidates.
proof fn lemma_placement_is_picked(
    candidates: Seq<CandidateView>,
    clock: ClockView,
    hours: HoursView,
)
    ensures
        all_rowless(placeable(candidates, clock, hours)) == order::picked(
            all_rowless(candidates),
            placed_by(clock, hours),
        ),
        causes(export::placement(candidates, clock, hours).rejected) == order::picked(
            all_rowless(candidates),
            unplaced_by(clock, hours),
        ),
    decreases candidates.len(),
{
    let kept = placeable(candidates, clock, hours);
    let rejected = export::placement(candidates, clock, hours).rejected;
    if candidates.len() > 0 {
        let less = candidates.drop_last();
        let last = candidates.last();
        lemma_placement_is_picked(less, clock, hours);
        assert(all_rowless(candidates).drop_last() =~= all_rowless(less));
        assert(all_rowless(candidates).last() == rowless(last));
        let before = placeable(less, clock, hours);
        let refused = export::placement(less, clock, hours).rejected;
        match export::place_in(last, clock, hours, JobId(0)) {
            Ok(_) => {
                assert(all_rowless(kept) =~= all_rowless(before).push(rowless(last)));
            },
            Err(cause) => {
                assert(causes(rejected) =~= causes(refused).push(cause));
            },
        }
    } else {
        assert(all_rowless(kept) =~= Seq::<CandidateView>::empty());
        assert(causes(rejected) =~= Seq::<CauseView>::empty());
    }
}

/// The rows of an export that become jobs, in `(Submit, JobIDRaw)` order.
pub open spec fn job_rows(
    text: Seq<char>,
    legible: Seq<bool>,
    clock: ClockView,
    rules: Seq<RuleView>,
) -> Seq<CandidateView> {
    let candidates = export::export_in(text, rules, legible).candidates;
    match export::latest_key(candidates) {
        None => Seq::empty(),
        Some(latest) => match site::hours_until(clock, latest) {
            Err(_) => Seq::empty(),
            Ok(hours) => placeable(candidates, clock, hours),
        },
    }
}

/// Whether no two rows share both `Submit` and `JobIDRaw`.
pub open spec fn no_two_alike(rows: Seq<CandidateView>) -> bool {
    forall|i: int, j: int|
        0 <= i < j < rows.len() ==> (#[trigger] rows[i]).submit != (#[trigger] rows[j]).submit
            || rows[i].job_number != rows[j].job_number
}

proof fn lemma_rowless_in_order(rows: Seq<CandidateView>)
    requires
        order::is_sorted::<Candidate>(rows),
    ensures
        order::is_sorted::<Candidate>(all_rowless(rows)),
        no_two_alike(rows) ==> forall|i: int, j: int|
            0 <= i < j < rows.len() ==> !<Candidate as order::Ranked>::in_order(
                #[trigger] all_rowless(rows)[j],
                #[trigger] all_rowless(rows)[i],
            ),
{
    let plain = all_rowless(rows);
    assert forall|i: int, j: int| 0 <= i < j < plain.len() implies <Candidate as order::Ranked>::in_order(
        #[trigger] plain[i],
        #[trigger] plain[j],
    ) by {
        assert(<Candidate as order::Ranked>::in_order(rows[i], rows[j]));
    }
    if no_two_alike(rows) {
        assert forall|i: int, j: int|
            0 <= i < j < rows.len() implies !<Candidate as order::Ranked>::in_order(
            #[trigger] plain[j],
            #[trigger] plain[i],
        ) by {
            assert(<Candidate as order::Ranked>::in_order(rows[i], rows[j]));
            table::lemma_precedes_total(rows[i].submit, rows[j].submit);
        }
    }
}

/// The same candidates in the same hours become the same jobs, whatever the
/// order and the places of their rows.
proof fn lemma_same_jobs(
    a: Seq<CandidateView>,
    b: Seq<CandidateView>,
    clock: ClockView,
    hours: HoursView,
)
    requires
        order::is_sorted::<Candidate>(a),
        order::is_sorted::<Candidate>(b),
        all_rowless(a).to_multiset() == all_rowless(b).to_multiset(),
        no_two_alike(placeable(a, clock, hours)),
    ensures
        ({
            let x = export::placement(a, clock, hours);
            let y = export::placement(b, clock, hours);
            &&& x.jobs == y.jobs
            &&& x.id_map == y.id_map
            &&& causes(x.rejected).to_multiset() == causes(y.rejected).to_multiset()
            &&& x.rejected.len() == y.rejected.len()
        }),
{
    let x = export::placement(a, clock, hours);
    let y = export::placement(b, clock, hours);
    let kept = placeable(a, clock, hours);
    let other = placeable(b, clock, hours);
    lemma_placement_is_picked(a, clock, hours);
    lemma_placement_is_picked(b, clock, hours);
    order::lemma_picked_alike(all_rowless(a), all_rowless(b), placed_by(clock, hours));
    order::lemma_picked_alike(all_rowless(a), all_rowless(b), unplaced_by(clock, hours));
    assert(x.rejected.len() == causes(x.rejected).len());
    assert(y.rejected.len() == causes(y.rejected).len());
    lemma_placeable_in_order(a, clock, hours);
    lemma_placeable_in_order(b, clock, hours);
    lemma_rowless_in_order(kept);
    lemma_rowless_in_order(other);
    order::law_order_is_unique::<Candidate>(all_rowless(kept), all_rowless(other));
    lemma_placement(a, clock, hours);
    lemma_placement(b, clock, hours);
    assert(all_rowless(kept).len() == kept.len() && all_rowless(other).len() == other.len());
    assert forall|k: int| 0 <= k < kept.len() implies #[trigger] x.jobs[k] == y.jobs[k]
        && x.id_map[k] == y.id_map[k] by {
        assert(is_placed(kept[k], clock, hours, k as nat, x.jobs[k], x.id_map[k]));
        assert(is_placed(other[k], clock, hours, k as nat, y.jobs[k], y.id_map[k]));
        assert(rowless(kept[k]) == all_rowless(kept)[k]);
        assert(rowless(other[k]) == all_rowless(other)[k]);
    }
    assert(x.jobs =~= y.jobs);
    assert forall|k: int| 0 <= k < kept.len() implies #[trigger] x.id_map[k] == y.id_map[k] by {
        assert(x.jobs[k] == y.jobs[k]);
    }
    assert(x.id_map =~= y.id_map);
}

/// The causes of a conversion's refusals are those of its rows and those of
/// its candidates.
proof fn lemma_causes(read: Seq<RejectedView>, made: Seq<RejectedView>)
    ensures
        causes(order::sorted::<Rejected>(read + made)).to_multiset() == causes(
            read,
        ).to_multiset().add(causes(made).to_multiset()),
{
    let all = read + made;
    order::law_sorted::<Rejected>(all);
    order::lemma_mapped_alike(
        order::sorted::<Rejected>(all),
        all,
        |refusal: RejectedView| refusal.cause,
    );
    assert(causes(all) =~= causes(read) + causes(made));
    vstd::seq_lib::lemma_multiset_commutative(causes(read), causes(made));
}

/// An export's lines in another order, their answers moved with them, convert
/// alike, so long as no two rows that become jobs share both `Submit` and
/// `JobIDRaw`: the same jobs with the same ids, the same id map and tally, the
/// same causes of refusal each as often, or the same error.
pub proof fn law_order_of_lines_decides_nothing(
    text: Seq<char>,
    legible: Seq<bool>,
    other: Seq<char>,
    other_legible: Seq<bool>,
    clock: ClockView,
    rules: Seq<RuleView>,
    allow_dst_crossing: bool,
)
    requires
        answered(text::lines_of(text), legible).to_multiset() == answered(
            text::lines_of(other),
            other_legible,
        ).to_multiset(),
        no_two_alike(job_rows(text, legible, clock, rules)),
    ensures
        match (
            export::conversion(text, legible, clock, rules, allow_dst_crossing),
            export::conversion(other, other_legible, clock, rules, allow_dst_crossing),
        ) {
            (Ok(a), Ok(b)) => {
                &&& a.jobs == b.jobs
                &&& a.id_map == b.id_map
                &&& a.tally == b.tally
                &&& causes(a.rejected).to_multiset() == causes(b.rejected).to_multiset()
            },
            (Err(a), Err(b)) => a == b,
            _ => false,
        },
{
    let lines = text::lines_of(text);
    let moved = text::lines_of(other);
    let p = answered(lines, legible);
    let q = answered(moved, other_legible);
    let one = export::read_in(lines, rules, legible);
    let two = export::read_in(moved, rules, other_legible);
    lemma_read_is_picked(lines, rules, legible);
    lemma_read_is_picked(moved, rules, other_legible);
    order::lemma_picked_alike(p, q, kept_by(rules));
    order::lemma_picked_alike(p, q, refused_by(rules));
    order::lemma_picked_alike(p, q, counted_by(rules));
    order::lemma_picked_alike(p, q, skipped_by(rules, Skip::Step));
    order::lemma_picked_alike(p, q, skipped_by(rules, Skip::Unfinished));
    order::lemma_picked_alike(p, q, skipped_by(rules, Skip::NoGpu));
    let a = export::export_in(text, rules, legible);
    let b = export::export_in(other, rules, other_legible);
    order::law_sorted::<Candidate>(one.candidates);
    order::law_sorted::<Candidate>(two.candidates);
    let plain = |candidate: CandidateView| rowless(candidate);
    order::lemma_mapped_alike(a.candidates, one.candidates, plain);
    order::lemma_mapped_alike(b.candidates, two.candidates, plain);
    lemma_same_latest(a.candidates, b.candidates);
    assert(one.rejected.len() == causes(one.rejected).len());
    assert(two.rejected.len() == causes(two.rejected).len());
    if a.rows > 0 {
        match export::latest_key(a.candidates) {
            None => {
                lemma_latest_is_one(a.candidates);
                lemma_latest_is_one(b.candidates);
                let hours = site::no_hours();
                let x = export::placement(a.candidates, clock, hours);
                let y = export::placement(b.candidates, clock, hours);
                lemma_causes(a.rejected, x.rejected);
                lemma_causes(b.rejected, y.rejected);
            },
            Some(latest) => match site::hours_until(clock, latest) {
                Err(_) => {},
                Ok(hours) => {
                    lemma_same_jobs(a.candidates, b.candidates, clock, hours);
                    let x = export::placement(a.candidates, clock, hours);
                    let y = export::placement(b.candidates, clock, hours);
                    lemma_causes(a.rejected, x.rejected);
                    lemma_causes(b.rejected, y.rejected);
                },
            },
        }
    }
}

proof fn lemma_placement_of_span(
    candidates: Seq<CandidateView>,
    clock: ClockView,
    span: ClockView,
    hours: HoursView,
)
    requires
        candidates.len() > 0 ==> site::covered(hours, clock) == site::covered(hours, span),
    ensures
        export::placement(candidates, clock, hours) == export::placement(candidates, span, hours),
    decreases candidates.len(),
{
    if candidates.len() > 0 {
        lemma_placement_of_span(candidates.drop_last(), clock, span, hours);
    }
}

/// What a clock shows past the end of an export decides nothing: a clock of
/// which the first `n` readings are known, read for as long as the export's
/// hours go on, and the change of the clock before the last of them, gives the
/// same conversion as the whole clock.
pub proof fn law_span_of_the_clock_suffices(
    text: Seq<char>,
    legible: Seq<bool>,
    clock: ClockView,
    rules: Seq<RuleView>,
    allow_dst_crossing: bool,
    n: int,
    crossing: Option<DstCrossing>,
)
    requires
        site::is_clock(clock),
        0 <= n <= MAX_EXPORT_HOURS,
        ({
            let until = export::latest_key(export::export_in(text, rules, legible).candidates);
            &&& !site::goes_on(clock.readings.take(n), until)
            &&& forall|m: int| 0 <= m < n ==> #[trigger] site::goes_on(clock.readings.take(m), until)
        }),
        n > 0 ==> crossing == clock.reports[n - 1],
        site::is_span(clock.readings.take(n), crossing),
    ensures
        export::conversion(text, legible, clock, rules, allow_dst_crossing) == export::conversion(
            text,
            legible,
            site::spanned(clock.readings.take(n), crossing),
            rules,
            allow_dst_crossing,
        ),
{
    let span = site::spanned(clock.readings.take(n), crossing);
    let read = export::export_in(text, rules, legible);
    match export::latest_key(read.candidates) {
        None => {
            lemma_latest_is_one(read.candidates);
            lemma_placement_of_span(read.candidates, clock, span, site::no_hours());
        },
        Some(latest) => {
            let keys = site::hour_keys(clock.readings);
            let known = site::hour_keys(span.readings);
            site::law_end_is_first_later(keys, latest, 0);
            site::law_end_is_first_later(known, latest, 0);
            let end = site::first_later(keys, latest, 0);
            assert(n > 0);
            assert forall|i: int| 0 <= i < n implies #[trigger] known[i] == keys[i] by {
                assert(span.readings[i] == clock.readings[i]);
            }
            assert forall|i: int| 0 <= i < n - 1 implies !text::precedes(
                latest,
                #[trigger] keys[i],
            ) by {
                assert(site::goes_on(clock.readings.take(i + 1), Some(latest)));
                assert(clock.readings.take(i + 1).last() == clock.readings[i]);
            }
            assert(clock.readings.take(n).last() == clock.readings[n - 1]);
            assert(keys[n - 1] == site::hour_key_in(clock.readings[n - 1]));
            if n < MAX_EXPORT_HOURS {
                assert(text::precedes(latest, keys[n - 1]));
            }
            let known_end = site::first_later(known, latest, 0);
            assert(end >= n - 1);
            assert(known_end >= n - 1) by {
                if known_end < n - 1 {
                    assert(known[known_end] == keys[known_end]);
                }
            }
            if end < keys.len() {
                assert(end == n - 1);
                assert(known[end] == keys[end]);
                assert(known_end == n - 1);
                assert(keys.take(end + 1) =~= known.take(end + 1));
                let hours = site::hours_until(clock, latest)->Ok_0;
                assert(site::hours_until(span, latest)->Ok_0 == hours);
                assert(span.readings[0] == clock.readings[0]);
                if end > 0 {
                    assert(span.readings[end - 1] == clock.readings[end - 1]);
                }
                lemma_placement_of_span(read.candidates, clock, span, hours);
                assert(span.reports[end] == clock.reports[end]);
                match crossing {
                    Some(change) => {
                        let at = site::hour_at(change).0 as int;
                        assert(span.readings[at] == clock.readings[at]);
                    },
                    None => {},
                }
            } else {
                assert(n == MAX_EXPORT_HOURS);
                assert(known =~= keys);
            }
        },
    }
}

/// Every candidate is a line of the export.
proof fn lemma_line_of(
    lines: Seq<Seq<char>>,
    rules: Seq<RuleView>,
    legible: Seq<bool>,
    candidate: CandidateView,
) -> (l: int)
    requires
        export::read_in(lines, rules, legible).candidates.contains(candidate),
    ensures
        0 <= l < lines.len(),
        !export::is_blank(lines[l]),
        outcome_at(lines, rules, legible, l) == Ok::<Classified<CandidateView>, CauseView>(
            Classified::Kept(candidate),
        ),
    decreases lines.len(),
{
    let candidates = export::read_in(lines, rules, legible).candidates;
    let k = choose|k: int| 0 <= k < candidates.len() && candidates[k] == candidate;
    let less = lines.drop_last();
    let before = export::read_in(less, rules, legible).candidates;
    if k < before.len() {
        assert(before[k] == candidate);
        assert(before.contains(candidate));
        let l = lemma_line_of(less, rules, legible, candidate);
        assert(less[l] == lines[l]);
        l
    } else {
        lines.len() - 1
    }
}

/// Whether a job is what the fields of a row and a rule give.
pub open spec fn is_job_of(job: Job, line: Seq<char>, rule: RuleView) -> bool {
    let f = |i: int| record_laws::field_of(line, i);
    &&& number::unsigned(f(4)) == Some(job.actual_seconds as int)
    &&& job.actual_seconds > 0
    &&& row::gpus_in(f(5)) == Ok::<u32, CauseView>(job.gpus)
    &&& job.gpus > 0
    &&& if f(6) == "UNLIMITED"@ {
        job.requested_hours == 0
    } else {
        number::unsigned(f(6)) matches Some(minutes) && 60 * (job.requested_hours - 1) < minutes
            <= 60 * job.requested_hours
    }
    &&& job.tier == rule.tier
    &&& job.deadline.0 == job.arrival.0 + match rule.window_hours {
        Some(hours) => hours as int,
        None => if rule.tier == Tier::Latency {
            24
        } else {
            168
        },
    }
    &&& job.pad_hours == if rule.tier == Tier::Latency {
        7u32
    } else {
        4u32
    }
}

/// Every job of a conversion is a row of the export: one of eleven fields that
/// is no step, is over and has a GPU, with the runtime, the GPUs and the limit
/// that its fields write, the tier, window and pad of the first rule that
/// covers it, and an arrival at which the clock reads as its `Submit` does. The
/// id map names the row at the place of the job's id.
pub proof fn law_job_is_its_row(
    text: Seq<char>,
    legible: Seq<bool>,
    clock: ClockView,
    rules: Seq<RuleView>,
    allow_dst_crossing: bool,
    i: int,
) -> (r: (int, int, int))
    requires
        site::is_clock(clock),
        export::conversion(text, legible, clock, rules, allow_dst_crossing) is Ok,
        0 <= i < export::conversion(
            text,
            legible,
            clock,
            rules,
            allow_dst_crossing,
        )->Ok_0.jobs.len(),
    ensures
        ({
            let made = export::conversion(text, legible, clock, rules, allow_dst_crossing)->Ok_0;
            let job = made.jobs[i];
            let lines = text::lines_of(text);
            let (l, rule, k) = r;
            let line = text::trimmed_end(lines[l]);
            let f = |n: int| record_laws::field_of(line, n);
            &&& 0 <= l < lines.len()
            &&& l < legible.len() && legible[l]
            &&& row_laws::is_row(line) && !row_laws::is_step_row(line)
                && !row_laws::is_unfinished_row(line) && !row_laws::is_gpuless_row(line)
            &&& row_laws::is_first_rule(rules, rule, f(7), f(8))
            &&& is_job_of(job, line, rules[rule])
            &&& 0 <= k < made.id_map.len()
            &&& made.id_map[k] == (job.id, f(0))
            &&& k <= u32::MAX ==> job.id.0 == k
            &&& site::hour_key_in(clock.readings[job.arrival.0 as int]) == site::hour_key_in(f(1))
        }),
{
    let made = export::conversion(text, legible, clock, rules, allow_dst_crossing)->Ok_0;
    let job = made.jobs[i];
    let lines = text::lines_of(text);
    let hours = lemma_placed(text, legible, clock, rules, allow_dst_crossing);
    let unsorted = export::read_in(lines, rules, legible);
    let candidates = export::export_in(text, rules, legible).candidates;
    order::law_sorted::<Candidate>(unsorted.candidates);
    lemma_placement(candidates, clock, hours);
    lemma_placeable_in_order(candidates, clock, hours);
    let placed = export::placement(candidates, clock, hours);
    let kept = placeable(candidates, clock, hours);
    order::law_sorted::<Job>(placed.jobs);
    lemma_same_members(made.jobs, placed.jobs, job);
    let k = choose|k: int| 0 <= k < placed.jobs.len() && placed.jobs[k] == job;
    assert(is_placed(kept[k], clock, hours, k as nat, placed.jobs[k], placed.id_map[k]));
    let candidate = kept[k];
    lemma_same_members(candidates, unsorted.candidates, candidate);
    let l = lemma_line_of(lines, rules, legible, candidate);
    let line = text::trimmed_end(lines[l]);
    row_laws::law_what_a_row_is((l + 1) as nat, line, rules, export::answer(legible, l));
    let qos = record_laws::field_of(line, 7);
    let partition = record_laws::field_of(line, 8);
    let rule = choose|rule: int|
        row_laws::is_first_rule(rules, rule, qos, partition) && row_laws::is_its_row(
            candidate,
            line,
            #[trigger] rules[rule],
        );
    let at = choose|at: int| 0 <= at < candidates.len() && candidates[at] == candidate;
    lemma_latest_key(candidates, at);
    let latest = export::latest_key(candidates)->Some_0;
    law_resolved_readings_are_the_clocks(clock, latest, candidate.submit);
    site::law_end_is_first_later(site::hour_keys(clock.readings), latest, 0);
    assert(is_job_of(job, line, rules[rule]));
    (l, rule, k)
}

/// With the rules of a mapping file, a job's deadline is its arrival and the
/// window that the table of its rule sets, or, where that sets none, a day for
/// tier 1 and seven days for tier 2.
pub proof fn law_deadline_by_mapping_file(
    map_text: Seq<char>,
    text: Seq<char>,
    legible: Seq<bool>,
    clock: ClockView,
    allow_dst_crossing: bool,
    i: int,
) -> (r: (int, nat))
    requires
        tiers::map_in(map_text) is Ok,
        site::is_clock(clock),
        export::conversion(
            text,
            legible,
            clock,
            tiers::map_in(map_text)->Ok_0,
            allow_dst_crossing,
        ) is Ok,
        0 <= i < export::conversion(
            text,
            legible,
            clock,
            tiers::map_in(map_text)->Ok_0,
            allow_dst_crossing,
        )->Ok_0.jobs.len(),
    ensures
        ({
            let rules = tiers::map_in(map_text)->Ok_0;
            let job = export::conversion(
                text,
                legible,
                clock,
                rules,
                allow_dst_crossing,
            )->Ok_0.jobs[i];
            let lines = text::lines_of(map_text);
            let (l, table) = r;
            let line = text::trimmed_end(text::lines_of(text)[l]);
            let tier = tier_laws::last_set(
                lines,
                table,
                |line: Seq<char>| tier_laws::tier_set_by(line),
            );
            &&& row_laws::is_first_rule(
                rules,
                table as int,
                record_laws::field_of(line, 7),
                record_laws::field_of(line, 8),
            )
            &&& tier == Some(job.tier)
            &&& match tier_laws::last_set(
                lines,
                table,
                |line: Seq<char>| tier_laws::window_set_by(line),
            ) {
                Some(hours) => job.deadline.0 == job.arrival.0 + hours,
                None => if tier == Some(Tier::Latency) {
                    job.deadline.0 == job.arrival.0 + 24 && job.pad_hours == 7
                } else {
                    job.deadline.0 == job.arrival.0 + 168 && job.pad_hours == 4
                },
            }
        }),
{
    let rules = tiers::map_in(map_text)->Ok_0;
    let (l, rule, _) = law_job_is_its_row(text, legible, clock, rules, allow_dst_crossing, i);
    tier_laws::law_rules_are_their_tables(map_text);
    assert(tier_laws::is_of_table(text::lines_of(map_text), rule as nat, rules[rule]));
    (l, rule as nat)
}

/// A line of an export is blank where it is nothing but white space.
pub proof fn law_blank_lines_of_an_export(line: Seq<char>)
    ensures
        export::is_blank(line) <==> text::all_space(line),
{
    text::law_blank(line);
}

/// The number of lines that are not blank and of which something holds.
pub open spec fn how_many(lines: Seq<Seq<char>>, holds: spec_fn(Seq<char>) -> bool) -> nat
    decreases lines.len(),
{
    if lines.len() == 0 {
        0
    } else {
        how_many(lines.drop_last(), holds) + if !export::is_blank(lines.last()) && holds(
            text::trimmed_end(lines.last()),
        ) {
            1nat
        } else {
            0nat
        }
    }
}

proof fn lemma_piles(lines: Seq<Seq<char>>, rules: Seq<RuleView>, legible: Seq<bool>)
    ensures
        ({
            let skipped = export::read_in(lines, rules, legible).skipped;
            &&& skipped.steps == how_many(lines, |line: Seq<char>| row_laws::is_step_row(line))
            &&& skipped.unfinished == how_many(
                lines,
                |line: Seq<char>| row_laws::is_unfinished_row(line),
            )
            &&& skipped.non_gpu == how_many(lines, |line: Seq<char>| row_laws::is_gpuless_row(line))
        }),
    decreases lines.len(),
{
    if lines.len() > 0 {
        lemma_piles(lines.drop_last(), rules, legible);
        row_laws::law_what_a_row_is(
            lines.len(),
            text::trimmed_end(lines.last()),
            rules,
            export::answer(legible, lines.len() - 1),
        );
    }
}

/// The tally counts each pile by what its rows are: steps by their ids,
/// unfinished jobs by their states and jobs without a GPU by their resources.
pub proof fn law_tally_counts_each_pile(
    text: Seq<char>,
    legible: Seq<bool>,
    clock: ClockView,
    rules: Seq<RuleView>,
    allow_dst_crossing: bool,
    tally: Tally,
)
    requires
        export::conversion(text, legible, clock, rules, allow_dst_crossing) is Ok,
        tally@ == export::conversion(text, legible, clock, rules, allow_dst_crossing)->Ok_0.tally,
    ensures
        ({
            let lines = text::lines_of(text);
            let made = export::conversion(text, legible, clock, rules, allow_dst_crossing)->Ok_0;
            &&& tally.read == how_many(lines, |line: Seq<char>| true)
            &&& tally.steps == how_many(lines, |line: Seq<char>| row_laws::is_step_row(line))
            &&& tally.unfinished == how_many(
                lines,
                |line: Seq<char>| row_laws::is_unfinished_row(line),
            )
            &&& tally.non_gpu == how_many(lines, |line: Seq<char>| row_laws::is_gpuless_row(line))
            &&& tally.kept == made.jobs.len()
            &&& tally.rejected == made.rejected.len()
        }),
{
    let lines = text::lines_of(text);
    let hours = lemma_placed(text, legible, clock, rules, allow_dst_crossing);
    law_tally_adds_up(text, legible, clock, rules, allow_dst_crossing);
    lemma_piles(lines, rules, legible);
    lemma_rows_counted(lines);
}

proof fn lemma_rows_counted(lines: Seq<Seq<char>>)
    ensures
        rows_of(lines) == how_many(lines, |line: Seq<char>| true),
    decreases lines.len(),
{
    if lines.len() > 0 {
        lemma_rows_counted(lines.drop_last());
    }
}

/// Whether an hour is the first at which the clock reads later than every
/// `Submit` of some candidates.
pub open spec fn is_end(candidates: Seq<CandidateView>, clock: ClockView, end: int) -> bool {
    &&& 0 <= end < clock.readings.len()
    &&& forall|c: int|
        0 <= c < candidates.len() ==> text::precedes(
            site::hour_key_in((#[trigger] candidates[c]).submit),
            site::hour_key_in(clock.readings[end]),
        )
    &&& forall|h: int|
        0 <= h < end ==> exists|c: int|
            0 <= c < candidates.len() && !text::precedes(
                site::hour_key_in((#[trigger] candidates[c]).submit),
                site::hour_key_in(#[trigger] clock.readings[h]),
            )
}

/// Why a whole export is refused. It has no rows; or there is something to
/// place and the clock reads later than all of it at no hour; or the clock has
/// a change before the first hour at which it does, and that is not allowed.
/// The change is named by what the clock reads at it.
pub proof fn law_why_an_export_is_refused(
    text: Seq<char>,
    legible: Seq<bool>,
    clock: ClockView,
    rules: Seq<RuleView>,
    allow_dst_crossing: bool,
    e: IngestError,
)
    requires
        site::is_clock(clock),
        export::conversion(text, legible, clock, rules, allow_dst_crossing) == Err::<
            ConversionView,
            IngestErrorView,
        >(e@),
    ensures
        ({
            let candidates = export::export_in(text, rules, legible).candidates;
            match e {
                IngestError::NoRows => rows_of(text::lines_of(text)) == 0,
                IngestError::ExportTooLong { hours } => {
                    &&& hours == 2 * 366 * 24
                    &&& candidates.len() > 0
                    &&& forall|end: int| !is_end(candidates, clock, end)
                },
                IngestError::DstCrossing { local, kind } => {
                    &&& !allow_dst_crossing
                    &&& exists|end: int|
                        is_end(candidates, clock, end) && match #[trigger] clock.reports[end] {
                            Some(DstCrossing::Missing { at }) => local@
                                == clock.readings[at.0 as int] && kind@ == "never happens"@,
                            Some(DstCrossing::Doubled { at }) => local@
                                == clock.readings[at.0 as int] && kind@ == "happens twice"@,
                            None => false,
                        }
                },
                _ => false,
            }
        }),
{
    lemma_rows(text::lines_of(text), rules, legible);
    let read = export::export_in(text, rules, legible);
    if read.rows > 0 {
        lemma_latest_is_one(read.candidates);
        lemma_end(read.candidates, clock);
        let latest = export::latest_key(read.candidates)->Some_0;
        let keys = site::hour_keys(clock.readings);
        let end = site::first_later(keys, latest, 0);
        if end < keys.len() {
            assert(is_end(read.candidates, clock, end));
            assert(clock.reports[end] is Some);
        }
    }
}

/// The end of an export's hours is that of its candidates.
proof fn lemma_end(candidates: Seq<CandidateView>, clock: ClockView)
    requires
        candidates.len() > 0,
        site::is_clock(clock),
    ensures
        ({
            let latest = export::latest_key(candidates)->Some_0;
            let keys = site::hour_keys(clock.readings);
            let end = site::first_later(keys, latest, 0);
            &&& 0 <= end <= keys.len()
            &&& end < keys.len() ==> is_end(candidates, clock, end)
            &&& forall|h: int| is_end(candidates, clock, h) ==> h == end
        }),
{
    let latest = export::latest_key(candidates)->Some_0;
    let keys = site::hour_keys(clock.readings);
    let end = site::first_later(keys, latest, 0);
    lemma_latest_is_one(candidates);
    let top = choose|c: int|
        0 <= c < candidates.len() && latest == site::hour_key_in((#[trigger] candidates[c]).submit);
    site::law_end_is_first_later(keys, latest, 0);
    assert forall|h: int| 0 <= h < end implies exists|c: int|
        0 <= c < candidates.len() && !text::precedes(
            site::hour_key_in((#[trigger] candidates[c]).submit),
            site::hour_key_in(#[trigger] clock.readings[h]),
        ) by {
        assert(keys[h] == site::hour_key_in(clock.readings[h]));
        assert(!text::precedes(
            site::hour_key_in(candidates[top].submit),
            site::hour_key_in(clock.readings[h]),
        ));
    }
    if end < keys.len() {
        assert(keys[end] == site::hour_key_in(clock.readings[end]));
        assert forall|c: int| 0 <= c < candidates.len() implies text::precedes(
            site::hour_key_in((#[trigger] candidates[c]).submit),
            site::hour_key_in(clock.readings[end]),
        ) by {
            lemma_latest_key(candidates, c);
            let key = site::hour_key_in(candidates[c].submit);
            table::lemma_precedes_total(key, latest);
            if key != latest {
                table::lemma_precedes_transitive(key, latest, keys[end]);
            }
        }
    }
    assert forall|h: int| is_end(candidates, clock, h) implies h == end by {
        assert(keys[h] == site::hour_key_in(clock.readings[h]));
        assert(text::precedes(
            site::hour_key_in(candidates[top].submit),
            site::hour_key_in(clock.readings[h]),
        ));
        if h < end {
            assert(!text::precedes(latest, keys[h]));
        } else if end < h {
            assert(keys[end] == site::hour_key_in(clock.readings[end]));
            assert(clock.readings[end] == clock.readings[end]);
            let c = choose|c: int|
                0 <= c < candidates.len() && !text::precedes(
                    site::hour_key_in((#[trigger] candidates[c]).submit),
                    site::hour_key_in(clock.readings[end]),
                );
            assert(is_end(candidates, clock, end));
        }
    }
}

/// An export whose rows can all be read is converted: where it has a row, and
/// either nothing to place or an hour at which the clock reads later than all
/// of it, with no change before that or with leave, there is a conversion.
pub proof fn law_when_an_export_converts(
    text: Seq<char>,
    legible: Seq<bool>,
    clock: ClockView,
    rules: Seq<RuleView>,
    allow_dst_crossing: bool,
    end: int,
)
    requires
        site::is_clock(clock),
        rows_of(text::lines_of(text)) > 0,
        ({
            let candidates = export::export_in(text, rules, legible).candidates;
            candidates.len() == 0 || (is_end(candidates, clock, end) && (allow_dst_crossing
                || clock.reports[end] is None))
        }),
    ensures
        export::conversion(text, legible, clock, rules, allow_dst_crossing) is Ok,
{
    lemma_rows(text::lines_of(text), rules, legible);
    let read = export::export_in(text, rules, legible);
    if read.candidates.len() > 0 {
        lemma_latest_is_one(read.candidates);
        lemma_end(read.candidates, clock);
    }
}

/// A row is refused a place where its `Submit` is none of the export's hours,
/// with the first and the last reading that the export covers, or where its
/// window reaches past the last index there is, with the window.
pub proof fn law_why_a_row_has_no_place(
    candidate: CandidateView,
    clock: ClockView,
    hours: HoursView,
    id: JobId,
    cause: RejectCause,
)
    requires
        export::place_in(candidate, clock, hours, id) == Err::<(Job, Seq<char>), CauseView>(cause@),
    ensures
        match cause {
            RejectCause::Outside { value, covers } => {
                &&& site::hour_in(hours, candidate.submit) is None
                &&& value@ == candidate.submit
                &&& hours.past_end.0 > 0 ==> covers@ == clock.readings[0] + " to "@
                    + clock.readings[hours.past_end.0 - 1]
            },
            RejectCause::Deadline { window } => {
                &&& site::hour_in(hours, candidate.submit) matches Some(arrival) && arrival.0
                    + window > u32::MAX
                &&& window == candidate.window_hours
            },
            _ => false,
        },
{
}

/// The instant that is asked for a line is its `Submit` with a `Z` behind it,
/// and is asked of the rows that nothing but a time or a limit can refuse.
pub proof fn law_instants_are_asked_of_covered_rows(line: Seq<char>, rules: Seq<RuleView>)
    ensures
        ({
            let f = |i: int| record_laws::field_of(line, i);
            match row::instant_in(line, rules) {
                Some(instant) => {
                    &&& row_laws::is_row(line) && !row_laws::is_step_row(line)
                        && !row_laws::is_unfinished_row(line) && !row_laws::is_gpuless_row(line)
                    &&& instant == f(1) + "Z"@
                    &&& exists|r: int|
                        0 <= r < rules.len() && tiers::covers(#[trigger] rules[r], f(7), f(8))
                },
                None => forall|row: nat, legible: bool|
                    !((#[trigger] row::classified(row, line, rules, legible)) matches Ok(
                        Classified::Kept(_),
                    )),
            }
        }),
{
    let p = text::pieces(line, '|');
    let g = record::fields_in(line);
    assert(g.len() == p.len());
    if row::instant_in(line, rules) is Some {
        row_laws::law_what_a_row_is(0, line, rules, true);
        row_laws::law_what_a_row_is(0, line, rules, false);
        assert(g[1] == record_laws::field_of(line, 1));
        assert(g[7] == record_laws::field_of(line, 7) && g[8] == record_laws::field_of(line, 8));
        tier_laws::law_first_rule_wins(rules, g[7], g[8]);
        let rule = tiers::first_rule(rules, g[7], g[8])->Some_0;
        let r = choose|r: int|
            0 <= r < rules.len() && #[trigger] rules[r] == rule && tiers::covers(
                rule,
                g[7],
                g[8],
            ) && forall|j: int| 0 <= j < r ==> !tiers::covers(#[trigger] rules[j], g[7], g[8]);
        assert(row_laws::is_first_rule(rules, r, g[7], g[8]));
    }
}

}
