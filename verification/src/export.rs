//! Slurm's `sacct` export, turned into the jobs contract.
//!
//! Text in, [`Job`] values out, and a named refusal for every row that cannot
//! become one. Reading the file and writing the result are the caller's
//! actions; nothing here touches a disk.
//!
//! No offset arithmetic lives here. `sacct` prints local clock readings with
//! no zone on them, and turning one into an hour index is the site clock's
//! job: every reading that is resolved is one that the clock itself shows.
//!
//! `Submit` is the only stamp converted: `Start` and `End` have no reader.

use vstd::prelude::*;
use crate::error::{IngestError, IngestErrorView};
use crate::job::{Job, JobId};
use crate::number;
use crate::number::push_decimal;
use crate::order;
use crate::order::{sort, Ranked};
use crate::record;
use crate::row;
use crate::row::{
    classify, screen, Candidate, CandidateView, CauseView, Classified, RejectCause, Skip,
};
use crate::site;
use crate::site::{
    crossing_refused, hour_key, ClockView, HoursView, LocalHours, SiteClock,
};
use crate::table;
use crate::text;
use crate::text::{chars_of, comes_before, lines, same, string_of, trim_end};
use crate::tiers::{RuleView, TierMap};

verus! {

/// What an export turned into. **Data.**
#[derive(Debug, Clone, PartialEq, Eq)]
pub struct Conversion {
    /// The jobs, in `(arrival, id)` order, like every other jobs file.
    pub jobs: Vec<Job>,
    /// `(id, JobIDRaw)`: the side file that can turn an id back into a Slurm
    /// job.
    pub id_map: Vec<(JobId, String)>,
    /// What became of every row, so the counts can be checked against the
    /// file the operator sent.
    pub tally: Tally,
    /// Every faulty row, in file order.
    pub rejected: Vec<Rejected>,
}

/// What a conversion holds.
#[verifier::ext_equal]
pub struct ConversionView {
    pub jobs: Seq<Job>,
    pub id_map: Seq<(JobId, Seq<char>)>,
    pub tally: TallyView,
    pub rejected: Seq<RejectedView>,
}

/// What a list of ids and raw ids holds.
pub open spec fn id_views(s: Seq<(JobId, String)>) -> Seq<(JobId, Seq<char>)> {
    s.map_values(|pair: (JobId, String)| (pair.0, pair.1@))
}

impl View for Conversion {
    type V = ConversionView;

    open spec fn view(&self) -> ConversionView {
        ConversionView {
            jobs: self.jobs@,
            id_map: id_views(self.id_map@),
            tally: self.tally@,
            rejected: order::views(self.rejected@),
        }
    }
}

/// How an export's rows were accounted for. **Data.**
///
/// `read` is every non-blank line; the other five partition it, so an operator
/// can add them up and get their own file back.
#[derive(Debug, Clone, Copy, PartialEq, Eq, Structural)]
pub struct Tally {
    pub read: usize,
    pub kept: usize,
    pub steps: usize,
    pub unfinished: usize,
    pub non_gpu: usize,
    pub rejected: usize,
}

impl Default for Tally {
    fn default() -> (tally: Tally)
        ensures
            tally@ == (TallyView {
                read: 0,
                kept: 0,
                steps: 0,
                unfinished: 0,
                non_gpu: 0,
                rejected: 0,
            }),
    {
        Tally { read: 0, kept: 0, steps: 0, unfinished: 0, non_gpu: 0, rejected: 0 }
    }
}

/// What a tally holds.
pub struct TallyView {
    pub read: nat,
    pub kept: nat,
    pub steps: nat,
    pub unfinished: nat,
    pub non_gpu: nat,
    pub rejected: nat,
}

impl View for Tally {
    type V = TallyView;

    open spec fn view(&self) -> TallyView {
        TallyView {
            read: self.read as nat,
            kept: self.kept as nat,
            steps: self.steps as nat,
            unfinished: self.unfinished as nat,
            non_gpu: self.non_gpu as nat,
            rejected: self.rejected as nat,
        }
    }
}

/// One row that could not become a job, and why. **Data.**
#[derive(Debug, Clone, PartialEq, Eq)]
pub struct Rejected {
    /// The row's line number in the export, counted from 1.
    pub row: usize,
    pub cause: RejectCause,
}

/// What a refusal holds.
#[verifier::ext_equal]
pub struct RejectedView {
    pub row: nat,
    pub cause: CauseView,
}

impl View for Rejected {
    type V = RejectedView;

    open spec fn view(&self) -> RejectedView {
        RejectedView { row: self.row as nat, cause: self.cause@ }
    }
}

/// A refusal as one line of text.
pub open spec fn refusal_text(refusal: RejectedView) -> Seq<char> {
    "row "@ + number::decimal(refusal.row) + ": "@ + row::cause_text(refusal.cause)
}

impl Rejected {
    /// The refusal as one line, naming the row and the field. **Calculation.**
    #[must_use]
    pub fn line(&self) -> (line: String)
        ensures
            line@ == "row "@ + number::decimal(self.row as nat) + ": "@ + row::cause_text(
                self.cause@,
            ),
            line@ == refusal_text(self@),
    {
        let mut out = String::new();
        out.append("row ");
        push_decimal(&mut out, self.row as u64);
        out.append(": ");
        let cause = self.cause.message();
        out.append(cause.as_str());
        assert(out@ =~= "row "@ + number::decimal(self.row as nat) + ": "@ + row::cause_text(
            self.cause@,
        ));
        out
    }
}

/// Refusals stand in row order.
impl Ranked for Rejected {
    open spec fn in_order(a: RejectedView, b: RejectedView) -> bool {
        a.row <= b.row
    }

    proof fn total(a: RejectedView, b: RejectedView) {
    }

    proof fn transitive(a: RejectedView, b: RejectedView, c: RejectedView) {
    }

    fn not_after(&self, other: &Rejected) -> (b: bool) {
        self.row <= other.row
    }
}

/// Candidates stand in `(Submit, JobIDRaw)` order.
impl<'a> Ranked for Candidate<'a> {
    open spec fn in_order(a: CandidateView, b: CandidateView) -> bool {
        text::precedes(a.submit, b.submit) || (a.submit == b.submit && a.job_number
            <= b.job_number)
    }

    proof fn total(a: CandidateView, b: CandidateView) {
        table::lemma_precedes_total(a.submit, b.submit);
    }

    proof fn transitive(a: CandidateView, b: CandidateView, c: CandidateView) {
        if text::precedes(a.submit, b.submit) && text::precedes(b.submit, c.submit) {
            table::lemma_precedes_transitive(a.submit, b.submit, c.submit);
        }
    }

    fn not_after(&self, other: &Candidate<'a>) -> (b: bool) {
        comes_before(self.submit, other.submit) || (same(self.submit, other.submit)
            && self.job_number <= other.job_number)
    }
}

/// The rows that are not jobs, by what made them so. **Data.**
#[derive(Debug, Clone, Copy, PartialEq, Eq, Structural)]
pub struct Skips {
    pub steps: usize,
    pub unfinished: usize,
    pub non_gpu: usize,
}

/// What the counts of skipped rows hold.
pub struct SkipsView {
    pub steps: nat,
    pub unfinished: nat,
    pub non_gpu: nat,
}

impl View for Skips {
    type V = SkipsView;

    open spec fn view(&self) -> SkipsView {
        SkipsView {
            steps: self.steps as nat,
            unfinished: self.unfinished as nat,
            non_gpu: self.non_gpu as nat,
        }
    }
}

/// The counts with one more skip.
pub open spec fn skips_with(skips: SkipsView, skip: Skip) -> SkipsView {
    match skip {
        Skip::Step => SkipsView { steps: skips.steps + 1, ..skips },
        Skip::Unfinished => SkipsView { unfinished: skips.unfinished + 1, ..skips },
        Skip::NoGpu => SkipsView { non_gpu: skips.non_gpu + 1, ..skips },
    }
}

impl Skips {
    /// This skip, counted. **Calculation.**
    #[must_use]
    pub fn and(self, skip: Skip) -> (skips: Skips)
        requires
            skip == Skip::Step ==> self.steps < usize::MAX,
            skip == Skip::Unfinished ==> self.unfinished < usize::MAX,
            skip == Skip::NoGpu ==> self.non_gpu < usize::MAX,
        ensures
            skips@ == skips_with(self@, skip),
    {
        match skip {
            Skip::Step => Skips { steps: self.steps + 1, ..self },
            Skip::Unfinished => Skips { unfinished: self.unfinished + 1, ..self },
            Skip::NoGpu => Skips { non_gpu: self.non_gpu + 1, ..self },
        }
    }
}

/// Every row of an export, classified but not yet placed in time. **Data.**
///
/// `skipped` counts the rows that are not faults; kept and rejected rows are
/// not counted here, because a candidate can still fail to be placed and the
/// tally must describe what the conversion produced, not what it hoped for.
#[derive(Debug, Clone)]
pub struct Read<'a> {
    pub candidates: Vec<Candidate<'a>>,
    pub rejected: Vec<Rejected>,
    /// Every non-blank line the export had.
    pub rows: usize,
    pub skipped: Skips,
}

/// What the rows of an export hold.
#[verifier::ext_equal]
pub struct ReadView {
    pub candidates: Seq<CandidateView>,
    pub rejected: Seq<RejectedView>,
    pub rows: nat,
    pub skipped: SkipsView,
}

impl<'a> View for Read<'a> {
    type V = ReadView;

    open spec fn view(&self) -> ReadView {
        ReadView {
            candidates: order::views(self.candidates@),
            rejected: order::views(self.rejected@),
            rows: self.rows as nat,
            skipped: self.skipped@,
        }
    }
}

/// Whether every row is in one pile and no other.
pub open spec fn adds_up(read: ReadView) -> bool {
    read.rows == read.candidates.len() + read.rejected.len() + read.skipped.steps
        + read.skipped.unfinished + read.skipped.non_gpu
}

/// The rows with one more, in whichever pile it belongs in.
pub open spec fn read_with(
    read: ReadView,
    row: nat,
    outcome: Result<Classified<CandidateView>, CauseView>,
) -> ReadView {
    match outcome {
        Ok(Classified::Kept(candidate)) => ReadView {
            candidates: read.candidates.push(candidate),
            rows: read.rows + 1,
            ..read
        },
        Ok(Classified::Skipped(skip)) => ReadView {
            skipped: skips_with(read.skipped, skip),
            rows: read.rows + 1,
            ..read
        },
        Err(cause) => ReadView {
            rejected: read.rejected.push(RejectedView { row, cause }),
            rows: read.rows + 1,
            ..read
        },
    }
}

/// No rows at all.
pub open spec fn nothing_read() -> ReadView {
    ReadView {
        candidates: Seq::empty(),
        rejected: Seq::empty(),
        rows: 0,
        skipped: SkipsView { steps: 0, unfinished: 0, non_gpu: 0 },
    }
}

/// Whether a line of an export is blank.
pub open spec fn is_blank(line: Seq<char>) -> bool {
    text::trimmed_end(line).len() == 0
}

/// The answer for a line, where there is one: whether its instant is one.
pub open spec fn answer(legible: Seq<bool>, line: int) -> bool {
    line < legible.len() && legible[line]
}

/// These lines of an export, classified in file order.
pub open spec fn read_in(
    lines: Seq<Seq<char>>,
    rules: Seq<RuleView>,
    legible: Seq<bool>,
) -> ReadView
    decreases lines.len(),
{
    if lines.len() == 0 {
        nothing_read()
    } else {
        let before = read_in(lines.drop_last(), rules, legible);
        if is_blank(lines.last()) {
            before
        } else {
            read_with(
                before,
                lines.len(),
                row::classified(
                    lines.len(),
                    text::trimmed_end(lines.last()),
                    rules,
                    answer(legible, lines.len() - 1),
                ),
            )
        }
    }
}

/// The rows with the candidates in `(Submit, JobIDRaw)` order.
pub open spec fn in_submit_order(read: ReadView) -> ReadView {
    ReadView { candidates: order::sorted::<Candidate>(read.candidates), ..read }
}

/// A whole export, classified.
pub open spec fn export_in(
    text: Seq<char>,
    rules: Seq<RuleView>,
    legible: Seq<bool>,
) -> ReadView {
    in_submit_order(read_in(text::lines_of(text), rules, legible))
}

/// A candidate as a job at its arrival hour.
pub open spec fn place_in(
    candidate: CandidateView,
    clock: ClockView,
    hours: HoursView,
    id: JobId,
) -> Result<(Job, Seq<char>), CauseView> {
    match site::hour_in(hours, candidate.submit) {
        None => Err(
            CauseView::Outside { value: candidate.submit, covers: site::covered(hours, clock) },
        ),
        Some(arrival) => match site::later(arrival, candidate.window_hours) {
            None => Err(CauseView::Deadline { window: candidate.window_hours }),
            Some(deadline) => Ok(
                (
                    Job {
                        id,
                        tier: candidate.tier,
                        gpus: candidate.gpus,
                        actual_seconds: candidate.actual_seconds,
                        arrival,
                        requested_hours: candidate.requested_hours,
                        deadline,
                        pad_hours: candidate.pad_hours,
                    },
                    candidate.job_id,
                ),
            ),
        },
    }
}

/// The id of the job that follows this many: dense, from 0.
pub open spec fn id_after(jobs: nat) -> JobId {
    if jobs <= u32::MAX {
        JobId(jobs as u32)
    } else {
        JobId(u32::MAX)
    }
}

/// Candidates placed one after the other.
#[verifier::ext_equal]
pub struct Placement {
    pub jobs: Seq<Job>,
    pub id_map: Seq<(JobId, Seq<char>)>,
    pub rejected: Seq<RejectedView>,
}

/// These candidates placed, each with the next id, and those that cannot be
/// refused.
pub open spec fn placement(
    candidates: Seq<CandidateView>,
    clock: ClockView,
    hours: HoursView,
) -> Placement
    decreases candidates.len(),
{
    if candidates.len() == 0 {
        Placement { jobs: Seq::empty(), id_map: Seq::empty(), rejected: Seq::empty() }
    } else {
        let before = placement(candidates.drop_last(), clock, hours);
        match place_in(candidates.last(), clock, hours, id_after(before.jobs.len())) {
            Ok((job, raw)) => Placement {
                jobs: before.jobs.push(job),
                id_map: before.id_map.push((job.id, raw)),
                ..before
            },
            Err(cause) => Placement {
                rejected: before.rejected.push(RejectedView { row: candidates.last().row, cause }),
                ..before
            },
        }
    }
}

/// The rows with every candidate placed.
pub open spec fn placed_in(read: ReadView, clock: ClockView, hours: HoursView) -> ConversionView {
    let made = placement(read.candidates, clock, hours);
    ConversionView {
        jobs: order::sorted::<Job>(made.jobs),
        id_map: made.id_map,
        tally: TallyView {
            read: read.rows,
            kept: made.jobs.len(),
            steps: read.skipped.steps,
            unfinished: read.skipped.unfinished,
            non_gpu: read.skipped.non_gpu,
            rejected: read.rejected.len() + made.rejected.len(),
        },
        rejected: order::sorted::<Rejected>(read.rejected + made.rejected),
    }
}

/// The latest hour key of some candidates' `Submit`.
pub open spec fn latest_key(candidates: Seq<CandidateView>) -> Option<Seq<char>>
    decreases candidates.len(),
{
    if candidates.len() == 0 {
        None
    } else {
        let key = site::hour_key_in(candidates.last().submit);
        match latest_key(candidates.drop_last()) {
            None => Some(key),
            Some(latest) => if text::precedes(key, latest) {
                Some(latest)
            } else {
                Some(key)
            },
        }
    }
}

/// A whole export as jobs on the contract.
pub open spec fn conversion(
    text: Seq<char>,
    legible: Seq<bool>,
    clock: ClockView,
    rules: Seq<RuleView>,
    allow_dst_crossing: bool,
) -> Result<ConversionView, IngestErrorView> {
    let read = export_in(text, rules, legible);
    if read.rows == 0 {
        Err(IngestErrorView::NoRows)
    } else {
        match latest_key(read.candidates) {
            None => Ok(placed_in(read, clock, site::no_hours())),
            Some(latest) => match site::hours_until(clock, latest) {
                Err(e) => Err(e),
                Ok(hours) => match clock.reports[hours.past_end.0 as int] {
                    Some(crossing) => if allow_dst_crossing {
                        Ok(placed_in(read, clock, hours))
                    } else {
                        Err(site::refused(clock, crossing))
                    },
                    None => Ok(placed_in(read, clock, hours)),
                },
            },
        }
    }
}

impl<'a> Candidate<'a> {
    /// This candidate as a job at its arrival hour. **Calculation.**
    pub fn place(&self, clock: &SiteClock, hours: &LocalHours, id: JobId) -> (r: Result<
        (Job, String),
        RejectCause,
    >)
        ensures
            match (r, place_in(self@, clock@, hours@, id)) {
                (Ok((job, raw)), Ok(expected)) => job == expected.0 && raw@ == expected.1,
                (Err(e), Err(expected)) => e@ == expected,
                _ => false,
            },
    {
        let arrival = match hours.hour_of(self.submit) {
            Some(hour) => hour,
            None => return Err(
                RejectCause::Outside { value: string_of(self.submit), covers: hours.covers(clock) },
            ),
        };
        let deadline = match arrival.offset_by(self.window_hours) {
            Some(hour) => hour,
            None => return Err(RejectCause::Deadline { window: self.window_hours }),
        };
        Ok(
            (
                Job {
                    id,
                    tier: self.tier,
                    gpus: self.gpus,
                    actual_seconds: self.actual_seconds,
                    arrival,
                    requested_hours: self.requested_hours,
                    deadline,
                    pad_hours: self.pad_hours,
                },
                string_of(self.job_id),
            ),
        )
    }
}

/// The id that the next job takes: dense, from 0. **Calculation.**
#[must_use]
pub fn next_id(jobs: &Vec<Job>) -> (id: JobId)
    ensures
        id == id_after(jobs@.len()),
{
    let n: usize = jobs.len();
    if n as u64 <= u32::MAX as u64 {
        JobId(n as u32)
    } else {
        JobId(u32::MAX)
    }
}

/// Every row that is not blank is in one pile.
pub proof fn lemma_read_adds_up(lines: Seq<Seq<char>>, rules: Seq<RuleView>, legible: Seq<bool>)
    ensures
        adds_up(read_in(lines, rules, legible)),
        read_in(lines, rules, legible).rows <= lines.len(),
    decreases lines.len(),
{
    if lines.len() > 0 {
        lemma_read_adds_up(lines.drop_last(), rules, legible);
    }
}

impl<'a> Read<'a> {
    /// Classify every row, then order the candidates by `(Submit, JobIDRaw)`.
    /// **Calculation.**
    pub fn of(text: &'a [char], map: &TierMap, legible: &Vec<bool>) -> (read: Read<'a>)
        ensures
            read@ == export_in(text@, map@, legible@),
    {
        let rows = lines(text);
        let ghost all = text::views(rows@);
        let mut read = Read {
            candidates: Vec::new(),
            rejected: Vec::new(),
            rows: 0,
            skipped: Skips { steps: 0, unfinished: 0, non_gpu: 0 },
        };
        assert(read@ =~= read_in(all.take(0), map@, legible@));
        let mut i: usize = 0;
        while i < rows.len()
            invariant
                i <= rows@.len(),
                all == text::views(rows@),
                read@ == read_in(all.take(i as int), map@, legible@),
            decreases rows@.len() - i,
        {
            let line = trim_end(rows[i]);
            let ghost so_far = all.take(i + 1);
            proof {
                assert(so_far.drop_last() =~= all.take(i as int));
                assert(so_far.last() == rows@[i as int]@);
                lemma_read_adds_up(all.take(i as int), map@, legible@);
            }
            if line.len() > 0 {
                let known = i < legible.len() && legible[i];
                read = read.and(i + 1, classify(i + 1, line, map, known));
            }
            i = i + 1;
        }
        assert(all.take(i as int) =~= all);
        let candidates = sort(read.candidates);
        Read { candidates, rejected: read.rejected, rows: read.rows, skipped: read.skipped }
    }

    /// One classified row, in whichever pile it belongs in. **Calculation.**
    #[must_use]
    pub fn and(self, row: usize, outcome: Result<Classified<Candidate<'a>>, RejectCause>) -> (read:
        Read<'a>)
        requires
            adds_up(self@),
            self.rows < usize::MAX,
        ensures
            read@ == read_with(self@, row as nat, record::seen(outcome)),
    {
        let mut candidates = self.candidates;
        let mut rejected = self.rejected;
        let mut skipped = self.skipped;
        match outcome {
            Ok(Classified::Kept(candidate)) => candidates.push(candidate),
            Ok(Classified::Skipped(skip)) => skipped = skipped.and(skip),
            Err(cause) => rejected.push(Rejected { row, cause }),
        }
        let read = Read { candidates, rejected, rows: self.rows + 1, skipped };
        assert(read@ =~= read_with(self@, row as nat, record::seen(outcome)));
        read
    }

    /// Place every candidate in the export's hours, and number them.
    /// **Calculation.**
    ///
    /// Ids are dense and follow `(Submit, JobIDRaw)`; the file is then sorted
    /// by `(arrival, id)`, which is the order every other jobs file is in.
    #[must_use]
    pub fn placed(self, clock: &SiteClock, hours: &LocalHours) -> (converted: Conversion)
        ensures
            converted@ == placed_in(self@, clock@, hours@),
    {
        let ghost all = self@.candidates;
        let ghost first = self@.rejected;
        let mut jobs: Vec<Job> = Vec::new();
        let mut id_map: Vec<(JobId, String)> = Vec::new();
        let mut rejected: Vec<Rejected> = self.rejected;
        let candidates = self.candidates;
        let mut i: usize = 0;
        assert(id_views(id_map@) =~= placement(all.take(0), clock@, hours@).id_map);
        assert(order::views(rejected@) =~= first + placement(all.take(0), clock@, hours@).rejected);
        while i < candidates.len()
            invariant
                i <= candidates@.len(),
                all == order::views(candidates@),
                jobs@ == placement(all.take(i as int), clock@, hours@).jobs,
                id_views(id_map@) == placement(all.take(i as int), clock@, hours@).id_map,
                order::views(rejected@) == first + placement(
                    all.take(i as int),
                    clock@,
                    hours@,
                ).rejected,
            decreases candidates@.len() - i,
        {
            let ghost before = placement(all.take(i as int), clock@, hours@);
            let ghost ids = id_map@;
            let ghost refusals = rejected@;
            assert(all.take(i + 1).drop_last() =~= all.take(i as int));
            assert(all.take(i + 1).last() == candidates@[i as int]@);
            match candidates[i].place(clock, hours, next_id(&jobs)) {
                Ok((job, raw)) => {
                    jobs.push(job);
                    id_map.push((job.id, raw));
                    assert(id_views(id_map@) =~= id_views(ids).push((job.id, raw@)));
                },
                Err(cause) => {
                    let refusal = Rejected { row: candidates[i].row, cause };
                    rejected.push(refusal);
                    assert(order::views(rejected@) =~= order::views(refusals).push(refusal@));
                    assert(order::views(rejected@) =~= first + before.rejected.push(refusal@));
                },
            }
            i = i + 1;
        }
        assert(all.take(i as int) =~= all);
        let ghost made = placement(all, clock@, hours@);
        proof {
            order::law_sorted::<Job>(made.jobs);
            order::law_sorted::<Rejected>(first + made.rejected);
            assert(order::views(jobs@) =~= jobs@);
        }
        let jobs = sort(jobs);
        let rejected = sort(rejected);
        assert(order::views(jobs@) =~= jobs@);
        let tally = Tally {
            read: self.rows,
            kept: jobs.len(),
            steps: self.skipped.steps,
            unfinished: self.skipped.unfinished,
            non_gpu: self.skipped.non_gpu,
            rejected: rejected.len(),
        };
        let ghost refusals = order::views(rejected@);
        assert(refusals.len() == rejected@.len());
        let converted = Conversion { jobs, id_map, tally, rejected };
        assert(converted@ =~= placed_in(self@, clock@, hours@));
        converted
    }
}

/// The latest hour key of the candidates' `Submit`. **Calculation.**
fn latest<'a>(candidates: &Vec<Candidate<'a>>) -> (r: Option<&'a [char]>)
    ensures
        match (r, latest_key(order::views(candidates@))) {
            (Some(key), Some(expected)) => key@ == expected,
            (None, None) => true,
            _ => false,
        },
{
    let ghost all = order::views(candidates@);
    let mut found: Option<&'a [char]> = None;
    let mut i: usize = 0;
    while i < candidates.len()
        invariant
            i <= candidates@.len(),
            all == order::views(candidates@),
            match (found, latest_key(all.take(i as int))) {
                (Some(key), Some(expected)) => key@ == expected,
                (None, None) => true,
                _ => false,
            },
        decreases candidates@.len() - i,
    {
        assert(all.take(i + 1).drop_last() =~= all.take(i as int));
        assert(all.take(i + 1).last() == candidates@[i as int]@);
        let key = hour_key(candidates[i].submit);
        found = match found {
            None => Some(key),
            Some(latest) => if comes_before(key, latest) {
                Some(latest)
            } else {
                Some(key)
            },
        };
        i = i + 1;
    }
    assert(all.take(i as int) =~= all);
    found
}

/// The instant to be looked up for each line of an export, where there is one:
/// the `Submit` of a row that would be kept for it, in zone zero.
/// **Calculation.**
///
/// A local reading is an instant as soon as a zone is added, and which zone is
/// irrelevant to the question whether it is a reading at all.
#[must_use]
pub fn instants(text: &str, map: &TierMap) -> (r: Vec<Option<String>>)
    ensures
        r@.len() == text::lines_of(text@).len(),
        forall|i: int|
            0 <= i < r@.len() ==> text::optional(#[trigger] r@[i]) == row::instant_in(
                text::trimmed_end(text::lines_of(text@)[i]),
                map@,
            ),
{
    let chars = chars_of(text);
    let rows = lines(chars.as_slice());
    let ghost all = text::views(rows@);
    let mut asked: Vec<Option<String>> = Vec::new();
    let mut i: usize = 0;
    while i < rows.len()
        invariant
            i <= rows@.len(),
            all == text::views(rows@),
            asked@.len() == i,
            forall|k: int|
                0 <= k < i ==> text::optional(#[trigger] asked@[k]) == row::instant_in(
                    text::trimmed_end(all[k]),
                    map@,
                ),
        decreases rows@.len() - i,
    {
        assert(all[i as int] == rows@[i as int]@);
        match screen(trim_end(rows[i]), map) {
            Ok(Classified::Kept(job)) => {
                let mut instant = string_of(job.fields.submit);
                instant.append("Z");
                asked.push(Some(instant));
            },
            _ => asked.push(None),
        }
        i = i + 1;
    }
    asked
}

/// The latest `YYYY-MM-DDTHH` of an export's kept rows, up to which its hours
/// are to be read; `None` where there is nothing to place. **Calculation.**
#[must_use]
pub fn latest_hour(text: &str, legible: &Vec<bool>, map: &TierMap) -> (r: Option<String>)
    ensures
        text::optional(r) == latest_key(export_in(text@, map@, legible@).candidates),
{
    let chars = chars_of(text);
    let read = Read::of(chars.as_slice(), map, legible);
    match latest(&read.candidates) {
        Some(key) => Some(string_of(key)),
        None => None,
    }
}

/// Turn a whole `sacct` export into jobs on the contract. **Calculation.**
///
/// `legible` says of each line whether the instant that [`instants`] gives for
/// it is one; a line without an answer has none.
///
/// `allow_dst_crossing` is the operator saying they know the export spans a
/// clock change and want it read anyway; without it a crossing is refused by
/// name, because an hour that happened twice makes two rows' order a guess.
///
/// An export that yields no jobs is not an error here: the tally and the
/// refusals are exactly what the operator needs to see, and a caller that
/// wanted a jobs file decides for itself that an empty one is no use. Only a
/// file with no rows at all has nothing to report.
///
/// # Errors
/// [`IngestError::NoRows`] for a file with no rows,
/// [`IngestError::DstCrossing`] for a span the operator has not allowed, and
/// [`IngestError::ExportTooLong`] for a `Submit` past an export's reach.
pub fn map_export(
    text: &str,
    legible: &Vec<bool>,
    clock: &SiteClock,
    map: &TierMap,
    allow_dst_crossing: bool,
) -> (r: Result<Conversion, IngestError>)
    ensures
        record::seen(r) == conversion(text@, legible@, clock@, map@, allow_dst_crossing),
{
    let chars = chars_of(text);
    let read = Read::of(chars.as_slice(), map, legible);
    if read.rows == 0 {
        return Err(IngestError::NoRows);
    }
    let until = match latest(&read.candidates) {
        Some(key) => key,
        None => return Ok(read.placed(clock, &LocalHours::none())),
    };
    let hours = match LocalHours::of(clock, until) {
        Ok(hours) => hours,
        Err(e) => return Err(e),
    };
    match clock.crossing_report(hours.end()) {
        Some(crossing) => if allow_dst_crossing {
            Ok(read.placed(clock, &hours))
        } else {
            Err(crossing_refused(clock, crossing))
        },
        None => Ok(read.placed(clock, &hours)),
    }
}

}
