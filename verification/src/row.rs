//! One row of an export: kept, skipped or rejected.
//!
//! Those are three different things. A **skipped** row is not a fault: a job
//! step, a job still running at export time, a job that asked for no GPU. A
//! **rejected** row is a fault in the export, a field that cannot be read, and
//! it is reported with its row number and the field that failed, never dropped
//! quietly.
//!
//! `Submit` is a local clock reading with no zone on it, and whether a text is
//! one is not decided here: a row says which instant is to be looked up, and
//! takes the answer.

use vstd::prelude::*;
use crate::number;
use crate::number::{parse_u32, parse_u64, push_decimal};
use crate::record;
use crate::text;
use crate::text::{first_word, is_word, split, split_once, starts_with, string_of, trim};
use crate::tiers;
use crate::tiers::{RuleView, Tier, TierMap};

verus! {

/// Minutes in an hour.
pub const MINUTES_PER_HOUR: u32 = 60;

/// Why a row is a fault in the export rather than a job.
///
/// Every variant names the field it failed on, because "row 12 is bad" sends
/// an operator to read a row and "row 12, `AllocTRES`" sends them to read a
/// field.
#[allow(inconsistent_fields)]
#[derive(Debug, Clone, PartialEq, Eq)]
pub enum RejectCause {
    /// The row has another number of fields than the documented format.
    Arity { expected: usize, actual: usize },
    /// A field does not hold what it should.
    Field { field: &'static str, value: String, expected: &'static str },
    /// No rule covers the row.
    Unmapped { qos: String, partition: String },
    /// The submit time is none of the export's hours.
    Outside { value: String, covers: String },
    /// The deadline lies past the last hour index.
    Deadline { window: u32 },
}

/// What a cause holds.
#[verifier::ext_equal]
#[allow(inconsistent_fields)]
pub enum CauseView {
    Arity { expected: nat, actual: nat },
    Field { field: Seq<char>, value: Seq<char>, expected: Seq<char> },
    Unmapped { qos: Seq<char>, partition: Seq<char> },
    Outside { value: Seq<char>, covers: Seq<char> },
    Deadline { window: u32 },
}

impl View for RejectCause {
    type V = CauseView;

    open spec fn view(&self) -> CauseView {
        match self {
            RejectCause::Arity { expected, actual } => CauseView::Arity {
                expected: *expected as nat,
                actual: *actual as nat,
            },
            RejectCause::Field { field, value, expected } => CauseView::Field {
                field: field@,
                value: value@,
                expected: expected@,
            },
            RejectCause::Unmapped { qos, partition } => CauseView::Unmapped {
                qos: qos@,
                partition: partition@,
            },
            RejectCause::Outside { value, covers } => CauseView::Outside {
                value: value@,
                covers: covers@,
            },
            RejectCause::Deadline { window } => CauseView::Deadline { window: *window },
        }
    }
}

/// The field that a row failed on.
pub open spec fn field_in(cause: CauseView) -> Seq<char> {
    match cause {
        CauseView::Arity { .. } => "the row"@,
        CauseView::Field { field, .. } => field,
        CauseView::Unmapped { .. } => "QOS"@,
        CauseView::Outside { .. } => "Submit"@,
        CauseView::Deadline { .. } => "Submit"@,
    }
}

/// A cause as one line of text.
pub open spec fn cause_text(cause: CauseView) -> Seq<char> {
    match cause {
        CauseView::Arity { expected, actual } => "the row has "@ + number::decimal(actual)
            + " fields, and the documented sacct format has "@ + number::decimal(expected),
        CauseView::Field { field, value, expected } => "field `"@ + field + "` holds `"@ + value
            + "`, which is not "@ + expected,
        CauseView::Unmapped { qos, partition } => "field `QOS` holds `"@ + qos
            + "` and `Partition` holds `"@ + partition + "`, which no rule matches"@,
        CauseView::Outside { value, covers } => "field `Submit` holds `"@ + value
            + "`, which is not an hour this export covers ("@ + covers + ")"@,
        CauseView::Deadline { window } => "field `Submit` puts the deadline "@ + number::decimal(
            window as nat,
        ) + " hours later than an hour index reaches"@,
    }
}

impl RejectCause {
    /// The field the row failed on. **Calculation.**
    #[must_use]
    pub fn field(&self) -> (field: &'static str)
        ensures
            field@ == field_in(self@),
    {
        match self {
            RejectCause::Arity { .. } => "the row",
            RejectCause::Field { field, .. } => field,
            RejectCause::Unmapped { .. } => "QOS",
            RejectCause::Outside { .. } | RejectCause::Deadline { .. } => "Submit",
        }
    }

    /// The cause as one line. **Calculation.**
    #[must_use]
    pub fn message(&self) -> (line: String)
        ensures
            line@ == cause_text(self@),
    {
        let mut out = String::new();
        match self {
            RejectCause::Arity { expected, actual } => {
                out.append("the row has ");
                push_decimal(&mut out, *actual as u64);
                out.append(" fields, and the documented sacct format has ");
                push_decimal(&mut out, *expected as u64);
            },
            RejectCause::Field { field, value, expected } => {
                out.append("field `");
                out.append(field);
                out.append("` holds `");
                out.append(value.as_str());
                out.append("`, which is not ");
                out.append(expected);
            },
            RejectCause::Unmapped { qos, partition } => {
                out.append("field `QOS` holds `");
                out.append(qos.as_str());
                out.append("` and `Partition` holds `");
                out.append(partition.as_str());
                out.append("`, which no rule matches");
            },
            RejectCause::Outside { value, covers } => {
                out.append("field `Submit` holds `");
                out.append(value.as_str());
                out.append("`, which is not an hour this export covers (");
                out.append(covers.as_str());
                out.append(")");
            },
            RejectCause::Deadline { window } => {
                out.append("field `Submit` puts the deadline ");
                push_decimal(&mut out, *window as u64);
                out.append(" hours later than an hour index reaches");
            },
        }
        assert(out@ =~= cause_text(self@));
        out
    }
}

/// Why a row is not a job, without being a fault. **Data.**
#[derive(Debug, Clone, Copy, PartialEq, Eq, Structural)]
pub enum Skip {
    /// A job step, `1234.batch`, which is part of a job already counted.
    Step,
    /// Still running, or never ran: its runtime is not final.
    Unfinished,
    /// Asked for no GPU, so it is not work to be scheduled.
    NoGpu,
}

/// One `sacct` line, split but not yet interpreted. **Data.**
///
/// `Start`, `End` and `User` are not fields of this type: nothing maps them.
#[derive(Debug, Clone, Copy)]
pub struct SacctRow<'a> {
    pub job_id: &'a [char],
    pub submit: &'a [char],
    pub elapsed: &'a [char],
    pub tres: &'a [char],
    pub timelimit: &'a [char],
    pub qos: &'a [char],
    pub partition: &'a [char],
    pub state: &'a [char],
}

/// What a split line holds.
#[verifier::ext_equal]
pub struct RowView {
    pub job_id: Seq<char>,
    pub submit: Seq<char>,
    pub elapsed: Seq<char>,
    pub tres: Seq<char>,
    pub timelimit: Seq<char>,
    pub qos: Seq<char>,
    pub partition: Seq<char>,
    pub state: Seq<char>,
}

impl<'a> View for SacctRow<'a> {
    type V = RowView;

    open spec fn view(&self) -> RowView {
        RowView {
            job_id: self.job_id@,
            submit: self.submit@,
            elapsed: self.elapsed@,
            tres: self.tres@,
            timelimit: self.timelimit@,
            qos: self.qos@,
            partition: self.partition@,
            state: self.state@,
        }
    }
}

/// A row that will be a job once the export's hours are known. **Data.**
///
/// Everything but the arrival, the deadline and the id, which cannot be
/// settled row by row: the hour index needs the export's range, and the id is
/// the row's position in `(Submit, JobIDRaw)` order.
#[derive(Debug, Clone, Copy)]
pub struct Candidate<'a> {
    pub row: usize,
    pub job_id: &'a [char],
    /// `JobIDRaw` as a number, which is what `(Submit, JobIDRaw)` orders by:
    /// `9` precedes `10` numerically and follows it alphabetically.
    pub job_number: u64,
    pub submit: &'a [char],
    pub tier: Tier,
    pub gpus: u32,
    pub actual_seconds: u32,
    pub requested_hours: u32,
    pub window_hours: u32,
    pub pad_hours: u32,
}

/// What a candidate holds.
#[verifier::ext_equal]
pub struct CandidateView {
    pub row: nat,
    pub job_id: Seq<char>,
    pub job_number: u64,
    pub submit: Seq<char>,
    pub tier: Tier,
    pub gpus: u32,
    pub actual_seconds: u32,
    pub requested_hours: u32,
    pub window_hours: u32,
    pub pad_hours: u32,
}

impl<'a> View for Candidate<'a> {
    type V = CandidateView;

    open spec fn view(&self) -> CandidateView {
        CandidateView {
            row: self.row as nat,
            job_id: self.job_id@,
            job_number: self.job_number,
            submit: self.submit@,
            tier: self.tier,
            gpus: self.gpus,
            actual_seconds: self.actual_seconds,
            requested_hours: self.requested_hours,
            window_hours: self.window_hours,
            pad_hours: self.pad_hours,
        }
    }
}

/// A finished GPU job that a rule covers, its times not yet read. **Data.**
#[derive(Debug, Clone, Copy)]
pub struct Covered<'a> {
    pub fields: SacctRow<'a>,
    pub job_number: u64,
    pub gpus: u32,
    pub tier: Tier,
    pub window_hours: u32,
    pub pad_hours: u32,
}

/// What a covered job holds.
#[verifier::ext_equal]
pub struct CoveredView {
    pub fields: RowView,
    pub job_number: u64,
    pub gpus: u32,
    pub tier: Tier,
    pub window_hours: u32,
    pub pad_hours: u32,
}

impl<'a> View for Covered<'a> {
    type V = CoveredView;

    open spec fn view(&self) -> CoveredView {
        CoveredView {
            fields: self.fields@,
            job_number: self.job_number,
            gpus: self.gpus,
            tier: self.tier,
            window_hours: self.window_hours,
            pad_hours: self.pad_hours,
        }
    }
}

/// What became of one row: kept in some form, or skipped. **Data.**
#[derive(Debug, Clone, Copy)]
pub enum Classified<T> {
    Kept(T),
    Skipped(Skip),
}

impl<T: View> View for Classified<T> {
    type V = Classified<T::V>;

    open spec fn view(&self) -> Classified<T::V> {
        match self {
            Classified::Kept(kept) => Classified::Kept(kept@),
            Classified::Skipped(skip) => Classified::Skipped(*skip),
        }
    }
}

/// The cause of a field that does not hold what it should.
pub open spec fn wrong(field: Seq<char>, value: Seq<char>, expected: Seq<char>) -> CauseView {
    CauseView::Field { field, value, expected }
}

/// A line, split into the fields that anything reads.
pub open spec fn row_in(line: Seq<char>) -> Result<RowView, CauseView> {
    let f = record::fields_in(line);
    if f.len() != record::FORMAT_FIELDS {
        Err(CauseView::Arity { expected: record::FORMAT_FIELDS as nat, actual: f.len() })
    } else {
        Ok(
            RowView {
                job_id: f[0],
                submit: f[1],
                elapsed: f[4],
                tres: f[5],
                timelimit: f[6],
                qos: f[7],
                partition: f[8],
                state: f[9],
            },
        )
    }
}

/// The number that a `JobIDRaw` is, where it is one.
pub open spec fn job_number_in(job_id: Seq<char>) -> Option<int> {
    number::within(number::unsigned(job_id), 0, u64::MAX as int)
}

/// Whether a `State` means that the job ran and is over.
pub open spec fn is_over(state: Seq<char>) -> bool {
    let word = text::first_word_of(state);
    word == "COMPLETED"@ || word == "TIMEOUT"@ || word == "FAILED"@ || word == "CANCELLED"@
}

/// The name of an `AllocTRES` entry.
pub open spec fn entry_name(entry: Seq<char>) -> Seq<char> {
    match text::cut(entry, '=') {
        Some((name, _)) => name,
        None => entry,
    }
}

/// The count of an `AllocTRES` entry, empty where it has none.
pub open spec fn entry_count(entry: Seq<char>) -> Seq<char> {
    match text::cut(entry, '=') {
        Some((_, count)) => count,
        None => Seq::empty(),
    }
}

/// Whether an `AllocTRES` entry is the job's whole GPU allocation.
pub open spec fn is_gpu_total(entry: Seq<char>) -> bool {
    entry_name(entry) == "gres/gpu"@
}

/// Whether an `AllocTRES` entry is one GPU type of an allocation.
pub open spec fn is_gpu_type(entry: Seq<char>) -> bool {
    "gres/gpu:"@.is_prefix_of(entry_name(entry))
}

/// The sum of the GPU counts of some entries, all the totals or all the types.
pub open spec fn gpu_sum_in(entries: Seq<Seq<char>>, total: bool) -> Result<u32, CauseView>
    decreases entries.len(),
{
    if entries.len() == 0 {
        Ok(0)
    } else {
        match gpu_sum_in(entries.drop_last(), total) {
            Err(e) => Err(e),
            Ok(sum) => if if total {
                is_gpu_total(entries.last())
            } else {
                is_gpu_type(entries.last())
            } {
                let count = entry_count(entries.last());
                match number::within(number::unsigned(count), 0, u32::MAX - sum) {
                    None => Err(wrong("AllocTRES"@, count, "a GPU count"@)),
                    Some(n) => Ok((sum + n) as u32),
                }
            } else {
                Ok(sum)
            },
        }
    }
}

/// The GPUs of an `AllocTRES`: its total where it states one, else the sum of
/// its types.
pub open spec fn gpus_in(tres: Seq<char>) -> Result<u32, CauseView> {
    let entries = text::pieces(tres, ',');
    gpu_sum_in(entries, exists|i: int| 0 <= i < entries.len() && is_gpu_total(#[trigger] entries[i]))
}

/// A `Submit` that is a reading a clock could have shown.
pub open spec fn reading_in(submit: Seq<char>, legible: bool) -> Result<Seq<char>, CauseView> {
    if legible {
        Ok(submit)
    } else {
        Err(wrong("Submit"@, submit, "a local clock reading, like 2026-03-02T08:15:00"@))
    }
}

/// The seconds that a job ran, of which there is at least one.
pub open spec fn seconds_in(elapsed: Seq<char>) -> Result<u32, CauseView> {
    match number::within(number::unsigned(elapsed), 0, u32::MAX as int) {
        None => Err(wrong("ElapsedRaw"@, elapsed, "a count of seconds"@)),
        Some(n) => if n == 0 {
            Err(
                wrong(
                    "ElapsedRaw"@,
                    elapsed,
                    "a runtime: a job that ran no seconds ran nothing"@,
                ),
            )
        } else {
            Ok(n as u32)
        },
    }
}

/// The hours asked for: the limit's minutes rounded up to hours, 0 for no
/// limit.
pub open spec fn requested_in(timelimit: Seq<char>) -> Result<u32, CauseView> {
    if timelimit == "UNLIMITED"@ {
        Ok(0)
    } else {
        match number::within(number::unsigned(timelimit), 0, u32::MAX as int) {
            None => Err(wrong("TimelimitRaw"@, timelimit, "a count of minutes, or UNLIMITED"@)),
            Some(n) => Ok(((n + 59) / 60) as u32),
        }
    }
}

/// A row up to the point where its times are read.
pub open spec fn screened(line: Seq<char>, rules: Seq<RuleView>) -> Result<
    Classified<CoveredView>,
    CauseView,
> {
    match row_in(line) {
        Err(e) => Err(e),
        Ok(fields) => match job_number_in(fields.job_id) {
            None => Ok(Classified::Skipped(Skip::Step)),
            Some(job_number) => if !is_over(fields.state) {
                Ok(Classified::Skipped(Skip::Unfinished))
            } else {
                match gpus_in(fields.tres) {
                    Err(e) => Err(e),
                    Ok(gpus) => if gpus == 0 {
                        Ok(Classified::Skipped(Skip::NoGpu))
                    } else {
                        match tiers::first_rule(rules, fields.qos, fields.partition) {
                            None => Err(
                                CauseView::Unmapped {
                                    qos: fields.qos,
                                    partition: fields.partition,
                                },
                            ),
                            Some(rule) => Ok(
                                Classified::Kept(
                                    CoveredView {
                                        fields,
                                        job_number: job_number as u64,
                                        gpus,
                                        tier: rule.tier,
                                        window_hours: tiers::window_in(rule),
                                        pad_hours: tiers::pad_in(rule),
                                    },
                                ),
                            ),
                        }
                    },
                }
            },
        },
    }
}

/// A covered job with its times read.
pub open spec fn timed(row: nat, job: CoveredView, legible: bool) -> Result<
    CandidateView,
    CauseView,
> {
    match reading_in(job.fields.submit, legible) {
        Err(e) => Err(e),
        Ok(submit) => match seconds_in(job.fields.elapsed) {
            Err(e) => Err(e),
            Ok(actual_seconds) => match requested_in(job.fields.timelimit) {
                Err(e) => Err(e),
                Ok(requested_hours) => Ok(
                    CandidateView {
                        row,
                        job_id: job.fields.job_id,
                        job_number: job.job_number,
                        submit,
                        tier: job.tier,
                        gpus: job.gpus,
                        actual_seconds,
                        requested_hours,
                        window_hours: job.window_hours,
                        pad_hours: job.pad_hours,
                    },
                ),
            },
        },
    }
}

/// One row, as whatever it turns out to be.
pub open spec fn classified(
    row: nat,
    line: Seq<char>,
    rules: Seq<RuleView>,
    legible: bool,
) -> Result<Classified<CandidateView>, CauseView> {
    match screened(line, rules) {
        Err(e) => Err(e),
        Ok(Classified::Skipped(skip)) => Ok(Classified::Skipped(skip)),
        Ok(Classified::Kept(job)) => match timed(row, job, legible) {
            Err(e) => Err(e),
            Ok(candidate) => Ok(Classified::Kept(candidate)),
        },
    }
}

/// The instant that a row's `Submit` is at zone zero, for a row of which it is
/// asked.
pub open spec fn instant_in(line: Seq<char>, rules: Seq<RuleView>) -> Option<Seq<char>> {
    match screened(line, rules) {
        Ok(Classified::Kept(job)) => Some(job.fields.submit + "Z"@),
        _ => None,
    }
}

fn field_cause(field: &'static str, value: &[char], expected: &'static str) -> (e: RejectCause)
    ensures
        e@ == wrong(field@, value@, expected@),
{
    RejectCause::Field { field, value: string_of(value), expected }
}

impl<'a> SacctRow<'a> {
    /// One `|`-separated line, split into the fields anything reads.
    /// **Calculation.**
    pub fn parse(line: &'a [char]) -> (r: Result<SacctRow<'a>, RejectCause>)
        ensures
            record::seen(r) == row_in(line@),
    {
        let f = split(line, '|');
        let ghost p = text::views(f@);
        if f.len() != record::FORMAT_FIELDS {
            return Err(
                RejectCause::Arity { expected: record::FORMAT_FIELDS, actual: f.len() },
            );
        }
        assert forall|i: int| 0 <= i < 11 implies #[trigger] record::fields_in(line@)[i]
            == text::trimmed(f@[i]@) by {
            assert(p[i] == f@[i]@);
        }
        Ok(
            SacctRow {
                job_id: trim(f[0]),
                submit: trim(f[1]),
                elapsed: trim(f[4]),
                tres: trim(f[5]),
                timelimit: trim(f[6]),
                qos: trim(f[7]),
                partition: trim(f[8]),
                state: trim(f[9]),
            },
        )
    }

    /// `JobIDRaw` as a number, or `None` for a job step. **Calculation.**
    ///
    /// A step (`1234.batch`, `1234.0`) is part of a job whose own row is in
    /// the same export, so counting it would count the job twice. A `JobIDRaw`
    /// that is neither is still skipped rather than rejected: Slurm writes
    /// `1234+0` for a heterogeneous job, a shape that is not read and a fault
    /// nobody in the export made.
    #[must_use]
    pub fn job_number(&self) -> (r: Option<u64>)
        ensures
            match r {
                Some(n) => job_number_in(self.job_id@) == Some(n as int),
                None => job_number_in(self.job_id@) is None,
            },
    {
        parse_u64(self.job_id)
    }

    /// Whether the job ran and is over. **Calculation.**
    ///
    /// `State` can carry a trailing clause (`CANCELLED by 1001`), so the first
    /// word is what is matched.
    #[must_use]
    pub fn is_finished(&self) -> (b: bool)
        ensures
            b == is_over(self.state@),
    {
        let word = first_word(self.state);
        is_word(word, "COMPLETED") || is_word(word, "TIMEOUT") || is_word(word, "FAILED")
            || is_word(word, "CANCELLED")
    }
}

/// An `AllocTRES` entry in its two parts. **Calculation.**
fn entry_parts<'a>(entry: &'a [char]) -> (parts: (&'a [char], &'a [char]))
    ensures
        parts.0@ == entry_name(entry@),
        parts.1@ == entry_count(entry@),
{
    match split_once(entry, '=') {
        Some(parts) => parts,
        None => {
            let none = vstd::slice::slice_subrange(entry, 0, 0);
            assert(none@ =~= Seq::<char>::empty());
            (entry, none)
        },
    }
}

/// A bad count stops the sum.
proof fn lemma_sum_stops(entries: Seq<Seq<char>>, total: bool, n: int)
    requires
        0 <= n <= entries.len(),
        gpu_sum_in(entries.take(n), total) is Err,
    ensures
        gpu_sum_in(entries, total) == gpu_sum_in(entries.take(n), total),
    decreases entries.len(),
{
    if n == entries.len() {
        assert(entries.take(n) =~= entries);
    } else {
        assert(entries.drop_last().take(n) =~= entries.take(n));
        lemma_sum_stops(entries.drop_last(), total, n);
    }
}

/// The sum of the GPU counts of the totals, or of the types. **Calculation.**
pub fn gpu_sum(entries: &Vec<&[char]>, total: bool) -> (r: Result<u32, RejectCause>)
    ensures
        record::seen(r) == gpu_sum_in(text::views(entries@), total),
{
    let ghost all = text::views(entries@);
    let mut sum: u32 = 0;
    let mut i: usize = 0;
    while i < entries.len()
        invariant
            i <= entries@.len(),
            all == text::views(entries@),
            gpu_sum_in(all.take(i as int), total) == Ok::<u32, CauseView>(sum),
        decreases entries@.len() - i,
    {
        let ghost so_far = all.take(i + 1);
        assert(so_far.drop_last() =~= all.take(i as int));
        assert(so_far.last() == entries@[i as int]@);
        let (name, count) = entry_parts(entries[i]);
        let wanted = if total {
            is_word(name, "gres/gpu")
        } else {
            starts_with(name, "gres/gpu:")
        };
        if wanted {
            let n: Option<u32> = match parse_u32(count) {
                Some(n) => if n <= u32::MAX - sum {
                    Some(n)
                } else {
                    None
                },
                None => None,
            };
            match n {
                Some(n) => sum = sum + n,
                None => {
                    proof {
                        lemma_sum_stops(all, total, i + 1);
                    }
                    return Err(field_cause("AllocTRES", count, "a GPU count"));
                },
            }
        }
        i = i + 1;
    }
    assert(all.take(i as int) =~= all);
    Ok(sum)
}

/// GPUs allocated, out of `AllocTRES`. **Calculation.**
///
/// Slurm writes both a total and a per-type breakdown when a job asked for a
/// typed GPU (`gres/gpu=3,gres/gpu:a100=3`), so the total wins where it is
/// present and the types are summed only where it is not. Adding both would
/// bill the job twice. A sum that no count holds is a fault of the entry that
/// takes it there.
pub fn gpus_of(tres: &[char]) -> (r: Result<u32, RejectCause>)
    ensures
        record::seen(r) == gpus_in(tres@),
{
    let entries = split(tres, ',');
    let ghost all = text::views(entries@);
    let mut total = false;
    let mut i: usize = 0;
    while i < entries.len()
        invariant
            i <= entries@.len(),
            all == text::views(entries@),
            total == exists|k: int| 0 <= k < i && is_gpu_total(#[trigger] all[k]),
        decreases entries@.len() - i,
    {
        assert(all[i as int] == entries@[i as int]@);
        let (name, _) = entry_parts(entries[i]);
        if is_word(name, "gres/gpu") {
            total = true;
        }
        i = i + 1;
    }
    gpu_sum(&entries, total)
}

/// `Submit`, once it is known to be a reading that a clock could have shown.
/// **Calculation.**
///
/// `sacct` writes `Unknown` for a job that never started, and a value that is
/// not a reading at all must not become the bound that the export's hours are
/// built out to.
pub fn local_reading<'a>(submit: &'a [char], legible: bool) -> (r: Result<
    &'a [char],
    RejectCause,
>)
    ensures
        match (r, reading_in(submit@, legible)) {
            (Ok(reading), Ok(expected)) => reading@ == expected,
            (Err(e), Err(expected)) => e@ == expected,
            _ => false,
        },
{
    if !legible {
        return Err(
            field_cause("Submit", submit, "a local clock reading, like 2026-03-02T08:15:00"),
        );
    }
    Ok(submit)
}

/// The job's real runtime in seconds, out of `ElapsedRaw`. **Calculation.**
pub fn actual_seconds_of(elapsed: &[char]) -> (r: Result<u32, RejectCause>)
    ensures
        record::seen(r) == seconds_in(elapsed@),
{
    match parse_u32(elapsed) {
        None => Err(field_cause("ElapsedRaw", elapsed, "a count of seconds")),
        Some(seconds) => if seconds == 0 {
            Err(
                field_cause(
                    "ElapsedRaw",
                    elapsed,
                    "a runtime: a job that ran no seconds ran nothing",
                ),
            )
        } else {
            Ok(seconds)
        },
    }
}

/// The hours the operator asked for, out of `TimelimitRaw` minutes.
/// **Calculation.**
///
/// Rounded up: a 90-minute limit asks for two hours of the cluster. A job with
/// no limit carries 0, which is read as "unknown".
pub fn requested_hours_of(timelimit: &[char]) -> (r: Result<u32, RejectCause>)
    ensures
        record::seen(r) == requested_in(timelimit@),
{
    if is_word(timelimit, "UNLIMITED") {
        return Ok(0);
    }
    match parse_u32(timelimit) {
        None => Err(
            field_cause("TimelimitRaw", timelimit, "a count of minutes, or UNLIMITED"),
        ),
        Some(minutes) => {
            let whole: u32 = minutes / MINUTES_PER_HOUR;
            if minutes % MINUTES_PER_HOUR == 0 {
                Ok(whole)
            } else {
                Ok(whole + 1)
            }
        },
    }
}

/// A row up to the point where its times are read. **Calculation.**
pub fn screen<'a>(line: &'a [char], map: &TierMap) -> (r: Result<
    Classified<Covered<'a>>,
    RejectCause,
>)
    ensures
        record::seen(r) == screened(line@, map@),
{
    let fields = match SacctRow::parse(line) {
        Ok(fields) => fields,
        Err(e) => return Err(e),
    };
    let job_number: u64 = match fields.job_number() {
        Some(n) => n,
        None => return Ok(Classified::Skipped(Skip::Step)),
    };
    if !fields.is_finished() {
        return Ok(Classified::Skipped(Skip::Unfinished));
    }
    let gpus: u32 = match gpus_of(fields.tres) {
        Ok(n) => n,
        Err(e) => return Err(e),
    };
    if gpus == 0 {
        return Ok(Classified::Skipped(Skip::NoGpu));
    }
    match map.rule_for(fields.qos, fields.partition) {
        None => Err(
            RejectCause::Unmapped {
                qos: string_of(fields.qos),
                partition: string_of(fields.partition),
            },
        ),
        Some(rule) => Ok(
            Classified::Kept(
                Covered {
                    fields,
                    job_number,
                    gpus,
                    tier: rule.tier,
                    window_hours: rule.window_hours(),
                    pad_hours: rule.pad_hours(),
                },
            ),
        ),
    }
}

/// One row, as whatever it turns out to be. **Calculation.**
pub fn classify<'a>(row: usize, line: &'a [char], map: &TierMap, legible: bool) -> (r: Result<
    Classified<Candidate<'a>>,
    RejectCause,
>)
    ensures
        record::seen(r) == classified(row as nat, line@, map@, legible),
{
    let job = match screen(line, map) {
        Ok(Classified::Kept(job)) => job,
        Ok(Classified::Skipped(skip)) => return Ok(Classified::Skipped(skip)),
        Err(e) => return Err(e),
    };
    let submit = match local_reading(job.fields.submit, legible) {
        Ok(submit) => submit,
        Err(e) => return Err(e),
    };
    let actual_seconds: u32 = match actual_seconds_of(job.fields.elapsed) {
        Ok(n) => n,
        Err(e) => return Err(e),
    };
    let requested_hours: u32 = match requested_hours_of(job.fields.timelimit) {
        Ok(n) => n,
        Err(e) => return Err(e),
    };
    Ok(
        Classified::Kept(
            Candidate {
                row,
                job_id: job.fields.job_id,
                job_number: job.job_number,
                submit,
                tier: job.tier,
                gpus: job.gpus,
                actual_seconds,
                requested_hours,
                window_hours: job.window_hours,
                pad_hours: job.pad_hours,
            },
        ),
    )
}

}
