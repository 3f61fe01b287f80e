//! One `sacct` row as a typed record.
//!
//! [`sacct`](https://slurm.schedmd.com/sacct.html) prints one pipe-separated
//! line per accounting row. A line becomes a [`Record`]: timestamps as Unix
//! seconds, runtimes as seconds, wall limits as [`Limit`], job states as a
//! [`State`], and allocated resources as a count per resource name. A row that
//! cannot be read earns an [`Error`] that names the row and the field, never a
//! quiet default.
//!
//! # The clock is the caller's
//!
//! `sacct` prints local clock readings with no zone on them. Every parsing
//! function takes `utc_offset_seconds`, the zone's offset at the time of the
//! export, and computes `unix = civil_interpreted_as_utc - utc_offset_seconds`.
//! A site whose clock changes mid-export makes two calls with two offsets.
//!
//! # Parsing, not deciding
//!
//! Every row parses. Job steps are still records, and so are unfinished jobs;
//! what to keep is the caller's decision.

use vstd::prelude::*;
use crate::calendar;
use crate::calendar::{days_from_civil, days_in_month};
use crate::number;
use crate::number::{parse_i64, parse_u32, parse_u64, push_decimal};
use crate::rounding;
use crate::rounding::parse_count;
use crate::table;
use crate::table::TextMap;
use crate::text;
use crate::text::{
    chars_of, contains, first_word, is_word, lines, split, split_once, starts_with, string_of, trim,
};

verus! {

/// The number of `--format` fields the documented `sacct` invocation has.
pub const FORMAT_FIELDS: usize = 11;

/// What a result holds, each side by its view.
pub open spec fn seen<T: View, E: View>(r: Result<T, E>) -> Result<T::V, E::V> {
    match r {
        Ok(value) => Ok(value@),
        Err(error) => Err(error@),
    }
}

/// One parsed `sacct` row. **Data.**
///
/// Every field is the row's own, typed and unfiltered: a step, a running job
/// and a finished job all parse, and what to keep is the caller's decision.
#[derive(Debug, Clone, PartialEq, Eq)]
pub struct Record {
    /// `JobIDRaw` as printed: `1041`, or `1041.batch` for a job step.
    pub job_id: String,
    /// `Submit` as Unix seconds, from a civil reading and the caller's offset.
    pub submit: i64,
    /// `Start` as Unix seconds.
    pub start: i64,
    /// `End` as Unix seconds.
    pub end: i64,
    /// `ElapsedRaw` in seconds.
    pub elapsed_seconds: u64,
    /// `AllocTRES` as a count per resource name, in name order.
    pub alloc_tres: TextMap<u64>,
    /// `TimelimitRaw` in minutes, or no limit at all.
    pub timelimit: Limit,
    /// `QOS` as printed.
    pub qos: String,
    /// `Partition` as printed.
    pub partition: String,
    /// `State`, matched on its first whitespace-separated word.
    pub state: State,
    /// `User` as printed.
    pub user: String,
}

/// What a record holds.
#[verifier::ext_equal]
pub struct RecordView {
    pub job_id: Seq<char>,
    pub submit: i64,
    pub start: i64,
    pub end: i64,
    pub elapsed_seconds: u64,
    pub alloc_tres: Seq<(Seq<char>, u64)>,
    pub timelimit: Limit,
    pub qos: Seq<char>,
    pub partition: Seq<char>,
    pub state: StateView,
    pub user: Seq<char>,
}

impl View for Record {
    type V = RecordView;

    open spec fn view(&self) -> RecordView {
        RecordView {
            job_id: self.job_id@,
            submit: self.submit,
            start: self.start,
            end: self.end,
            elapsed_seconds: self.elapsed_seconds,
            alloc_tres: self.alloc_tres@,
            timelimit: self.timelimit,
            qos: self.qos@,
            partition: self.partition@,
            state: self.state@,
            user: self.user@,
        }
    }
}

/// `TimelimitRaw`: the minutes a job asked for, or no limit. **Data.**
#[derive(Debug, Clone, Copy, PartialEq, Eq, Structural)]
pub enum Limit {
    /// A wall-clock limit, in minutes.
    Minutes(u32),
    /// The row printed `UNLIMITED`.
    Unlimited,
}

impl View for Limit {
    type V = Limit;

    open spec fn view(&self) -> Limit {
        *self
    }
}

/// `State`, matched on the first whitespace-separated word of the field.
/// **Data.**
///
/// `sacct` appends a clause to some states, as in `CANCELLED by 1001`, and the
/// clause is not part of the state.
#[derive(Debug, Clone, PartialEq, Eq)]
pub enum State {
    /// The job ran and finished within its limit.
    Completed,
    /// The job hit its wall-clock limit.
    Timeout,
    /// The job ran and exited with a failure.
    Failed,
    /// The job was cancelled, by a user or the scheduler.
    Cancelled,
    /// The job is running now; its runtime is not final.
    Running,
    /// The job is queued and has not started.
    Pending,
    /// Any other state, carried as printed.
    Other(String),
}

/// What a state holds.
#[verifier::ext_equal]
pub enum StateView {
    Completed,
    Timeout,
    Failed,
    Cancelled,
    Running,
    Pending,
    Other(Seq<char>),
}

impl View for State {
    type V = StateView;

    open spec fn view(&self) -> StateView {
        match self {
            State::Completed => StateView::Completed,
            State::Timeout => StateView::Timeout,
            State::Failed => StateView::Failed,
            State::Cancelled => StateView::Cancelled,
            State::Running => StateView::Running,
            State::Pending => StateView::Pending,
            State::Other(name) => StateView::Other(name@),
        }
    }
}

/// Why a row could not be parsed. **Data.**
///
/// Every variant names the row, counted from 1, and the field that failed,
/// because "row 12 is bad" sends a reader back to the file and "row 12,
/// `ElapsedRaw`" sends them to the field.
#[allow(inconsistent_fields)]
#[derive(Debug, Clone, PartialEq, Eq)]
pub enum Error {
    /// The row does not have the 11 documented `--format` fields.
    Arity {
        /// The row's line number in the export, counted from 1.
        row: usize,
        /// The number of fields the documented format has.
        expected: usize,
        /// The number of fields the row has.
        actual: usize,
    },
    /// A field holds a value that cannot be read.
    Field {
        /// The row's line number in the export, counted from 1.
        row: usize,
        /// The field that failed, named as the `--format` names it.
        field: &'static str,
        /// The value as printed.
        value: String,
        /// What the field was expected to hold.
        expected: &'static str,
    },
}

/// What an error holds.
#[allow(inconsistent_fields)]
#[verifier::ext_equal]
pub enum ErrorView {
    Arity { row: nat, expected: nat, actual: nat },
    Field { row: nat, field: Seq<char>, value: Seq<char>, expected: Seq<char> },
}

impl View for Error {
    type V = ErrorView;

    open spec fn view(&self) -> ErrorView {
        match self {
            Error::Arity { row, expected, actual } => ErrorView::Arity {
                row: *row as nat,
                expected: *expected as nat,
                actual: *actual as nat,
            },
            Error::Field { row, field, value, expected } => ErrorView::Field {
                row: *row as nat,
                field: field@,
                value: value@,
                expected: expected@,
            },
        }
    }
}

/// The error for a field of a row that holds what it should not.
pub open spec fn bad(row: nat, field: Seq<char>, value: Seq<char>, expected: Seq<char>) -> ErrorView {
    ErrorView::Field { row, field, value, expected }
}

/// The whole number that a part of a timestamp carries.
pub open spec fn whole_in(
    row: nat,
    field: Seq<char>,
    s: Seq<char>,
    expected: Seq<char>,
) -> Result<i64, ErrorView> {
    match number::within(number::signed(s), i64::MIN as int, i64::MAX as int) {
        Some(n) => Ok(n as i64),
        None => Err(bad(row, field, s, expected)),
    }
}

/// The days since the Unix epoch that a `YYYY-MM-DD` date carries.
pub open spec fn days_in(row: nat, field: Seq<char>, date: Seq<char>) -> Result<int, ErrorView> {
    let parts = text::pieces(date, '-');
    if parts.len() != 3 {
        Err(bad(row, field, date, "a date like 2026-03-02"@))
    } else {
        match whole_in(row, field, parts[0], "a year"@) {
            Err(e) => Err(e),
            Ok(year) => match whole_in(row, field, parts[1], "a month from 1 to 12"@) {
                Err(e) => Err(e),
                Ok(month) => match whole_in(row, field, parts[2], "a day from 1 to 31"@) {
                    Err(e) => Err(e),
                    Ok(day) => if calendar::is_date(year as int, month as int, day as int) {
                        Ok(calendar::epoch_days(year as int, month as int, day as int))
                    } else {
                        Err(bad(row, field, date, "a date whose month and day are real"@))
                    },
                },
            },
        }
    }
}

/// The hour, minute and second texts of a `HH:MM` or `HH:MM:SS` time of day.
pub open spec fn clock_parts(time: Seq<char>) -> Option<(Seq<char>, Seq<char>, Seq<char>)> {
    match text::cut(time, ':') {
        None => None,
        Some((hour, rest)) => match text::cut(rest, ':') {
            Some((minute, second)) => Some((hour, minute, second)),
            None => Some((hour, rest, "00"@)),
        },
    }
}

/// The seconds since the epoch of a clock reading taken as UTC.
pub open spec fn civil_in(row: nat, field: Seq<char>, s: Seq<char>) -> Result<int, ErrorView> {
    if s.len() == 0 || s == "Unknown"@ {
        Err(bad(row, field, s, "a clock reading like 2026-03-02T08:15:00, not Unknown"@))
    } else {
        match text::cut(s, 'T') {
            None => Err(bad(row, field, s, "a clock reading like 2026-03-02T08:15:00"@)),
            Some((date, time)) => match days_in(row, field, date) {
                Err(e) => Err(e),
                Ok(days) => match clock_parts(time) {
                    None => Err(bad(row, field, s, "a clock reading like 2026-03-02T08:15:00"@)),
                    Some((hour, minute, second)) => moment_in(
                        row,
                        field,
                        s,
                        days,
                        hour,
                        minute,
                        second,
                    ),
                },
            },
        }
    }
}

/// The seconds since the epoch of a day and a time of day.
pub open spec fn moment_in(
    row: nat,
    field: Seq<char>,
    s: Seq<char>,
    days: int,
    hour: Seq<char>,
    minute: Seq<char>,
    second: Seq<char>,
) -> Result<int, ErrorView> {
    match whole_in(row, field, hour, "an hour of the day"@) {
        Err(e) => Err(e),
        Ok(h) => match whole_in(row, field, minute, "a minute of the hour"@) {
            Err(e) => Err(e),
            Ok(m) => match whole_in(row, field, second, "a second of the minute"@) {
                Err(e) => Err(e),
                Ok(sec) => if 0 <= h < 24 && 0 <= m < 60 && 0 <= sec < 60 {
                    Ok(days * 86_400 + h * 3_600 + m * 60 + sec)
                } else {
                    Err(bad(row, field, s, "a clock reading whose time is a real time of day"@))
                },
            },
        },
    }
}

/// Whether a clock reading's Unix seconds at an offset are ones that a stamp
/// holds.
pub open spec fn fits(civil: int, utc_offset_seconds: i64) -> bool {
    i64::MIN <= civil - utc_offset_seconds <= i64::MAX
}

/// The Unix seconds that a timestamp field carries: the clock reading taken as
/// UTC, less the offset.
pub open spec fn timestamp_in(
    row: nat,
    field: Seq<char>,
    s: Seq<char>,
    utc_offset_seconds: i64,
) -> Result<i64, ErrorView> {
    match civil_in(row, field, s) {
        Err(e) => Err(e),
        Ok(civil) => if fits(civil, utc_offset_seconds) {
            Ok((civil - utc_offset_seconds) as i64)
        } else {
            Err(bad(row, field, s, "a clock reading like 2026-03-02T08:15:00"@))
        },
    }
}

/// `ElapsedRaw` as seconds.
pub open spec fn elapsed_in(row: nat, s: Seq<char>) -> Result<u64, ErrorView> {
    match number::within(number::unsigned(s), 0, u64::MAX as int) {
        Some(n) => Ok(n as u64),
        None => Err(bad(row, "ElapsedRaw"@, s, "a count of seconds"@)),
    }
}

/// `TimelimitRaw` as a limit.
pub open spec fn limit_in(row: nat, s: Seq<char>) -> Result<Limit, ErrorView> {
    if s == "UNLIMITED"@ {
        Ok(Limit::Unlimited)
    } else {
        match number::within(number::unsigned(s), 0, u32::MAX as int) {
            Some(n) => Ok(Limit::Minutes(n as u32)),
            None => Err(bad(row, "TimelimitRaw"@, s, "a count of minutes, or UNLIMITED"@)),
        }
    }
}

/// The digits and points that a text begins with.
pub open spec fn number_prefix(s: Seq<char>) -> Seq<char>
    decreases s.len(),
{
    if s.len() > 0 && (number::is_digit(s[0]) || s[0] == '.') {
        seq![s[0]] + number_prefix(s.skip(1))
    } else {
        Seq::empty()
    }
}

/// The count that one `AllocTRES` entry carries.
pub open spec fn count_of_entry(row: nat, s: Seq<char>) -> Result<u64, ErrorView> {
    match rounding::count_in(number_prefix(s)) {
        Some(n) => Ok(n as u64),
        None => Err(
            bad(row, "AllocTRES"@, s, "a count for a resource in the AllocTRES list"@),
        ),
    }
}

/// The name and the count text of one `AllocTRES` entry.
pub open spec fn entry_parts(entry: Seq<char>) -> (Seq<char>, Seq<char>) {
    match text::cut(entry, '=') {
        Some(parts) => parts,
        None => (entry, "0"@),
    }
}

/// The counts that these `AllocTRES` entries carry, a later entry of a name in
/// place of an earlier one.
pub open spec fn counts_in(row: nat, entries: Seq<Seq<char>>) -> Result<
    Seq<(Seq<char>, u64)>,
    ErrorView,
>
    decreases entries.len(),
{
    if entries.len() == 0 {
        Ok(Seq::empty())
    } else {
        match counts_in(row, entries.drop_last()) {
            Err(e) => Err(e),
            Ok(counts) => if entries.last().len() == 0 {
                Ok(counts)
            } else {
                let (name, count) = entry_parts(entries.last());
                match count_of_entry(row, count) {
                    Err(e) => Err(e),
                    Ok(n) => Ok(table::put(counts, name, n)),
                }
            },
        }
    }
}

/// `AllocTRES` as a count per resource name.
pub open spec fn tres_in(row: nat, s: Seq<char>) -> Result<Seq<(Seq<char>, u64)>, ErrorView> {
    counts_in(row, text::pieces(s, ','))
}

/// The state that a `State` field carries.
pub open spec fn state_in(s: Seq<char>) -> StateView {
    let word = text::first_word_of(s);
    if word == "COMPLETED"@ {
        StateView::Completed
    } else if word == "TIMEOUT"@ {
        StateView::Timeout
    } else if word == "FAILED"@ {
        StateView::Failed
    } else if word == "CANCELLED"@ {
        StateView::Cancelled
    } else if word == "RUNNING"@ {
        StateView::Running
    } else if word == "PENDING"@ {
        StateView::Pending
    } else {
        StateView::Other(word)
    }
}

/// The fields of a line, each without the white space around it.
pub open spec fn fields_in(line: Seq<char>) -> Seq<Seq<char>> {
    text::pieces(line, '|').map_values(|field: Seq<char>| text::trimmed(field))
}

/// The record of a line: its fields in the documented order.
pub open spec fn record_in(row: nat, line: Seq<char>, utc_offset_seconds: i64) -> Result<
    RecordView,
    ErrorView,
> {
    let f = fields_in(line);
    if f.len() != FORMAT_FIELDS {
        Err(ErrorView::Arity { row, expected: FORMAT_FIELDS as nat, actual: f.len() })
    } else {
        match timestamp_in(row, "Submit"@, f[1], utc_offset_seconds) {
            Err(e) => Err(e),
            Ok(submit) => match timestamp_in(row, "Start"@, f[2], utc_offset_seconds) {
                Err(e) => Err(e),
                Ok(start) => match timestamp_in(row, "End"@, f[3], utc_offset_seconds) {
                    Err(e) => Err(e),
                    Ok(end) => match elapsed_in(row, f[4]) {
                        Err(e) => Err(e),
                        Ok(elapsed_seconds) => match tres_in(row, f[5]) {
                            Err(e) => Err(e),
                            Ok(alloc_tres) => match limit_in(row, f[6]) {
                                Err(e) => Err(e),
                                Ok(timelimit) => Ok(
                                    RecordView {
                                        job_id: f[0],
                                        submit,
                                        start,
                                        end,
                                        elapsed_seconds,
                                        alloc_tres,
                                        timelimit,
                                        qos: f[7],
                                        partition: f[8],
                                        state: state_in(f[9]),
                                        user: f[10],
                                    },
                                ),
                            },
                        },
                    },
                },
            },
        }
    }
}

/// Whether a line holds nothing but white space.
pub open spec fn is_blank(line: Seq<char>) -> bool {
    text::trimmed(line).len() == 0
}

/// The records of these lines in order, blank lines left out; the row of a line
/// is its place among all of them, counted from 1.
pub open spec fn records_in(lines: Seq<Seq<char>>, utc_offset_seconds: i64) -> Result<
    Seq<RecordView>,
    ErrorView,
>
    decreases lines.len(),
{
    if lines.len() == 0 {
        Ok(Seq::empty())
    } else {
        match records_in(lines.drop_last(), utc_offset_seconds) {
            Err(e) => Err(e),
            Ok(records) => if is_blank(lines.last()) {
                Ok(records)
            } else {
                match record_in(lines.len(), lines.last(), utc_offset_seconds) {
                    Err(e) => Err(e),
                    Ok(record) => Ok(records.push(record)),
                }
            },
        }
    }
}

/// Whether a `JobIDRaw` is that of a step: a job's, a dot and the step's own.
pub open spec fn is_step_id(job_id: Seq<char>) -> bool {
    text::cut(job_id, '.') is Some
}

/// The sum of the counts of the typed GPU entries.
pub open spec fn typed_gpus(entries: Seq<(Seq<char>, u64)>) -> int
    decreases entries.len(),
{
    if entries.len() == 0 {
        0
    } else {
        typed_gpus(entries.drop_last()) + if "gres/gpu:"@.is_prefix_of(entries.last().0) {
            entries.last().1 as int
        } else {
            0
        }
    }
}

/// The GPUs of an allocation: the total where there is one, the sum of the
/// types where there is not.
pub open spec fn gpus_in(entries: Seq<(Seq<char>, u64)>) -> int {
    match table::lookup(entries, "gres/gpu"@) {
        Some(total) => total as int,
        None => typed_gpus(entries),
    }
}

/// An error as one line of text.
pub open spec fn error_text(e: ErrorView) -> Seq<char> {
    match e {
        ErrorView::Arity { row, expected, actual } => "row "@ + number::decimal(row) + ": has "@
            + number::decimal(actual) + " fields, and the documented sacct format has "@
            + number::decimal(expected),
        ErrorView::Field { row, field, value, expected } => "row "@ + number::decimal(row)
            + ": field `"@ + field + "` holds `"@ + value + "`, which is not "@ + expected,
    }
}

/// The error for a field of a row. **Calculation.**
fn field_error(row: usize, field: &'static str, value: &[char], expected: &'static str) -> (e: Error)
    ensures
        e@ == bad(row as nat, field@, value@, expected@),
{
    Error::Field { row, field, value: string_of(value), expected }
}

/// A whole number that a timestamp part carries. **Calculation.**
pub fn whole(row: usize, field: &'static str, s: &[char], expected: &'static str) -> (r: Result<
    i64,
    Error,
>)
    ensures
        seen(r) == whole_in(row as nat, field@, s@, expected@),
{
    match parse_i64(s) {
        Some(n) => Ok(n),
        None => Err(field_error(row, field, s, expected)),
    }
}

/// The days since the Unix epoch that a `YYYY-MM-DD` date carries, as a civil
/// calculation with no zone and no table. **Calculation.**
///
/// The date has a month of 1 to 12 and a day that its month and year have.
pub fn civil_days(row: usize, field: &'static str, date: &[char]) -> (r: Result<i128, Error>)
    ensures
        match (r, days_in(row as nat, field@, date@)) {
            (Ok(days), Ok(expected)) => days == expected && -0x8000_0000_0000_0000_0000 <= days
                <= 0x8000_0000_0000_0000_0000,
            (Err(e), Err(expected)) => e@ == expected,
            _ => false,
        },
{
    let parts = split(date, '-');
    let ghost p = text::views(parts@);
    if parts.len() != 3 {
        return Err(field_error(row, field, date, "a date like 2026-03-02"));
    }
    assert(p[0] == parts@[0]@ && p[1] == parts@[1]@ && p[2] == parts@[2]@);
    let year: i64 = match whole(row, field, parts[0], "a year") {
        Ok(n) => n,
        Err(e) => return Err(e),
    };
    let month: i64 = match whole(row, field, parts[1], "a month from 1 to 12") {
        Ok(n) => n,
        Err(e) => return Err(e),
    };
    let day: i64 = match whole(row, field, parts[2], "a day from 1 to 31") {
        Ok(n) => n,
        Err(e) => return Err(e),
    };
    if month < 1 || month > 12 || day < 1 || day > days_in_month(year, month) {
        return Err(field_error(row, field, date, "a date whose month and day are real"));
    }
    proof {
        calendar::lemma_epoch_days_bound(year as int, month as int, day as int);
    }
    Ok(days_from_civil(year, month, day))
}

/// The count that one `AllocTRES` entry carries. **Calculation.**
///
/// A count may carry a Slurm size suffix, as `256G` does, and any such suffix
/// is dropped without conversion: the map holds the number Slurm printed. A
/// value with no number in it at all is a fault.
pub fn count_of(row: usize, s: &[char]) -> (r: Result<u64, Error>)
    ensures
        seen(r) == count_of_entry(row as nat, s@),
{
    let mut i: usize = 0;
    assert(s@.skip(0) =~= s@);
    while i < s.len() && ((s[i] >= '0' && s[i] <= '9') || s[i] == '.')
        invariant
            i <= s@.len(),
            number_prefix(s@) =~= s@.take(i as int) + number_prefix(s@.skip(i as int)),
        decreases s@.len() - i,
    {
        assert(s@.skip(i as int).skip(1) =~= s@.skip(i + 1));
        assert(s@.take(i + 1) =~= s@.take(i as int) + seq![s@[i as int]]);
        i = i + 1;
    }
    let digits = vstd::slice::slice_subrange(s, 0, i);
    assert(digits@ =~= s@.take(i as int));
    assert(digits@ =~= number_prefix(s@));
    match parse_count(digits) {
        Some(n) => Ok(n),
        None => Err(
            field_error(row, "AllocTRES", s, "a count for a resource in the AllocTRES list"),
        ),
    }
}

impl State {
    /// The state that one `State` field carries. **Calculation.**
    pub fn parse(field: &[char]) -> (state: State)
        ensures
            state@ == state_in(field@),
    {
        let word = first_word(field);
        if is_word(word, "COMPLETED") {
            State::Completed
        } else if is_word(word, "TIMEOUT") {
            State::Timeout
        } else if is_word(word, "FAILED") {
            State::Failed
        } else if is_word(word, "CANCELLED") {
            State::Cancelled
        } else if is_word(word, "RUNNING") {
            State::Running
        } else if is_word(word, "PENDING") {
            State::Pending
        } else {
            State::Other(string_of(word))
        }
    }
}

/// One `sacct` row, split into its fields. **Data.**
pub struct Fields<'a> {
    pub job_id: &'a [char],
    pub submit: &'a [char],
    pub start: &'a [char],
    pub end: &'a [char],
    pub elapsed: &'a [char],
    pub tres: &'a [char],
    pub timelimit: &'a [char],
    pub qos: &'a [char],
    pub partition: &'a [char],
    pub state: &'a [char],
    pub user: &'a [char],
}

impl<'a> View for Fields<'a> {
    type V = Seq<Seq<char>>;

    open spec fn view(&self) -> Seq<Seq<char>> {
        seq![
            self.job_id@,
            self.submit@,
            self.start@,
            self.end@,
            self.elapsed@,
            self.tres@,
            self.timelimit@,
            self.qos@,
            self.partition@,
            self.state@,
            self.user@,
        ]
    }
}

impl<'a> Fields<'a> {
    /// One `|`-separated line, split into the documented fields.
    /// **Calculation.**
    pub fn parse(row: usize, line: &'a [char]) -> (r: Result<Fields<'a>, Error>)
        ensures
            seen(r) == (if fields_in(line@).len() == FORMAT_FIELDS {
                Ok(fields_in(line@))
            } else {
                Err(
                    ErrorView::Arity {
                        row: row as nat,
                        expected: FORMAT_FIELDS as nat,
                        actual: fields_in(line@).len(),
                    },
                )
            }),
    {
        let f = split(line, '|');
        let ghost p = text::views(f@);
        if f.len() != FORMAT_FIELDS {
            return Err(Error::Arity { row, expected: FORMAT_FIELDS, actual: f.len() });
        }
        assert forall|i: int| 0 <= i < 11 implies #[trigger] fields_in(line@)[i] == text::trimmed(
            f@[i]@,
        ) by {
            assert(p[i] == f@[i]@);
        }
        let fields = Fields {
            job_id: trim(f[0]),
            submit: trim(f[1]),
            start: trim(f[2]),
            end: trim(f[3]),
            elapsed: trim(f[4]),
            tres: trim(f[5]),
            timelimit: trim(f[6]),
            qos: trim(f[7]),
            partition: trim(f[8]),
            state: trim(f[9]),
            user: trim(f[10]),
        };
        assert(fields@ =~= fields_in(line@));
        Ok(fields)
    }

    /// A timestamp field, read as a civil clock reading and turned into Unix
    /// seconds with the caller's offset. **Calculation.**
    ///
    /// `sacct` writes `Unknown` for a stamp the job has not earned yet; a
    /// reading without the expected shape is a field error, not a zero, and so
    /// is one whose Unix seconds no `i64` holds.
    pub fn timestamp(
        &self,
        row: usize,
        field: &'static str,
        s: &'a [char],
        utc_offset_seconds: i64,
    ) -> (r: Result<i64, Error>)
        ensures
            seen(r) == timestamp_in(row as nat, field@, s@, utc_offset_seconds),
    {
        if s.len() == 0 || is_word(s, "Unknown") {
            return Err(
                field_error(
                    row,
                    field,
                    s,
                    "a clock reading like 2026-03-02T08:15:00, not Unknown",
                ),
            );
        }
        let (date, time) = match split_once(s, 'T') {
            Some(parts) => parts,
            None => return Err(
                field_error(row, field, s, "a clock reading like 2026-03-02T08:15:00"),
            ),
        };
        let days: i128 = match civil_days(row, field, date) {
            Ok(n) => n,
            Err(e) => return Err(e),
        };
        let (hour, rest) = match split_once(time, ':') {
            Some(parts) => parts,
            None => return Err(
                field_error(row, field, s, "a clock reading like 2026-03-02T08:15:00"),
            ),
        };
        let zero = chars_of("00");
        let (minute, second) = match split_once(rest, ':') {
            Some(parts) => parts,
            None => (rest, zero.as_slice()),
        };
        let h: i64 = match whole(row, field, hour, "an hour of the day") {
            Ok(n) => n,
            Err(e) => return Err(e),
        };
        let m: i64 = match whole(row, field, minute, "a minute of the hour") {
            Ok(n) => n,
            Err(e) => return Err(e),
        };
        let sec: i64 = match whole(row, field, second, "a second of the minute") {
            Ok(n) => n,
            Err(e) => return Err(e),
        };
        if h < 0 || h >= 24 || m < 0 || m >= 60 || sec < 0 || sec >= 60 {
            return Err(
                field_error(row, field, s, "a clock reading whose time is a real time of day"),
            );
        }
        let unix: i128 = days * 86_400 + h as i128 * 3_600 + m as i128 * 60 + sec as i128
            - utc_offset_seconds as i128;
        if unix < i64::MIN as i128 || unix > i64::MAX as i128 {
            return Err(field_error(row, field, s, "a clock reading like 2026-03-02T08:15:00"));
        }
        Ok(unix as i64)
    }

    /// `ElapsedRaw` as seconds. **Calculation.**
    pub fn elapsed(&self, row: usize) -> (r: Result<u64, Error>)
        ensures
            seen(r) == elapsed_in(row as nat, self.elapsed@),
    {
        match parse_u64(self.elapsed) {
            Some(n) => Ok(n),
            None => Err(field_error(row, "ElapsedRaw", self.elapsed, "a count of seconds")),
        }
    }

    /// `AllocTRES` as a count per resource name. **Calculation.**
    ///
    /// An entry without `=` carries no count and is carried as `0`. A count
    /// that carries a Slurm size suffix, as `mem=256G` does, is carried as the
    /// number Slurm printed, with the suffix dropped; the suffix is not
    /// converted, because a count of resources and a quantity of memory are
    /// different things and this map holds counts.
    pub fn tres(&self, row: usize) -> (r: Result<TextMap<u64>, Error>)
        ensures
            seen(r) == tres_in(row as nat, self.tres@),
    {
        let entries = split(self.tres, ',');
        let zero = chars_of("0");
        let ghost all = text::views(entries@);
        let mut map: TextMap<u64> = TextMap::new();
        let mut i: usize = 0;
        while i < entries.len()
            invariant
                i <= entries@.len(),
                zero@ == "0"@,
                all == text::views(entries@),
                all == text::pieces(self.tres@, ','),
                counts_in(row as nat, all.take(i as int)) == Ok::<Seq<(Seq<char>, u64)>, ErrorView>(
                    map@,
                ),
            decreases entries@.len() - i,
        {
            let entry = entries[i];
            let ghost so_far = all.take(i + 1);
            assert(so_far.drop_last() =~= all.take(i as int));
            assert(so_far.last() == entry@);
            if entry.len() > 0 {
                let (name, count) = match split_once(entry, '=') {
                    Some(parts) => parts,
                    None => (entry, zero.as_slice()),
                };
                let n: u64 = match count_of(row, count) {
                    Ok(n) => n,
                    Err(e) => {
                        proof {
                            lemma_counts_stop(row as nat, all, i + 1);
                        }
                        return Err(e);
                    },
                };
                map = map.with(name, n);
            }
            i = i + 1;
        }
        assert(all.take(i as int) =~= all);
        Ok(map)
    }

    /// `TimelimitRaw` as a limit. **Calculation.**
    pub fn timelimit(&self, row: usize) -> (r: Result<Limit, Error>)
        ensures
            seen(r) == limit_in(row as nat, self.timelimit@),
    {
        if is_word(self.timelimit, "UNLIMITED") {
            return Ok(Limit::Unlimited);
        }
        match parse_u32(self.timelimit) {
            Some(n) => Ok(Limit::Minutes(n)),
            None => Err(
                field_error(row, "TimelimitRaw", self.timelimit, "a count of minutes, or UNLIMITED"),
            ),
        }
    }
}

/// An entry that cannot be read stops the list.
proof fn lemma_counts_stop(row: nat, entries: Seq<Seq<char>>, n: int)
    requires
        0 <= n <= entries.len(),
        counts_in(row, entries.take(n)) is Err,
    ensures
        counts_in(row, entries) == counts_in(row, entries.take(n)),
    decreases entries.len(),
{
    if n == entries.len() {
        assert(entries.take(n) =~= entries);
    } else {
        assert(entries.drop_last().take(n) =~= entries.take(n));
        lemma_counts_stop(row, entries.drop_last(), n);
    }
}

/// Parse one `sacct --parsable2 --noheader` row. **Calculation.**
///
/// The row's fields are, in order: `JobIDRaw, Submit, Start, End, ElapsedRaw,
/// AllocTRES, TimelimitRaw, QOS, Partition, State, User`. The clock readings
/// are civil time with no zone; `utc_offset_seconds` is the zone's offset, so
/// `-21_600` for UTC-6, and the record's stamps are
/// `civil_interpreted_as_utc - utc_offset_seconds`.
///
/// # Errors
/// [`Error::Arity`] when the row has the wrong number of fields, and
/// [`Error::Field`] naming the row and the field for any value that does not
/// parse.
pub fn parse_row(line: &str, utc_offset_seconds: i64) -> (r: Result<Record, Error>)
    ensures
        seen(r) == record_in(1, line@, utc_offset_seconds),
{
    let chars = chars_of(line);
    parse_row_numbered(1, chars.as_slice(), utc_offset_seconds)
}

/// [`parse_row`] with the row's own number, counted from 1. **Calculation.**
pub fn parse_row_numbered(row: usize, line: &[char], utc_offset_seconds: i64) -> (r: Result<
    Record,
    Error,
>)
    ensures
        seen(r) == record_in(row as nat, line@, utc_offset_seconds),
{
    let fields = match Fields::parse(row, line) {
        Ok(fields) => fields,
        Err(e) => return Err(e),
    };
    assert(fields@ == fields_in(line@));
    let submit: i64 = match fields.timestamp(row, "Submit", fields.submit, utc_offset_seconds) {
        Ok(n) => n,
        Err(e) => return Err(e),
    };
    let start: i64 = match fields.timestamp(row, "Start", fields.start, utc_offset_seconds) {
        Ok(n) => n,
        Err(e) => return Err(e),
    };
    let end: i64 = match fields.timestamp(row, "End", fields.end, utc_offset_seconds) {
        Ok(n) => n,
        Err(e) => return Err(e),
    };
    let elapsed_seconds: u64 = match fields.elapsed(row) {
        Ok(n) => n,
        Err(e) => return Err(e),
    };
    let alloc_tres = match fields.tres(row) {
        Ok(counts) => counts,
        Err(e) => return Err(e),
    };
    let timelimit = match fields.timelimit(row) {
        Ok(limit) => limit,
        Err(e) => return Err(e),
    };
    Ok(
        Record {
            job_id: string_of(fields.job_id),
            submit,
            start,
            end,
            elapsed_seconds,
            alloc_tres,
            timelimit,
            qos: string_of(fields.qos),
            partition: string_of(fields.partition),
            state: State::parse(fields.state),
            user: string_of(fields.user),
        },
    )
}

/// What a list of records holds.
pub open spec fn record_views(records: Seq<Record>) -> Seq<RecordView> {
    records.map_values(|record: Record| record@)
}

/// A row that cannot be read stops the file.
proof fn lemma_records_stop(lines: Seq<Seq<char>>, utc_offset_seconds: i64, n: int)
    requires
        0 <= n <= lines.len(),
        records_in(lines.take(n), utc_offset_seconds) is Err,
    ensures
        records_in(lines, utc_offset_seconds) == records_in(lines.take(n), utc_offset_seconds),
    decreases lines.len(),
{
    if n == lines.len() {
        assert(lines.take(n) =~= lines);
    } else {
        assert(lines.drop_last().take(n) =~= lines.take(n));
        lemma_records_stop(lines.drop_last(), utc_offset_seconds, n);
    }
}

/// Parse a whole `sacct --parsable2 --noheader` export. **Calculation.**
///
/// Blank lines are skipped. Every remaining line is parsed in order, and the
/// first row that cannot be read fails the whole call with an error naming
/// that row and field.
///
/// # Errors
/// The first [`Error`] any row earns.
pub fn parse_file(text: &str, utc_offset_seconds: i64) -> (r: Result<Vec<Record>, Error>)
    ensures
        match (r, records_in(text::lines_of(text@), utc_offset_seconds)) {
            (Ok(records), Ok(expected)) => record_views(records@) == expected,
            (Err(e), Err(expected)) => e@ == expected,
            _ => false,
        },
{
    let chars = chars_of(text);
    let rows = lines(chars.as_slice());
    let ghost all = text::views(rows@);
    let mut records: Vec<Record> = Vec::new();
    let mut i: usize = 0;
    assert(record_views(records@) =~= Seq::<RecordView>::empty());
    while i < rows.len()
        invariant
            i <= rows@.len(),
            all == text::views(rows@),
            all == text::lines_of(text@),
            records_in(all.take(i as int), utc_offset_seconds) == Ok::<Seq<RecordView>, ErrorView>(
                record_views(records@),
            ),
        decreases rows@.len() - i,
    {
        let line = rows[i];
        let ghost so_far = all.take(i + 1);
        assert(so_far.drop_last() =~= all.take(i as int));
        assert(so_far.last() == line@);
        if trim(line).len() > 0 {
            let ghost done = records@;
            match parse_row_numbered(i + 1, line, utc_offset_seconds) {
                Ok(record) => {
                    records.push(record);
                    assert(record_views(records@) =~= record_views(done).push(record@));
                },
                Err(e) => {
                    proof {
                        lemma_records_stop(all, utc_offset_seconds, i + 1);
                    }
                    return Err(e);
                },
            }
        }
        i = i + 1;
    }
    assert(all.take(i as int) =~= all);
    Ok(records)
}

impl Record {
    /// Whether this row is a job step rather than a job. **Calculation.**
    ///
    /// Slurm writes a step's `JobIDRaw` with a dot, as `1041.batch` and
    /// `1044.0`, and the step is part of the job whose own row is in the same
    /// export.
    #[must_use]
    pub fn is_step(&self) -> (b: bool)
        ensures
            b == self.job_id@.contains('.'),
            b == is_step_id(self.job_id@),
    {
        let id = chars_of(self.job_id.as_str());
        proof {
            text::lemma_position(id@, '.');
            if text::cut(id@, '.') is Some {
                assert(id@[text::position_of(id@, '.')] == '.');
            }
        }
        contains(id.as_slice(), '.')
    }

    /// The GPUs this record's `AllocTRES` allocates. **Calculation.**
    ///
    /// Slurm writes both a total and a per-type breakdown when a job asked for
    /// a typed GPU, as `gres/gpu=3,gres/gpu:a100=3`, so the total wins where it
    /// is present, and the types are summed only where it is not. Adding both
    /// would count the job twice.
    #[must_use]
    pub fn gpu_count(&self) -> (n: u64)
        requires
            gpus_in(self.alloc_tres@) <= u64::MAX,
        ensures
            n == gpus_in(self.alloc_tres@),
    {
        self.checked_gpu_count().unwrap()
    }

    /// The GPUs this record's `AllocTRES` allocates, or `None` where its types
    /// sum to more than a count holds. **Calculation.**
    #[must_use]
    pub fn checked_gpu_count(&self) -> (r: Option<u64>)
        ensures
            match r {
                Some(n) => n == gpus_in(self.alloc_tres@),
                None => gpus_in(self.alloc_tres@) > u64::MAX,
            },
    {
        if let Some(total) = self.alloc_tres.get("gres/gpu") {
            return Some(*total);
        }
        let ghost all = self.alloc_tres@;
        let mut sum: u64 = 0;
        let mut i: usize = 0;
        while i < self.alloc_tres.len()
            invariant
                i <= all.len(),
                all == self.alloc_tres@,
                table::lookup(all, "gres/gpu"@) is None,
                sum == typed_gpus(all.take(i as int)),
            decreases all.len() - i,
        {
            let (name, count) = self.alloc_tres.entry(i);
            proof {
                assert(all.take(i + 1).drop_last() =~= all.take(i as int));
                lemma_typed_gpus_grow(all, i + 1);
            }
            if starts_with(name, "gres/gpu:") {
                match sum.checked_add(*count) {
                    Some(more) => sum = more,
                    None => return None,
                }
            }
            i = i + 1;
        }
        assert(all.take(i as int) =~= all);
        Some(sum)
    }
}

/// The first entries hold no more typed GPUs than all of them.
proof fn lemma_typed_gpus_grow(entries: Seq<(Seq<char>, u64)>, n: int)
    requires
        0 <= n <= entries.len(),
    ensures
        typed_gpus(entries.take(n)) <= typed_gpus(entries),
    decreases entries.len(),
{
    if n == entries.len() {
        assert(entries.take(n) =~= entries);
    } else {
        assert(entries.drop_last().take(n) =~= entries.take(n));
        lemma_typed_gpus_grow(entries.drop_last(), n);
    }
}

impl Error {
    /// The error as one line, naming the row and what is wrong with it.
    /// **Calculation.**
    #[must_use]
    pub fn message(&self) -> (line: String)
        ensures
            line@ == error_text(self@),
    {
        let mut line = String::new();
        line.append("row ");
        match self {
            Error::Arity { row, expected, actual } => {
                push_decimal(&mut line, *row as u64);
                line.append(": has ");
                push_decimal(&mut line, *actual as u64);
                line.append(" fields, and the documented sacct format has ");
                push_decimal(&mut line, *expected as u64);
            },
            Error::Field { row, field, value, expected } => {
                push_decimal(&mut line, *row as u64);
                line.append(": field `");
                line.append(field);
                line.append("` holds `");
                line.append(value.as_str());
                line.append("`, which is not ");
                line.append(expected);
            },
        }
        assert(line@ =~= error_text(self@));
        line
    }
}

}
