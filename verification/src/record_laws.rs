//! What holds of parsed records as a whole.

use vstd::prelude::*;
use crate::calendar;
use crate::number;
use crate::record;
use crate::record::{Error, ErrorView, Limit, Record, RecordView, State, StateView};
use crate::rounding;
use crate::table;
use crate::text;

verus! {

/// The same error of another row.
pub open spec fn renumbered(e: ErrorView, row: nat) -> ErrorView {
    match e {
        ErrorView::Arity { expected, actual, .. } => ErrorView::Arity { row, expected, actual },
        ErrorView::Field { field, value, expected, .. } => ErrorView::Field {
            row,
            field,
            value,
            expected,
        },
    }
}

/// Whether two results are the same but for the row that an error names, which
/// is `row` in the second.
pub open spec fn same_but_row<T>(
    a: Result<T, ErrorView>,
    b: Result<T, ErrorView>,
    row: nat,
) -> bool {
    match (a, b) {
        (Ok(a), Ok(b)) => a == b,
        (Err(a), Err(b)) => b == renumbered(a, row),
        _ => false,
    }
}

/// The record with its stamps moved by some seconds.
pub open spec fn stamps_moved(a: RecordView, b: RecordView, seconds: int) -> bool {
    &&& b.submit == a.submit + seconds
    &&& b.start == a.start + seconds
    &&& b.end == a.end + seconds
    &&& b == (RecordView { submit: b.submit, start: b.start, end: b.end, ..a })
}

/// Whether every clock reading of a row, where it is one, has Unix seconds at
/// an offset that a stamp holds.
pub open spec fn stamps_fit(row: nat, line: Seq<char>, utc_offset_seconds: i64) -> bool {
    let f = record::fields_in(line);
    f.len() == record::FORMAT_FIELDS ==> {
        &&& record::civil_in(row, "Submit"@, f[1]) matches Ok(civil) ==> record::fits(
            civil,
            utc_offset_seconds,
        )
        &&& record::civil_in(row, "Start"@, f[2]) matches Ok(civil) ==> record::fits(
            civil,
            utc_offset_seconds,
        )
        &&& record::civil_in(row, "End"@, f[3]) matches Ok(civil) ==> record::fits(
            civil,
            utc_offset_seconds,
        )
    }
}

/// The offset moves stamps and does nothing else. Where no stamp overflows at
/// either of two offsets, a row read at both gives two records whose stamps
/// differ by the difference of the offsets and that are otherwise the same, or
/// the same error twice. No stamp of a row that reads overflows.
pub proof fn law_offset_moves_stamps(row: nat, line: Seq<char>, first: i64, second: i64)
    ensures
        stamps_fit(row, line, first) && stamps_fit(row, line, second) ==> match (
            record::record_in(row, line, first),
            record::record_in(row, line, second),
        ) {
            (Ok(a), Ok(b)) => stamps_moved(a, b, first - second),
            (Err(a), Err(b)) => a == b,
            _ => false,
        },
        record::record_in(row, line, first) is Ok ==> stamps_fit(row, line, first),
{
}

proof fn lemma_counts_row(a: nat, b: nat, entries: Seq<Seq<char>>)
    ensures
        same_but_row(record::counts_in(a, entries), record::counts_in(b, entries), b),
    decreases entries.len(),
{
    if entries.len() > 0 {
        lemma_counts_row(a, b, entries.drop_last());
    }
}

proof fn lemma_days_row(a: nat, b: nat, field: Seq<char>, date: Seq<char>)
    ensures
        same_but_row(record::days_in(a, field, date), record::days_in(b, field, date), b),
{
}

proof fn lemma_timestamp_row(
    a: nat,
    b: nat,
    field: Seq<char>,
    s: Seq<char>,
    utc_offset_seconds: i64,
)
    ensures
        same_but_row(
            record::timestamp_in(a, field, s, utc_offset_seconds),
            record::timestamp_in(b, field, s, utc_offset_seconds),
            b,
        ),
{
    match text::cut(s, 'T') {
        Some((date, _)) => lemma_days_row(a, b, field, date),
        None => {},
    }
}

/// The number of a row is named in its error and nowhere else.
pub proof fn law_row_number_only_names(
    first: nat,
    second: nat,
    line: Seq<char>,
    utc_offset_seconds: i64,
)
    ensures
        same_but_row(
            record::record_in(first, line, utc_offset_seconds),
            record::record_in(second, line, utc_offset_seconds),
            second,
        ),
{
    let f = record::fields_in(line);
    if f.len() == record::FORMAT_FIELDS {
        lemma_timestamp_row(first, second, "Submit"@, f[1], utc_offset_seconds);
        lemma_timestamp_row(first, second, "Start"@, f[2], utc_offset_seconds);
        lemma_timestamp_row(first, second, "End"@, f[3], utc_offset_seconds);
        lemma_counts_row(first, second, text::pieces(f[5], ','));
    }
}

/// What a row is never refuses it: two rows whose stamps, runtime, resources
/// and limit read alike both parse, or fail alike. Steps, unfinished jobs and
/// jobs of any state, owner, queue or partition are records all the same.
pub proof fn law_kind_of_row_never_refuses_it(
    row: nat,
    first: Seq<char>,
    second: Seq<char>,
    utc_offset_seconds: i64,
)
    requires
        record::fields_in(first).len() == record::FORMAT_FIELDS,
        record::fields_in(second).len() == record::FORMAT_FIELDS,
        forall|i: int|
            1 <= i < 7 ==> #[trigger] record::fields_in(first)[i] == record::fields_in(second)[i],
    ensures
        match (
            record::record_in(row, first, utc_offset_seconds),
            record::record_in(row, second, utc_offset_seconds),
        ) {
            (Ok(a), Ok(b)) => a.submit == b.submit && a.start == b.start && a.end == b.end
                && a.elapsed_seconds == b.elapsed_seconds && a.alloc_tres == b.alloc_tres
                && a.timelimit == b.timelimit,
            (Err(a), Err(b)) => a == b,
            _ => false,
        },
{
    assert(record::fields_in(first)[1] == record::fields_in(second)[1]);
    assert(record::fields_in(first)[2] == record::fields_in(second)[2]);
    assert(record::fields_in(first)[3] == record::fields_in(second)[3]);
    assert(record::fields_in(first)[4] == record::fields_in(second)[4]);
    assert(record::fields_in(first)[5] == record::fields_in(second)[5]);
    assert(record::fields_in(first)[6] == record::fields_in(second)[6]);
}

/// The places of the lines that are not blank, in order.
pub open spec fn filled(lines: Seq<Seq<char>>) -> Seq<int>
    decreases lines.len(),
{
    if lines.len() == 0 {
        Seq::empty()
    } else if record::is_blank(lines.last()) {
        filled(lines.drop_last())
    } else {
        filled(lines.drop_last()).push(lines.len() - 1)
    }
}

/// Whether a line is the first that is neither blank nor a record, `row` being
/// what a line of a row number reads as.
pub open spec fn is_first_bad(
    lines: Seq<Seq<char>>,
    row: spec_fn(nat, Seq<char>) -> Result<RecordView, ErrorView>,
    i: int,
) -> bool {
    &&& 0 <= i < lines.len()
    &&& !record::is_blank(lines[i])
    &&& row((i + 1) as nat, lines[i]) is Err
    &&& forall|j: int|
        0 <= j < i && !record::is_blank(#[trigger] lines[j]) ==> row((j + 1) as nat, lines[j]) is Ok
}

/// Whether a line reads as a record.
pub open spec fn is_row(
    lines: Seq<Seq<char>>,
    row: spec_fn(nat, Seq<char>) -> Result<RecordView, ErrorView>,
    i: int,
    record: RecordView,
) -> bool {
    0 <= i < lines.len() && row((i + 1) as nat, lines[i]) == Ok::<RecordView, ErrorView>(record)
}

/// Whether a file of these lines comes out as it should: one record for each
/// line that is not blank, in order, or the error of the first bad line.
pub open spec fn is_outcome(
    lines: Seq<Seq<char>>,
    row: spec_fn(nat, Seq<char>) -> Result<RecordView, ErrorView>,
    outcome: Result<Seq<RecordView>, ErrorView>,
) -> bool {
    match outcome {
        Ok(records) => {
            &&& records.len() == filled(lines).len()
            &&& forall|k: int|
                0 <= k < records.len() ==> is_row(lines, row, filled(lines)[k], #[trigger] records[k])
            &&& forall|i: int| !is_first_bad(lines, row, i)
        },
        Err(e) => exists|i: int|
            #[trigger] is_first_bad(lines, row, i) && row((i + 1) as nat, lines[i]) == Err::<
                RecordView,
                ErrorView,
            >(e),
    }
}

/// What a line of a row number reads as at an offset.
pub open spec fn row_reader(utc_offset_seconds: i64) -> spec_fn(nat, Seq<char>) -> Result<
    RecordView,
    ErrorView,
> {
    |row: nat, line: Seq<char>| record::record_in(row, line, utc_offset_seconds)
}

/// The records of these lines, `row` being what a line reads as.
spec fn rows_read(
    lines: Seq<Seq<char>>,
    row: spec_fn(nat, Seq<char>) -> Result<RecordView, ErrorView>,
) -> Result<Seq<RecordView>, ErrorView>
    decreases lines.len(),
{
    if lines.len() == 0 {
        Ok(Seq::empty())
    } else {
        match rows_read(lines.drop_last(), row) {
            Err(e) => Err(e),
            Ok(records) => if record::is_blank(lines.last()) {
                Ok(records)
            } else {
                match row(lines.len(), lines.last()) {
                    Err(e) => Err(e),
                    Ok(record) => Ok(records.push(record)),
                }
            },
        }
    }
}

proof fn lemma_rows_read(lines: Seq<Seq<char>>, utc_offset_seconds: i64)
    ensures
        record::records_in(lines, utc_offset_seconds) == rows_read(
            lines,
            row_reader(utc_offset_seconds),
        ),
    decreases lines.len(),
{
    if lines.len() > 0 {
        lemma_rows_read(lines.drop_last(), utc_offset_seconds);
    }
}

/// Where no line is the first bad one, none is bad.
proof fn lemma_all_good(
    lines: Seq<Seq<char>>,
    row: spec_fn(nat, Seq<char>) -> Result<RecordView, ErrorView>,
    n: int,
)
    requires
        0 <= n <= lines.len(),
        forall|i: int| !is_first_bad(lines, row, i),
    ensures
        forall|j: int|
            0 <= j < n && !record::is_blank(#[trigger] lines[j]) ==> row(
                (j + 1) as nat,
                lines[j],
            ) is Ok,
    decreases n,
{
    if n > 0 {
        lemma_all_good(lines, row, n - 1);
        assert(!is_first_bad(lines, row, n - 1));
    }
}

proof fn lemma_rows_are_lines(
    lines: Seq<Seq<char>>,
    row: spec_fn(nat, Seq<char>) -> Result<RecordView, ErrorView>,
)
    ensures
        is_outcome(lines, row, rows_read(lines, row)),
    decreases lines.len(),
{
    if lines.len() > 0 {
        let less = lines.drop_last();
        let last = lines.len() - 1;
        lemma_rows_are_lines(less, row);
        match rows_read(less, row) {
            Err(e) => {
                let i = choose|i: int|
                    #[trigger] is_first_bad(less, row, i) && row((i + 1) as nat, less[i]) == Err::<
                        RecordView,
                        ErrorView,
                    >(e);
                assert forall|j: int|
                    0 <= j < i && !record::is_blank(#[trigger] lines[j]) implies row(
                    (j + 1) as nat,
                    lines[j],
                ) is Ok by {
                    assert(less[j] == lines[j]);
                }
                assert(is_first_bad(lines, row, i));
            },
            Ok(before) => {
                lemma_all_good(less, row, less.len() as int);
                assert forall|j: int|
                    0 <= j < last && !record::is_blank(#[trigger] lines[j]) implies row(
                    (j + 1) as nat,
                    lines[j],
                ) is Ok by {
                    assert(less[j] == lines[j]);
                }
                match rows_read(lines, row) {
                    Err(e) => {
                        assert(is_first_bad(lines, row, last));
                    },
                    Ok(records) => {
                        assert forall|k: int| 0 <= k < records.len() implies is_row(
                            lines,
                            row,
                            filled(lines)[k],
                            #[trigger] records[k],
                        ) by {
                            if k < before.len() {
                                assert(is_row(less, row, filled(less)[k], before[k]));
                                assert(records[k] == before[k]);
                                assert(filled(lines)[k] == filled(less)[k]);
                            }
                        }
                        assert forall|i: int| !is_first_bad(lines, row, i) by {
                            if 0 <= i < last && !record::is_blank(lines[i]) {
                                assert(row((i + 1) as nat, lines[i]) is Ok);
                            }
                        }
                    },
                }
            },
        }
    }
}

/// A file is its rows: where it parses it gives one record for each line that
/// is not blank, in order, and where it does not its error is that of the
/// first line that is no record, named by its place in the file.
pub proof fn law_file_is_its_rows(lines: Seq<Seq<char>>, utc_offset_seconds: i64)
    ensures
        is_outcome(
            lines,
            row_reader(utc_offset_seconds),
            record::records_in(lines, utc_offset_seconds),
        ),
{
    lemma_rows_read(lines, utc_offset_seconds);
    lemma_rows_are_lines(lines, row_reader(utc_offset_seconds));
}

/// A blank line changes no record of a file, nor whether it parses.
pub proof fn law_blank_lines_are_skipped(
    lines: Seq<Seq<char>>,
    blank: Seq<char>,
    at: int,
    utc_offset_seconds: i64,
)
    requires
        0 <= at <= lines.len(),
        record::is_blank(blank),
    ensures
        match (
            record::records_in(lines, utc_offset_seconds),
            record::records_in(lines.insert(at, blank), utc_offset_seconds),
        ) {
            (Ok(a), Ok(b)) => a == b,
            (Err(_), Err(_)) => true,
            _ => false,
        },
    decreases lines.len(),
{
    let longer = lines.insert(at, blank);
    if at == lines.len() {
        assert(longer.drop_last() =~= lines);
    } else {
        assert(longer.drop_last() =~= lines.drop_last().insert(at, blank));
        assert(longer.last() == lines.last());
        law_blank_lines_are_skipped(lines.drop_last(), blank, at, utc_offset_seconds);
        law_row_number_only_names(lines.len(), longer.len(), lines.last(), utc_offset_seconds);
    }
}

proof fn lemma_word_ends_at_space(word: Seq<char>, clause: Seq<char>)
    requires
        forall|i: int| 0 <= i < word.len() ==> !text::is_space(#[trigger] word[i]),
    ensures
        text::up_to_space(word + seq![' '] + clause) == word,
        text::up_to_space(word) == word,
    decreases word.len(),
{
    let whole = word + seq![' '] + clause;
    if word.len() == 0 {
        assert(whole[0] == ' ');
        assert(text::up_to_space(whole) =~= word);
        assert(text::up_to_space(word) =~= word);
    } else {
        let rest = word.skip(1);
        assert forall|i: int| 0 <= i < rest.len() implies !text::is_space(#[trigger] rest[i]) by {
            assert(rest[i] == word[i + 1]);
        }
        lemma_word_ends_at_space(rest, clause);
        assert(whole.skip(1) =~= rest + seq![' '] + clause);
        assert(whole[0] == word[0]);
        assert(seq![word[0]] + rest =~= word);
    }
}

/// The clause that `sacct` appends to a state is not part of the state.
pub proof fn law_clause_is_not_state(word: Seq<char>, clause: Seq<char>)
    requires
        word.len() > 0,
        forall|i: int| 0 <= i < word.len() ==> !text::is_space(#[trigger] word[i]),
    ensures
        record::state_in(word + seq![' '] + clause) == record::state_in(word),
{
    lemma_word_ends_at_space(word, clause);
    let whole = word + seq![' '] + clause;
    assert(whole[0] == word[0]);
    assert(text::trimmed_start(whole) == whole);
    assert(text::trimmed_start(word) == word);
}

/// The names of an `AllocTRES` are kept in order, no name twice, and the last
/// entry of a name gives its count.
pub proof fn law_alloc_tres(row: nat, entries: Seq<Seq<char>>)
    requires
        record::counts_in(row, entries) is Ok,
    ensures
        table::ordered(record::counts_in(row, entries)->Ok_0),
        forall|i: int, j: int|
            0 <= i < j < record::counts_in(row, entries)->Ok_0.len() ==> text::precedes(
                (#[trigger] record::counts_in(row, entries)->Ok_0[i]).0,
                (#[trigger] record::counts_in(row, entries)->Ok_0[j]).0,
            ),
        entries.len() > 0 && entries.last().len() > 0 ==> {
            let (name, count) = record::entry_parts(entries.last());
            &&& record::count_of_entry(row, count) is Ok
            &&& table::lookup(record::counts_in(row, entries)->Ok_0, name) == Some(
                record::count_of_entry(row, count)->Ok_0,
            )
        },
    decreases entries.len(),
{
    if entries.len() > 0 {
        law_alloc_tres(row, entries.drop_last());
        if entries.last().len() > 0 {
            let (name, count) = record::entry_parts(entries.last());
            let n = record::count_of_entry(row, count)->Ok_0;
            table::law_put(record::counts_in(row, entries.drop_last())->Ok_0, name, n, name);
        }
    }
}

/// Where an allocation has a GPU total, the total is the count: no other entry
/// adds to it or takes from it.
pub proof fn law_gpu_total_wins(
    entries: Seq<(Seq<char>, u64)>,
    total: u64,
    name: Seq<char>,
    count: u64,
)
    requires
        table::ordered(entries),
        table::lookup(entries, "gres/gpu"@) == Some(total),
        name != "gres/gpu"@,
    ensures
        record::gpus_in(entries) == total,
        record::gpus_in(table::put(entries, name, count)) == total,
{
    table::law_put(entries, name, count, "gres/gpu"@);
}

proof fn lemma_prefix_stops(digits: Seq<char>, suffix: Seq<char>)
    requires
        forall|i: int|
            0 <= i < digits.len() ==> number::is_digit(#[trigger] digits[i]) || digits[i] == '.',
        suffix.len() > 0 ==> !number::is_digit(suffix[0]) && suffix[0] != '.',
    ensures
        record::number_prefix(digits + suffix) == digits,
    decreases digits.len(),
{
    let whole = digits + suffix;
    if digits.len() == 0 {
        assert(whole =~= suffix);
        assert(record::number_prefix(whole) =~= digits);
    } else {
        let rest = digits.skip(1);
        assert forall|i: int| 0 <= i < rest.len() implies number::is_digit(#[trigger] rest[i])
            || rest[i] == '.' by {
            assert(rest[i] == digits[i + 1]);
        }
        lemma_prefix_stops(rest, suffix);
        assert(whole.skip(1) =~= rest + suffix);
        assert(whole[0] == digits[0]);
        assert(seq![digits[0]] + rest =~= digits);
    }
}

/// A size suffix is dropped without conversion: a count is the number that
/// stands before it.
pub proof fn law_suffix_is_dropped(row: nat, digits: Seq<char>, suffix: Seq<char>)
    requires
        forall|i: int|
            0 <= i < digits.len() ==> number::is_digit(#[trigger] digits[i]) || digits[i] == '.',
        suffix.len() > 0 ==> !number::is_digit(suffix[0]) && suffix[0] != '.',
    ensures
        match rounding::count_in(digits) {
            Some(n) => record::count_of_entry(row, digits + suffix) == Ok::<u64, ErrorView>(
                n as u64,
            ),
            None => record::count_of_entry(row, digits + suffix) is Err,
        },
{
    lemma_prefix_stops(digits, suffix);
}

/// A clock reading written out: a date, a `T` and a time of day.
pub open spec fn written(
    year: Seq<char>,
    month: Seq<char>,
    day: Seq<char>,
    hour: Seq<char>,
    minute: Seq<char>,
    second: Seq<char>,
) -> Seq<char> {
    year + seq!['-'] + month + seq!['-'] + day + seq!['T'] + hour + seq![':'] + minute + seq![':']
        + second
}

/// Whether a calendar and a clock have this date and this time of day.
pub open spec fn is_moment(year: int, month: int, day: int, h: int, m: int, s: int) -> bool {
    calendar::is_date(year, month, day) && 0 <= h <= 23 && 0 <= m <= 59 && 0 <= s <= 59
}

/// The date and the time of day one second later.
pub open spec fn one_second_on(year: int, month: int, day: int, h: int, m: int, s: int) -> (
    int,
    int,
    int,
    int,
    int,
    int,
) {
    if s < 59 {
        (year, month, day, h, m, s + 1)
    } else if m < 59 {
        (year, month, day, h, m + 1, 0)
    } else if h < 23 {
        (year, month, day, h + 1, 0, 0)
    } else {
        let (y, mo, d) = calendar::next_date(year, month, day);
        (y, mo, d, 0, 0, 0)
    }
}

/// Digits hold no sign and no separator, and read alike with and without signs
/// allowed.
proof fn lemma_plain_digits(s: Seq<char>, c: char)
    requires
        number::natural(s) is Some,
    ensures
        !number::is_digit(c) ==> !s.contains(c),
        number::signed(s) == number::natural(s),
        number::natural(s)->Some_0 >= 0,
{
    number::law_signs(s);
    number::lemma_value(s, s.len() as int);
    assert(s.take(s.len() as int) =~= s);
    if s.contains(c) {
        let i = choose|i: int| 0 <= i < s.len() && s[i] == c;
        assert(number::is_digit(s[i]));
    }
}

/// How a written reading comes apart.
proof fn lemma_written(
    year: Seq<char>,
    month: Seq<char>,
    day: Seq<char>,
    hour: Seq<char>,
    minute: Seq<char>,
    second: Seq<char>,
)
    requires
        number::natural(year) is Some,
        number::natural(month) is Some,
        number::natural(day) is Some,
        number::natural(hour) is Some,
        number::natural(minute) is Some,
        number::natural(second) is Some,
    ensures
        ({
            let s = written(year, month, day, hour, minute, second);
            let date = year + seq!['-'] + month + seq!['-'] + day;
            let time = hour + seq![':'] + minute + seq![':'] + second;
            &&& s.len() > 0
            &&& s != "Unknown"@
            &&& text::cut(s, 'T') == Some((date, time))
            &&& text::pieces(date, '-') == seq![year, month, day]
            &&& record::clock_parts(time) == Some((hour, minute, second))
        }),
{
    let s = written(year, month, day, hour, minute, second);
    let date = year + seq!['-'] + month + seq!['-'] + day;
    let time = hour + seq![':'] + minute + seq![':'] + second;
    reveal_strlit("Unknown");
    assert(number::is_digit(year[0]));
    assert(s[0] == year[0]);
    assert("Unknown"@[0] == 'U');
    lemma_plain_digits(year, 'T');
    lemma_plain_digits(month, 'T');
    lemma_plain_digits(day, 'T');
    assert(!date.contains('T')) by {
        assert forall|i: int| 0 <= i < date.len() implies date[i] != 'T' by {
            if i < year.len() {
                assert(year.contains(date[i]));
            } else if i == year.len() {
            } else if i < year.len() + 1 + month.len() {
                assert(date[i] == month[i - year.len() - 1]);
                assert(month.contains(date[i]));
            } else if i > year.len() + 1 + month.len() {
                assert(date[i] == day[i - year.len() - month.len() - 2]);
                assert(day.contains(date[i]));
            }
        }
    }
    text::law_cut(date, 'T', time);
    assert(s =~= date + seq!['T'] + time);
    lemma_plain_digits(year, '-');
    lemma_plain_digits(month, '-');
    lemma_plain_digits(day, '-');
    text::law_one_more_piece(year, '-', year);
    text::law_one_more_piece(year, '-', month);
    text::law_one_more_piece(year + seq!['-'] + month, '-', day);
    assert(text::pieces(date, '-') =~= seq![year, month, day]);
    lemma_plain_digits(hour, ':');
    lemma_plain_digits(minute, ':');
    text::law_cut(hour, ':', minute + seq![':'] + second);
    text::law_cut(minute, ':', second);
    assert(time =~= hour + seq![':'] + (minute + seq![':'] + second));
}

/// A clock reading is its date's midnight and 3600 seconds for each hour, 60
/// for each minute and one for each second of its time of day, less the
/// offset. Every date that the calendar has and every time from 00:00:00
/// through 23:59:59 reads so, where the year and the stamp are ones that are
/// held, and nothing else reads.
pub proof fn law_reading_is_its_time(
    row: nat,
    field: Seq<char>,
    parts: (Seq<char>, Seq<char>, Seq<char>, Seq<char>, Seq<char>, Seq<char>),
    values: (int, int, int, int, int, int),
    utc_offset_seconds: i64,
)
    requires
        number::natural(parts.0) == Some(values.0),
        number::natural(parts.1) == Some(values.1),
        number::natural(parts.2) == Some(values.2),
        number::natural(parts.3) == Some(values.3),
        number::natural(parts.4) == Some(values.4),
        number::natural(parts.5) == Some(values.5),
    ensures
        ({
            let s = written(parts.0, parts.1, parts.2, parts.3, parts.4, parts.5);
            let (y, mo, d, h, m, sec) = values;
            let unix = 86_400 * calendar::epoch_days(y, mo, d) + 3_600 * h + 60 * m + sec
                - utc_offset_seconds;
            match record::timestamp_in(row, field, s, utc_offset_seconds) {
                Ok(stamp) => is_moment(y, mo, d, h, m, sec) && stamp == unix,
                Err(_) => !is_moment(y, mo, d, h, m, sec) || y > i64::MAX || !(i64::MIN <= unix
                    <= i64::MAX),
            }
        }),
{
    let (y, mo, d, h, m, sec) = values;
    lemma_written(parts.0, parts.1, parts.2, parts.3, parts.4, parts.5);
    lemma_plain_digits(parts.0, '-');
    lemma_plain_digits(parts.1, '-');
    lemma_plain_digits(parts.2, '-');
    lemma_plain_digits(parts.3, '-');
    lemma_plain_digits(parts.4, '-');
    lemma_plain_digits(parts.5, '-');
    calendar::law_days_of_the_months(y, mo, d);
    let days = calendar::epoch_days(y, mo, d);
    assert(days * 86_400 == 86_400 * days);
    assert(h * 3_600 == 3_600 * h && m * 60 == 60 * m);
}

/// A reading one second later is one second more: from each second of a day to
/// the next, and from 23:59:59 to the next date's 00:00:00.
pub proof fn law_next_second_is_one_more(
    row: nat,
    field: Seq<char>,
    parts: (Seq<char>, Seq<char>, Seq<char>, Seq<char>, Seq<char>, Seq<char>),
    values: (int, int, int, int, int, int),
    later: (Seq<char>, Seq<char>, Seq<char>, Seq<char>, Seq<char>, Seq<char>),
    utc_offset_seconds: i64,
)
    requires
        number::natural(parts.0) == Some(values.0),
        number::natural(parts.1) == Some(values.1),
        number::natural(parts.2) == Some(values.2),
        number::natural(parts.3) == Some(values.3),
        number::natural(parts.4) == Some(values.4),
        number::natural(parts.5) == Some(values.5),
        ({
            let (y, mo, d, h, m, sec) = values;
            let next = one_second_on(y, mo, d, h, m, sec);
            &&& is_moment(y, mo, d, h, m, sec)
            &&& number::natural(later.0) == Some(next.0)
            &&& number::natural(later.1) == Some(next.1)
            &&& number::natural(later.2) == Some(next.2)
            &&& number::natural(later.3) == Some(next.3)
            &&& number::natural(later.4) == Some(next.4)
            &&& number::natural(later.5) == Some(next.5)
        }),
        record::timestamp_in(
            row,
            field,
            written(parts.0, parts.1, parts.2, parts.3, parts.4, parts.5),
            utc_offset_seconds,
        ) is Ok,
    ensures
        ({
            let s = written(parts.0, parts.1, parts.2, parts.3, parts.4, parts.5);
            let t = written(later.0, later.1, later.2, later.3, later.4, later.5);
            let stamp = record::timestamp_in(row, field, s, utc_offset_seconds)->Ok_0;
            match record::timestamp_in(row, field, t, utc_offset_seconds) {
                Ok(next) => next == stamp + 1,
                Err(_) => stamp == i64::MAX || values.0 >= i64::MAX,
            }
        }),
{
    let (y, mo, d, h, m, sec) = values;
    let next = one_second_on(y, mo, d, h, m, sec);
    law_reading_is_its_time(row, field, parts, values, utc_offset_seconds);
    law_reading_is_its_time(row, field, later, next, utc_offset_seconds);
    calendar::law_next_date_is_one_day_later(y, mo, d);
}

/// A reading without seconds is on the minute.
pub proof fn law_seconds_may_be_left_out(
    row: nat,
    field: Seq<char>,
    date: Seq<char>,
    hour: Seq<char>,
    minute: Seq<char>,
    utc_offset_seconds: i64,
)
    requires
        number::natural(hour) is Some,
        number::natural(minute) is Some,
        !date.contains('T'),
        record::timestamp_in(
            row,
            field,
            date + seq!['T'] + hour + seq![':'] + minute + seq![':', '0', '0'],
            utc_offset_seconds,
        ) is Ok,
    ensures
        record::timestamp_in(
            row,
            field,
            date + seq!['T'] + hour + seq![':'] + minute,
            utc_offset_seconds,
        ) == record::timestamp_in(
            row,
            field,
            date + seq!['T'] + hour + seq![':'] + minute + seq![':', '0', '0'],
            utc_offset_seconds,
        ),
{
    reveal_strlit("Unknown");
    reveal_strlit("00");
    let long = date + seq!['T'] + hour + seq![':'] + minute + seq![':', '0', '0'];
    let short = date + seq!['T'] + hour + seq![':'] + minute;
    lemma_plain_digits(hour, ':');
    lemma_plain_digits(minute, ':');
    text::law_cut(date, 'T', hour + seq![':'] + minute);
    text::law_cut(date, 'T', hour + seq![':'] + (minute + seq![':'] + "00"@));
    text::law_cut(hour, ':', minute);
    text::law_cut(hour, ':', minute + seq![':'] + "00"@);
    text::law_cut(minute, ':', "00"@);
    assert("00"@ =~= seq!['0', '0']);
    assert(long =~= date + seq!['T'] + (hour + seq![':'] + (minute + seq![':'] + "00"@)));
    assert(short =~= date + seq!['T'] + (hour + seq![':'] + minute));
    if short == "Unknown"@ {
        assert(short[date.len() as int] == 'T');
        assert(short.contains('T'));
    }
}

/// A state is its first word: the six words that are states of their own, and
/// any other word carried as printed. White space before the word and a clause
/// behind it are not part of it.
pub proof fn law_state_by_word(
    lead: Seq<char>,
    word: Seq<char>,
    clause: Seq<char>,
    state: State,
)
    requires
        text::all_space(lead),
        forall|i: int| 0 <= i < word.len() ==> !text::is_space(#[trigger] word[i]),
        word.len() == 0 ==> clause.len() == 0,
        clause.len() > 0 ==> text::is_space(clause[0]),
        state@ == record::state_in(lead + word + clause),
    ensures
        state == State::Completed <==> word == "COMPLETED"@,
        state == State::Timeout <==> word == "TIMEOUT"@,
        state == State::Failed <==> word == "FAILED"@,
        state == State::Cancelled <==> word == "CANCELLED"@,
        state == State::Running <==> word == "RUNNING"@,
        state == State::Pending <==> word == "PENDING"@,
        state matches State::Other(name) ==> name@ == word,
{
    text::law_first_word(lead, word, clause);
    lemma_state_words(word, state);
}

proof fn lemma_state_words(word: Seq<char>, state: State)
    requires
        state@ == if word == "COMPLETED"@ {
            StateView::Completed
        } else if word == "TIMEOUT"@ {
            StateView::Timeout
        } else if word == "FAILED"@ {
            StateView::Failed
        } else if word == "CANCELLED"@ {
            StateView::Cancelled
        } else if word == "RUNNING"@ {
            StateView::Running
        } else if word == "PENDING"@ {
            StateView::Pending
        } else {
            StateView::Other(word)
        },
    ensures
        state == State::Completed <==> word == "COMPLETED"@,
        state == State::Timeout <==> word == "TIMEOUT"@,
        state == State::Failed <==> word == "FAILED"@,
        state == State::Cancelled <==> word == "CANCELLED"@,
        state == State::Running <==> word == "RUNNING"@,
        state == State::Pending <==> word == "PENDING"@,
        state matches State::Other(name) ==> name@ == word,
{
    reveal_strlit("COMPLETED");
    reveal_strlit("TIMEOUT");
    reveal_strlit("FAILED");
    reveal_strlit("CANCELLED");
    reveal_strlit("RUNNING");
    reveal_strlit("PENDING");
    assert("COMPLETED"@[1] == 'O' && "TIMEOUT"@[1] == 'I' && "FAILED"@[1] == 'A');
    assert("CANCELLED"@[2] == 'N' && "RUNNING"@[1] == 'U' && "PENDING"@[1] == 'E');
    assert("FAILED"@[2] == 'I' && "CANCELLED"@[1] == 'A');
}

/// The trimmed fields of a line.
pub open spec fn field_of(line: Seq<char>, i: int) -> Seq<char> {
    text::trimmed(text::pieces(line, '|')[i])
}

/// A record is what its row's fields write, each in its place: names as
/// printed, stamps of the first, second and third clock reading, the numbers
/// that the runtime and the limit write, and the state of the first word.
pub proof fn law_record_is_its_fields(
    row: nat,
    line: Seq<char>,
    utc_offset_seconds: i64,
    record: Record,
)
    requires
        record::record_in(row, line, utc_offset_seconds) == Ok::<RecordView, ErrorView>(record@),
    ensures
        text::pieces(line, '|').len() == 11,
        record.job_id@ == field_of(line, 0),
        record.qos@ == field_of(line, 7),
        record.partition@ == field_of(line, 8),
        record.user@ == field_of(line, 10),
        record::timestamp_in(row, "Submit"@, field_of(line, 1), utc_offset_seconds) == Ok::<
            i64,
            ErrorView,
        >(record.submit),
        record::timestamp_in(row, "Start"@, field_of(line, 2), utc_offset_seconds) == Ok::<
            i64,
            ErrorView,
        >(record.start),
        record::timestamp_in(row, "End"@, field_of(line, 3), utc_offset_seconds) == Ok::<
            i64,
            ErrorView,
        >(record.end),
        number::unsigned(field_of(line, 4)) == Some(record.elapsed_seconds as int),
        record.timelimit == Limit::Unlimited <==> field_of(line, 6) == "UNLIMITED"@,
        record.timelimit matches Limit::Minutes(minutes) ==> number::unsigned(field_of(line, 6))
            == Some(minutes as int),
        record.state@ == record::state_in(field_of(line, 9)),
        record::counts_in(row, text::pieces(field_of(line, 5), ',')) == Ok::<
            Seq<(Seq<char>, u64)>,
            ErrorView,
        >(record.alloc_tres@),
{
    let p = text::pieces(line, '|');
    let f = record::fields_in(line);
    assert forall|i: int| 0 <= i < p.len() implies #[trigger] f[i] == field_of(line, i) by {}
    assert(f.len() == p.len());
    assert(f[0] == field_of(line, 0) && f[1] == field_of(line, 1) && f[2] == field_of(line, 2));
    assert(f[3] == field_of(line, 3) && f[4] == field_of(line, 4) && f[5] == field_of(line, 5));
    assert(f[6] == field_of(line, 6) && f[7] == field_of(line, 7) && f[8] == field_of(line, 8));
    assert(f[9] == field_of(line, 9) && f[10] == field_of(line, 10));
}

/// Whether an error is of this row and names this field and what it holds.
pub open spec fn names(e: Error, row: nat, field: Seq<char>, value: Seq<char>) -> bool {
    e matches Error::Field { row: r, field: f, value: v, .. } && r == row && f@ == field && v@
        == value
}

/// Whether an error is of this row and names this field.
pub open spec fn names_field(e: Error, row: nat, field: Seq<char>) -> bool {
    e matches Error::Field { row: r, field: f, .. } && r == row && f@ == field
}

proof fn lemma_timestamp_error(
    row: nat,
    field: Seq<char>,
    s: Seq<char>,
    utc_offset_seconds: i64,
    e: Error,
)
    requires
        record::timestamp_in(row, field, s, utc_offset_seconds) == Err::<i64, ErrorView>(e@),
    ensures
        names_field(e, row, field),
{
}

proof fn lemma_counts_error(row: nat, entries: Seq<Seq<char>>, e: Error)
    requires
        record::counts_in(row, entries) == Err::<Seq<(Seq<char>, u64)>, ErrorView>(e@),
    ensures
        names_field(e, row, "AllocTRES"@),
    decreases entries.len(),
{
    if record::counts_in(row, entries.drop_last()) is Err {
        lemma_counts_error(row, entries.drop_last(), e);
    }
}

/// A row that does not read is refused for its first fault: another number of
/// fields than eleven, with both counts, or the first field in the order of
/// the row that cannot be read, by its name.
pub proof fn law_error_names_the_first_fault(
    row: nat,
    line: Seq<char>,
    utc_offset_seconds: i64,
    e: Error,
)
    requires
        record::record_in(row, line, utc_offset_seconds) == Err::<RecordView, ErrorView>(e@),
    ensures
        ({
            let count = text::pieces(line, '|').len();
            let stamp = |field: Seq<char>, i: int|
                record::timestamp_in(row, field, field_of(line, i), utc_offset_seconds);
            let whole = |i: int, most: int|
                (number::unsigned(field_of(line, i)) matches Some(n) && n <= most);
            if count != 11 {
                e matches Error::Arity { row: r, expected, actual } && r == row && expected == 11
                    && actual == count
            } else if stamp("Submit"@, 1) is Err {
                names_field(e, row, "Submit"@)
            } else if stamp("Start"@, 2) is Err {
                names_field(e, row, "Start"@)
            } else if stamp("End"@, 3) is Err {
                names_field(e, row, "End"@)
            } else if !whole(4, u64::MAX as int) {
                names(e, row, "ElapsedRaw"@, field_of(line, 4))
            } else if record::counts_in(row, text::pieces(field_of(line, 5), ',')) is Err {
                names_field(e, row, "AllocTRES"@)
            } else {
                &&& names(e, row, "TimelimitRaw"@, field_of(line, 6))
                &&& field_of(line, 6) != "UNLIMITED"@
                &&& !whole(6, u32::MAX as int)
            }
        }),
{
    let p = text::pieces(line, '|');
    let f = record::fields_in(line);
    assert(f.len() == p.len());
    if p.len() == 11 {
        assert(f[1] == field_of(line, 1) && f[2] == field_of(line, 2));
        assert(f[3] == field_of(line, 3) && f[4] == field_of(line, 4) && f[5] == field_of(line, 5));
        assert(f[6] == field_of(line, 6));
        lemma_unsigned(f[4]);
        lemma_unsigned(f[6]);
        if record::timestamp_in(row, "Submit"@, f[1], utc_offset_seconds) is Err {
            lemma_timestamp_error(row, "Submit"@, f[1], utc_offset_seconds, e);
        } else if record::timestamp_in(row, "Start"@, f[2], utc_offset_seconds) is Err {
            lemma_timestamp_error(row, "Start"@, f[2], utc_offset_seconds, e);
        } else if record::timestamp_in(row, "End"@, f[3], utc_offset_seconds) is Err {
            lemma_timestamp_error(row, "End"@, f[3], utc_offset_seconds, e);
        } else if record::elapsed_in(row, f[4]) is Err {
        } else if record::tres_in(row, f[5]) is Err {
            lemma_counts_error(row, text::pieces(f[5], ','), e);
        }
    }
}

/// Digits write no number below zero.
pub proof fn lemma_unsigned(s: Seq<char>)
    ensures
        number::unsigned(s) matches Some(n) ==> n >= 0,
{
    let digits = if s.len() > 0 && s[0] == '+' {
        s.skip(1)
    } else {
        s
    };
    if number::natural(digits) is Some {
        number::lemma_value(digits, digits.len() as int);
        assert(digits.take(digits.len() as int) =~= digits);
    }
}

/// Whether an entry of an `AllocTRES` is of this name: what stands before its
/// first `=`, or the whole of an entry without one.
pub open spec fn is_entry_of(entry: Seq<char>, name: Seq<char>) -> bool {
    entry.len() > 0 && (entry == name && !name.contains('=') || exists|count: Seq<char>|
        entry == name + seq!['='] + count && !name.contains('='))
}

proof fn lemma_entry_parts(entry: Seq<char>)
    ensures
        ({
            let (name, count) = record::entry_parts(entry);
            &&& !name.contains('=')
            &&& entry.contains('=') ==> entry == name + seq!['='] + count
            &&& !entry.contains('=') ==> entry == name && count == "0"@
        }),
{
    text::lemma_position(entry, '=');
    let at = text::position_of(entry, '=');
    if at < entry.len() {
        let name = entry.take(at);
        assert forall|k: int| 0 <= k < name.len() implies name[k] != '=' by {
            assert(name[k] == entry[k]);
        }
        assert(entry =~= name + seq!['='] + entry.skip(at + 1));
        assert(entry[at] == '=');
        assert(entry.contains('='));
    }
}

/// The count of a name is that of its last entry: an entry `name=count` gives
/// the number that `count` begins with, one without `=` gives 0, and a name
/// without an entry has none.
pub proof fn law_last_entry_counts(
    row: nat,
    entries: Seq<Seq<char>>,
    entry: Seq<char>,
    name: Seq<char>,
    count: Seq<char>,
)
    requires
        record::counts_in(row, entries.push(entry)) is Ok,
        !name.contains('='),
    ensures
        ({
            let counts = record::counts_in(row, entries.push(entry))->Ok_0;
            &&& record::counts_in(row, entries) is Ok
            &&& entry == name + seq!['='] + count ==> (table::lookup(counts, name) matches Some(n)
                && rounding::count_in(record::number_prefix(count)) == Some(n as int))
            &&& entry == name && entry.len() > 0 ==> table::lookup(counts, name) == Some(0u64)
            &&& !is_entry_of(entry, name) ==> table::lookup(counts, name) == table::lookup(
                record::counts_in(row, entries)->Ok_0,
                name,
            )
        }),
        record::counts_in(row, Seq::empty()) == Ok::<Seq<(Seq<char>, u64)>, ErrorView>(Seq::empty()),
{
    assert(entries.push(entry).drop_last() =~= entries);
    let before = record::counts_in(row, entries)->Ok_0;
    law_alloc_tres(row, entries);
    lemma_entry_parts(entry);
    let (found, number) = record::entry_parts(entry);
    text::law_cut(name, '=', count);
    if entry.len() > 0 {
        let n = record::count_of_entry(row, number)->Ok_0;
        rounding::lemma_count_range(record::number_prefix(number));
        table::law_put(before, found, n, name);
        if entry == name {
            reveal_strlit("0");
            assert("0"@ =~= seq!['0']);
            reveal_with_fuel(record::number_prefix, 3);
            assert(seq!['0'].skip(1) =~= Seq::<char>::empty());
            assert(record::number_prefix("0"@) =~= seq!['0']);
            assert(number::decimal(0) =~= seq!['0']);
            number::law_decimal_reads_back(0);
        }
        if found == name && entry.contains('=') {
            assert(entry == name + seq!['='] + number);
            assert(is_entry_of(entry, name));
        }
        if found == name && !entry.contains('=') {
            assert(is_entry_of(entry, name));
        }
    }
}

/// The GPUs of an allocation without a total are those of its types together:
/// a type that was not there adds its count, and an entry of another name adds
/// nothing.
pub proof fn law_typed_gpus_add_up(
    entries: Seq<(Seq<char>, u64)>,
    name: Seq<char>,
    count: u64,
)
    requires
        table::ordered(entries),
        table::lookup(entries, "gres/gpu"@) is None,
        table::lookup(entries, name) is None,
        name != "gres/gpu"@,
    ensures
        record::gpus_in(Seq::empty()) == 0,
        "gres/gpu:"@.is_prefix_of(name) ==> record::gpus_in(table::put(entries, name, count))
            == record::gpus_in(entries) + count,
        !("gres/gpu:"@.is_prefix_of(name)) ==> record::gpus_in(table::put(entries, name, count))
            == record::gpus_in(entries),
        record::gpus_in(table::put(entries, "gres/gpu"@, count)) == count,
{
    table::law_put(entries, name, count, "gres/gpu"@);
    table::law_put(entries, "gres/gpu"@, count, "gres/gpu"@);
    lemma_typed_put(entries, name, count);
    assert(record::typed_gpus(Seq::empty()) == 0);
}

proof fn lemma_typed_front(x: (Seq<char>, u64), rest: Seq<(Seq<char>, u64)>)
    ensures
        record::typed_gpus(seq![x] + rest) == record::typed_gpus(rest) + if
            "gres/gpu:"@.is_prefix_of(x.0) {
            x.1 as int
        } else {
            0
        },
    decreases rest.len(),
{
    let all = seq![x] + rest;
    if rest.len() == 0 {
        assert(all.drop_last() =~= Seq::<(Seq<char>, u64)>::empty());
        assert(record::typed_gpus(all.drop_last()) == 0);
        assert(all.last() == x);
    } else {
        assert(all.drop_last() =~= seq![x] + rest.drop_last());
        assert(all.last() == rest.last());
        lemma_typed_front(x, rest.drop_last());
    }
}

proof fn lemma_typed_put(entries: Seq<(Seq<char>, u64)>, name: Seq<char>, count: u64)
    requires
        table::lookup(entries, name) is None,
    ensures
        record::typed_gpus(table::put(entries, name, count)) == record::typed_gpus(entries) + if
            "gres/gpu:"@.is_prefix_of(name) {
            count as int
        } else {
            0
        },
    decreases entries.len(),
{
    if entries.len() == 0 {
        lemma_typed_front((name, count), entries);
        assert(table::put(entries, name, count) =~= seq![(name, count)] + entries);
    } else if text::precedes(name, entries[0].0) {
        lemma_typed_front((name, count), entries);
    } else {
        let rest = entries.skip(1);
        lemma_typed_put(rest, name, count);
        lemma_typed_front(entries[0], rest);
        lemma_typed_front(entries[0], table::put(rest, name, count));
        assert(entries =~= seq![entries[0]] + rest);
    }
}

/// A line of a file is blank where it is nothing but white space.
pub proof fn law_blank_lines_of_a_file(line: Seq<char>)
    ensures
        record::is_blank(line) <==> text::all_space(line),
{
    text::law_blank(line);
}

/// Whether an entry carries a count that can be read, or none at all.
pub open spec fn is_countable(entry: Seq<char>) -> bool {
    entry.len() == 0 || !entry.contains('=') || exists|name: Seq<char>, count: Seq<char>|
        #![trigger name + seq!['='] + count]
        entry == name + seq!['='] + count && !name.contains('=') && rounding::count_in(
            record::number_prefix(count),
        ) is Some
}

/// The resources of a row can be read exactly where each of its entries can.
pub proof fn law_resources_read_entry_by_entry(row: nat, entries: Seq<Seq<char>>)
    ensures
        record::counts_in(row, entries) is Ok <==> forall|i: int|
            0 <= i < entries.len() ==> is_countable(#[trigger] entries[i]),
    decreases entries.len(),
{
    if entries.len() > 0 {
        let less = entries.drop_last();
        let last = entries.last();
        law_resources_read_entry_by_entry(row, less);
        assert forall|i: int| 0 <= i < less.len() implies #[trigger] entries[i] == less[i] by {}
        if forall|i: int| 0 <= i < entries.len() ==> is_countable(#[trigger] entries[i]) {
            assert forall|i: int| 0 <= i < less.len() implies is_countable(#[trigger] less[i]) by {
                assert(is_countable(entries[i]));
            }
            assert(is_countable(entries[entries.len() - 1]));
        }
        lemma_entry_parts(last);
        let (found, number) = record::entry_parts(last);
        reveal_strlit("0");
        assert("0"@ =~= seq!['0']);
        reveal_with_fuel(record::number_prefix, 3);
        assert(seq!['0'].skip(1) =~= Seq::<char>::empty());
        assert(record::number_prefix("0"@) =~= seq!['0']);
        assert(number::decimal(0) =~= seq!['0']);
        number::law_decimal_reads_back(0);
        if last.contains('=') && last.len() > 0 {
            assert(last == found + seq!['='] + number);
            if is_countable(last) {
                let (name, count) = choose|name: Seq<char>, count: Seq<char>|
                    #![trigger name + seq!['='] + count]
                    last == name + seq!['='] + count && !name.contains('=') && rounding::count_in(
                        record::number_prefix(count),
                    ) is Some;
                text::law_cut(name, '=', count);
            }
        }
        if record::counts_in(row, entries) is Ok {
            assert(is_countable(last));
            assert forall|i: int| 0 <= i < entries.len() implies is_countable(
                #[trigger] entries[i],
            ) by {
                if i < less.len() {
                    assert(is_countable(less[i]));
                }
            }
        }
    }
}

/// Nothing reads as a stamp but a clock reading: what does is a date, a `T` and
/// a time of day with or without seconds, six numbers that a calendar and a
/// clock have, and the stamp is theirs.
pub proof fn law_only_readings_read(
    row: nat,
    field: Seq<char>,
    s: Seq<char>,
    utc_offset_seconds: i64,
) -> (r: (
    (Seq<char>, Seq<char>, Seq<char>, Seq<char>, Seq<char>, Seq<char>),
    (int, int, int, int, int, int),
))
    requires
        record::timestamp_in(row, field, s, utc_offset_seconds) is Ok,
    ensures
        ({
            let (parts, values) = r;
            let (y, mo, d, h, m, sec) = values;
            &&& s == written(parts.0, parts.1, parts.2, parts.3, parts.4, parts.5) || (s + seq![
                ':',
                '0',
                '0',
            ] == written(parts.0, parts.1, parts.2, parts.3, parts.4, parts.5) && parts.5 == seq![
                '0',
                '0',
            ])
            &&& number::signed(parts.0) == Some(y)
            &&& number::signed(parts.1) == Some(mo)
            &&& number::signed(parts.2) == Some(d)
            &&& number::signed(parts.3) == Some(h)
            &&& number::signed(parts.4) == Some(m)
            &&& number::signed(parts.5) == Some(sec)
            &&& is_moment(y, mo, d, h, m, sec)
            &&& record::timestamp_in(row, field, s, utc_offset_seconds)->Ok_0 == 86_400
                * calendar::epoch_days(y, mo, d) + 3_600 * h + 60 * m + sec - utc_offset_seconds
        }),
{
    let (date, time) = text::cut(s, 'T')->Some_0;
    let p = text::pieces(date, '-');
    let (hour, minute, second) = record::clock_parts(time)->Some_0;
    lemma_put_together(s);
    let values = (
        number::signed(p[0])->Some_0,
        number::signed(p[1])->Some_0,
        number::signed(p[2])->Some_0,
        number::signed(hour)->Some_0,
        number::signed(minute)->Some_0,
        number::signed(second)->Some_0,
    );
    let (y, mo, d, h, m, sec) = values;
    let days = calendar::epoch_days(y, mo, d);
    assert(days * 86_400 == 86_400 * days && h * 3_600 == 3_600 * h && m * 60 == 60 * m);
    ((p[0], p[1], p[2], hour, minute, second), values)
}

/// A date of three numbers is those put together.
proof fn lemma_date_put_together(date: Seq<char>)
    requires
        text::pieces(date, '-').len() == 3,
    ensures
        ({
            let p = text::pieces(date, '-');
            date == p[0] + seq!['-'] + p[1] + seq!['-'] + p[2]
        }),
{
    let p = text::pieces(date, '-');
    text::law_pieces(date, '-');
    let two = p.skip(1);
    let one = two.skip(1);
    assert(two[0] == p[1] && one[0] == p[2]);
    assert(text::joined(one, '-') == p[2]);
    assert(text::joined(two, '-') == p[1] + seq!['-'] + p[2]);
    assert(text::joined(p, '-') == p[0] + seq!['-'] + (p[1] + seq!['-'] + p[2]));
    assert(p[0] + seq!['-'] + (p[1] + seq!['-'] + p[2]) =~= p[0] + seq!['-'] + p[1] + seq!['-']
        + p[2]);
}

/// A cut text is its two sides put together.
proof fn lemma_cut_put_together(s: Seq<char>, c: char)
    ensures
        text::cut(s, c) matches Some((head, tail)) ==> s == head + seq![c] + tail,
{
    text::lemma_position(s, c);
    let at = text::position_of(s, c);
    if at < s.len() {
        assert(s =~= s.take(at) + seq![c] + s.skip(at + 1));
    }
}

/// A clock reading is its parts put together.
proof fn lemma_put_together(s: Seq<char>)
    requires
        text::cut(s, 'T') is Some,
        text::pieces(text::cut(s, 'T')->Some_0.0, '-').len() == 3,
        record::clock_parts(text::cut(s, 'T')->Some_0.1) is Some,
    ensures
        ({
            let (date, time) = text::cut(s, 'T')->Some_0;
            let p = text::pieces(date, '-');
            let (hour, minute, second) = record::clock_parts(time)->Some_0;
            let whole = written(p[0], p[1], p[2], hour, minute, second);
            s == whole || (s + seq![':', '0', '0'] == whole && second == seq!['0', '0'])
        }),
{
    let (date, time) = text::cut(s, 'T')->Some_0;
    let p = text::pieces(date, '-');
    let (hour, minute, second) = record::clock_parts(time)->Some_0;
    let (_, rest) = text::cut(time, ':')->Some_0;
    let whole = written(p[0], p[1], p[2], hour, minute, second);
    lemma_cut_put_together(s, 'T');
    lemma_cut_put_together(time, ':');
    lemma_cut_put_together(rest, ':');
    lemma_date_put_together(date);
    if text::cut(rest, ':') is Some {
        assert(s =~= whole);
    } else {
        reveal_strlit("00");
        assert("00"@ =~= seq!['0', '0']);
        assert(s + seq![':', '0', '0'] =~= whole);
    }
}

/// A step's id is its job's, a dot and its own name; a job's is a number.
pub proof fn law_step_has_a_dot(job: Seq<char>, step: Seq<char>)
    requires
        !job.contains('.'),
    ensures
        record::is_step_id(job + seq!['.'] + step),
        !record::is_step_id(job),
        number::natural(step) is Some ==> !record::is_step_id(step),
{
    text::law_cut(job, '.', step);
    if number::natural(step) is Some {
        lemma_plain_digits(step, '.');
        text::law_cut(step, '.', step);
    }
}

}
