use sacct_parse::record::{civil_days, count_of};
use sacct_parse::{parse_file, parse_row, Error, Limit, Record, State};

const OFFSET: i64 = -21_600;

fn chars(text: &str) -> Vec<char> {
    text.chars().collect()
}

/// One row on the documented format, with every field a given test does not
/// care about already filled in: a finished one-GPU job.
///
/// Synthetic data; nothing in these fixtures was measured.
fn row(job_id: &str, submit: &str, elapsed: &str, tres: &str, timelimit: &str) -> String {
    [
        job_id,
        submit,
        "2026-03-02T08:00:00",
        "2026-03-02T09:00:00",
        elapsed,
        tres,
        timelimit,
        "normal",
        "batch",
        "COMPLETED",
        "u01",
    ]
    .join("|")
}

fn parsed(line: &str) -> Record {
    parse_row(line, OFFSET).expect("the row parses")
}

fn fault(line: &str) -> Error {
    parse_row(line, OFFSET).expect_err("the row is rejected")
}

fn submitted(submit: &str) -> String {
    row("101", submit, "7200", "cpu=8", "180")
}

fn allocated(tres: &str) -> String {
    row("101", "2026-03-02T08:15:00", "7200", tres, "180")
}

#[test]
fn a_finished_row_parses_into_a_record() {
    let record = parsed(&row(
        "101",
        "2026-03-02T08:15:00",
        "7200",
        "cpu=8,gres/gpu=1",
        "180",
    ));

    assert_eq!(record.job_id, "101");
    assert!(!record.is_step());
    assert_eq!(record.submit, 1_772_460_900);
    assert_eq!(record.start, 1_772_460_000);
    assert_eq!(record.end, 1_772_463_600);
    assert_eq!(record.elapsed_seconds, 7_200);
    assert_eq!(record.timelimit, Limit::Minutes(180));
    assert_eq!(record.qos, "normal");
    assert_eq!(record.partition, "batch");
    assert_eq!(record.state, State::Completed);
    assert_eq!(record.user, "u01");
}

#[test]
fn a_timestamp_is_the_civil_reading_minus_the_callers_offset() {
    // `2026-03-02T08:15:00` read at UTC-6 is 14:15 UTC, so 1_772_460_900.
    let record = parsed(&row("101", "2026-03-02T08:15:00", "7200", "cpu=8", "180"));
    assert_eq!(record.submit, 1_772_460_900);

    // The same reading at UTC+1 is 07:15 UTC, seven hours earlier.
    let east = parse_row(
        &row("101", "2026-03-02T08:15:00", "7200", "cpu=8", "180"),
        3_600,
    )
    .expect("the row parses");
    assert_eq!(east.submit, record.submit - 7 * 3_600);
}

#[test]
fn a_state_is_its_first_word_and_the_clause_is_not_part_of_it() {
    let cancelled = State::parse(&chars("CANCELLED by 1001"));
    assert_eq!(cancelled, State::Cancelled);
    assert_eq!(State::parse(&chars("RUNNING")), State::Running);
    assert_eq!(State::parse(&chars("PENDING")), State::Pending);
    assert_eq!(
        State::parse(&chars("REQUEUED")),
        State::Other("REQUEUED".to_owned())
    );
    assert_eq!(State::parse(&chars("")), State::Other(String::new()));
}

#[test]
fn lib_a_row_with_the_wrong_field_count_names_the_row_and_the_counts() {
    let short = "101|2026-03-02T08:15:00|7200|COMPLETED";

    match fault(short) {
        Error::Arity {
            row,
            expected,
            actual,
        } => {
            assert_eq!(row, 1);
            assert_eq!(expected, 11);
            assert_eq!(actual, 4);
        }
        other => panic!("expected an arity error, got {}", other.message()),
    }
}

#[test]
fn an_unreadable_elapsed_names_the_row_and_elapsedraw() {
    let line = row("101", "2026-03-02T08:15:00", "02:00:00", "cpu=8", "180");

    match fault(&line) {
        Error::Field {
            row,
            field,
            value,
            expected,
        } => {
            assert_eq!(row, 1);
            assert_eq!(field, "ElapsedRaw");
            assert_eq!(value, "02:00:00");
            assert_eq!(expected, "a count of seconds");
        }
        other => panic!("expected a field error, got {}", other.message()),
    }
}

#[test]
fn an_unreadable_timelimit_names_the_row_and_timelimitraw() {
    let line = row("101", "2026-03-02T08:15:00", "7200", "cpu=8", "3:00:00");

    assert!(matches!(
        fault(&line),
        Error::Field {
            field: "TimelimitRaw",
            ..
        }
    ));
}

#[test]
fn unlimited_is_a_limit_and_not_a_fault() {
    let line = row("101", "2026-03-02T08:15:00", "7200", "cpu=8", "UNLIMITED");

    assert_eq!(parsed(&line).timelimit, Limit::Unlimited);
}

#[test]
fn an_unreadable_tres_count_names_the_row_and_alloctres() {
    let line = row("101", "2026-03-02T08:15:00", "7200", "gres/gpu=many", "180");

    assert!(matches!(
        fault(&line),
        Error::Field {
            field: "AllocTRES",
            ..
        }
    ));
}

#[test]
fn an_unknown_stamp_names_the_row_and_the_field() {
    let line = [
        "101",
        "2026-03-02T08:15:00",
        "Unknown",
        "2026-03-02T09:00:00",
        "7200",
        "cpu=8",
        "180",
        "normal",
        "batch",
        "COMPLETED",
        "u01",
    ]
    .join("|");

    assert!(matches!(fault(&line), Error::Field { field: "Start", .. }));
}

#[test]
fn an_impossible_date_names_the_row_and_the_field() {
    let line = row("101", "2026-13-02T08:15:00", "7200", "cpu=8", "180");

    assert!(matches!(
        fault(&line),
        Error::Field {
            field: "Submit",
            ..
        }
    ));
}

#[test]
fn rejects_days_that_their_month_cannot_hold() {
    for date in ["2026-02-31", "2025-02-29", "2026-04-31", "1900-02-29"] {
        let stamp = format!("{date}T08:15:00");
        let line = row("101", &stamp, "7200", "cpu=8", "180");

        match fault(&line) {
            Error::Field {
                row, field, value, ..
            } => {
                assert_eq!(row, 1, "date {date}");
                assert_eq!(field, "Submit", "date {date}");
                assert_eq!(value, date, "date {date}");
            }
            other => panic!("expected a field error for {date}, got {}", other.message()),
        }
    }
}

#[test]
fn accepts_february_29_in_a_leap_year() {
    // Synthetic dates; 2024 and 2000 are leap years, 2000 also divisible by 400.
    for stamp in ["2024-02-29T08:15:00", "2000-02-29T08:15:00"] {
        let line = row("101", stamp, "7200", "cpu=8", "180");
        assert!(parse_row(&line, OFFSET).is_ok(), "{stamp}");
    }
}

#[test]
fn an_impossible_time_of_day_names_the_row_and_the_field() {
    let line = row("101", "2026-03-02T25:15:00", "7200", "cpu=8", "180");

    assert!(matches!(
        fault(&line),
        Error::Field {
            field: "Submit",
            ..
        }
    ));
}

#[test]
fn alloc_tres_carries_a_count_per_resource_and_drops_size_suffixes() {
    let record = parsed(&row(
        "101",
        "2026-03-02T08:15:00",
        "7200",
        "billing=32,cpu=32,gres/gpu=4,mem=256G,node=2",
        "180",
    ));

    let names = record.alloc_tres.keys();
    let keys: Vec<&str> = names.iter().map(String::as_str).collect();
    assert_eq!(keys, vec!["billing", "cpu", "gres/gpu", "mem", "node"]);
    assert_eq!(record.alloc_tres.get("mem"), Some(&256));
    assert_eq!(record.alloc_tres.get("node"), Some(&2));
}

#[test]
fn the_gpu_total_wins_and_is_never_added_to_its_own_breakdown() {
    let both = parsed(&row(
        "101",
        "2026-03-02T08:15:00",
        "7200",
        "cpu=8,gres/gpu=3,gres/gpu:a100=3",
        "180",
    ));
    assert_eq!(both.gpu_count(), 3);
}

#[test]
fn typed_gpus_are_summed_when_the_total_is_absent() {
    let typed = parsed(&row(
        "101",
        "2026-03-02T08:15:00",
        "7200",
        "cpu=8,gres/gpu:a100=2,gres/gpu:h100=1",
        "180",
    ));
    assert_eq!(typed.gpu_count(), 3);
}

#[test]
fn a_job_step_is_a_step() {
    for step in ["1041.batch", "1041.0"] {
        let record = parsed(&row(step, "2026-03-02T08:15:00", "7200", "cpu=8", "180"));
        assert!(record.is_step(), "{step} is a step");
        assert_eq!(record.job_id, step);
    }
    let job = parsed(&row("1041", "2026-03-02T08:15:00", "7200", "cpu=8", "180"));
    assert!(!job.is_step());
}

#[test]
fn parse_file_skips_blank_lines_and_names_the_rows_it_reads() {
    let text = [
        row("101", "2026-03-02T08:15:00", "7200", "cpu=8", "180"),
        String::new(),
        row("102", "2026-03-02T09:15:00", "600", "cpu=4", "60"),
        row("103", "2026-03-02T10:15:00", "900", "cpu=4", "60"),
    ]
    .join("\n");

    let records = parse_file(&text, OFFSET).expect("every row parses");
    assert_eq!(records.len(), 3);
    assert_eq!(records[0].job_id, "101");
    assert_eq!(records[2].job_id, "103");
}

#[test]
fn parse_file_fails_on_the_first_rejection_and_names_its_row() {
    let text = [
        row("101", "2026-03-02T08:15:00", "7200", "cpu=8", "180"),
        String::new(),
        row("102", "2026-03-02T09:15:00", "600", "cpu=4", "60"),
        row("103", "2026-03-02T10:15:00", "not-a-number", "cpu=4", "60"),
    ]
    .join("\n");

    match parse_file(&text, OFFSET) {
        Err(Error::Field { row, field, .. }) => {
            assert_eq!(row, 4);
            assert_eq!(field, "ElapsedRaw");
        }
        other => panic!("expected a field error on row 4, got {other:?}"),
    }
}

/// A synthetic export over three local days: twenty finished jobs, five steps,
/// three jobs still running and two that asked for no GPU.
fn sample() -> String {
    let line = |id: &str, day: u32, hour: u32, tres: &str, limit: &str, state: &str| {
        [
            id.to_owned(),
            format!("2026-03-0{day}T{hour:02}:05:00"),
            format!("2026-03-0{day}T{hour:02}:06:00"),
            format!("2026-03-0{day}T{hour:02}:59:30"),
            "3210".to_owned(),
            tres.to_owned(),
            limit.to_owned(),
            "normal".to_owned(),
            "batch".to_owned(),
            state.to_owned(),
            format!("u0{}", 1 + hour % 9),
        ]
        .join("|")
    };
    let total = "billing=16,cpu=16,gres/gpu=2,mem=128G,node=1";
    let typed = "cpu=16,gres/gpu=2,gres/gpu:a100=2,mem=128G,node=1";
    let mut lines: Vec<String> = Vec::new();
    for id in 1041..1061 {
        let tres = if id % 4 == 0 { typed } else { total };
        let limit = if id == 1047 { "UNLIMITED" } else { "180" };
        let state = match id {
            1045 => "TIMEOUT",
            1048 => "FAILED",
            1051 => "CANCELLED by 1001",
            _ => "COMPLETED",
        };
        let hour = 3 * (id - 1041);
        lines.push(line(&format!("{id}"), 2 + hour / 24, hour % 24, tres, limit, state));
    }
    for step in ["1041.batch", "1044.0", "1044.1", "1050.batch", "1057.batch"] {
        lines.push(line(step, 3, 5, "cpu=16,gres/gpu=2", "180", "COMPLETED"));
    }
    for id in 1061..1064 {
        lines.push(line(&format!("{id}"), 4, id - 1050, total, "240", "RUNNING"));
    }
    for id in 1064..1066 {
        lines.push(line(&format!("{id}"), 4, id - 1050, "cpu=4,mem=8G,node=1", "30", "COMPLETED"));
    }
    lines.join("\n") + "\n"
}

#[test]
fn the_committed_sample_parses_with_zero_rejections_and_thirty_rows() {
    let text = sample();
    let records = parse_file(&text, OFFSET).expect("every row of the sample parses");

    assert_eq!(records.len(), 30);

    let steps = records.iter().filter(|record| record.is_step()).count();
    assert_eq!(steps, 5);

    let with_gpus = records
        .iter()
        .filter(|record| record.gpu_count() > 0)
        .count();
    assert_eq!(with_gpus, 28);

    let unlimited = records
        .iter()
        .filter(|record| record.timelimit == Limit::Unlimited)
        .count();
    assert_eq!(unlimited, 1);

    let states: Vec<&State> = records.iter().map(|record| &record.state).collect();
    assert!(states.contains(&&State::Timeout));
    assert!(states.contains(&&State::Failed));
    assert!(states.contains(&&State::Cancelled));
    assert!(states.contains(&&State::Running));
}

#[test]
fn days_are_counted_from_the_unix_epoch_in_every_month() {
    let dates: [(&str, i128); 12] = [
        ("1970-01-01", 0),
        ("1970-01-31", 30),
        ("1970-02-01", 31),
        ("1970-02-28", 58),
        ("1970-03-01", 59),
        ("1970-12-31", 364),
        ("1969-12-31", -1),
        ("2000-02-29", 11_016),
        ("2000-03-01", 11_017),
        ("2026-01-01", 20_454),
        ("2026-03-02", 20_514),
        ("0-03-01", -719_468),
    ];
    for (date, days) in dates {
        assert_eq!(civil_days(1, "Submit", &chars(date)), Ok(days), "{date}");
    }
}

#[test]
fn the_epoch_itself_reads_as_zero_seconds() {
    let line = submitted("1970-01-01T00:00:00");
    assert_eq!(parse_row(&line, 0).expect("the row parses").submit, 0);
    let next = submitted("1970-01-01T00:00:01");
    assert_eq!(parse_row(&next, 1).expect("the row parses").submit, 0);
}

#[test]
fn the_last_day_of_a_year_is_followed_by_the_first_of_the_next() {
    let last = civil_days(1, "Submit", &chars("2025-12-31")).expect("a date");
    let first = civil_days(1, "Submit", &chars("2026-01-01")).expect("a date");
    assert_eq!(first, last + 1);
    let february = civil_days(1, "Submit", &chars("2024-02-29")).expect("a date");
    let march = civil_days(1, "Submit", &chars("2024-03-01")).expect("a date");
    assert_eq!(march, february + 1);
}

#[test]
fn a_reading_without_seconds_is_on_the_minute() {
    let short = parsed(&submitted("2026-03-02T08:15"));
    let long = parsed(&submitted("2026-03-02T08:15:00"));
    assert_eq!(short.submit, long.submit);
}

#[test]
fn every_fault_of_a_timestamp_says_what_was_expected() {
    let faults = [
        ("", "", "a clock reading like 2026-03-02T08:15:00, not Unknown"),
        ("Unknown", "Unknown", "a clock reading like 2026-03-02T08:15:00, not Unknown"),
        ("2026-03-02", "2026-03-02", "a clock reading like 2026-03-02T08:15:00"),
        ("2026-03T08:15:00", "2026-03", "a date like 2026-03-02"),
        ("20x6-03-02T08:15:00", "20x6", "a year"),
        ("2026-xx-02T08:15:00", "xx", "a month from 1 to 12"),
        ("2026-03-xxT08:15:00", "xx", "a day from 1 to 31"),
        ("2026-13-02T08:15:00", "2026-13-02", "a date whose month and day are real"),
        ("2026-03-32T08:15:00", "2026-03-32", "a date whose month and day are real"),
        ("2026-03-02T0815", "2026-03-02T0815", "a clock reading like 2026-03-02T08:15:00"),
        ("2026-03-02Txx:15:00", "xx", "an hour of the day"),
        ("2026-03-02T08:xx:00", "xx", "a minute of the hour"),
        ("2026-03-02T08:15:xx", "xx", "a second of the minute"),
        (
            "2026-03-02T08:15:60",
            "2026-03-02T08:15:60",
            "a clock reading whose time is a real time of day",
        ),
        (
            "9223372036854775807-03-02T08:15:00",
            "9223372036854775807-03-02T08:15:00",
            "a clock reading like 2026-03-02T08:15:00",
        ),
    ];
    for (stamp, value, expected) in faults {
        assert_eq!(
            fault(&submitted(stamp)),
            Error::Field {
                row: 1,
                field: "Submit",
                value: value.to_owned(),
                expected,
            },
            "{stamp}"
        );
    }
}

#[test]
fn an_offset_that_no_stamp_can_carry_is_a_named_fault() {
    let line = submitted("2026-03-02T08:15:00");
    assert!(matches!(
        parse_row(&line, i64::MIN),
        Err(Error::Field {
            field: "Submit",
            row: 1,
            ..
        })
    ));
    let far = parse_row(&line, i64::MAX).expect("the row parses");
    assert_eq!(far.submit, 1_772_439_300 - i64::MAX);
}

#[test]
fn two_offsets_move_the_stamps_and_nothing_else() {
    let line = allocated("cpu=8,gres/gpu=1");
    let west = parse_row(&line, -21_600).expect("the row parses");
    let east = parse_row(&line, 3_600).expect("the row parses");
    assert_eq!(west.submit - east.submit, 25_200);
    assert_eq!(west.start - east.start, 25_200);
    assert_eq!(west.end - east.end, 25_200);
    assert_eq!(
        Record {
            submit: west.submit,
            start: west.start,
            end: west.end,
            ..east
        },
        west
    );
}

#[test]
fn an_error_is_the_same_at_every_offset() {
    let line = row("101", "2026-03-02T08:15:00", "abc", "cpu=8", "180");
    assert_eq!(parse_row(&line, -21_600), parse_row(&line, 3_600));
    // Where a stamp overflows, that is the error.
    assert_ne!(parse_row(&line, i64::MIN), parse_row(&line, 3_600));
}

#[test]
fn a_blank_line_moves_the_row_number_and_nothing_else() {
    let good = submitted("2026-03-02T08:15:00");
    let bad = submitted("Unknown");
    let plain = parse_file(&format!("{good}\n{bad}\n"), OFFSET).expect_err("row 2");
    let spaced = parse_file(&format!("{good}\r\n \t\r\n{bad}\n"), OFFSET).expect_err("row 3");
    assert!(matches!(plain, Error::Field { row: 2, .. }));
    assert!(matches!(spaced, Error::Field { row: 3, .. }));
    assert_eq!(
        parse_file(&format!("{good}\n\n{good}"), OFFSET),
        parse_file(&format!("{good}\n{good}\n"), OFFSET)
    );
    assert_eq!(parse_file("", OFFSET), Ok(Vec::new()));
}

#[test]
fn a_line_of_a_file_reads_as_it_does_alone() {
    let lines = [allocated("cpu=1"), allocated("cpu=2"), allocated("cpu=3")];
    let records = parse_file(&lines.join("\n"), OFFSET).expect("every row parses");
    for (line, record) in lines.iter().zip(&records) {
        assert_eq!(&parsed(line), record);
    }
}

#[test]
fn fields_are_trimmed() {
    let padded = submitted("2026-03-02T08:15:00").replace('|', " |\t");
    assert_eq!(parsed(&padded), parsed(&submitted("2026-03-02T08:15:00")));
}

#[test]
fn what_a_row_is_never_refuses_it() {
    for state in ["RUNNING", "PENDING", "REQUEUED", "NODE_FAIL because", ""] {
        let line = submitted("2026-03-02T08:15:00").replace("COMPLETED", state);
        assert!(parse_row(&line, OFFSET).is_ok(), "{state}");
    }
    let other = submitted("2026-03-02T08:15:00").replace("COMPLETED", "NODE_FAIL because");
    assert_eq!(parsed(&other).state, State::Other("NODE_FAIL".to_owned()));
}

#[test]
fn resources_are_in_name_order_and_the_last_entry_of_a_name_counts() {
    let record = parsed(&allocated("node=2,cpu=1,,mem=4G,cpu=3,licence"));
    assert_eq!(record.alloc_tres.keys(), vec!["cpu", "licence", "mem", "node"]);
    assert_eq!(record.alloc_tres.get("cpu"), Some(&3));
    assert_eq!(record.alloc_tres.get("licence"), Some(&0));
    assert_eq!(record.alloc_tres.get("gpu"), None);
    assert_eq!(record.alloc_tres.len(), 4);
    assert_eq!(parsed(&allocated("")).alloc_tres.len(), 0);
}

#[test]
fn a_stated_gpu_total_of_nothing_is_nothing() {
    assert_eq!(parsed(&allocated("gres/gpu=0,gres/gpu:a100=2")).gpu_count(), 0);
    assert_eq!(parsed(&allocated("gres/gpux=5,gres/gpu:a100=2")).gpu_count(), 2);
}

#[test]
fn typed_gpus_that_no_count_holds_have_no_sum() {
    let most = parsed(&allocated("gres/gpu:a=18446744073709551614,gres/gpu:b=1"));
    assert_eq!(most.checked_gpu_count(), Some(u64::MAX));
    assert_eq!(most.gpu_count(), u64::MAX);
    let more = parsed(&allocated("gres/gpu:a=18446744073709551615,gres/gpu:b=1"));
    assert_eq!(more.checked_gpu_count(), None);
    let stated = parsed(&allocated(
        "gres/gpu=2,gres/gpu:a=18446744073709551615,gres/gpu:b=1",
    ));
    assert_eq!(stated.checked_gpu_count(), Some(2));
}

/// What a machine's own floating point makes of a count, as an independent
/// reading of the same text.
fn counted(digits: &str) -> Option<u64> {
    if let Ok(count) = digits.parse::<u64>() {
        return Some(count);
    }
    digits
        .parse::<f64>()
        .ok()
        .filter(|count| count.is_finite() && *count >= 0.0)
        .map(|count| count as u64)
}

#[test]
fn a_count_with_a_point_is_the_nearest_double_cut_to_a_whole_number() {
    assert_eq!(count_of(1, &chars("1.5T")), Ok(1));
    assert_eq!(count_of(1, &chars("0.99999999999999999999")), Ok(1));
    assert_eq!(count_of(1, &chars("0.9999999999999999")), Ok(0));
    assert_eq!(
        count_of(1, &chars("9007199254740993.5")),
        Ok(9_007_199_254_740_994)
    );
    assert_eq!(
        count_of(1, &chars("9007199254740993")),
        Ok(9_007_199_254_740_993)
    );
    assert_eq!(count_of(1, &chars("18446744073709551616")), Ok(u64::MAX));
    assert_eq!(count_of(1, &chars("5.")), Ok(5));
    assert_eq!(count_of(1, &chars(".5")), Ok(0));
}

#[test]
fn counts_agree_with_the_machines_own_arithmetic() {
    let mut texts: Vec<String> = [
        "0", "7", "007", "256", "18446744073709551615", "18446744073709551616", "0.5", ".5", "5.",
        ".", "", "1.2.3", "..", "1.", "4503599627370495.5", "4503599627370496.5",
        "9007199254740991.5", "9007199254740992.5", "9007199254740993.0", "9007199254740993.5",
        "9007199254740995.0", "36028797018963971.0", "36028797018963970.0", "18446744073709549568.0",
        "18446744073709550591.9", "18446744073709550592.0", "0.99999999999999994448884876",
        "0.99999999999999994448884877", "0.9999999999999999444888487687421760603063",
        "1.00000000000000011102230246251565404", "123456789.987654321",
        "000000000000000000000000000000000000000000001.75",
    ]
    .iter()
    .map(|text| (*text).to_owned())
    .collect();
    texts.push("9".repeat(308));
    texts.push("9".repeat(309));
    texts.push(format!("1{}", "0".repeat(308)));
    texts.push(format!("1{}", "0".repeat(309)));
    texts.push(format!("0.{}1", "0".repeat(400)));
    texts.push(format!("{}.5", "0".repeat(400)));
    // 2^1024 less half a step below it, and one less.
    texts.push("179769313486231580793728971405303415079934132710037826936173778980444968292764750946649017977587207096330286416692887910946555547851940402630657488671505820681908902000708383676273854845817711531764475730270069855571366959622842914819860834936475292719074168444365510704342711559699508093042880177904174497792".to_owned());
    texts.push("179769313486231580793728971405303415079934132710037826936173778980444968292764750946649017977587207096330286416692887910946555547851940402630657488671505820681908902000708383676273854845817711531764475730270069855571366959622842914819860834936475292719074168444365510704342711559699508093042880177904174497791".to_owned());
    for text in texts {
        assert_eq!(count_of(1, &chars(&text)).ok(), counted(&text), "{text}");
    }
}

#[test]
fn a_count_with_no_number_in_it_is_a_fault() {
    assert_eq!(
        count_of(3, &chars("many")),
        Err(Error::Field {
            row: 3,
            field: "AllocTRES",
            value: "many".to_owned(),
            expected: "a count for a resource in the AllocTRES list",
        })
    );
    assert_eq!(count_of(1, &chars("256GB")), Ok(256));
    assert_eq!(count_of(1, &chars("256")), Ok(256));
}

#[test]
fn errors_read_as_one_line() {
    assert_eq!(
        fault("101|COMPLETED").message(),
        "row 1: has 2 fields, and the documented sacct format has 11"
    );
    assert_eq!(
        fault(&row("101", "2026-03-02T08:15:00", "abc", "cpu=8", "180")).message(),
        "row 1: field `ElapsedRaw` holds `abc`, which is not a count of seconds"
    );
    assert_eq!(
        fault(&row("101", "2026-03-02T08:15:00", "1", "cpu=8", "-1")).message(),
        "row 1: field `TimelimitRaw` holds `-1`, which is not a count of minutes, or UNLIMITED"
    );
}

#[test]
fn the_largest_numbers_are_read_and_the_next_are_not() {
    let most = row("1", "2026-03-02T08:15:00", "18446744073709551615", "cpu=8", "4294967295");
    let record = parsed(&most);
    assert_eq!(record.elapsed_seconds, u64::MAX);
    assert_eq!(record.timelimit, Limit::Minutes(u32::MAX));
    let more = row("1", "2026-03-02T08:15:00", "18446744073709551616", "cpu=8", "180");
    assert!(matches!(fault(&more), Error::Field { field: "ElapsedRaw", .. }));
    let longer = row("1", "2026-03-02T08:15:00", "7200", "cpu=8", "4294967296");
    assert!(matches!(fault(&longer), Error::Field { field: "TimelimitRaw", .. }));
    let plus = row("1", "2026-03-02T08:15:00", "+7200", "cpu=8", "+180");
    assert_eq!(parsed(&plus).elapsed_seconds, 7_200);
}
