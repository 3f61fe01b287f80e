use sacct_parse::export::Skips;
use sacct_parse::row::{gpus_of, requested_hours_of, Candidate, SacctRow, Skip};
use sacct_parse::site::{hour_key, wants_reading, LocalHours, MAX_EXPORT_HOURS};
use sacct_parse::tiers::{
    FLEXIBLE_PAD_HOURS, FLEXIBLE_WINDOW_HOURS, LATENCY_PAD_HOURS, LATENCY_WINDOW_HOURS,
};
use sacct_parse::{
    instants, latest_hour, map_export, Conversion, DstCrossing, HourIndex, IngestError, JobId, RejectCause,
    Rejected, SiteClock, Tally, Tier, TierMap, TierMapFault,
};

/// `2026-03-02T00:00:00-06:00`, a Monday six days before the clock springs
/// forward.
const MARCH_MONDAY: i64 = 1_772_431_200;
/// `2026-03-08T02:00:00-06:00`, where the local clock jumps to 03:00.
const SPRING_FORWARD: i64 = 1_772_956_800;
/// `2025-11-02T02:00:00-05:00`, the transition before that.
const PREVIOUS_FALL_BACK: i64 = 1_762_066_800;

const UNLIMITED: &str = "UNLIMITED";

const RULES: &str = r#"
# urgent work is Tier 1
[[rule]]
qos = "urgent"
tier = 1

[[rule]]
partition = "batch"
tier = 2

[[rule]]
tier = 2
"#;

fn chars(text: &str) -> Vec<char> {
    text.chars().collect()
}

/// The civil reading of some seconds since the epoch.
fn civil(seconds: i64) -> String {
    let days = seconds.div_euclid(86_400);
    let time = seconds.rem_euclid(86_400);
    let shifted = days + 719_468;
    let era = shifted.div_euclid(146_097);
    let day_of_era = shifted.rem_euclid(146_097);
    let year_of_era =
        (day_of_era - day_of_era / 1_460 + day_of_era / 36_524 - day_of_era / 146_096) / 365;
    let day_of_year = day_of_era - (365 * year_of_era + year_of_era / 4 - year_of_era / 100);
    let month = (5 * day_of_year + 2) / 153;
    let day = day_of_year - (153 * month + 2) / 5 + 1;
    let month = if month < 10 { month + 3 } else { month - 9 };
    let year = year_of_era + era * 400 + i64::from(month <= 2);
    format!(
        "{year:04}-{month:02}-{day:02}T{:02}:{:02}:{:02}",
        time / 3_600,
        time / 60 % 60,
        time % 60
    )
}

/// A clock that starts at an instant and has these changes of offset, each
/// with the offset that follows it, in hours.
fn clock_of(t0: i64, changes: &[(i64, i64)]) -> SiteClock {
    let offset_at = |at: i64| {
        changes
            .iter()
            .filter(|(change, _)| *change <= at)
            .map(|(_, offset)| *offset)
            .last()
            .expect("an offset")
    };
    let hours = i64::from(MAX_EXPORT_HOURS);
    let readings = (0..hours)
        .map(|hour| {
            let at = t0 + hour * 3_600;
            let offset = offset_at(at);
            format!("{}-0{}:00", civil(at + offset * 3_600), -offset)
        })
        .collect();
    let reports = (0..hours)
        .map(|end| {
            changes
                .iter()
                .filter(|(change, _)| t0 < *change && *change < t0 + end * 3_600)
                .map(|(change, offset)| {
                    let at = HourIndex::new(u32::try_from((change - t0) / 3_600).expect("an hour"));
                    if *offset > offset_at(change - 1) {
                        DstCrossing::Missing { at }
                    } else {
                        DstCrossing::Doubled { at }
                    }
                })
                .next()
        })
        .collect();
    SiteClock::new(readings, reports).expect("a full clock")
}

fn central(t0: i64) -> SiteClock {
    clock_of(t0, &[(PREVIOUS_FALL_BACK, -6), (SPRING_FORWARD, -5)])
}

fn rules() -> TierMap {
    TierMap::parse(RULES).expect("the mapping parses")
}

/// Whether a text is an instant of zone zero.
fn is_instant(text: &str) -> bool {
    let shape = "dddd-dd-ddTdd:dd:ddZ";
    if text.len() != shape.len()
        || !text.chars().zip(shape.chars()).all(|(c, s)| match s {
            'd' => c.is_ascii_digit(),
            _ => c == s,
        })
    {
        return false;
    }
    let part = |from: usize, to: usize| text[from..to].parse::<u32>().expect("digits");
    let (year, month, day) = (part(0, 4), part(5, 7), part(8, 10));
    let leap = year % 4 == 0 && (year % 100 != 0 || year % 400 == 0);
    let last = match month {
        1 | 3 | 5 | 7 | 8 | 10 | 12 => 31,
        4 | 6 | 9 | 11 => 30,
        2 if leap => 29,
        2 => 28,
        _ => return false,
    };
    (1..=last).contains(&day) && part(11, 13) < 24 && part(14, 16) < 60 && part(17, 19) < 60
}

/// A whole export converted, every instant looked up.
fn mapped(
    text: &str,
    clock: &SiteClock,
    map: &TierMap,
    allow_dst_crossing: bool,
) -> Result<Conversion, IngestError> {
    let legible: Vec<bool> = instants(text, map)
        .iter()
        .map(|asked| asked.as_deref().is_some_and(is_instant))
        .collect();
    map_export(text, &legible, clock, map, allow_dst_crossing)
}

/// One `sacct` line on the documented format, with every field a given test
/// does not care about already filled in: a finished one-GPU job.
///
/// `Start`, `End` and `User` are constant, because nothing maps them.
#[derive(Debug, Clone, Copy)]
struct Row<'a> {
    job_id: &'a str,
    submit: &'a str,
    elapsed: &'a str,
    tres: &'a str,
    timelimit: &'a str,
    qos: &'a str,
    partition: &'a str,
    state: &'a str,
}

impl Default for Row<'_> {
    fn default() -> Self {
        Self {
            job_id: "101",
            submit: "2026-03-02T08:15:00",
            elapsed: "7200",
            tres: "cpu=8,gres/gpu=1",
            timelimit: "180",
            qos: "urgent",
            partition: "gpu",
            state: "COMPLETED",
        }
    }
}

impl Row<'_> {
    fn line(self) -> String {
        [
            self.job_id,
            self.submit,
            "2026-03-02T08:00:00",
            "2026-03-02T09:00:00",
            self.elapsed,
            self.tres,
            self.timelimit,
            self.qos,
            self.partition,
            self.state,
            "ada",
        ]
        .join("|")
    }
}

/// A finished one-GPU job that differs only in the four fields a mapping rule
/// looks at.
fn job_line(job_id: &str, submit: &str, qos: &str, partition: &str) -> String {
    Row {
        job_id,
        submit,
        qos,
        partition,
        ..Row::default()
    }
    .line()
}

fn convert(lines: &[String]) -> Conversion {
    mapped(&lines.join("\n"), &central(MARCH_MONDAY), &rules(), false).expect("the export converts")
}

fn refusal(lines: &[String]) -> Rejected {
    convert(lines)
        .rejected
        .first()
        .cloned()
        .expect("the row is rejected")
}

#[test]
fn a_finished_gpu_job_becomes_a_row_on_the_jobs_contract() {
    let converted = convert(&[job_line("101", "2026-03-02T08:15:00", "urgent", "gpu")]);

    let job = converted.jobs.first().copied().expect("one job");
    assert_eq!(job.id, JobId::new(0));
    assert_eq!(job.tier, Tier::Latency);
    assert_eq!(job.gpus, 1);
    assert_eq!(f64::from(job.actual_seconds) / 3_600.0, 2.0);
    assert_eq!(job.arrival, HourIndex::new(8));
    assert_eq!(job.requested_hours, 3);
    assert_eq!(job.deadline, HourIndex::new(8 + LATENCY_WINDOW_HOURS));
    assert_eq!(job.pad_hours, LATENCY_PAD_HOURS);
    assert_eq!(converted.id_map, vec![(JobId::new(0), "101".to_owned())]);
}

#[test]
fn tier_two_carries_the_seven_day_window_and_the_pad_that_goes_with_it() {
    let converted = convert(&[job_line("101", "2026-03-02T08:15:00", "normal", "batch")]);

    let job = converted.jobs.first().copied().expect("one job");
    assert_eq!(job.tier, Tier::Flexible);
    assert_eq!(job.deadline, HourIndex::new(8 + FLEXIBLE_WINDOW_HOURS));
    assert_eq!(job.pad_hours, FLEXIBLE_PAD_HOURS);
}

#[test]
fn a_rule_may_set_the_window_the_site_actually_sells() {
    let map = TierMap::parse("[[rule]]\ntier = 2\nwindow_hours = 48\n").expect("a rule");
    let export = job_line("101", "2026-03-02T08:15:00", "normal", "batch");

    let converted = mapped(&export, &central(MARCH_MONDAY), &map, false).expect("converts");

    assert_eq!(
        converted.jobs.first().expect("one job").deadline,
        HourIndex::new(8 + 48)
    );
}

#[test]
fn ids_are_dense_in_submit_order_and_the_file_is_sorted_by_arrival() {
    let converted = convert(&[
        job_line("12", "2026-03-02T09:30:00", "urgent", "gpu"),
        job_line("9", "2026-03-02T08:00:00", "urgent", "gpu"),
        job_line("10", "2026-03-02T08:00:00", "urgent", "gpu"),
    ]);

    // `9` precedes `10` because JobIDRaw orders numerically, not as text.
    assert_eq!(
        converted.id_map,
        vec![
            (JobId::new(0), "9".to_owned()),
            (JobId::new(1), "10".to_owned()),
            (JobId::new(2), "12".to_owned()),
        ]
    );
    let order: Vec<(u32, u32)> = converted
        .jobs
        .iter()
        .map(|job| (job.arrival.get(), job.id.get()))
        .collect();
    assert_eq!(order, vec![(8, 0), (8, 1), (9, 2)]);
}

#[test]
fn a_job_step_is_skipped_rather_than_counted_twice() {
    let converted = convert(&[
        job_line("101", "2026-03-02T08:15:00", "urgent", "gpu"),
        job_line("101.batch", "2026-03-02T08:15:00", "urgent", "gpu"),
    ]);

    assert_eq!(converted.tally.steps, 1);
    assert_eq!(converted.tally.kept, 1);
    assert!(converted.rejected.is_empty(), "a step is not a fault");
}

#[test]
fn a_job_still_running_at_export_time_is_dropped_and_counted() {
    let running = Row {
        elapsed: "600",
        state: "RUNNING",
        ..Row::default()
    }
    .line();

    let converted = convert(&[
        job_line("100", "2026-03-02T08:15:00", "urgent", "gpu"),
        running,
    ]);

    assert_eq!(converted.tally.unfinished, 1);
    assert_eq!(converted.tally.kept, 1);
}

#[test]
fn a_cancelled_job_carries_its_clause_and_is_still_finished() {
    let cancelled = Row {
        state: "CANCELLED by 1001",
        ..Row::default()
    }
    .line();

    assert_eq!(convert(&[cancelled]).tally.kept, 1);
}

#[test]
fn a_job_that_asked_for_no_gpu_is_skipped_and_counted() {
    let cpu_only = Row {
        tres: "cpu=8,mem=64G",
        ..Row::default()
    }
    .line();

    let converted = convert(&[
        job_line("100", "2026-03-02T08:15:00", "urgent", "gpu"),
        cpu_only,
    ]);

    assert_eq!(converted.tally.non_gpu, 1);
    assert_eq!(converted.tally.kept, 1);
}

#[test]
fn typed_gpus_are_summed_and_a_stated_total_is_not_added_to_its_own_breakdown() {
    assert_eq!(gpus_of(&chars("cpu=8,gres/gpu:a100=2,gres/gpu:v100=1")), Ok(3));
    assert_eq!(gpus_of(&chars("cpu=8,gres/gpu=3,gres/gpu:a100=3")), Ok(3));
    assert_eq!(gpus_of(&chars("cpu=8,mem=64G")), Ok(0));
}

#[test]
fn slurm_a_row_with_the_wrong_field_count_names_the_row_and_the_counts() {
    let short = "101|2026-03-02T08:15:00|7200|COMPLETED".to_owned();

    let rejected = refusal(&[
        job_line("100", "2026-03-02T08:15:00", "urgent", "gpu"),
        short,
    ]);

    assert_eq!(rejected.row, 2);
    assert_eq!(rejected.cause.field(), "the row");
    assert_eq!(
        rejected.line(),
        "row 2: the row has 4 fields, and the documented sacct format has 11"
    );
}

#[test]
fn an_unreadable_gpu_count_names_the_row_and_alloctres() {
    let rejected = refusal(&[Row {
        tres: "gres/gpu=many",
        ..Row::default()
    }
    .line()]);

    assert_eq!(rejected.row, 1);
    assert_eq!(rejected.cause.field(), "AllocTRES");
    assert!(rejected.line().starts_with("row 1: field `AllocTRES`"));
}

#[test]
fn a_job_that_ran_no_seconds_names_the_row_and_elapsedraw() {
    let rejected = refusal(&[Row {
        elapsed: "0",
        ..Row::default()
    }
    .line()]);

    assert_eq!(rejected.row, 1);
    assert_eq!(rejected.cause.field(), "ElapsedRaw");
}

#[test]
fn an_unreadable_runtime_names_the_row_and_elapsedraw() {
    let rejected = refusal(&[Row {
        elapsed: "02:00:00",
        ..Row::default()
    }
    .line()]);

    assert_eq!(rejected.cause.field(), "ElapsedRaw");
    assert!(
        rejected.line().contains("a count of seconds"),
        "got {}",
        rejected.line()
    );
}

#[test]
fn an_unreadable_time_limit_names_the_row_and_timelimitraw() {
    let rejected = refusal(&[Row {
        timelimit: "3:00:00",
        ..Row::default()
    }
    .line()]);

    assert_eq!(rejected.cause.field(), "TimelimitRaw");
}

#[test]
fn a_time_limit_is_rounded_up_to_whole_hours_and_unlimited_is_unknown() {
    assert_eq!(requested_hours_of(&chars("180")), Ok(3));
    assert_eq!(requested_hours_of(&chars("90")), Ok(2));
    assert_eq!(requested_hours_of(&chars("1")), Ok(1));
    assert_eq!(requested_hours_of(&chars(UNLIMITED)), Ok(0));
}

#[test]
fn a_row_no_rule_matches_names_the_row_and_the_qos() {
    let map = TierMap::parse("[[rule]]\nqos = \"urgent\"\ntier = 1\n").expect("one rule");
    let export = job_line("101", "2026-03-02T08:15:00", "normal", "batch");

    let converted =
        mapped(&export, &central(MARCH_MONDAY), &map, false).expect("the export converts");

    let rejected = converted.rejected.first().expect("the row is rejected");
    assert_eq!(rejected.cause.field(), "QOS");
    assert_eq!(
        rejected.line(),
        "row 1: field `QOS` holds `normal` and `Partition` holds `batch`, \
         which no rule matches"
    );
}

#[test]
fn a_submit_before_t0_names_the_row_the_submit_and_the_span_covered() {
    let rejected = refusal(&[
        job_line("100", "2026-03-02T08:15:00", "urgent", "gpu"),
        job_line("101", "2026-03-01T23:00:00", "urgent", "gpu"),
    ]);

    assert_eq!(rejected.row, 2);
    assert_eq!(rejected.cause.field(), "Submit");
    assert!(
        rejected.line().contains("2026-03-02T00:00:00-06:00"),
        "the refusal names what is covered: {}",
        rejected.line()
    );
}

#[test]
fn an_unreadable_submit_is_rejected_rather_than_placed_at_hour_zero() {
    let rejected = refusal(&[
        job_line("100", "2026-03-02T08:15:00", "urgent", "gpu"),
        job_line("101", "Unknown", "urgent", "gpu"),
    ]);

    assert_eq!(rejected.cause.field(), "Submit");
}

#[test]
fn the_tally_adds_up_to_the_file_the_operator_sent() {
    let converted = convert(&[
        job_line("100", "2026-03-02T08:15:00", "urgent", "gpu"),
        job_line("100.batch", "2026-03-02T08:15:00", "urgent", "gpu"),
        Row {
            job_id: "101",
            submit: "2026-03-02T09:00:00",
            tres: "cpu=8",
            ..Row::default()
        }
        .line(),
        Row {
            job_id: "102",
            submit: "2026-03-02T09:00:00",
            state: "RUNNING",
            ..Row::default()
        }
        .line(),
        "103|2026-03-02T09:00:00|broken".to_owned(),
    ]);

    let Tally {
        read,
        kept,
        steps,
        unfinished,
        non_gpu,
        rejected,
    } = converted.tally;
    assert_eq!(read, 5);
    assert_eq!(kept + steps + unfinished + non_gpu + rejected, read);
    assert_eq!(
        (kept, steps, unfinished, non_gpu, rejected),
        (1, 1, 1, 1, 1)
    );
}

#[test]
fn an_export_that_spans_a_clock_change_is_refused_by_name() {
    let export = [
        job_line("100", "2026-03-07T08:00:00", "urgent", "gpu"),
        job_line("101", "2026-03-09T08:00:00", "urgent", "gpu"),
    ]
    .join("\n");

    let error = mapped(&export, &central(MARCH_MONDAY), &rules(), false)
        .expect_err("a crossing is refused");

    assert!(
        matches!(&error, IngestError::DstCrossing { local, kind }
            if local.starts_with("2026-03-08T03:00:00") && *kind == "never happens"),
        "got {error:?}"
    );
}

#[test]
fn an_operator_who_knows_about_the_clock_change_may_read_it_anyway() {
    let export = [
        job_line("100", "2026-03-07T08:00:00", "urgent", "gpu"),
        job_line("101", "2026-03-09T08:00:00", "urgent", "gpu"),
    ]
    .join("\n");

    let converted = mapped(&export, &central(MARCH_MONDAY), &rules(), true).expect("allowed");

    // The 9th is seven days on, less the hour the local clock skipped.
    assert_eq!(
        converted.jobs.last().expect("two jobs").arrival,
        HourIndex::new(7 * 24 + 8 - 1)
    );
}

#[test]
fn a_window_that_would_push_a_deadline_past_the_index_is_rejected_not_wrapped() {
    let clock = central(MARCH_MONDAY);
    let hours = LocalHours::of(&clock, &chars("2026-03-02T08")).expect("the range is short");
    let job_id = chars("101");
    let submit = chars("2026-03-02T08:15:00");
    let candidate = Candidate {
        row: 1,
        job_id: &job_id,
        job_number: 101,
        submit: &submit,
        tier: Tier::Flexible,
        gpus: 1,
        actual_seconds: 7_200,
        requested_hours: 3,
        window_hours: u32::MAX,
        pad_hours: FLEXIBLE_PAD_HOURS,
    };

    let refused = candidate
        .place(&clock, &hours, JobId::new(0))
        .expect_err("hour 8 plus u32::MAX is no hour");

    assert_eq!(refused.field(), "Submit");
    assert!(
        matches!(refused, RejectCause::Deadline { window } if window == u32::MAX),
        "got {}",
        refused.message()
    );
}

#[test]
fn a_file_with_no_rows_at_all_is_an_error_rather_than_an_empty_conversion() {
    let error =
        mapped("\n\n", &central(MARCH_MONDAY), &rules(), false).expect_err("nothing was sent");

    assert!(matches!(error, IngestError::NoRows), "got {error:?}");
}

#[test]
fn an_export_whose_every_row_fails_reports_the_failures_rather_than_nothing() {
    let steps = job_line("100.batch", "2026-03-02T08:15:00", "urgent", "gpu");
    let broken = "103|2026-03-02T09:00:00|broken".to_owned();

    let converted = convert(&[steps, broken]);

    assert!(converted.jobs.is_empty());
    assert_eq!(converted.tally.steps, 1);
    assert_eq!(
        converted.rejected.first().map(Rejected::line),
        Some("row 2: the row has 3 fields, and the documented sacct format has 11".to_owned())
    );
}

#[test]
fn a_mapping_file_is_read_in_order_with_comments_and_blank_lines_ignored() {
    let map = rules();

    assert_eq!(
        map.rule_for(&chars("urgent"), &chars("gpu")).map(|rule| rule.tier),
        Some(Tier::Latency)
    );
    assert_eq!(
        map.rule_for(&chars("normal"), &chars("batch")).map(|rule| rule.tier),
        Some(Tier::Flexible)
    );
    assert_eq!(
        map.rule_for(&chars("anything"), &chars("anywhere")).map(|rule| rule.tier),
        Some(Tier::Flexible)
    );
}

#[test]
fn a_mapping_file_that_maps_nothing_is_refused_rather_than_rejecting_every_row() {
    assert!(matches!(
        TierMap::parse("# nothing but a comment\n"),
        Err(IngestError::NoTierRules)
    ));
}

#[test]
fn a_mapping_file_names_the_line_and_the_fault() {
    let faults = [
        ("[[rule]]\nqos = urgent\ntier = 1\n", 2, "a quoted string"),
        ("[[rule]]\ntier = two\n", 2, "a whole number"),
        ("[[rule]]\nqueue = \"gpu\"\ntier = 1\n", 2, "not a rule key"),
        ("tier = 1\n", 1, "before any [[rule]]"),
        ("[[rule]]\ntier = 0\n", 2, "tier 1 or tier 2"),
        ("[[rule]]\ntier = 2\nwindow_hours = 0\n", 3, "a window of"),
        ("[[rule]]\nnonsense\n", 2, "is not a [[rule]] header"),
    ];

    for (text, line, wanted) in faults {
        let error = TierMap::parse(text).expect_err("a fault");

        assert!(
            matches!(&error, IngestError::TierMap { line: at, source }
                if *at == line && source.message().contains(wanted)),
            "{text:?} should fail on line {line} with {wanted}: got {error:?}"
        );
    }
}

#[test]
fn every_fault_of_a_mapping_file_reads_as_one_line() {
    let faults: [(&str, TierMapFault, &str); 10] = [
        (
            "[[rule]] # urgent",
            TierMapFault::NotALine {
                line: "[[rule]] # urgent".to_owned(),
            },
            "`[[rule]] # urgent` is not a [[rule]] header, a `key = value` line, or a comment",
        ),
        (
            " tier = 1",
            TierMapFault::Homeless {
                key: "tier".to_owned(),
            },
            "`tier` comes before any [[rule]] header",
        ),
        (
            "[[rule]]\nqueue = \"gpu\"",
            TierMapFault::UnknownKey {
                key: "queue".to_owned(),
            },
            "`queue` is not a rule key: expected qos, partition, tier or window_hours",
        ),
        (
            "[[rule]]\nqos = \"a\"b\"",
            TierMapFault::Value {
                key: "qos".to_owned(),
                expected: "a quoted string",
                value: "\"a\"b\"".to_owned(),
            },
            "`qos` wants a quoted string, and `\"a\"b\"` is not one",
        ),
        (
            "[[rule]]\npartition = \"",
            TierMapFault::Value {
                key: "partition".to_owned(),
                expected: "a quoted string",
                value: "\"".to_owned(),
            },
            "`partition` wants a quoted string, and `\"` is not one",
        ),
        (
            "[[rule]]\nwindow_hours = day",
            TierMapFault::Value {
                key: "window_hours".to_owned(),
                expected: "a whole number",
                value: "day".to_owned(),
            },
            "`window_hours` wants a whole number, and `day` is not one",
        ),
        (
            "[[rule]]\ntier = -3",
            TierMapFault::Tier { tier: -3 },
            "tier -3 has no window and no pad in v1: a rule names tier 1 or tier 2",
        ),
        (
            "[[rule]]\nwindow_hours = 8785",
            TierMapFault::Window { hours: 8_785 },
            "a window of 8785 hours is not between 1 and the 8784 a rule may set",
        ),
        (
            "[[rule]]\nwindow_hours = -9223372036854775808",
            TierMapFault::Window { hours: i64::MIN },
            "a window of -9223372036854775808 hours is not between 1 and the 8784 a rule may set",
        ),
        (
            "[[rule]]\nwindow_hours = 4294967320",
            TierMapFault::Window {
                hours: 4_294_967_320,
            },
            "a window of 4294967320 hours is not between 1 and the 8784 a rule may set",
        ),
    ];
    for (text, fault, message) in faults {
        match TierMap::parse(text) {
            Err(IngestError::TierMap { source, .. }) => {
                assert_eq!(source, fault, "{text}");
                assert_eq!(source.message(), message);
            }
            other => panic!("{text:?} should be a fault, got {other:?}"),
        }
    }
    assert_eq!(TierMapFault::NoTier.message(), "this [[rule]] sets no tier");
}

#[test]
fn a_rule_that_sets_no_tier_is_refused_at_its_header() {
    let no_tier = |line: usize| {
        Err(IngestError::TierMap {
            line,
            source: TierMapFault::NoTier,
        })
    };
    assert_eq!(TierMap::parse("[[rule]]\nqos = \"urgent\"\n"), no_tier(1));
    assert_eq!(TierMap::parse("# none\n\n [[rule]] \n"), no_tier(3));
    assert_eq!(
        TierMap::parse("[[rule]]\ntier = 1\n[[rule]]\nwindow_hours = 5\n[[rule]]\ntier = 2\n"),
        no_tier(3)
    );
    assert_eq!(TierMap::parse("[[rule]]\n[[rule]]\ntier = 9\n"), no_tier(1));
    assert!(matches!(
        TierMap::parse("[[rule]]\nqos = \"urgent\"\nnonsense\n"),
        Err(IngestError::TierMap {
            line: 3,
            source: TierMapFault::NotALine { .. },
        })
    ));
}

#[test]
fn a_later_key_of_a_rule_replaces_an_earlier() {
    let map = TierMap::parse(
        "[[rule]]\nqos = \"a\"\ntier = 1\nqos = \"b\"\nwindow_hours = 8784\ntier = 2\n",
    )
    .expect("a rule");
    assert!(map.rule_for(&chars("a"), &chars("p")).is_none());
    let rule = map.rule_for(&chars("b"), &chars("p")).expect("the rule");
    assert_eq!(rule.tier, Tier::Flexible);
    assert_eq!(rule.window_hours(), 8_784);
    assert_eq!(rule.pad_hours(), FLEXIBLE_PAD_HOURS);
    assert_eq!(map.clone(), map);
    let plain = TierMap::parse("[[rule]]\nqos=\"\"\ntier=+1").expect("a rule");
    assert!(plain.rule_for(&chars(""), &chars("p")).is_some());
    assert!(plain.rule_for(&chars("x"), &chars("p")).is_none());
    assert_ne!(plain, map);
}

#[test]
fn the_first_rule_that_matches_wins() {
    let map = TierMap::parse(
        "[[rule]]\nqos = \"q\"\npartition = \"p\"\ntier = 1\n[[rule]]\nqos = \"q\"\ntier = 2\nwindow_hours = 5\n",
    )
    .expect("rules");
    let window = |qos: &str, partition: &str| {
        map.rule_for(&chars(qos), &chars(partition))
            .map(|rule| rule.window_hours())
    };
    assert_eq!(window("q", "p"), Some(LATENCY_WINDOW_HOURS));
    assert_eq!(window("q", "other"), Some(5));
    assert_eq!(window("other", "p"), None);
}

#[test]
fn comments_and_blank_lines_move_the_line_number_and_nothing_else() {
    let plain = TierMap::parse("[[rule]]\ntier = 1\n").expect("a rule");
    let noted = TierMap::parse("# a\n\n[[rule]]\n  # b\n\t tier = 1 \r\n").expect("a rule");
    assert_eq!(plain, noted);
    assert!(matches!(
        TierMap::parse("# a\n\n[[rule]]\n# b\ntier = 9\n"),
        Err(IngestError::TierMap { line: 5, .. })
    ));
}

#[test]
fn a_stated_total_wins_even_where_it_is_nothing() {
    assert_eq!(gpus_of(&chars("gres/gpu=0,gres/gpu:a100=2")), Ok(0));
    assert_eq!(gpus_of(&chars("gres/gpu=3,gres/gpu:a100=many")), Ok(3));
    assert_eq!(gpus_of(&chars("gres/gpu=1,gres/gpu=2")), Ok(3));
    assert_eq!(gpus_of(&chars(",,gres/gpu:a100=2,")), Ok(2));
    assert_eq!(gpus_of(&chars("")), Ok(0));
}

#[test]
fn a_gpu_count_that_cannot_be_held_names_its_entry() {
    assert_eq!(gpus_of(&chars("gres/gpu=4294967295")), Ok(u32::MAX));
    let fault = |value: &str| {
        Err(RejectCause::Field {
            field: "AllocTRES",
            value: value.to_owned(),
            expected: "a GPU count",
        })
    };
    assert_eq!(gpus_of(&chars("gres/gpu=4294967296")), fault("4294967296"));
    assert_eq!(gpus_of(&chars("gres/gpu")), fault(""));
    assert_eq!(
        gpus_of(&chars("gres/gpu:a=4294967295,gres/gpu:b=1")),
        fault("1")
    );
}

#[test]
fn limits_round_up_without_overflow() {
    assert_eq!(requested_hours_of(&chars("0")), Ok(0));
    assert_eq!(requested_hours_of(&chars("60")), Ok(1));
    assert_eq!(requested_hours_of(&chars("61")), Ok(2));
    assert_eq!(requested_hours_of(&chars("4294967295")), Ok(71_582_789));
    assert_eq!(
        requested_hours_of(&chars("")).map_err(|cause| cause.message()),
        Err(
            "field `TimelimitRaw` holds ``, which is not a count of minutes, or UNLIMITED"
                .to_owned()
        )
    );
}

#[test]
fn a_job_number_is_a_plain_number() {
    let number = |job_id: &str| {
        let line = chars(&job_line(job_id, "2026-03-02T08:15:00", "urgent", "gpu"));
        SacctRow::parse(&line).expect("eleven fields").job_number()
    };
    assert_eq!(number("18446744073709551615"), Some(u64::MAX));
    assert_eq!(number("18446744073709551616"), None);
    assert_eq!(number("1234+0"), None);
    assert_eq!(number("1234.0"), None);
    assert_eq!(number(" 7 "), Some(7));
}

#[test]
fn only_the_four_states_of_a_job_that_is_over_are_finished() {
    let finished = |state: &str| {
        let line = chars(&Row { state, ..Row::default() }.line());
        SacctRow::parse(&line).expect("eleven fields").is_finished()
    };
    for state in ["COMPLETED", "TIMEOUT", "FAILED", "CANCELLED", "CANCELLED by 1001"] {
        assert!(finished(state), "{state}");
    }
    for state in ["RUNNING", "PENDING", "REQUEUED", "SUSPENDED", "", "completed", "COMPLETED+"] {
        assert!(!finished(state), "{state}");
    }
}

#[test]
fn skips_are_counted_each_in_its_own_pile() {
    let none = Skips { steps: 0, unfinished: 0, non_gpu: 0 };
    let some = none.and(Skip::Step).and(Skip::Unfinished).and(Skip::NoGpu).and(Skip::Step);
    assert_eq!(some, Skips { steps: 2, unfinished: 1, non_gpu: 1 });
}

#[test]
fn instants_are_asked_only_of_rows_that_would_be_kept_for_them() {
    let text = [
        job_line("1", " 2026-03-02T08:15:00 ", "urgent", "gpu"),
        String::new(),
        job_line("1.batch", "2026-03-02T08:15:00", "urgent", "gpu"),
        Row { state: "RUNNING", ..Row::default() }.line(),
        Row { tres: "cpu=1", ..Row::default() }.line(),
        "broken".to_owned(),
        job_line("2", "Unknown", "urgent", "gpu"),
    ]
    .join("\n");
    let asked = instants(&text, &rules());
    assert_eq!(
        asked,
        vec![
            Some("2026-03-02T08:15:00Z".to_owned()),
            None,
            None,
            None,
            None,
            None,
            Some("UnknownZ".to_owned()),
        ]
    );
}

#[test]
fn a_row_without_an_answer_has_no_reading() {
    let text = job_line("1", "2026-03-02T08:15:00", "urgent", "gpu");
    let converted = map_export(&text, &Vec::new(), &central(MARCH_MONDAY), &rules(), false)
        .expect("the export converts");
    assert_eq!(converted.tally.rejected, 1);
    assert_eq!(
        converted.rejected[0].line(),
        "row 1: field `Submit` holds `2026-03-02T08:15:00`, which is not \
         a local clock reading, like 2026-03-02T08:15:00"
    );
}

#[test]
fn an_impossible_submit_does_not_stretch_the_export() {
    let converted = convert(&[
        job_line("1", "2026-03-02T08:15:00", "urgent", "gpu"),
        job_line("2", "2026-02-30T08:15:00", "urgent", "gpu"),
        job_line("3", "9999-99-99T99:99:99", "urgent", "gpu"),
    ]);
    assert_eq!(converted.tally.kept, 1);
    assert_eq!(converted.tally.rejected, 2);
}

#[test]
fn a_submit_past_the_reach_of_an_export_is_an_error_that_names_the_reach() {
    let text = job_line("1", "2029-01-01T00:00:00", "urgent", "gpu");
    assert_eq!(
        mapped(&text, &central(MARCH_MONDAY), &rules(), false),
        Err(IngestError::ExportTooLong { hours: 17_568 })
    );
}

#[test]
fn a_missing_hour_is_refused_rather_than_placed() {
    let text = [
        job_line("1", "2026-03-08T02:30:00", "urgent", "gpu"),
        job_line("2", "2026-03-08T03:30:00", "urgent", "gpu"),
    ]
    .join("\n");
    let converted = mapped(&text, &central(MARCH_MONDAY), &rules(), true).expect("allowed");
    assert_eq!(
        converted.rejected[0].line(),
        "row 1: field `Submit` holds `2026-03-08T02:30:00`, which is not an hour this export \
         covers (2026-03-02T00:00:00-06:00 to 2026-03-08T03:00:00-05:00)"
    );
    assert_eq!(converted.jobs[0].arrival, HourIndex::new(146));
    assert_eq!(converted.id_map, vec![(JobId::new(0), "2".to_owned())]);
}

#[test]
fn a_doubled_hour_is_its_first_reading_and_is_refused_without_leave() {
    // `2025-11-01T00:00:00-05:00`; the clock falls back 26 hours later.
    let clock = clock_of(1_761_973_200, &[(0, -5), (PREVIOUS_FALL_BACK, -6)]);
    let text = [
        job_line("1", "2025-11-02T01:30:00", "urgent", "gpu"),
        job_line("2", "2025-11-02T02:30:00", "urgent", "gpu"),
    ]
    .join("\n");
    assert_eq!(
        mapped(&text, &clock, &rules(), false),
        Err(IngestError::DstCrossing {
            local: "2025-11-02T01:00:00-06:00".to_owned(),
            kind: "happens twice",
        })
    );
    let converted = mapped(&text, &clock, &rules(), true).expect("allowed");
    let arrivals: Vec<u32> = converted.jobs.iter().map(|job| job.arrival.get()).collect();
    assert_eq!(arrivals, vec![25, 27]);
}

#[test]
fn leave_to_cross_changes_nothing_where_nothing_is_crossed() {
    let text = job_line("1", "2026-03-02T08:15:00", "urgent", "gpu");
    let clock = central(MARCH_MONDAY);
    assert_eq!(
        mapped(&text, &clock, &rules(), false),
        mapped(&text, &clock, &rules(), true)
    );
}

#[test]
fn refusals_are_in_file_order_whenever_they_were_found() {
    let converted = convert(&[
        job_line("1", "2026-03-01T23:00:00", "urgent", "gpu"),
        "broken".to_owned(),
        job_line("2", "2026-03-02T08:15:00", "urgent", "gpu"),
        job_line("3", "2026-03-01T22:00:00", "urgent", "gpu"),
        Row { elapsed: "x", ..Row::default() }.line(),
    ]);
    let rows: Vec<usize> = converted.rejected.iter().map(|refusal| refusal.row).collect();
    assert_eq!(rows, vec![1, 2, 4, 5]);
    assert_eq!(converted.id_map, vec![(JobId::new(0), "2".to_owned())]);
}

#[test]
fn a_deadline_refusal_reads_as_one_line() {
    assert_eq!(
        RejectCause::Deadline { window: 7 }.message(),
        "field `Submit` puts the deadline 7 hours later than an hour index reaches"
    );
    assert_eq!(
        RejectCause::Field {
            field: "ElapsedRaw",
            value: "0".to_owned(),
            expected: "a runtime: a job that ran no seconds ran nothing",
        }
        .message(),
        "field `ElapsedRaw` holds `0`, which is not a runtime: a job that ran no seconds ran nothing"
    );
}

#[test]
fn an_hour_offset_stops_at_the_last_index() {
    assert_eq!(HourIndex::new(8).offset_by(24), Some(HourIndex::new(32)));
    assert_eq!(
        HourIndex::new(1).offset_by(u32::MAX - 1),
        Some(HourIndex::new(u32::MAX))
    );
    assert_eq!(HourIndex::new(1).offset_by(u32::MAX), None);
}

#[test]
fn an_hour_key_is_thirteen_bytes_or_the_whole_reading() {
    let key = |reading: &str| hour_key(&chars(reading)).iter().collect::<String>();
    assert_eq!(key("2026-03-02T08:15:00"), "2026-03-02T08");
    assert_eq!(key("2026-03-02T08"), "2026-03-02T08");
    assert_eq!(key("2026-03-02"), "2026-03-02");
    assert_eq!(key(""), "");
    assert_eq!(key("2026-03-02T\u{e9}:15"), "2026-03-02T\u{e9}");
    assert_eq!(key("2026-03-02T0\u{e9}:15"), "2026-03-02T0\u{e9}:15");
    assert_eq!(key("\u{1f600}\u{1f600}\u{1f600}1x"), "\u{1f600}\u{1f600}\u{1f600}1");
    assert_eq!(key("\u{20ac}\u{20ac}\u{20ac}\u{20ac}1x"), "\u{20ac}\u{20ac}\u{20ac}\u{20ac}1");
}

#[test]
fn a_clock_has_a_reading_and_a_report_for_every_hour() {
    let hours = MAX_EXPORT_HOURS as usize;
    let readings = |n: usize| vec![String::from("x"); n];
    assert!(SiteClock::new(readings(hours), vec![None; hours]).is_some());
    assert!(SiteClock::new(readings(hours - 1), vec![None; hours]).is_none());
    assert!(SiteClock::new(readings(hours), vec![None; hours + 1]).is_none());
    let mut reports = vec![None; hours];
    reports[5] = Some(DstCrossing::Doubled {
        at: HourIndex::new(MAX_EXPORT_HOURS),
    });
    assert!(SiteClock::new(readings(hours), reports).is_none());
}

#[test]
fn nothing_to_place_has_no_hours() {
    let none = LocalHours::none();
    assert_eq!(none.end(), HourIndex::new(0));
    assert_eq!(none.hour_of(&chars("2026-03-02T08:15:00")), None);
    let clock = central(MARCH_MONDAY);
    let some = LocalHours::of(&clock, &chars("2026-03-02T08")).expect("the range is short");
    assert_eq!(some.end(), HourIndex::new(9));
    assert_eq!(
        some.covers(&clock),
        "2026-03-02T00:00:00-06:00 to 2026-03-02T08:00:00-06:00"
    );
}

#[test]
fn an_empty_tally_counts_nothing() {
    assert_eq!(
        Tally::default(),
        Tally { read: 0, kept: 0, steps: 0, unfinished: 0, non_gpu: 0, rejected: 0 }
    );
}

#[test]
fn jobs_of_one_hour_stand_in_id_order_and_raw_ids_can_be_found_again() {
    let converted = convert(&[
        job_line("30", "2026-03-02T09:00:00", "urgent", "gpu"),
        job_line("20", "2026-03-02T08:45:00", "urgent", "gpu"),
        job_line("10", "2026-03-02T08:50:00", "urgent", "gpu"),
        job_line("40", "2026-03-02T08:45:00", "urgent", "gpu"),
    ]);
    let raws: Vec<&str> = converted.id_map.iter().map(|(_, raw)| raw.as_str()).collect();
    assert_eq!(raws, vec!["20", "40", "10", "30"]);
    for (index, (id, _)) in converted.id_map.iter().enumerate() {
        assert_eq!(id.get() as usize, index);
    }
    let ids: Vec<u32> = converted.jobs.iter().map(|job| job.id.get()).collect();
    assert_eq!(ids, vec![0, 1, 2, 3]);
    for job in &converted.jobs {
        assert_eq!(job.deadline.get(), job.arrival.get() + LATENCY_WINDOW_HOURS);
    }
}

/// A synthetic export over three local days: twenty finished jobs, five steps,
/// three jobs still running and two that asked for no GPU.
fn sample() -> String {
    let line = |id: &str, day: u32, hour: u32, tres: &str, limit: &str, state: &str| {
        [
            id.to_owned(),
            format!("2026-03-0{day}T{hour:02}:05:00"),
            format!("2026-03-0{day}T{hour:02}:06:00"),
            format!("2026-03-0{day}T{hour:02}:59:30"),
            "3210".to_owned(),
            tres.to_owned(),
            limit.to_owned(),
            "normal".to_owned(),
            "batch".to_owned(),
            state.to_owned(),
            format!("u0{}", 1 + hour % 9),
        ]
        .join("|")
    };
    let total = "billing=16,cpu=16,gres/gpu=2,mem=128G,node=1";
    let typed = "cpu=16,gres/gpu=2,gres/gpu:a100=2,mem=128G,node=1";
    let mut lines: Vec<String> = Vec::new();
    for id in 1041..1061 {
        let tres = if id % 4 == 0 { typed } else { total };
        let limit = if id == 1047 { "UNLIMITED" } else { "180" };
        let state = match id {
            1045 => "TIMEOUT",
            1048 => "FAILED",
            1051 => "CANCELLED by 1001",
            _ => "COMPLETED",
        };
        let hour = 3 * (id - 1041);
        lines.push(line(&format!("{id}"), 2 + hour / 24, hour % 24, tres, limit, state));
    }
    for step in ["1041.batch", "1044.0", "1044.1", "1050.batch", "1057.batch"] {
        lines.push(line(step, 3, 5, "cpu=16,gres/gpu=2", "180", "COMPLETED"));
    }
    for id in 1061..1064 {
        lines.push(line(&format!("{id}"), 4, id - 1050, total, "240", "RUNNING"));
    }
    for id in 1064..1066 {
        lines.push(line(&format!("{id}"), 4, id - 1050, "cpu=4,mem=8G,node=1", "30", "COMPLETED"));
    }
    lines.join("\n") + "\n"
}

#[test]
fn of_thirty_synthetic_rows_twenty_are_kept_and_none_is_rejected() {
    let converted =
        mapped(&sample(), &central(MARCH_MONDAY), &rules(), false).expect("the export converts");

    assert_eq!(
        converted.tally,
        Tally { read: 30, kept: 20, steps: 5, unfinished: 3, non_gpu: 2, rejected: 0 }
    );
    assert!(converted.jobs.iter().all(|job| job.gpus == 2));
    let unknown: Vec<u32> = converted
        .jobs
        .iter()
        .filter(|job| job.requested_hours == 0)
        .map(|job| job.id.get())
        .collect();
    assert_eq!(unknown, vec![6]);
    assert_eq!(converted.id_map[6].1, "1047");
    assert_eq!(converted.jobs[19].arrival, HourIndex::new(57));
}

#[test]
fn lines_in_another_order_convert_alike() {
    let mut lines = vec![
        job_line("12", "2026-03-02T09:30:00", "urgent", "gpu"),
        "broken".to_owned(),
        job_line("9", "2026-03-02T08:00:00", "normal", "batch"),
        String::new(),
        job_line("10", "2026-03-02T08:00:00", "urgent", "gpu"),
        job_line("10.0", "2026-03-02T08:00:00", "urgent", "gpu"),
        job_line("7", "2026-03-01T08:00:00", "urgent", "gpu"),
    ];
    let causes = |converted: &Conversion| {
        let mut messages: Vec<String> = converted
            .rejected
            .iter()
            .map(|refusal| refusal.cause.message())
            .collect();
        messages.sort();
        messages
    };
    let forward = convert(&lines);
    lines.reverse();
    let backward = convert(&lines);
    assert_eq!(forward.jobs, backward.jobs);
    assert_eq!(forward.id_map, backward.id_map);
    assert_eq!(forward.tally, backward.tally);
    assert_eq!(causes(&forward), causes(&backward));
    assert_eq!(forward.tally.kept, 3);
    assert_eq!(forward.tally.rejected, 2);
}

#[test]
fn start_end_and_user_are_dropped() {
    let line = job_line("1", "2026-03-02T08:15:00", "urgent", "gpu");
    let other = line
        .replace("2026-03-02T08:00:00|2026-03-02T09:00:00", "Unknown|")
        .replace("|ada", "|somebody else  ");
    assert_ne!(line, other);
    assert_eq!(convert(&[line]), convert(&[other]));
}

/// The clock of an export, read from a whole clock hour by hour for as long as
/// the export's hours go on.
fn span_of(whole: &SiteClock, until: &Option<String>) -> SiteClock {
    let mut readings: Vec<String> = Vec::new();
    while wants_reading(&readings, until) {
        let hour = HourIndex::new(u32::try_from(readings.len()).expect("an hour"));
        readings.push(whole.local_iso(hour).clone());
    }
    let crossing = match u32::try_from(readings.len()).expect("an hour") {
        0 => None,
        hours => whole.crossing_report(HourIndex::new(hours - 1)),
    };
    SiteClock::of_span(readings, crossing).expect("a span")
}

#[test]
fn a_clock_is_read_no_further_than_an_export_goes() {
    let whole = central(MARCH_MONDAY);
    let map = rules();
    let exports = [
        job_line("1", "2026-03-02T08:15:00", "urgent", "gpu"),
        [
            job_line("1", "2026-03-01T08:15:00", "urgent", "gpu"),
            job_line("2", "2026-03-09T08:15:00", "urgent", "gpu"),
        ]
        .join("\n"),
        "broken".to_owned(),
        job_line("1", "2029-01-01T00:00:00", "urgent", "gpu"),
    ];
    for text in exports {
        let legible = vec![true; 2];
        let span = span_of(&whole, &latest_hour(&text, &legible, &map));
        for allow in [false, true] {
            assert_eq!(
                map_export(&text, &legible, &span, &map, allow),
                map_export(&text, &legible, &whole, &map, allow),
                "{text}"
            );
        }
    }
    let until = Some("2026-03-02T08".to_owned());
    let read = |n: u32| (0..n).map(|hour| whole.local_iso(HourIndex::new(hour)).clone()).collect();
    assert!(wants_reading(&Vec::new(), &until));
    assert!(wants_reading(&read(9), &until));
    assert!(!wants_reading(&read(10), &until));
    assert!(!wants_reading(&Vec::new(), &None));
}

#[test]
fn the_latest_hour_is_that_of_the_rows_to_be_placed() {
    let text = [
        job_line("1", "2026-03-02T08:15:00", "urgent", "gpu"),
        job_line("2", "2026-03-02T07:15:00", "urgent", "gpu"),
        job_line("3", "Unknown", "urgent", "gpu"),
    ]
    .join("\n");
    let map = rules();
    assert_eq!(
        latest_hour(&text, &vec![true, true, false], &map),
        Some("2026-03-02T08".to_owned())
    );
    assert_eq!(latest_hour("1.batch|x\n", &vec![true], &map), None);
}

#[test]
fn a_span_has_no_more_hours_than_an_export_and_its_change_is_in_it() {
    let hours = MAX_EXPORT_HOURS as usize;
    let missing = |at: u32| Some(DstCrossing::Missing { at: HourIndex::new(at) });
    assert!(SiteClock::of_span(vec![String::new(); hours], None).is_some());
    assert!(SiteClock::of_span(vec![String::new(); hours + 1], None).is_none());
    assert!(SiteClock::of_span(vec![String::new(); 3], missing(2)).is_some());
    assert!(SiteClock::of_span(vec![String::new(); 3], missing(3)).is_none());
    assert!(SiteClock::of_span(Vec::new(), missing(0)).is_none());
}
