//! The public row shape, field names, and sample counts.
//!
//! Synthetic fixtures; nothing here was measured.

use sacct_parse::{parse_file, parse_row, Error, Limit, Record, State};

const OFFSET: i64 = -21_600;

const COMPLETED_ROW: &str = "101|2026-03-02T08:15:00|2026-03-02T08:00:00|2026-03-02T09:00:00|7200|cpu=8,gres/gpu=1|180|normal|batch|COMPLETED|u01";

/// One synthetic `--parsable2` row. Fields not under test stay fixed.
fn row(job_id: &str, elapsed: &str, tres: &str, timelimit: &str, state: &str) -> String {
    [
        job_id,
        "2026-03-02T08:15:00",
        "2026-03-02T08:00:00",
        "2026-03-02T09:00:00",
        elapsed,
        tres,
        timelimit,
        "normal",
        "batch",
        state,
        "u01",
    ]
    .join("|")
}

fn parsed(line: &str) -> Record {
    parse_row(line, OFFSET).expect("the row parses")
}

fn limit_kind(limit: Limit) -> &'static str {
    match limit {
        Limit::Minutes(_) => "minutes",
        Limit::Unlimited => "unlimited",
    }
}

fn state_kind(state: &State) -> &'static str {
    match state {
        State::Completed => "completed",
        State::Timeout => "timeout",
        State::Failed => "failed",
        State::Cancelled => "cancelled",
        State::Running => "running",
        State::Pending => "pending",
        State::Other(_) => "other",
    }
}

#[test]
fn completed_row_pins_record_fields() {
    let record = parsed(COMPLETED_ROW);

    assert_eq!(record.gpu_count(), 1);
    assert!(!record.is_step());
    assert_eq!(limit_kind(record.timelimit), "minutes");
    assert_eq!(state_kind(&record.state), "completed");

    let Record {
        job_id,
        submit,
        start,
        end,
        elapsed_seconds,
        alloc_tres,
        timelimit,
        qos,
        partition,
        state,
        user,
    } = record;

    assert_eq!(job_id, "101");
    assert_eq!(submit, 1_772_460_900);
    assert_eq!(start, 1_772_460_000);
    assert_eq!(end, 1_772_463_600);
    assert_eq!(elapsed_seconds, 7200);
    assert_eq!(alloc_tres.get("gres/gpu"), Some(&1));
    assert_eq!(timelimit, Limit::Minutes(180));
    assert_eq!(qos, "normal");
    assert_eq!(partition, "batch");
    assert_eq!(state, State::Completed);
    assert_eq!(user, "u01");
}

#[test]
fn unlimited_timelimit_is_limit_unlimited() {
    let record = parsed(&row(
        "102",
        "7200",
        "cpu=8,gres/gpu=1",
        "UNLIMITED",
        "COMPLETED",
    ));

    assert_eq!(record.timelimit, Limit::Unlimited);
    assert_eq!(limit_kind(record.timelimit), "unlimited");
}

#[test]
fn cancelled_by_clause_is_state_cancelled() {
    let record = parsed(&row(
        "103",
        "7200",
        "cpu=8,gres/gpu=1",
        "180",
        "CANCELLED by 1001",
    ));

    assert_eq!(record.state, State::Cancelled);
    assert_eq!(state_kind(&record.state), "cancelled");
}

#[test]
fn typed_gpus_without_total_sum_to_three() {
    let record = parsed(&row(
        "104",
        "7200",
        "cpu=8,gres/gpu:a100=2,gres/gpu:h100=1",
        "180",
        "COMPLETED",
    ));

    assert_eq!(record.gpu_count(), 3);
}

#[test]
fn gpu_total_wins_over_typed_breakdown() {
    let record = parsed(&row(
        "105",
        "7200",
        "cpu=8,gres/gpu=3,gres/gpu:a100=3",
        "180",
        "COMPLETED",
    ));

    assert_eq!(record.gpu_count(), 3);
}

#[test]
fn cpu_and_mem_only_has_zero_gpus() {
    let record = parsed(&row("106", "7200", "cpu=8,mem=64G", "180", "COMPLETED"));

    assert_eq!(record.gpu_count(), 0);
}

#[test]
fn dotted_job_ids_are_steps() {
    assert!(parsed(&row("1041.batch", "7200", "cpu=8", "180", "COMPLETED")).is_step());
    assert!(parsed(&row("1044.0", "7200", "cpu=8", "180", "COMPLETED")).is_step());
    assert!(!parsed(&row("1041", "7200", "cpu=8", "180", "COMPLETED")).is_step());
}

#[test]
fn ten_fields_is_arity_error_on_row_one() {
    let line = "101|2026-03-02T08:15:00|2026-03-02T08:00:00|2026-03-02T09:00:00|7200|cpu=8,gres/gpu=1|180|normal|batch|COMPLETED";

    match parse_row(line, OFFSET) {
        Err(Error::Arity {
            row,
            expected,
            actual,
        }) => {
            assert_eq!(row, 1);
            assert_eq!(expected, 11);
            assert_eq!(actual, 10);
        }
        other => panic!("expected Error::Arity on row 1, got {other:?}"),
    }
}

#[test]
fn bad_elapsed_raw_display_names_row_and_field() {
    let err = parse_row(&row("101", "abc", "cpu=8", "180", "COMPLETED"), OFFSET)
        .expect_err("ElapsedRaw=abc is rejected");
    let display = err.message();

    assert!(display.contains("row 1"), "{display}");
    assert!(display.contains("ElapsedRaw"), "{display}");
}

#[test]
fn bad_timelimit_raw_names_that_field() {
    match parse_row(
        &row("101", "7200", "cpu=8", "not-a-limit", "COMPLETED"),
        OFFSET,
    ) {
        Err(Error::Field {
            field: "TimelimitRaw",
            row: 1,
            ..
        }) => {}
        other => panic!("expected TimelimitRaw field error on row 1, got {other:?}"),
    }
}

#[test]
fn unknown_end_is_typed_field_error_naming_end() {
    let line = "101|2026-03-02T08:15:00|2026-03-02T08:00:00|Unknown|7200|cpu=8,gres/gpu=1|180|normal|batch|COMPLETED|u01";

    match parse_row(line, OFFSET) {
        Err(Error::Field {
            field: "End",
            row: 1,
            ..
        }) => {}
        other => panic!("expected End field error on row 1, got {other:?}"),
    }
}

/// A synthetic export over three local days: twenty finished jobs, five steps,
/// three jobs still running and two that asked for no GPU.
fn sample() -> String {
    let line = |id: &str, day: u32, hour: u32, tres: &str, limit: &str, state: &str| {
        [
            id.to_owned(),
            format!("2026-03-0{day}T{hour:02}:05:00"),
            format!("2026-03-0{day}T{hour:02}:06:00"),
            format!("2026-03-0{day}T{hour:02}:59:30"),
            "3210".to_owned(),
            tres.to_owned(),
            limit.to_owned(),
            "normal".to_owned(),
            "batch".to_owned(),
            state.to_owned(),
            format!("u0{}", 1 + hour % 9),
        ]
        .join("|")
    };
    let total = "billing=16,cpu=16,gres/gpu=2,mem=128G,node=1";
    let typed = "cpu=16,gres/gpu=2,gres/gpu:a100=2,mem=128G,node=1";
    let mut lines: Vec<String> = Vec::new();
    for id in 1041..1061 {
        let tres = if id % 4 == 0 { typed } else { total };
        let limit = if id == 1047 { "UNLIMITED" } else { "180" };
        let state = match id {
            1045 => "TIMEOUT",
            1048 => "FAILED",
            1051 => "CANCELLED by 1001",
            _ => "COMPLETED",
        };
        let hour = 3 * (id - 1041);
        lines.push(line(&format!("{id}"), 2 + hour / 24, hour % 24, tres, limit, state));
    }
    for step in ["1041.batch", "1044.0", "1044.1", "1050.batch", "1057.batch"] {
        lines.push(line(step, 3, 5, "cpu=16,gres/gpu=2", "180", "COMPLETED"));
    }
    for id in 1061..1064 {
        lines.push(line(&format!("{id}"), 4, id - 1050, total, "240", "RUNNING"));
    }
    for id in 1064..1066 {
        lines.push(line(&format!("{id}"), 4, id - 1050, "cpu=4,mem=8G,node=1", "30", "COMPLETED"));
    }
    lines.join("\n") + "\n"
}

#[test]
fn sample_file_parses_thirty_records_with_five_steps() {
    let text = sample();
    let records = parse_file(&text, OFFSET).expect("every sample row parses");

    assert_eq!(records.len(), 30);
    assert_eq!(records.iter().filter(|record| record.is_step()).count(), 5);
    assert!(records
        .iter()
        .any(|record| record.timelimit == Limit::Unlimited));
}

#[test]
fn limit_and_state_variants_are_exhaustive() {
    assert_eq!(limit_kind(Limit::Minutes(1)), "minutes");
    assert_eq!(limit_kind(Limit::Unlimited), "unlimited");
    assert_eq!(state_kind(&State::Completed), "completed");
    assert_eq!(state_kind(&State::Timeout), "timeout");
    assert_eq!(state_kind(&State::Failed), "failed");
    assert_eq!(state_kind(&State::Cancelled), "cancelled");
    assert_eq!(state_kind(&State::Running), "running");
    assert_eq!(state_kind(&State::Pending), "pending");
    assert_eq!(state_kind(&State::Other(String::new())), "other");
}
