//! What holds of one row of an export.

use vstd::prelude::*;
use crate::number;
use crate::record;
use crate::record_laws;
use crate::row;
use crate::row::{CandidateView, CauseView, Classified, RejectCause, Skip};
use crate::text;
use crate::tiers;
use crate::tiers::{RuleView, Tier};

verus! {

/// A runtime is the number of seconds that the field writes, of which there is
/// at least one.
pub proof fn law_runtime_is_what_is_written(elapsed: Seq<char>, n: nat)
    ensures
        row::seconds_in(elapsed) matches Ok(seconds) ==> seconds >= 1 && number::unsigned(elapsed)
            == Some(seconds as int),
        number::unsigned(elapsed) matches Some(m) && 1 <= m <= u32::MAX ==> row::seconds_in(elapsed)
            is Ok,
        1 <= n <= u32::MAX ==> row::seconds_in(number::decimal(n)) == Ok::<u32, CauseView>(
            n as u32,
        ),
        row::seconds_in(elapsed) matches Err(cause) ==> cause is Field && row::field_in(cause)
            == "ElapsedRaw"@,
{
    number::law_decimal_reads_back(n);
    number::law_signs(number::decimal(n));
    record_laws::lemma_unsigned(elapsed);
}

/// The hours asked for are the fewest whole hours that hold the minutes that
/// the field writes, and none for a job without a limit.
pub proof fn law_requested_hours_hold_the_limit(timelimit: Seq<char>)
    ensures
        timelimit == "UNLIMITED"@ ==> row::requested_in(timelimit) == Ok::<u32, CauseView>(0),
        timelimit != "UNLIMITED"@ ==> match row::requested_in(timelimit) {
            Ok(hours) => number::unsigned(timelimit) matches Some(minutes) && 60 * (hours - 1)
                < minutes <= 60 * hours,
            Err(cause) => {
                &&& !(number::unsigned(timelimit) matches Some(minutes) && minutes <= u32::MAX)
                &&& cause is Field && row::field_in(cause) == "TimelimitRaw"@
            },
        },
{
    record_laws::lemma_unsigned(timelimit);
}

/// Whether a word is the state of a job that ran and is over.
pub open spec fn ends_a_job(word: Seq<char>) -> bool {
    ||| word == "CANCELLED"@
    ||| word == "FAILED"@
    ||| word == "TIMEOUT"@
    ||| word == "COMPLETED"@
}

/// A job is over where the first word of its state is one of four, whatever
/// clause follows.
pub proof fn law_over_by_first_word(lead: Seq<char>, word: Seq<char>, clause: Seq<char>)
    requires
        text::all_space(lead),
        forall|i: int| 0 <= i < word.len() ==> !text::is_space(#[trigger] word[i]),
        word.len() == 0 ==> clause.len() == 0,
        clause.len() > 0 ==> text::is_space(clause[0]),
    ensures
        row::is_over(lead + word + clause) <==> ends_a_job(word),
{
    text::law_first_word(lead, word, clause);
}

/// A row with a number for its id is a job, and one with anything else is a
/// step of one.
pub proof fn law_job_number_is_what_is_written(job_id: Seq<char>, n: nat)
    ensures
        row::job_number_in(job_id) matches Some(m) ==> number::unsigned(job_id) == Some(m) && 0 <= m
            <= u64::MAX,
        (number::unsigned(job_id) matches Some(m) && m <= u64::MAX) ==> row::job_number_in(job_id)
            == number::unsigned(job_id),
        n <= u64::MAX ==> row::job_number_in(number::decimal(n)) == Some(n as int),
        (exists|i: int| 0 < i < job_id.len() && !number::is_digit(#[trigger] job_id[i]))
            ==> row::job_number_in(job_id) is None,
{
    number::law_decimal_reads_back(n);
    number::law_signs(number::decimal(n));
    number::law_signs(job_id);
    record_laws::lemma_unsigned(job_id);
}

/// Whether an entry of an `AllocTRES` is a GPU total, with a count or without.
pub open spec fn states_total(entry: Seq<char>) -> bool {
    entry == "gres/gpu"@ || "gres/gpu="@.is_prefix_of(entry)
}

/// Whether an `AllocTRES` states a GPU total.
pub open spec fn has_total(tres: Seq<char>) -> bool {
    exists|i: int|
        0 <= i < text::pieces(tres, ',').len() && states_total(
            #[trigger] text::pieces(tres, ',')[i],
        )
}

/// Whether an entry is made of this name and this count.
pub open spec fn is_made_of(entry: Seq<char>, name: Seq<char>, count: Seq<char>) -> bool {
    &&& !name.contains('=')
    &&& entry == name + seq!['='] + count || (entry == name && count.len() == 0)
}

/// The GPUs once a count is added to those there are.
pub open spec fn plus_count(gpus: Result<u32, CauseView>, count: Seq<char>) -> Result<
    u32,
    CauseView,
> {
    match gpus {
        Err(cause) => Err(cause),
        Ok(gpus) => match number::unsigned(count) {
            Some(n) => if gpus + n <= u32::MAX {
                Ok((gpus + n) as u32)
            } else {
                Err(
                    CauseView::Field {
                        field: "AllocTRES"@,
                        value: count,
                        expected: "a GPU count"@,
                    },
                )
            },
            None => Err(
                CauseView::Field { field: "AllocTRES"@, value: count, expected: "a GPU count"@ },
            ),
        },
    }
}

proof fn lemma_entry(entry: Seq<char>, name: Seq<char>, count: Seq<char>)
    requires
        is_made_of(entry, name, count),
    ensures
        row::entry_name(entry) == name,
        row::entry_count(entry) == count,
        states_total(entry) == (name == "gres/gpu"@),
        row::is_gpu_total(entry) == states_total(entry),
        row::is_gpu_type(entry) == "gres/gpu:"@.is_prefix_of(name),
        name == "gres/gpu"@ ==> !("gres/gpu:"@.is_prefix_of(name)),
{
    reveal_strlit("gres/gpu");
    reveal_strlit("gres/gpu=");
    reveal_strlit("gres/gpu:");
    text::law_cut(name, '=', count);
    if entry == name {
        assert(count =~= Seq::<char>::empty());
    }
    let total = "gres/gpu"@;
    let begun = "gres/gpu="@;
    assert(begun =~= total + seq!['=']);
    if name == total && entry != name {
        assert(begun.is_prefix_of(entry)) by {
            assert(entry.take(9) =~= begun);
        }
    }
    if begun.is_prefix_of(entry) {
        assert forall|i: int| 0 <= i < 9 implies #[trigger] begun[i] == entry[i] by {
            assert(entry.subrange(0, 9)[i] == entry[i]);
        }
        assert(total.len() == 8);
        assert(begun[8] == (total + seq!['='])[8]);
        assert(begun[8] == '=');
        assert(entry[8] == '=');
        if entry == name {
            assert(name[8] == '=');
            assert(name.contains('='));
        } else {
            if name.len() > 8 {
                assert(name[8] == entry[8]);
                assert(name.contains('='));
            }
            if name.len() < 8 {
                assert(entry[name.len() as int] == '=');
                assert(begun[name.len() as int] == entry[name.len() as int]);
                assert(begun[name.len() as int] == total[name.len() as int]);
                assert(total[name.len() as int] != '=');
            }
            assert forall|i: int| 0 <= i < 8 implies name[i] == total[i] by {
                assert(name[i] == entry[i] && entry[i] == begun[i] && begun[i] == total[i]);
            }
            assert(name =~= total);
        }
    }
    if entry == total && entry != name {
        assert(entry[name.len() as int] == '=');
        assert(total[name.len() as int] != '=');
    }
}

/// How any entry is made.
proof fn lemma_some_parts(entry: Seq<char>)
    ensures
        is_made_of(entry, row::entry_name(entry), row::entry_count(entry)),
{
    text::lemma_position(entry, '=');
    let at = text::position_of(entry, '=');
    if at < entry.len() {
        let name = entry.take(at);
        assert forall|k: int| 0 <= k < name.len() implies name[k] != '=' by {
            assert(name[k] == entry[k]);
        }
        assert(entry =~= name + seq!['='] + entry.skip(at + 1));
    }
}

proof fn lemma_no_totals(entries: Seq<Seq<char>>)
    requires
        forall|i: int| 0 <= i < entries.len() ==> !states_total(#[trigger] entries[i]),
    ensures
        row::gpu_sum_in(entries, true) == Ok::<u32, CauseView>(0),
    decreases entries.len(),
{
    if entries.len() > 0 {
        let less = entries.drop_last();
        assert forall|i: int| 0 <= i < less.len() implies !states_total(#[trigger] less[i]) by {
            assert(less[i] == entries[i]);
        }
        lemma_no_totals(less);
        let last = entries[entries.len() - 1];
        lemma_some_parts(last);
        lemma_entry(last, row::entry_name(last), row::entry_count(last));
    }
}

proof fn lemma_total_is_stated(tres: Seq<char>)
    ensures
        has_total(tres) <==> exists|i: int|
            0 <= i < text::pieces(tres, ',').len() && row::is_gpu_total(
                #[trigger] text::pieces(tres, ',')[i],
            ),
{
    let entries = text::pieces(tres, ',');
    assert forall|i: int| 0 <= i < entries.len() implies row::is_gpu_total(#[trigger] entries[i])
        == states_total(entries[i]) by {
        lemma_some_parts(entries[i]);
        lemma_entry(entries[i], row::entry_name(entries[i]), row::entry_count(entries[i]));
    }
}

/// How the GPUs of an `AllocTRES` go with one more entry. A first total takes
/// the place of what the types gave, a further total adds to it, a type adds
/// where no total is stated, and any other entry changes nothing. A count that
/// is none, or that takes the sum past what is held, is at fault.
pub proof fn law_gpus_with_one_more_entry(
    tres: Seq<char>,
    entry: Seq<char>,
    name: Seq<char>,
    count: Seq<char>,
)
    requires
        is_made_of(entry, name, count),
        !entry.contains(','),
    ensures
        ({
            let before = row::gpus_in(tres);
            let after = row::gpus_in(tres + seq![','] + entry);
            if name == "gres/gpu"@ {
                after == plus_count(
                    if has_total(tres) {
                        before
                    } else {
                        Ok(0)
                    },
                    count,
                )
            } else if "gres/gpu:"@.is_prefix_of(name) && !has_total(tres) {
                after == plus_count(before, count)
            } else {
                after == before
            }
        }),
        has_total(tres + seq![','] + entry) == (has_total(tres) || name == "gres/gpu"@),
        row::gpus_in(Seq::empty()) == Ok::<u32, CauseView>(0),
        !has_total(Seq::empty()),
        row::gpus_in(entry) == row::gpus_in(Seq::<char>::empty() + seq![','] + entry),
{
    let entries = text::pieces(tres, ',');
    let more = entries.push(entry);
    text::law_one_more_piece(tres, ',', entry);
    lemma_entry(entry, name, count);
    record_laws::lemma_unsigned(count);
    lemma_total_is_stated(tres);
    lemma_total_is_stated(tres + seq![','] + entry);
    assert(more.drop_last() =~= entries);
    assert(more.last() == entry);
    if has_total(tres) {
        let i = choose|i: int| 0 <= i < entries.len() && states_total(#[trigger] entries[i]);
        assert(more[i] == entries[i]);
        assert(states_total(more[i]));
    } else {
        lemma_no_totals(entries);
        if name == "gres/gpu"@ {
            assert(states_total(more[more.len() - 1]));
        } else {
            assert forall|i: int| 0 <= i < more.len() implies !states_total(#[trigger] more[i]) by {
                if i < entries.len() {
                    assert(more[i] == entries[i]);
                }
            }
        }
    }
    lemma_one_entry(entry, name, count);
}

proof fn lemma_one_entry(entry: Seq<char>, name: Seq<char>, count: Seq<char>)
    requires
        is_made_of(entry, name, count),
        !entry.contains(','),
    ensures
        row::gpus_in(Seq::empty()) == Ok::<u32, CauseView>(0),
        !has_total(Seq::empty()),
        row::gpus_in(entry) == row::gpus_in(Seq::<char>::empty() + seq![','] + entry),
{
    let nothing = Seq::<char>::empty();
    let longer = nothing + seq![','] + entry;
    reveal_strlit("gres/gpu");
    reveal_strlit("gres/gpu=");
    reveal_strlit("gres/gpu:");
    text::law_one_more_piece(nothing, ',', nothing);
    text::law_one_more_piece(nothing, ',', entry);
    lemma_total_is_stated(nothing);
    lemma_total_is_stated(entry);
    lemma_total_is_stated(longer);
    lemma_entry(entry, name, count);
    lemma_entry(nothing, nothing, nothing);
    let none = text::pieces(nothing, ',');
    let one = text::pieces(entry, ',');
    let two = text::pieces(longer, ',');
    assert(none =~= seq![nothing]);
    assert(one =~= seq![entry]);
    assert(two =~= seq![nothing, entry]);
    assert(!states_total(nothing));
    assert forall|total: bool| #[trigger] row::gpu_sum_in(none, total) == Ok::<u32, CauseView>(
        0,
    ) by {
        assert(none.drop_last() =~= Seq::<Seq<char>>::empty());
        assert(none.last() == nothing);
        assert(row::gpu_sum_in(none.drop_last(), total) == Ok::<u32, CauseView>(0));
    }
    assert(two.drop_last() =~= none);
    assert(one.drop_last() =~= Seq::<Seq<char>>::empty());
    assert(forall|total: bool| #[trigger]
        row::gpu_sum_in(one, total) == row::gpu_sum_in(two, total)) by {
        assert forall|total: bool| #[trigger] row::gpu_sum_in(one, total) == row::gpu_sum_in(
            two,
            total,
        ) by {
            assert(row::gpu_sum_in(none, total) == Ok::<u32, CauseView>(0));
            assert(row::gpu_sum_in(one.drop_last(), total) == Ok::<u32, CauseView>(0));
        }
    }
    if states_total(entry) {
        assert(states_total(one[0]) && states_total(two[1]));
    } else {
        assert(!states_total(one[0]) && !states_total(two[0]) && !states_total(two[1]));
    }
}

/// Whether a rule is the first that covers a row.
pub open spec fn is_first_rule(
    rules: Seq<RuleView>,
    r: int,
    qos: Seq<char>,
    partition: Seq<char>,
) -> bool {
    &&& 0 <= r < rules.len()
    &&& tiers::covers(rules[r], qos, partition)
    &&& forall|j: int| 0 <= j < r ==> !tiers::covers(#[trigger] rules[j], qos, partition)
}

/// Whether a candidate is what the fields of its row and the rule that covers
/// it give.
pub open spec fn is_its_row(candidate: CandidateView, line: Seq<char>, rule: RuleView) -> bool {
    &&& candidate.job_id == record_laws::field_of(line, 0)
    &&& number::unsigned(record_laws::field_of(line, 0)) == Some(candidate.job_number as int)
    &&& candidate.submit == record_laws::field_of(line, 1)
    &&& number::unsigned(record_laws::field_of(line, 4)) == Some(candidate.actual_seconds as int)
    &&& candidate.actual_seconds > 0
    &&& row::gpus_in(record_laws::field_of(line, 5)) == Ok::<u32, CauseView>(candidate.gpus)
    &&& candidate.gpus > 0
    &&& if record_laws::field_of(line, 6) == "UNLIMITED"@ {
        candidate.requested_hours == 0
    } else {
        number::unsigned(record_laws::field_of(line, 6)) matches Some(minutes) && 60 * (
        candidate.requested_hours - 1) < minutes <= 60 * candidate.requested_hours
    }
    &&& candidate.tier == rule.tier
    &&& match rule.window_hours {
        Some(hours) => candidate.window_hours == hours,
        None => candidate.window_hours == if rule.tier == Tier::Latency {
            24u32
        } else {
            168u32
        },
    }
    &&& candidate.pad_hours == if rule.tier == Tier::Latency {
        7u32
    } else {
        4u32
    }
}

/// Whether a row has eleven fields.
pub open spec fn is_row(line: Seq<char>) -> bool {
    text::pieces(line, '|').len() == 11
}

/// Whether a row is a step: its id is no number.
pub open spec fn is_step_row(line: Seq<char>) -> bool {
    is_row(line) && !(number::unsigned(record_laws::field_of(line, 0)) matches Some(n) && n
        <= u64::MAX)
}

/// Whether a row is a job that is not over.
pub open spec fn is_unfinished_row(line: Seq<char>) -> bool {
    is_row(line) && !is_step_row(line) && !ends_a_job(
        text::first_word_of(record_laws::field_of(line, 9)),
    )
}

/// Whether a row is a job that is over and has no GPU.
pub open spec fn is_gpuless_row(line: Seq<char>) -> bool {
    is_row(line) && !is_step_row(line) && !is_unfinished_row(line) && row::gpus_in(
        record_laws::field_of(line, 5),
    ) == Ok::<u32, CauseView>(0)
}

/// Whether a cause is of a field that holds a value, with what was expected.
pub open spec fn is_wrong(
    cause: CauseView,
    field: Seq<char>,
    value: Seq<char>,
    expected: Seq<char>,
) -> bool {
    cause == (CauseView::Field { field, value, expected })
}

/// What a row turns out to be. It is skipped for being a step, unfinished or
/// without a GPU, in that order; it is refused for its first fault; and else
/// it is kept with what its fields and the first rule that covers it give.
pub proof fn law_what_a_row_is(row: nat, line: Seq<char>, rules: Seq<RuleView>, legible: bool)
    ensures
        ({
            let f = |i: int| record_laws::field_of(line, i);
            let whole = |i: int| (number::unsigned(f(i)) matches Some(n) && n <= u32::MAX);
            match row::classified(row, line, rules, legible) {
                Ok(Classified::Skipped(Skip::Step)) => is_step_row(line),
                Ok(Classified::Skipped(Skip::Unfinished)) => is_unfinished_row(line),
                Ok(Classified::Skipped(Skip::NoGpu)) => is_gpuless_row(line),
                Ok(Classified::Kept(candidate)) => {
                    &&& is_row(line) && !is_step_row(line) && !is_unfinished_row(line)
                        && !is_gpuless_row(line)
                    &&& legible
                    &&& candidate.row == row
                    &&& exists|r: int|
                        is_first_rule(rules, r, f(7), f(8)) && is_its_row(
                            candidate,
                            line,
                            #[trigger] rules[r],
                        )
                },
                Err(cause) => {
                    &&& !is_step_row(line) && !is_unfinished_row(line) && !is_gpuless_row(line)
                    &&& if !is_row(line) {
                        cause == (CauseView::Arity {
                            expected: 11,
                            actual: text::pieces(line, '|').len(),
                        })
                    } else if row::gpus_in(f(5)) is Err {
                        row::gpus_in(f(5)) == Err::<u32, CauseView>(cause)
                    } else if forall|j: int|
                        0 <= j < rules.len() ==> !tiers::covers(#[trigger] rules[j], f(7), f(8)) {
                        cause == (CauseView::Unmapped { qos: f(7), partition: f(8) })
                    } else if !legible {
                        is_wrong(
                            cause,
                            "Submit"@,
                            f(1),
                            "a local clock reading, like 2026-03-02T08:15:00"@,
                        )
                    } else if !whole(4) {
                        is_wrong(cause, "ElapsedRaw"@, f(4), "a count of seconds"@)
                    } else if number::unsigned(f(4)) == Some(0int) {
                        is_wrong(
                            cause,
                            "ElapsedRaw"@,
                            f(4),
                            "a runtime: a job that ran no seconds ran nothing"@,
                        )
                    } else {
                        &&& f(6) != "UNLIMITED"@ && !whole(6)
                        &&& is_wrong(
                            cause,
                            "TimelimitRaw"@,
                            f(6),
                            "a count of minutes, or UNLIMITED"@,
                        )
                    }
                },
            }
        }),
{
    let p = text::pieces(line, '|');
    let g = record::fields_in(line);
    assert(g.len() == p.len());
    if p.len() == 11 {
        assert(g[0] == record_laws::field_of(line, 0) && g[1] == record_laws::field_of(line, 1));
        assert(g[4] == record_laws::field_of(line, 4) && g[5] == record_laws::field_of(line, 5));
        assert(g[6] == record_laws::field_of(line, 6) && g[7] == record_laws::field_of(line, 7));
        assert(g[8] == record_laws::field_of(line, 8) && g[9] == record_laws::field_of(line, 9));
        record_laws::lemma_unsigned(g[0]);
        record_laws::lemma_unsigned(g[4]);
        record_laws::lemma_unsigned(g[6]);
        law_job_number_is_what_is_written(g[0], 0);
        law_runtime_is_what_is_written(g[4], 0);
        law_requested_hours_hold_the_limit(g[6]);
        lemma_first_rule(rules, g[7], g[8]);
        match row::classified(row, line, rules, legible) {
            Ok(Classified::Kept(candidate)) => {
                let r = choose|r: int|
                    #![trigger rules[r]]
                    is_first_rule(rules, r, g[7], g[8]) && tiers::first_rule(rules, g[7], g[8])
                        == Some(rules[r]);
                assert(is_its_row(candidate, line, rules[r]));
            },
            _ => {},
        }
    }
}

proof fn lemma_first_rule(rules: Seq<RuleView>, qos: Seq<char>, partition: Seq<char>)
    ensures
        match tiers::first_rule(rules, qos, partition) {
            Some(rule) => exists|r: int|
                #![trigger rules[r]]
                is_first_rule(rules, r, qos, partition) && rules[r] == rule,
            None => forall|j: int|
                0 <= j < rules.len() ==> !tiers::covers(#[trigger] rules[j], qos, partition),
        },
{
    crate::tier_laws::law_first_rule_wins(rules, qos, partition);
    match tiers::first_rule(rules, qos, partition) {
        Some(rule) => {
            let i = choose|i: int|
                0 <= i < rules.len() && #[trigger] rules[i] == rule && tiers::covers(
                    rule,
                    qos,
                    partition,
                ) && forall|j: int|
                    0 <= j < i ==> !tiers::covers(#[trigger] rules[j], qos, partition);
            assert(is_first_rule(rules, i, qos, partition) && rules[i] == rule);
        },
        None => {},
    }
}

/// A refusal names the field that its row failed on.
pub proof fn law_cause_names_its_field(cause: RejectCause, field: &'static str)
    requires
        field@ == row::field_in(cause@),
    ensures
        match cause {
            RejectCause::Arity { .. } => field@ == "the row"@,
            RejectCause::Field { field: named, .. } => field@ == named@,
            RejectCause::Unmapped { .. } => field@ == "QOS"@,
            RejectCause::Outside { .. } => field@ == "Submit"@,
            RejectCause::Deadline { .. } => field@ == "Submit"@,
        },
{
}

}
