//! What every message names.

use vstd::prelude::*;
use crate::export;
use crate::export::Rejected;
use crate::number;
use crate::record;
use crate::record::Error;
use crate::row;
use crate::row::RejectCause;
use crate::tiers;
use crate::tiers::TierMapFault;

verus! {

/// Whether a text is `before`, a part and `after`.
pub open spec fn is_split(
    s: Seq<char>,
    before: Seq<char>,
    part: Seq<char>,
    after: Seq<char>,
) -> bool {
    s == before + part + after
}

/// Whether a text holds these parts one behind the other.
pub open spec fn names_in_order(s: Seq<char>, parts: Seq<Seq<char>>) -> bool
    decreases parts.len(),
{
    parts.len() == 0 || exists|before: Seq<char>, after: Seq<char>| #[trigger]
        is_split(s, before, parts[0], after) && names_in_order(after, parts.skip(1))
}

proof fn lemma_named(
    s: Seq<char>,
    before: Seq<char>,
    part: Seq<char>,
    after: Seq<char>,
    rest: Seq<Seq<char>>,
)
    requires
        s =~= before + part + after,
        names_in_order(after, rest),
    ensures
        names_in_order(s, seq![part] + rest),
{
    let parts = seq![part] + rest;
    assert(parts.skip(1) =~= rest);
    assert(is_split(s, before, parts[0], after));
}

proof fn lemma_one(s: Seq<char>, before: Seq<char>, a: Seq<char>, after: Seq<char>)
    requires
        s =~= before + a + after,
    ensures
        names_in_order(s, seq![a]),
{
    let none = Seq::<Seq<char>>::empty();
    lemma_named(s, before, a, after, none);
    assert(seq![a] + none =~= seq![a]);
}

proof fn lemma_two(
    s: Seq<char>,
    before: Seq<char>,
    a: Seq<char>,
    between: Seq<char>,
    b: Seq<char>,
    after: Seq<char>,
)
    requires
        s =~= before + a + between + b + after,
    ensures
        names_in_order(s, seq![a, b]),
{
    lemma_one(between + b + after, between, b, after);
    assert(s =~= before + a + (between + b + after));
    lemma_named(s, before, a, between + b + after, seq![b]);
    assert(seq![a] + seq![b] =~= seq![a, b]);
}

proof fn lemma_three(
    s: Seq<char>,
    before: Seq<char>,
    a: Seq<char>,
    first: Seq<char>,
    b: Seq<char>,
    second: Seq<char>,
    c: Seq<char>,
    after: Seq<char>,
)
    requires
        s =~= before + a + first + b + second + c + after,
    ensures
        names_in_order(s, seq![a, b, c]),
{
    let rest = first + b + second + c + after;
    lemma_two(rest, first, b, second, c, after);
    assert(s =~= before + a + rest);
    lemma_named(s, before, a, rest, seq![b, c]);
    assert(seq![a] + seq![b, c] =~= seq![a, b, c]);
}

/// The message of a row that does not parse names the row, and then how many
/// fields it has and should have, or its field, what that holds and what was
/// expected of it.
pub proof fn law_error_names_row_and_field(e: Error)
    ensures
        match e {
            Error::Arity { row, expected, actual } => names_in_order(
                record::error_text(e@),
                seq![
                    number::decimal(row as nat),
                    number::decimal(actual as nat),
                    number::decimal(expected as nat),
                ],
            ),
            Error::Field { row, field, value, expected } => names_in_order(
                record::error_text(e@),
                seq![number::decimal(row as nat), field@, value@, expected@],
            ),
        },
{
    let s = record::error_text(e@);
    let nothing = Seq::<char>::empty();
    match e {
        Error::Arity { row, expected, actual } => {
            lemma_three(
                s,
                "row "@,
                number::decimal(row as nat),
                ": has "@,
                number::decimal(actual as nat),
                " fields, and the documented sacct format has "@,
                number::decimal(expected as nat),
                nothing,
            );
        },
        Error::Field { row, field, value, expected } => {
            let rest = ": field `"@ + field@ + "` holds `"@ + value@ + "`, which is not "@
                + expected@;
            lemma_three(
                rest,
                ": field `"@,
                field@,
                "` holds `"@,
                value@,
                "`, which is not "@,
                expected@,
                nothing,
            );
            let number = number::decimal(row as nat);
            assert(s =~= "row "@ + number + rest);
            lemma_named(s, "row "@, number, rest, seq![field@, value@, expected@]);
            assert(seq![number] + seq![field@, value@, expected@] =~= seq![
                number,
                field@,
                value@,
                expected@,
            ]);
        },
    }
}

/// The message of a refusal names the counts of fields, or the field with what
/// it holds and what was expected, or both names that no rule matches, or the
/// submit time and the span covered, or the window.
pub proof fn law_cause_names_what_it_holds(cause: RejectCause)
    ensures
        match cause {
            RejectCause::Arity { expected, actual } => names_in_order(
                row::cause_text(cause@),
                seq![number::decimal(actual as nat), number::decimal(expected as nat)],
            ),
            RejectCause::Field { field, value, expected } => names_in_order(
                row::cause_text(cause@),
                seq![field@, value@, expected@],
            ),
            RejectCause::Unmapped { qos, partition } => names_in_order(
                row::cause_text(cause@),
                seq![qos@, partition@],
            ),
            RejectCause::Outside { value, covers } => names_in_order(
                row::cause_text(cause@),
                seq![value@, covers@],
            ),
            RejectCause::Deadline { window } => names_in_order(
                row::cause_text(cause@),
                seq![number::decimal(window as nat)],
            ),
        },
{
    let s = row::cause_text(cause@);
    let nothing = Seq::<char>::empty();
    match cause {
        RejectCause::Arity { expected, actual } => lemma_two(
            s,
            "the row has "@,
            number::decimal(actual as nat),
            " fields, and the documented sacct format has "@,
            number::decimal(expected as nat),
            nothing,
        ),
        RejectCause::Field { field, value, expected } => lemma_three(
            s,
            "field `"@,
            field@,
            "` holds `"@,
            value@,
            "`, which is not "@,
            expected@,
            nothing,
        ),
        RejectCause::Unmapped { qos, partition } => lemma_two(
            s,
            "field `QOS` holds `"@,
            qos@,
            "` and `Partition` holds `"@,
            partition@,
            "`, which no rule matches"@,
        ),
        RejectCause::Outside { value, covers } => lemma_two(
            s,
            "field `Submit` holds `"@,
            value@,
            "`, which is not an hour this export covers ("@,
            covers@,
            ")"@,
        ),
        RejectCause::Deadline { window } => lemma_one(
            s,
            "field `Submit` puts the deadline "@,
            number::decimal(window as nat),
            " hours later than an hour index reaches"@,
        ),
    }
}

/// The line of a refusal names its row and then says its cause.
pub proof fn law_refusal_names_its_row(refusal: Rejected)
    ensures
        names_in_order(
            export::refusal_text(refusal@),
            seq![number::decimal(refusal.row as nat), row::cause_text(refusal.cause@)],
        ),
{
    lemma_two(
        export::refusal_text(refusal@),
        "row "@,
        number::decimal(refusal.row as nat),
        ": "@,
        row::cause_text(refusal.cause@),
        Seq::empty(),
    );
}

/// The message of a fault of a mapping file names the line, or the key with
/// what it wants and what it has, or the tier, or the window and the longest
/// that a rule may set.
pub proof fn law_fault_names_what_it_holds(fault: TierMapFault)
    ensures
        match fault {
            TierMapFault::NotALine { line } => names_in_order(
                tiers::fault_text(fault@),
                seq![line@],
            ),
            TierMapFault::Homeless { key } => names_in_order(
                tiers::fault_text(fault@),
                seq![key@],
            ),
            TierMapFault::UnknownKey { key } => names_in_order(
                tiers::fault_text(fault@),
                seq![key@],
            ),
            TierMapFault::Value { key, expected, value } => names_in_order(
                tiers::fault_text(fault@),
                seq![key@, expected@, value@],
            ),
            TierMapFault::Tier { tier } => names_in_order(
                tiers::fault_text(fault@),
                seq![number::signed_decimal(tier as int)],
            ),
            TierMapFault::Window { hours } => names_in_order(
                tiers::fault_text(fault@),
                seq![number::signed_decimal(hours as int), number::decimal(8_784)],
            ),
            TierMapFault::NoTier => true,
        },
{
    let s = tiers::fault_text(fault@);
    match fault {
        TierMapFault::NotALine { line } => lemma_one(
            s,
            "`"@,
            line@,
            "` is not a [[rule]] header, a `key = value` line, or a comment"@,
        ),
        TierMapFault::Homeless { key } => lemma_one(
            s,
            "`"@,
            key@,
            "` comes before any [[rule]] header"@,
        ),
        TierMapFault::UnknownKey { key } => lemma_one(
            s,
            "`"@,
            key@,
            "` is not a rule key: expected qos, partition, tier or window_hours"@,
        ),
        TierMapFault::Value { key, expected, value } => lemma_three(
            s,
            "`"@,
            key@,
            "` wants "@,
            expected@,
            ", and `"@,
            value@,
            "` is not one"@,
        ),
        TierMapFault::Tier { tier } => lemma_one(
            s,
            "tier "@,
            number::signed_decimal(tier as int),
            " has no window and no pad in v1: a rule names tier 1 or tier 2"@,
        ),
        TierMapFault::Window { hours } => lemma_two(
            s,
            "a window of "@,
            number::signed_decimal(hours as int),
            " hours is not between 1 and the "@,
            number::decimal(8_784),
            " a rule may set"@,
        ),
        TierMapFault::NoTier => {},
    }
}

/// A number is written so that it reads back, below zero too.
pub proof fn law_written_number_reads_back(n: int)
    ensures
        number::signed(number::signed_decimal(n)) == Some(n),
{
    if n < 0 {
        let digits = number::decimal((-n) as nat);
        number::law_decimal_reads_back((-n) as nat);
        number::law_signs(digits);
    } else {
        number::law_decimal_reads_back(n as nat);
        number::law_signs(number::decimal(n as nat));
    }
}

}
