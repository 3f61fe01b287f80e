//! What holds of a mapping file as a whole.

use vstd::prelude::*;
use crate::error::IngestErrorView;
use crate::number;
use crate::text;
use crate::tiers;
use crate::tiers::{DraftView, FaultView, RuleView, SoFarView, Tier, TierRule};

verus! {

/// Whether a line of a mapping file is a `[[rule]]` header.
pub open spec fn is_header(line: Seq<char>) -> bool {
    !tiers::says_nothing(line) && text::trimmed(line) == "[[rule]]"@
}

/// The number of headers in these lines.
pub open spec fn headers(lines: Seq<Seq<char>>) -> nat
    decreases lines.len(),
{
    if lines.len() == 0 {
        0
    } else {
        headers(lines.drop_last()) + if is_header(lines.last()) {
            1nat
        } else {
            0nat
        }
    }
}

/// The key and the value of a `key = value` line.
pub open spec fn key_value(line: Seq<char>) -> Option<(Seq<char>, Seq<char>)> {
    if tiers::says_nothing(line) || is_header(line) {
        None
    } else {
        match text::cut(text::trimmed(line), '=') {
            None => None,
            Some((key, value)) => Some((text::trimmed(key), text::trimmed(value))),
        }
    }
}

/// The tier that a `tier = n` line sets: 1 is the one with the short window, 2
/// the one with the long.
pub open spec fn tier_set_by(line: Seq<char>) -> Option<Tier> {
    match key_value(line) {
        Some((key, value)) => if key != "tier"@ {
            None
        } else if number::signed(value) == Some(1int) {
            Some(Tier::Latency)
        } else if number::signed(value) == Some(2int) {
            Some(Tier::Flexible)
        } else {
            None
        },
        None => None,
    }
}

/// The window that a `window_hours = n` line sets, from 1 hour to 366 days.
pub open spec fn window_set_by(line: Seq<char>) -> Option<u32> {
    match key_value(line) {
        Some((key, value)) => match number::signed(value) {
            Some(n) => if key == "window_hours"@ && 1 <= n <= 366 * 24 {
                Some(n as u32)
            } else {
                None
            },
            None => None,
        },
        None => None,
    }
}

/// The text that a line with this key and a quoted value sets.
pub open spec fn text_set_by(line: Seq<char>, wanted: Seq<char>) -> Option<Seq<char>> {
    match key_value(line) {
        Some((key, value)) => if key == wanted && is_quoted(value) {
            Some(value.subrange(1, value.len() - 1))
        } else {
            None
        },
        None => None,
    }
}

/// Whether a value is a text between two quotes, without one in it.
pub open spec fn is_quoted(value: Seq<char>) -> bool {
    &&& value.len() >= 2
    &&& value[0] == '"'
    &&& value.last() == '"'
    &&& forall|i: int| 0 < i < value.len() - 1 ==> #[trigger] value[i] != '"'
}

/// What the last line of a table that sets something sets, `set_by` being what
/// a line sets.
pub open spec fn last_set<T>(
    lines: Seq<Seq<char>>,
    table: nat,
    set_by: spec_fn(Seq<char>) -> Option<T>,
) -> Option<T>
    decreases lines.len(),
{
    if lines.len() == 0 {
        None
    } else if headers(lines.drop_last()) == table + 1 && set_by(lines.last()) is Some {
        set_by(lines.last())
    } else {
        last_set(lines.drop_last(), table, set_by)
    }
}

/// Whether a rule holds what the lines of its table set, the last of each key.
pub open spec fn is_of_table(lines: Seq<Seq<char>>, table: nat, rule: RuleView) -> bool {
    &&& Some(rule.tier) == last_set(lines, table, |line: Seq<char>| tier_set_by(line))
    &&& rule.window_hours == last_set(lines, table, |line: Seq<char>| window_set_by(line))
    &&& rule.qos == last_set(lines, table, |line: Seq<char>| text_set_by(line, "qos"@))
    &&& rule.partition == last_set(lines, table, |line: Seq<char>| text_set_by(line, "partition"@))
}

spec fn is_draft_of(lines: Seq<Seq<char>>, table: nat, draft: DraftView) -> bool {
    &&& draft.tier == last_set(lines, table, |line: Seq<char>| tier_set_by(line))
    &&& draft.window_hours == last_set(lines, table, |line: Seq<char>| window_set_by(line))
    &&& draft.qos == last_set(lines, table, |line: Seq<char>| text_set_by(line, "qos"@))
    &&& draft.partition == last_set(lines, table, |line: Seq<char>| text_set_by(line, "partition"@))
}

proof fn lemma_nothing_set_yet<T>(
    lines: Seq<Seq<char>>,
    table: nat,
    set_by: spec_fn(Seq<char>) -> Option<T>,
)
    requires
        lines.len() > 0 ==> headers(lines.drop_last()) <= table,
    ensures
        last_set(lines, table, set_by) is None,
    decreases lines.len(),
{
    if lines.len() > 0 {
        let less = lines.drop_last();
        if less.len() > 0 {
            assert(headers(less.drop_last()) <= headers(less));
        }
        lemma_nothing_set_yet(less, table, set_by);
    }
}

proof fn lemma_quoted(key: Seq<char>, value: Seq<char>)
    ensures
        tiers::quoted_in(key, value) is Ok <==> is_quoted(value),
        tiers::quoted_in(key, value) matches Ok(inner) ==> inner == value.subrange(
            1,
            value.len() - 1,
        ),
{
    if value.len() >= 2 {
        let inner = value.subrange(1, value.len() - 1);
        if is_quoted(value) {
            assert forall|i: int| 0 <= i < inner.len() implies inner[i] != '"' by {
                assert(inner[i] == value[i + 1]);
            }
        } else if value[0] == '"' && value.last() == '"' {
            let i = choose|i: int| 0 < i < value.len() - 1 && value[i] == '"';
            assert(inner[i - 1] == '"');
            assert(inner.contains('"'));
        }
    }
}

/// A value between two quotes is the text between them, where that holds no
/// quote, and no other value is a quoted text.
pub proof fn law_quoted(key: Seq<char>, value: Seq<char>, inner: Seq<char>)
    ensures
        tiers::quoted_in(key, value) == Ok::<Seq<char>, FaultView>(inner) <==> (value == seq!['"']
            + inner + seq!['"'] && !inner.contains('"')),
{
    let whole = seq!['"'] + inner + seq!['"'];
    lemma_quoted(key, value);
    if value == whole {
        assert(value.subrange(1, value.len() - 1) =~= inner);
        if !inner.contains('"') {
            assert forall|i: int| 0 < i < value.len() - 1 implies #[trigger] value[i] != '"' by {
                assert(value[i] == inner[i - 1]);
            }
        } else {
            let i = choose|i: int| 0 <= i < inner.len() && inner[i] == '"';
            assert(value[i + 1] == '"');
        }
    }
    if tiers::quoted_in(key, value) == Ok::<Seq<char>, FaultView>(inner) {
        assert(value =~= whole);
        assert forall|i: int| 0 <= i < inner.len() implies inner[i] != '"' by {
            assert(value[i + 1] == inner[i]);
        }
    }
}

proof fn lemma_keys_differ()
    ensures
        "qos"@ != "partition"@,
        "qos"@ != "tier"@,
        "qos"@ != "window_hours"@,
        "partition"@ != "tier"@,
        "partition"@ != "window_hours"@,
        "tier"@ != "window_hours"@,
{
    reveal_strlit("qos");
    reveal_strlit("partition");
    reveal_strlit("tier");
    reveal_strlit("window_hours");
    assert("qos"@.len() == 3 && "partition"@.len() == 9);
    assert("tier"@.len() == 4 && "window_hours"@.len() == 12);
}

proof fn lemma_tables(lines: Seq<Seq<char>>)
    requires
        tiers::read_lines(lines) is Ok,
    ensures
        ({
            let so_far = tiers::read_lines(lines)->Ok_0;
            &&& headers(lines) == so_far.rules.len() + if so_far.open is Some {
                1nat
            } else {
                0nat
            }
            &&& forall|k: int|
                0 <= k < so_far.rules.len() ==> is_of_table(
                    lines,
                    k as nat,
                    #[trigger] so_far.rules[k],
                )
            &&& so_far.open matches Some(draft) ==> is_draft_of(lines, so_far.rules.len(), draft)
            &&& headers(lines) > 0 ==> so_far.open is Some
        }),
    decreases lines.len(),
{
    if lines.len() > 0 {
        let less = lines.drop_last();
        let last = lines.last();
        lemma_tables(less);
        let before = tiers::read_lines(less)->Ok_0;
        let so_far = tiers::read_lines(lines)->Ok_0;
        assert forall|k: int| 0 <= k < before.rules.len() implies is_of_table(
            lines,
            k as nat,
            #[trigger] before.rules[k],
        ) by {
            assert(is_of_table(less, k as nat, before.rules[k]));
        }
        if is_header(last) {
            let table = so_far.rules.len();
            lemma_nothing_set_yet(lines, table, |line: Seq<char>| tier_set_by(line));
            lemma_nothing_set_yet(lines, table, |line: Seq<char>| window_set_by(line));
            lemma_nothing_set_yet(lines, table, |line: Seq<char>| text_set_by(line, "qos"@));
            lemma_nothing_set_yet(lines, table, |line: Seq<char>| text_set_by(line, "partition"@));
            assert forall|k: int| 0 <= k < so_far.rules.len() implies is_of_table(
                lines,
                k as nat,
                #[trigger] so_far.rules[k],
            ) by {
                if k < before.rules.len() {
                    assert(so_far.rules[k] == before.rules[k]);
                    assert(is_of_table(lines, k as nat, before.rules[k]));
                } else {
                    assert(is_draft_of(less, k as nat, before.open->Some_0));
                }
            }
        } else if !tiers::says_nothing(last) {
            lemma_keys_differ();
            let (key, value) = key_value(last)->Some_0;
            lemma_quoted(key, value);
        }
    } else {
        assert(headers(lines) == 0);
    }
}

/// A mapping file that parses has one rule for each header, in order, and each
/// holds what its table sets: the tier, the window and the names of the last
/// line of each key, and no window or name where no line sets one.
pub proof fn law_rules_are_their_tables(text: Seq<char>)
    requires
        tiers::map_in(text) is Ok,
    ensures
        tiers::map_in(text)->Ok_0.len() == headers(text::lines_of(text)),
        forall|k: int|
            0 <= k < tiers::map_in(text)->Ok_0.len() ==> is_of_table(
                text::lines_of(text),
                k as nat,
                #[trigger] tiers::map_in(text)->Ok_0[k],
            ),
{
    let lines = text::lines_of(text);
    lemma_tables(lines);
    let so_far = tiers::read_lines(lines)->Ok_0;
    let rules = tiers::map_in(text)->Ok_0;
    assert forall|k: int| 0 <= k < rules.len() implies is_of_table(
        lines,
        k as nat,
        #[trigger] rules[k],
    ) by {
        if k < so_far.rules.len() {
            assert(rules[k] == so_far.rules[k]);
            assert(is_of_table(lines, k as nat, so_far.rules[k]));
        }
    }
}

/// A line says nothing where it is blank or its first character but white
/// space is `#`, and something where that is anything else.
pub proof fn law_what_says_nothing(lead: Seq<char>, core: Seq<char>, tail: Seq<char>)
    requires
        text::all_space(lead),
        text::all_space(tail),
        core.len() > 0 ==> !text::is_space(core[0]) && !text::is_space(core.last()),
    ensures
        tiers::says_nothing(lead + core + tail) <==> core.len() == 0 || core[0] == '#',
{
    text::law_trimmed(lead, core, tail);
}

/// The line `[[rule]]` begins a table with nothing set, after the one before it
/// is closed.
pub proof fn law_header_begins_a_table(so_far: SoFarView, number: nat)
    ensures
        match tiers::with_line(so_far, number, "[[rule]]"@) {
            Ok(next) => {
                &&& so_far.open matches Some(draft) ==> draft.tier is Some && next.rules.len()
                    == so_far.rules.len() + 1
                &&& so_far.open is None ==> next.rules == so_far.rules
                &&& next.open matches Some(draft) && draft.header == number && draft.qos is None
                    && draft.partition is None && draft.tier is None && draft.window_hours is None
            },
            Err(e) => so_far.open matches Some(draft) && draft.tier is None && e == (
            IngestErrorView::TierMap { line: draft.header, source: FaultView::NoTier }),
        },
{
}

/// What is wrong with a line that is no header: it is no `key = value` line, or
/// it comes before any table, or its key is none of the four, or its value is
/// not what its key wants. Where none of these holds, nothing is.
pub proof fn law_fault_of_a_line(so_far: SoFarView, number: nat, line: Seq<char>)
    requires
        line != "[[rule]]"@,
    ensures
        ({
            let fault = |source: FaultView|
                tiers::with_line(so_far, number, line) == Err::<SoFarView, IngestErrorView>(
                    IngestErrorView::TierMap { line: number, source },
                );
            match text::cut(line, '=') {
                None => fault(FaultView::NotALine { line }),
                Some((before, after)) => {
                    let key = text::trimmed(before);
                    let value = text::trimmed(after);
                    let whole = number::signed(value) matches Some(n) && i64::MIN <= n <= i64::MAX;
                    let n = number::signed(value)->Some_0;
                    if so_far.open is None {
                        fault(FaultView::Homeless { key })
                    } else if key == "qos"@ || key == "partition"@ {
                        if is_quoted(value) {
                            tiers::with_line(so_far, number, line) is Ok
                        } else {
                            fault(FaultView::Value { key, expected: "a quoted string"@, value })
                        }
                    } else if key == "tier"@ || key == "window_hours"@ {
                        if !whole {
                            fault(FaultView::Value { key, expected: "a whole number"@, value })
                        } else if key == "tier"@ && n != 1 && n != 2 {
                            fault(FaultView::Tier { tier: n as i64 })
                        } else if key == "window_hours"@ && !(1 <= n <= 366 * 24) {
                            fault(FaultView::Window { hours: n as i64 })
                        } else {
                            tiers::with_line(so_far, number, line) is Ok
                        }
                    } else {
                        fault(FaultView::UnknownKey { key })
                    }
                },
            }
        }),
{
    lemma_keys_differ();
    match text::cut(line, '=') {
        Some((before, after)) => lemma_quoted(text::trimmed(before), text::trimmed(after)),
        None => {},
    }
}

/// A rule covers a row where each matcher that it has is the row's own name.
pub proof fn law_covers(rule: TierRule, qos: Seq<char>, partition: Seq<char>)
    ensures
        tiers::covers(rule@, qos, partition) <==> {
            &&& rule.qos matches Some(name) ==> name@ == qos
            &&& rule.partition matches Some(name) ==> name@ == partition
        },
{
}

/// The window of a rule of either tier is its own where it sets one, and else
/// a day for tier 1 and seven days for tier 2; the pad is 7 hours for tier 1
/// and 4 for tier 2.
pub proof fn law_window_and_pad(rule: TierRule)
    ensures
        rule.window_hours matches Some(hours) ==> tiers::window_in(rule@) == hours,
        rule.window_hours is None && rule.tier == Tier::Latency ==> tiers::window_in(rule@) == 24,
        rule.window_hours is None && rule.tier == Tier::Flexible ==> tiers::window_in(rule@) == 7
            * 24,
        rule.tier == Tier::Latency ==> tiers::pad_in(rule@) == 7,
        rule.tier == Tier::Flexible ==> tiers::pad_in(rule@) == 4,
{
}

/// Whether a line stands in a table, tables being counted from 0 and each
/// reaching from its header to the next.
pub open spec fn in_table(lines: Seq<Seq<char>>, table: nat, i: int) -> bool {
    0 <= i < lines.len() && headers(lines.take(i)) == table + 1
}

/// Whether a line is the last of a table that sets its tier, and sets this one.
pub open spec fn sets_tier(lines: Seq<Seq<char>>, table: nat, i: int, tier: Tier) -> bool {
    &&& in_table(lines, table, i)
    &&& tier_set_by(lines[i]) == Some(tier)
    &&& forall|j: int| i < j && #[trigger] in_table(lines, table, j) ==> tier_set_by(lines[j]) is None
}

/// Whether a table has this tier: that of its last line that sets one.
pub open spec fn has_tier(lines: Seq<Seq<char>>, table: nat, tier: Tier) -> bool {
    exists|i: int| sets_tier(lines, table, i, tier)
}

/// Whether a line is the header of a table in which no line sets a tier.
pub open spec fn is_untiered(lines: Seq<Seq<char>>, i: int) -> bool {
    &&& 0 <= i < lines.len()
    &&& is_header(lines[i])
    &&& forall|j: int| #[trigger]
        in_table(lines, headers(lines.take(i)), j) ==> tier_set_by(lines[j]) is None
}

/// More lines have no fewer headers.
proof fn lemma_headers_grow(lines: Seq<Seq<char>>, a: int, b: int)
    requires
        0 <= a <= b <= lines.len(),
    ensures
        headers(lines.take(a)) <= headers(lines.take(b)),
        b < lines.len() && is_header(lines[b]) ==> headers(lines.take(b + 1)) == headers(
            lines.take(b),
        ) + 1,
    decreases b,
{
    if b < lines.len() {
        assert(lines.take(b + 1).drop_last() =~= lines.take(b));
    }
    if a < b {
        lemma_headers_grow(lines, a, b - 1);
        assert(lines.take(b).drop_last() =~= lines.take(b - 1));
    }
}

/// What is known of the lines of a file that has been read so far.
spec fn is_read(lines: Seq<Seq<char>>, so_far: SoFarView) -> bool {
    &&& headers(lines) == so_far.rules.len() + if so_far.open is Some {
        1nat
    } else {
        0nat
    }
    &&& forall|k: int|
        0 <= k < so_far.rules.len() ==> has_tier(lines, k as nat, (#[trigger] so_far.rules[k]).tier)
    &&& so_far.open matches Some(draft) ==> {
        &&& 1 <= draft.header <= lines.len()
        &&& is_header(lines[draft.header - 1])
        &&& headers(lines.take(draft.header - 1)) == so_far.rules.len()
        &&& match draft.tier {
            Some(tier) => has_tier(lines, so_far.rules.len(), tier),
            None => is_untiered(lines, draft.header - 1),
        }
    }
}

/// A table that ended before a line is as it was without it.
proof fn lemma_closed_table(
    less: Seq<Seq<char>>,
    lines: Seq<Seq<char>>,
    table: nat,
    i: int,
    tier: Tier,
)
    requires
        lines.len() > 0,
        less == lines.drop_last(),
        sets_tier(less, table, i, tier),
        headers(less) != table + 1 || tier_set_by(lines.last()) is None,
    ensures
        sets_tier(lines, table, i, tier),
{
    assert(lines.take(i) =~= less.take(i));
    assert(lines[i] == less[i]);
    assert forall|j: int| i < j && #[trigger] in_table(lines, table, j) implies tier_set_by(
        lines[j],
    ) is None by {
        if j < less.len() {
            assert(lines.take(j) =~= less.take(j));
            assert(lines[j] == less[j]);
            assert(in_table(less, table, j));
        } else {
            assert(lines.take(j) =~= less);
        }
    }
}

proof fn lemma_still_untiered(less: Seq<Seq<char>>, lines: Seq<Seq<char>>, i: int)
    requires
        lines.len() > 0,
        less == lines.drop_last(),
        is_untiered(less, i),
        headers(less) != headers(less.take(i)) + 1 || tier_set_by(lines.last()) is None,
    ensures
        is_untiered(lines, i),
        headers(lines.take(i)) == headers(less.take(i)),
{
    assert(lines.take(i) =~= less.take(i));
    assert(lines[i] == less[i]);
    let table = headers(lines.take(i));
    assert forall|j: int| #[trigger] in_table(lines, table, j) implies tier_set_by(
        lines[j],
    ) is None by {
        if j < less.len() {
            assert(lines.take(j) =~= less.take(j));
            assert(lines[j] == less[j]);
            assert(in_table(less, table, j));
        } else {
            assert(lines.take(j) =~= less);
        }
    }
}

proof fn lemma_read(lines: Seq<Seq<char>>)
    ensures
        tiers::read_lines(lines) matches Ok(so_far) ==> is_read(lines, so_far),
    decreases lines.len(),
{
    if lines.len() > 0 && tiers::read_lines(lines) is Ok {
        let less = lines.drop_last();
        let last = lines.last();
        let at = lines.len() - 1;
        lemma_read(less);
        let before = tiers::read_lines(less)->Ok_0;
        let so_far = tiers::read_lines(lines)->Ok_0;
        assert(lines.take(at) =~= less);
        assert forall|k: int| 0 <= k < before.rules.len() implies has_tier(lines, k as nat, (#[trigger] before.rules[k]).tier) by {
            let tier = before.rules[k].tier;
            let table = k as nat;
            let i = choose|i: int| sets_tier(less, table, i, tier);
            if headers(less) == k + 1 {
                // No table is open, so no line but a header can follow.
                assert(before.open is None);
            }
            lemma_closed_table(less, lines, table, i, tier);
        }
        if is_header(last) {
            match before.open {
                Some(draft) => {
                    let k = before.rules.len();
                    let tier = draft.tier->Some_0;
                    let i = choose|i: int| sets_tier(less, k, i, tier);
                    lemma_closed_table(less, lines, k, i, tier);
                    assert(so_far.rules[k as int].tier == tier);
                    assert forall|j: int| 0 <= j < so_far.rules.len() implies has_tier(lines, j as nat, (#[trigger] so_far.rules[j]).tier) by {
                        if j < k {
                            assert(so_far.rules[j] == before.rules[j]);
                        } else {
                            assert(sets_tier(lines, k, i, tier));
                        }
                    }
                },
                None => {},
            }
            assert forall|j: int| #[trigger] in_table(lines, headers(less), j) implies tier_set_by(
                lines[j],
            ) is None by {
                lemma_headers_grow(lines, j, at);
            }
            assert(is_untiered(lines, at));
        } else if before.open is Some {
            let draft = before.open->Some_0;
            let k = before.rules.len();
            let h = draft.header - 1;
            assert(lines.take(h) =~= less.take(h));
            assert(lines[h] == less[h]);
            match tier_set_by(last) {
                Some(tier) => {
                    assert(in_table(lines, k, at));
                    assert(sets_tier(lines, k, at, tier));
                },
                None => match draft.tier {
                    Some(tier) => {
                        let i = choose|i: int| sets_tier(less, k, i, tier);
                        lemma_closed_table(less, lines, k, i, tier);
                    },
                    None => {
                        lemma_still_untiered(less, lines, h);
                    },
                },
            }
        }
    }
}

/// Whether a table is closed and sets a tier.
spec fn is_tiered(lines: Seq<Seq<char>>, table: nat) -> bool {
    exists|i: int| #[trigger] in_table(lines, table, i) && tier_set_by(lines[i]) is Some
}

proof fn lemma_tiered_stays(less: Seq<Seq<char>>, lines: Seq<Seq<char>>, table: nat)
    requires
        lines.len() > 0,
        less == lines.drop_last(),
        is_tiered(less, table),
    ensures
        is_tiered(lines, table),
{
    let i = choose|i: int| #[trigger] in_table(less, table, i) && tier_set_by(less[i]) is Some;
    assert(lines.take(i) =~= less.take(i));
    assert(lines[i] == less[i]);
    assert(in_table(lines, table, i));
}

/// Where a header finds the table before it without a tier, that table is the
/// first without one.
proof fn lemma_refused_at_header(lines: Seq<Seq<char>>)
    ensures
        tiers::read_lines(lines) matches Err(e) ==> {
            &&& e matches IngestErrorView::TierMap { line, source } && 1 <= line <= lines.len() && (
            source is NoTier ==> {
                &&& is_untiered(lines, line - 1)
                &&& headers(lines) > headers(lines.take(line - 1)) + 1
                &&& forall|k: nat|
                    k < headers(lines.take(line - 1)) ==> #[trigger] is_tiered(lines, k)
            })
        },
    decreases lines.len(),
{
    if lines.len() > 0 && tiers::read_lines(lines) is Err {
        let less = lines.drop_last();
        lemma_refused_at_header(less);
        lemma_read(less);
        let e = tiers::read_lines(lines)->Err_0;
        if e is TierMap && e->source is NoTier {
            let h = e->line - 1;
            assert(lines.take(h) =~= less.take(h));
            if tiers::read_lines(less) is Ok {
                let before = tiers::read_lines(less)->Ok_0;
                assert(is_header(lines.last()));
                lemma_still_untiered(less, lines, h);
                assert forall|k: nat| k < headers(lines.take(h)) implies #[trigger] is_tiered(
                    lines,
                    k,
                ) by {
                    let tier = before.rules[k as int].tier;
                    let i = choose|i: int| sets_tier(less, k, i, tier);
                    assert(in_table(less, k, i));
                    lemma_tiered_stays(less, lines, k);
                }
            } else {
                lemma_still_untiered(less, lines, h);
                assert forall|k: nat| k < headers(lines.take(h)) implies #[trigger] is_tiered(
                    lines,
                    k,
                ) by {
                    assert(is_tiered(less, k));
                    lemma_tiered_stays(less, lines, k);
                }
            }
        }
    }
}

/// A mapping file that parses has as many rules as headers, at least one, in
/// order, and every rule set its tier: each has the tier of the last line of
/// its table that sets one, which is tier 1 or tier 2, and a window of 1 hour
/// to a year of them, or none of its own.
pub proof fn law_parsed_rules(text: Seq<char>)
    requires
        tiers::map_in(text) is Ok,
    ensures
        ({
            let lines = text::lines_of(text);
            let rules = tiers::map_in(text)->Ok_0;
            &&& tiers::is_map(rules)
            &&& rules.len() == headers(lines)
            &&& forall|k: int|
                0 <= k < rules.len() ==> has_tier(lines, k as nat, (#[trigger] rules[k]).tier)
        }),
{
    let lines = text::lines_of(text);
    tiers::lemma_map_holds(text);
    lemma_read(lines);
    let so_far = tiers::read_lines(lines)->Ok_0;
    let rules = tiers::map_in(text)->Ok_0;
    assert forall|k: int| 0 <= k < rules.len() implies has_tier(lines, k as nat, (#[trigger] rules[k]).tier) by {
        if k < so_far.rules.len() {
            assert(rules[k] == so_far.rules[k]);
        }
    }
}

/// A rule that sets no tier is refused: a file with such a table is at fault,
/// by a line of its own or by the header of the first table without a tier,
/// and a header is named only where its table sets none.
pub proof fn law_rule_without_tier_is_refused(lines: Seq<Seq<char>>, i: int)
    ensures
        is_untiered(lines, i) ==> (tiers::rules_in(lines) matches Err(e) && (
        e matches IngestErrorView::TierMap { line, source } && (source is NoTier ==> line <= i
            + 1))),
        tiers::rules_in(lines) == Err::<Seq<RuleView>, IngestErrorView>(
            IngestErrorView::TierMap { line: (i + 1) as nat, source: FaultView::NoTier },
        ) && i >= 0 ==> is_untiered(lines, i),
{
    lemma_read(lines);
    lemma_refused_at_header(lines);
    if is_untiered(lines, i) {
        let table = headers(lines.take(i));
        lemma_headers_grow(lines, i, i);
        lemma_headers_grow(lines, i + 1, lines.len() as int);
        assert(lines.take(lines.len() as int) =~= lines);
        match tiers::read_lines(lines) {
            Ok(so_far) => {
                if table < so_far.rules.len() {
                    let tier = so_far.rules[table as int].tier;
                    let m = choose|m: int| sets_tier(lines, table, m, tier);
                    assert(in_table(lines, table, m));
                }
                let draft = so_far.open->Some_0;
                if draft.tier is Some {
                    let tier = draft.tier->Some_0;
                    let m = choose|m: int| sets_tier(lines, table, m, tier);
                    assert(in_table(lines, table, m));
                }
                if i < draft.header - 1 {
                    lemma_headers_grow(lines, i + 1, draft.header - 1);
                }
            },
            Err(e) => {
                if e is TierMap && e->source is NoTier && e->line > i + 1 {
                    lemma_headers_grow(lines, i + 1, e->line - 1);
                    assert(is_tiered(lines, table));
                    let m = choose|m: int| #[trigger]
                        in_table(lines, table, m) && tier_set_by(lines[m]) is Some;
                    assert(in_table(lines, table, m));
                }
            },
        }
    }
}

/// The first rule in the order of the file is the one that counts: no earlier
/// rule covers the row, and where no rule is found none covers it.
pub proof fn law_first_rule_wins(rules: Seq<RuleView>, qos: Seq<char>, partition: Seq<char>)
    ensures
        match tiers::first_rule(rules, qos, partition) {
            Some(rule) => exists|i: int|
                0 <= i < rules.len() && #[trigger] rules[i] == rule && tiers::covers(
                    rule,
                    qos,
                    partition,
                ) && forall|j: int|
                    0 <= j < i ==> !tiers::covers(#[trigger] rules[j], qos, partition),
            None => forall|j: int|
                0 <= j < rules.len() ==> !tiers::covers(#[trigger] rules[j], qos, partition),
        },
    decreases rules.len(),
{
    if rules.len() > 0 && !tiers::covers(rules[0], qos, partition) {
        let rest = rules.skip(1);
        law_first_rule_wins(rest, qos, partition);
        match tiers::first_rule(rest, qos, partition) {
            Some(rule) => {
                let i = choose|i: int|
                    0 <= i < rest.len() && #[trigger] rest[i] == rule && tiers::covers(
                        rule,
                        qos,
                        partition,
                    ) && forall|j: int|
                        0 <= j < i ==> !tiers::covers(#[trigger] rest[j], qos, partition);
                assert(rules[i + 1] == rule);
                assert forall|j: int| 0 <= j < i + 1 implies !tiers::covers(
                    #[trigger] rules[j],
                    qos,
                    partition,
                ) by {
                    if j > 0 {
                        assert(rest[j - 1] == rules[j]);
                    }
                }
            },
            None => {
                assert forall|j: int| 0 <= j < rules.len() implies !tiers::covers(
                    #[trigger] rules[j],
                    qos,
                    partition,
                ) by {
                    if j > 0 {
                        assert(rest[j - 1] == rules[j]);
                    }
                }
            },
        }
    } else if rules.len() > 0 {
        assert(rules[0] == tiers::first_rule(rules, qos, partition)->Some_0);
    }
}

/// A rule with neither matcher covers every row.
pub proof fn law_default_rule_covers_all(rule: RuleView, qos: Seq<char>, partition: Seq<char>)
    requires
        rule.qos is None,
        rule.partition is None,
    ensures
        tiers::covers(rule, qos, partition),
{
}

/// The number of a line once another stands at `at`.
pub open spec fn moved_line(line: nat, at: int) -> nat {
    if line <= at {
        line
    } else {
        line + 1
    }
}

/// Whether two files read so far are the same but for the line of a header.
spec fn same_but_line(a: SoFarView, b: SoFarView, at: int) -> bool {
    &&& a.rules == b.rules
    &&& match (a.open, b.open) {
        (Some(x), Some(y)) => y == (DraftView { header: moved_line(x.header, at), ..x }),
        (None, None) => true,
        _ => false,
    }
}

proof fn lemma_comment(lines: Seq<Seq<char>>, comment: Seq<char>, at: int)
    requires
        0 <= at <= lines.len(),
        tiers::says_nothing(comment),
    ensures
        match (tiers::read_lines(lines), tiers::read_lines(lines.insert(at, comment))) {
            (Ok(a), Ok(b)) => same_but_line(a, b, at),
            (
                Err(IngestErrorView::TierMap { line: a, source: x }),
                Err(IngestErrorView::TierMap { line: b, source: y }),
            ) => x == y && b == moved_line(a, at),
            _ => false,
        },
    decreases lines.len(),
{
    let longer = lines.insert(at, comment);
    lemma_read(lines);
    lemma_refused_at_header(lines);
    if at == lines.len() {
        assert(longer.drop_last() =~= lines);
    } else {
        assert(longer.drop_last() =~= lines.drop_last().insert(at, comment));
        assert(longer.last() == lines.last());
        lemma_comment(lines.drop_last(), comment, at);
    }
}

/// A comment or a blank line changes no rule of a mapping file, nor what is
/// wrong with it: only the number of a line behind it.
pub proof fn law_comments_say_nothing(lines: Seq<Seq<char>>, comment: Seq<char>, at: int)
    requires
        0 <= at <= lines.len(),
        tiers::says_nothing(comment),
    ensures
        match (tiers::rules_in(lines), tiers::rules_in(lines.insert(at, comment))) {
            (Ok(a), Ok(b)) => a == b,
            (
                Err(IngestErrorView::TierMap { line: a, source: x }),
                Err(IngestErrorView::TierMap { line: b, source: y }),
            ) => x == y && b == moved_line(a, at),
            _ => false,
        },
{
    lemma_comment(lines, comment, at);
}

}
