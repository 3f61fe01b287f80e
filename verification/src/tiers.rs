//! The mapping file: which tier, and which window, a site's jobs get.

use vstd::prelude::*;
use crate::error::{IngestError, IngestErrorView};
use crate::number;
use crate::number::{parse_i64, push_decimal, push_signed};
use crate::record;
use crate::text;
use crate::text::{chars_of, contains, is_word, lines, split_once, string_of, trim};

verus! {

/// The windows and pads that the jobs contract fixes: tier 1 has a 24-hour
/// window and a pad of 7 hours, tier 2 a 7-day window and a pad of 4 hours.
pub const LATENCY_WINDOW_HOURS: u32 = 24;

pub const FLEXIBLE_WINDOW_HOURS: u32 = 168;

pub const LATENCY_PAD_HOURS: u32 = 7;

pub const FLEXIBLE_PAD_HOURS: u32 = 4;

/// The longest window a mapping file may set, so that a deadline cannot be
/// pushed past the reach of an hour index by a typo in a rule.
pub const MAX_WINDOW_HOURS: u32 = 8_784;

/// How much a job minds waiting. **Data.**
#[derive(Debug, Clone, Copy, PartialEq, Eq, Structural)]
pub enum Tier {
    /// Tier 0: work already running.
    Fixed,
    /// Tier 1: work with a short window.
    Latency,
    /// Tier 2: work with a long window.
    Flexible,
}

/// One rule of the mapping file. **Data.**
///
/// A rule with neither matcher is the default rule, and matches every row.
#[derive(Debug, PartialEq, Eq)]
pub struct TierRule {
    pub qos: Option<String>,
    pub partition: Option<String>,
    pub tier: Tier,
    /// The window this rule's jobs get, when the site's own SLA is not the
    /// tier's.
    pub window_hours: Option<u32>,
}

/// What a rule holds.
#[verifier::ext_equal]
pub struct RuleView {
    pub qos: Option<Seq<char>>,
    pub partition: Option<Seq<char>>,
    pub tier: Tier,
    pub window_hours: Option<u32>,
}

impl View for TierRule {
    type V = RuleView;

    open spec fn view(&self) -> RuleView {
        RuleView {
            qos: text::optional(self.qos),
            partition: text::optional(self.partition),
            tier: self.tier,
            window_hours: self.window_hours,
        }
    }
}

impl Clone for TierRule {
    fn clone(&self) -> (rule: TierRule)
        ensures
            rule@ == self@,
    {
        TierRule {
            qos: copy_text(&self.qos),
            partition: copy_text(&self.partition),
            tier: self.tier,
            window_hours: self.window_hours,
        }
    }
}

/// A copy of an optional text. **Calculation.**
fn copy_text(s: &Option<String>) -> (copy: Option<String>)
    ensures
        text::optional(copy) == text::optional(*s),
{
    match s {
        Some(s) => Some(s.clone()),
        None => None,
    }
}

/// The mapping file: rules matched in the order they are written. **Data.**
///
/// There is at least one, each names a tier that a rule may name, and a window
/// that a rule sets is one that it may set.
#[derive(Debug, PartialEq, Eq)]
pub struct TierMap(Vec<TierRule>);

/// What a list of rules holds.
pub open spec fn rule_views(rules: Seq<TierRule>) -> Seq<RuleView> {
    rules.map_values(|rule: TierRule| rule@)
}

/// Whether a rule is one that a mapping file can write: a tier that has a
/// window and a pad, and a window of its own, if any, within the bounds.
pub open spec fn is_rule(rule: RuleView) -> bool {
    &&& rule.tier == Tier::Latency || rule.tier == Tier::Flexible
    &&& rule.window_hours matches Some(hours) ==> 1 <= hours <= MAX_WINDOW_HOURS
}

/// Whether these can be all the rules of a mapping file.
pub open spec fn is_map(rules: Seq<RuleView>) -> bool {
    &&& rules.len() > 0
    &&& forall|i: int| 0 <= i < rules.len() ==> is_rule(#[trigger] rules[i])
}

impl View for TierMap {
    type V = Seq<RuleView>;

    closed spec fn view(&self) -> Seq<RuleView> {
        rule_views(self.0@)
    }
}

impl Clone for TierMap {
    fn clone(&self) -> (map: TierMap)
        ensures
            map@ == self@,
    {
        proof {
            use_type_invariant(self);
        }
        let mut rules: Vec<TierRule> = Vec::new();
        let mut i: usize = 0;
        while i < self.0.len()
            invariant
                i <= self.0@.len(),
                rule_views(rules@) == self@.take(i as int),
            decreases self.0@.len() - i,
        {
            let ghost done = rules@;
            let rule = self.0[i].clone();
            rules.push(rule);
            assert(rule_views(rules@) =~= rule_views(done).push(rule@));
            assert(self@.take(i + 1) =~= self@.take(i as int).push(self@[i as int]));
            i = i + 1;
        }
        assert(self@.take(i as int) =~= self@);
        TierMap(rules)
    }
}

/// A `[[rule]]` table that is still being read. **Data.**
pub struct Draft {
    /// The line of the table's header, counted from 1.
    pub header: usize,
    pub qos: Option<String>,
    pub partition: Option<String>,
    /// The tier, once a line has set it.
    pub tier: Option<Tier>,
    pub window_hours: Option<u32>,
}

/// What a table that is still being read holds.
#[verifier::ext_equal]
pub struct DraftView {
    pub header: nat,
    pub qos: Option<Seq<char>>,
    pub partition: Option<Seq<char>>,
    pub tier: Option<Tier>,
    pub window_hours: Option<u32>,
}

impl View for Draft {
    type V = DraftView;

    open spec fn view(&self) -> DraftView {
        DraftView {
            header: self.header as nat,
            qos: text::optional(self.qos),
            partition: text::optional(self.partition),
            tier: self.tier,
            window_hours: self.window_hours,
        }
    }
}

/// A mapping file up to some line: the rules that are complete, and the table
/// that is still being read. **Data.**
pub struct MapSoFar {
    pub rules: Vec<TierRule>,
    pub open: Option<Draft>,
}

/// What a mapping file up to some line holds.
#[verifier::ext_equal]
pub struct SoFarView {
    pub rules: Seq<RuleView>,
    pub open: Option<DraftView>,
}

impl View for MapSoFar {
    type V = SoFarView;

    open spec fn view(&self) -> SoFarView {
        SoFarView {
            rules: rule_views(self.rules@),
            open: match self.open {
                Some(draft) => Some(draft@),
                None => None,
            },
        }
    }
}

/// What can be wrong with a line of the mapping file.
#[derive(Debug, Clone, PartialEq, Eq)]
pub enum TierMapFault {
    /// The line is no header, no `key = value` and no comment.
    NotALine { line: String },
    /// A key comes before any rule.
    Homeless { key: String },
    /// The key is none of a rule's.
    UnknownKey { key: String },
    /// The value is not what the key wants.
    Value { key: String, expected: &'static str, value: String },
    /// The tier is not one a rule may name.
    Tier { tier: i64 },
    /// The window is not one a rule may set.
    Window { hours: i64 },
    /// A table closes without a tier; the line is its header's.
    NoTier,
}

/// What a fault holds.
#[verifier::ext_equal]
pub enum FaultView {
    NotALine { line: Seq<char> },
    Homeless { key: Seq<char> },
    UnknownKey { key: Seq<char> },
    Value { key: Seq<char>, expected: Seq<char>, value: Seq<char> },
    Tier { tier: i64 },
    Window { hours: i64 },
    NoTier,
}

impl View for TierMapFault {
    type V = FaultView;

    open spec fn view(&self) -> FaultView {
        match self {
            TierMapFault::NotALine { line } => FaultView::NotALine { line: line@ },
            TierMapFault::Homeless { key } => FaultView::Homeless { key: key@ },
            TierMapFault::UnknownKey { key } => FaultView::UnknownKey { key: key@ },
            TierMapFault::Value { key, expected, value } => FaultView::Value {
                key: key@,
                expected: expected@,
                value: value@,
            },
            TierMapFault::Tier { tier } => FaultView::Tier { tier: *tier },
            TierMapFault::Window { hours } => FaultView::Window { hours: *hours },
            TierMapFault::NoTier => FaultView::NoTier,
        }
    }
}

/// Whether an optional matcher lets a value through.
pub open spec fn lets_through(matcher: Option<Seq<char>>, value: Seq<char>) -> bool {
    match matcher {
        Some(wanted) => wanted == value,
        None => true,
    }
}

/// Whether a rule covers a QOS and a partition.
pub open spec fn covers(rule: RuleView, qos: Seq<char>, partition: Seq<char>) -> bool {
    lets_through(rule.qos, qos) && lets_through(rule.partition, partition)
}

/// The first rule that covers a QOS and a partition.
pub open spec fn first_rule(rules: Seq<RuleView>, qos: Seq<char>, partition: Seq<char>) -> Option<
    RuleView,
>
    decreases rules.len(),
{
    if rules.len() == 0 {
        None
    } else if covers(rules[0], qos, partition) {
        Some(rules[0])
    } else {
        first_rule(rules.skip(1), qos, partition)
    }
}

/// The window a rule's jobs get: its own, or the tier's.
pub open spec fn window_in(rule: RuleView) -> u32 {
    match rule.window_hours {
        Some(hours) => hours,
        None => if rule.tier == Tier::Latency {
            LATENCY_WINDOW_HOURS
        } else {
            FLEXIBLE_WINDOW_HOURS
        },
    }
}

/// The pad the tier carries.
pub open spec fn pad_in(rule: RuleView) -> u32 {
    if rule.tier == Tier::Latency {
        LATENCY_PAD_HOURS
    } else {
        FLEXIBLE_PAD_HOURS
    }
}

/// The text that a `"quoted"` value carries: what stands between the quotes,
/// itself without one.
pub open spec fn quoted_in(key: Seq<char>, value: Seq<char>) -> Result<Seq<char>, FaultView> {
    if value.len() >= 2 && value[0] == '"' && value.last() == '"' && !value.subrange(
        1,
        value.len() - 1,
    ).contains('"') {
        Ok(value.subrange(1, value.len() - 1))
    } else {
        Err(FaultView::Value { key, expected: "a quoted string"@, value })
    }
}

/// The number that a bare value carries.
pub open spec fn whole_number_in(key: Seq<char>, value: Seq<char>) -> Result<i64, FaultView> {
    match number::within(number::signed(value), i64::MIN as int, i64::MAX as int) {
        Some(n) => Ok(n as i64),
        None => Err(FaultView::Value { key, expected: "a whole number"@, value }),
    }
}

/// The tier that a code names, of those a rule may name.
pub open spec fn tier_in(code: i64) -> Result<Tier, FaultView> {
    if code == 1 {
        Ok(Tier::Latency)
    } else if code == 2 {
        Ok(Tier::Flexible)
    } else {
        Err(FaultView::Tier { tier: code })
    }
}

/// The window that a number of hours names, of those a rule may set.
pub open spec fn window_hours_in(hours: i64) -> Result<u32, FaultView> {
    if 1 <= hours <= MAX_WINDOW_HOURS {
        Ok(hours as u32)
    } else {
        Err(FaultView::Window { hours })
    }
}

/// A table with one `key = value` line applied to it.
pub open spec fn draft_with(draft: DraftView, key: Seq<char>, value: Seq<char>) -> Result<
    DraftView,
    FaultView,
> {
    if key == "qos"@ {
        match quoted_in(key, value) {
            Err(e) => Err(e),
            Ok(name) => Ok(DraftView { qos: Some(name), ..draft }),
        }
    } else if key == "partition"@ {
        match quoted_in(key, value) {
            Err(e) => Err(e),
            Ok(name) => Ok(DraftView { partition: Some(name), ..draft }),
        }
    } else if key == "tier"@ {
        match whole_number_in(key, value) {
            Err(e) => Err(e),
            Ok(code) => match tier_in(code) {
                Err(e) => Err(e),
                Ok(tier) => Ok(DraftView { tier: Some(tier), ..draft }),
            },
        }
    } else if key == "window_hours"@ {
        match whole_number_in(key, value) {
            Err(e) => Err(e),
            Ok(hours) => match window_hours_in(hours) {
                Err(e) => Err(e),
                Ok(hours) => Ok(DraftView { window_hours: Some(hours), ..draft }),
            },
        }
    } else {
        Err(FaultView::UnknownKey { key })
    }
}

/// A table of which the file has given only the header.
pub open spec fn new_draft(header: nat) -> DraftView {
    DraftView { header, qos: None, partition: None, tier: None, window_hours: None }
}

/// The rules once the open table, if any, is closed: it must have set a tier.
pub open spec fn closed_rules(so_far: SoFarView) -> Result<Seq<RuleView>, IngestErrorView> {
    match so_far.open {
        None => Ok(so_far.rules),
        Some(draft) => match draft.tier {
            None => Err(IngestErrorView::TierMap { line: draft.header, source: FaultView::NoTier }),
            Some(tier) => Ok(
                so_far.rules.push(
                    RuleView {
                        qos: draft.qos,
                        partition: draft.partition,
                        tier,
                        window_hours: draft.window_hours,
                    },
                ),
            ),
        },
    }
}

/// The file with one more line read. A header closes the table before it.
pub open spec fn with_line(so_far: SoFarView, number: nat, line: Seq<char>) -> Result<
    SoFarView,
    IngestErrorView,
> {
    if line == "[[rule]]"@ {
        match closed_rules(so_far) {
            Err(e) => Err(e),
            Ok(rules) => Ok(SoFarView { rules, open: Some(new_draft(number)) }),
        }
    } else {
        match text::cut(line, '=') {
            None => Err(
                IngestErrorView::TierMap { line: number, source: FaultView::NotALine { line } },
            ),
            Some((key, value)) => {
                let key = text::trimmed(key);
                match so_far.open {
                    None => Err(
                        IngestErrorView::TierMap {
                            line: number,
                            source: FaultView::Homeless { key },
                        },
                    ),
                    Some(draft) => match draft_with(draft, key, text::trimmed(value)) {
                        Err(source) => Err(IngestErrorView::TierMap { line: number, source }),
                        Ok(draft) => Ok(SoFarView { open: Some(draft), ..so_far }),
                    },
                }
            },
        }
    }
}

/// Whether a line of the file says nothing: blank, or a comment.
pub open spec fn says_nothing(line: Seq<char>) -> bool {
    let line = text::trimmed(line);
    line.len() == 0 || line[0] == '#'
}

/// These lines of the file, read in order.
pub open spec fn read_lines(lines: Seq<Seq<char>>) -> Result<SoFarView, IngestErrorView>
    decreases lines.len(),
{
    if lines.len() == 0 {
        Ok(SoFarView { rules: Seq::empty(), open: None })
    } else {
        match read_lines(lines.drop_last()) {
            Err(e) => Err(e),
            Ok(so_far) => if says_nothing(lines.last()) {
                Ok(so_far)
            } else {
                with_line(so_far, lines.len(), text::trimmed(lines.last()))
            },
        }
    }
}

/// The rules of these lines of the file, the last table closed.
pub open spec fn rules_in(lines: Seq<Seq<char>>) -> Result<Seq<RuleView>, IngestErrorView> {
    match read_lines(lines) {
        Err(e) => Err(e),
        Ok(so_far) => closed_rules(so_far),
    }
}

/// The rules of a mapping file, which has at least one.
pub open spec fn map_in(text: Seq<char>) -> Result<Seq<RuleView>, IngestErrorView> {
    match rules_in(text::lines_of(text)) {
        Err(e) => Err(e),
        Ok(rules) => if rules.len() == 0 {
            Err(IngestErrorView::NoTierRules)
        } else {
            Ok(rules)
        },
    }
}

/// A fault as one line of text.
pub open spec fn fault_text(fault: FaultView) -> Seq<char> {
    match fault {
        FaultView::NotALine { line } => "`"@ + line
            + "` is not a [[rule]] header, a `key = value` line, or a comment"@,
        FaultView::Homeless { key } => "`"@ + key + "` comes before any [[rule]] header"@,
        FaultView::UnknownKey { key } => "`"@ + key
            + "` is not a rule key: expected qos, partition, tier or window_hours"@,
        FaultView::Value { key, expected, value } => "`"@ + key + "` wants "@ + expected + ", and `"@
            + value + "` is not one"@,
        FaultView::Tier { tier } => "tier "@ + number::signed_decimal(tier as int)
            + " has no window and no pad in v1: a rule names tier 1 or tier 2"@,
        FaultView::Window { hours } => "a window of "@ + number::signed_decimal(hours as int)
            + " hours is not between 1 and the "@ + number::decimal(MAX_WINDOW_HOURS as nat)
            + " a rule may set"@,
        FaultView::NoTier => "this [[rule]] sets no tier"@,
    }
}

impl TierMapFault {
    /// The fault as one line. **Calculation.**
    #[must_use]
    pub fn message(&self) -> (line: String)
        ensures
            line@ == fault_text(self@),
    {
        let mut out = String::new();
        match self {
            TierMapFault::NotALine { line } => {
                out.append("`");
                out.append(line.as_str());
                out.append("` is not a [[rule]] header, a `key = value` line, or a comment");
            },
            TierMapFault::Homeless { key } => {
                out.append("`");
                out.append(key.as_str());
                out.append("` comes before any [[rule]] header");
            },
            TierMapFault::UnknownKey { key } => {
                out.append("`");
                out.append(key.as_str());
                out.append("` is not a rule key: expected qos, partition, tier or window_hours");
            },
            TierMapFault::Value { key, expected, value } => {
                out.append("`");
                out.append(key.as_str());
                out.append("` wants ");
                out.append(expected);
                out.append(", and `");
                out.append(value.as_str());
                out.append("` is not one");
            },
            TierMapFault::Tier { tier } => {
                out.append("tier ");
                push_signed(&mut out, *tier);
                out.append(" has no window and no pad in v1: a rule names tier 1 or tier 2");
            },
            TierMapFault::Window { hours } => {
                out.append("a window of ");
                push_signed(&mut out, *hours);
                out.append(" hours is not between 1 and the ");
                push_decimal(&mut out, MAX_WINDOW_HOURS as u64);
                out.append(" a rule may set");
            },
            TierMapFault::NoTier => {
                out.append("this [[rule]] sets no tier");
            },
        }
        assert(out@ =~= fault_text(self@));
        out
    }
}

/// The text that a `"quoted"` value carries. **Calculation.**
pub fn quoted(key: &[char], value: &[char]) -> (r: Result<String, TierMapFault>)
    ensures
        record::seen(r) == quoted_in(key@, value@),
{
    if value.len() >= 2 && value[0] == '"' && value[value.len() - 1] == '"' {
        let inner = vstd::slice::slice_subrange(value, 1, value.len() - 1);
        if !contains(inner, '"') {
            return Ok(string_of(inner));
        }
    }
    Err(
        TierMapFault::Value {
            key: string_of(key),
            expected: "a quoted string",
            value: string_of(value),
        },
    )
}

/// The number that a bare value carries. **Calculation.**
pub fn whole_number(key: &[char], value: &[char]) -> (r: Result<i64, TierMapFault>)
    ensures
        record::seen(r) == whole_number_in(key@, value@),
{
    match parse_i64(value) {
        Some(n) => Ok(n),
        None => Err(
            TierMapFault::Value {
                key: string_of(key),
                expected: "a whole number",
                value: string_of(value),
            },
        ),
    }
}

/// The tier that a rule's `tier = n` names. **Calculation.**
///
/// Tier 0 is refused although there is one: it is work already running, for
/// which neither a window nor a pad is fixed, and inventing a pair for it would
/// be inventing a figure.
pub fn tier_of(code: i64) -> (r: Result<Tier, TierMapFault>)
    ensures
        match (r, tier_in(code)) {
            (Ok(tier), Ok(expected)) => tier == expected,
            (Err(e), Err(expected)) => e@ == expected,
            _ => false,
        },
{
    match code {
        1 => Ok(Tier::Latency),
        2 => Ok(Tier::Flexible),
        _ => Err(TierMapFault::Tier { tier: code }),
    }
}

/// The window that a rule's `window_hours = n` names. **Calculation.**
pub fn window_of(hours: i64) -> (r: Result<u32, TierMapFault>)
    ensures
        record::seen(r) == window_hours_in(hours),
{
    if hours >= 1 && hours <= MAX_WINDOW_HOURS as i64 {
        Ok(hours as u32)
    } else {
        Err(TierMapFault::Window { hours })
    }
}

/// One `key = value` line applied to the table it belongs to. **Calculation.**
pub fn set_rule_key(rule: &mut Draft, key: &[char], value: &[char]) -> (r: Result<
    (),
    TierMapFault,
>)
    ensures
        match (r, draft_with(old(rule)@, key@, value@)) {
            (Ok(_), Ok(expected)) => final(rule)@ == expected,
            (Err(e), Err(expected)) => e@ == expected && final(rule)@ == old(rule)@,
            _ => false,
        },
{
    if is_word(key, "qos") {
        match quoted(key, value) {
            Ok(name) => rule.qos = Some(name),
            Err(e) => return Err(e),
        }
    } else if is_word(key, "partition") {
        match quoted(key, value) {
            Ok(name) => rule.partition = Some(name),
            Err(e) => return Err(e),
        }
    } else if is_word(key, "tier") {
        let code: i64 = match whole_number(key, value) {
            Ok(n) => n,
            Err(e) => return Err(e),
        };
        match tier_of(code) {
            Ok(tier) => rule.tier = Some(tier),
            Err(e) => return Err(e),
        }
    } else if is_word(key, "window_hours") {
        let hours: i64 = match whole_number(key, value) {
            Ok(n) => n,
            Err(e) => return Err(e),
        };
        match window_of(hours) {
            Ok(hours) => rule.window_hours = Some(hours),
            Err(e) => return Err(e),
        }
    } else {
        return Err(TierMapFault::UnknownKey { key: string_of(key) });
    }
    Ok(())
}

/// The rules once the open table is closed. **Calculation.**
fn close(so_far: MapSoFar) -> (r: Result<Vec<TierRule>, IngestError>)
    ensures
        match (r, closed_rules(so_far@)) {
            (Ok(rules), Ok(expected)) => rule_views(rules@) == expected,
            (Err(e), Err(expected)) => e@ == expected,
            _ => false,
        },
{
    let ghost before = so_far.rules@;
    let mut rules = so_far.rules;
    if let Some(draft) = so_far.open {
        match draft.tier {
            None => return Err(
                IngestError::TierMap { line: draft.header, source: TierMapFault::NoTier },
            ),
            Some(tier) => {
                let rule = TierRule {
                    qos: draft.qos,
                    partition: draft.partition,
                    tier,
                    window_hours: draft.window_hours,
                };
                rules.push(rule);
                assert(rule_views(rules@) =~= rule_views(before).push(rule@));
            },
        }
    }
    Ok(rules)
}

/// One line of the mapping file, folded into what was read so far.
/// **Calculation.**
pub fn read_map_line(so_far: MapSoFar, line_number: usize, line: &[char]) -> (r: Result<
    MapSoFar,
    IngestError,
>)
    ensures
        record::seen(r) == with_line(so_far@, line_number as nat, line@),
{
    if is_word(line, "[[rule]]") {
        let rules = match close(so_far) {
            Ok(rules) => rules,
            Err(e) => return Err(e),
        };
        let draft = Draft {
            header: line_number,
            qos: None,
            partition: None,
            tier: None,
            window_hours: None,
        };
        return Ok(MapSoFar { rules, open: Some(draft) });
    }
    let (key, value) = match split_once(line, '=') {
        Some(parts) => parts,
        None => return Err(
            IngestError::TierMap {
                line: line_number,
                source: TierMapFault::NotALine { line: string_of(line) },
            },
        ),
    };
    let key = trim(key);
    let value = trim(value);
    match so_far.open {
        None => Err(
            IngestError::TierMap {
                line: line_number,
                source: TierMapFault::Homeless { key: string_of(key) },
            },
        ),
        Some(open) => {
            let mut draft = open;
            match set_rule_key(&mut draft, key, value) {
                Ok(_) => Ok(MapSoFar { rules: so_far.rules, open: Some(draft) }),
                Err(source) => Err(IngestError::TierMap { line: line_number, source }),
            }
        },
    }
}

/// A line that cannot be read stops the file.
proof fn lemma_reading_stops(lines: Seq<Seq<char>>, n: int)
    requires
        0 <= n <= lines.len(),
        read_lines(lines.take(n)) is Err,
    ensures
        read_lines(lines) == read_lines(lines.take(n)),
    decreases lines.len(),
{
    if n == lines.len() {
        assert(lines.take(n) =~= lines);
    } else {
        assert(lines.drop_last().take(n) =~= lines.take(n));
        lemma_reading_stops(lines.drop_last(), n);
    }
}

/// What is read of a mapping file is what a rule can hold.
proof fn lemma_rules_hold(lines: Seq<Seq<char>>)
    requires
        read_lines(lines) is Ok,
    ensures
        ({
            let so_far = read_lines(lines)->Ok_0;
            &&& forall|i: int| 0 <= i < so_far.rules.len() ==> is_rule(#[trigger] so_far.rules[i])
            &&& so_far.open matches Some(draft) ==> {
                &&& draft.tier matches Some(tier) ==> tier == Tier::Latency || tier
                    == Tier::Flexible
                &&& draft.window_hours matches Some(hours) ==> 1 <= hours <= MAX_WINDOW_HOURS
            }
        }),
    decreases lines.len(),
{
    if lines.len() > 0 {
        lemma_rules_hold(lines.drop_last());
    }
}

/// A mapping file that parses has at least one rule, and each is one that a
/// mapping file can write.
pub proof fn lemma_map_holds(text: Seq<char>)
    ensures
        map_in(text) matches Ok(rules) ==> is_map(rules),
{
    let lines = text::lines_of(text);
    if read_lines(lines) is Ok {
        lemma_rules_hold(lines);
    }
}

impl TierMap {
    #[verifier::type_invariant]
    spec fn complete(self) -> bool {
        is_map(self@)
    }

    /// The mapping file's rules, in the order it writes them.
    /// **Calculation.**
    ///
    /// The grammar is `[[rule]]` tables whose keys take a quoted string or a
    /// whole number, and comments that start a line with `#`. A table must set
    /// its tier before the next header or the end of the file closes it.
    ///
    /// # Errors
    /// [`IngestError::TierMap`] naming the line and what is wrong with it, and
    /// [`IngestError::NoTierRules`] for a file that declares none.
    pub fn parse(text: &str) -> (r: Result<TierMap, IngestError>)
        ensures
            record::seen(r) == map_in(text@),
    {
        let chars = chars_of(text);
        let rows = lines(chars.as_slice());
        let ghost all = text::views(rows@);
        let mut so_far = MapSoFar { rules: Vec::new(), open: None };
        let mut i: usize = 0;
        assert(so_far@ =~= SoFarView { rules: Seq::empty(), open: None });
        while i < rows.len()
            invariant
                i <= rows@.len(),
                all == text::views(rows@),
                all == text::lines_of(text@),
                read_lines(all.take(i as int)) == Ok::<SoFarView, IngestErrorView>(so_far@),
            decreases rows@.len() - i,
        {
            let line = trim(rows[i]);
            let ghost lines_read = all.take(i + 1);
            assert(lines_read.drop_last() =~= all.take(i as int));
            assert(lines_read.last() == rows@[i as int]@);
            if line.len() > 0 && line[0] != '#' {
                match read_map_line(so_far, i + 1, line) {
                    Ok(more) => so_far = more,
                    Err(e) => {
                        proof {
                            lemma_reading_stops(all, i + 1);
                        }
                        return Err(e);
                    },
                }
            }
            i = i + 1;
        }
        assert(all.take(i as int) =~= all);
        let rules = match close(so_far) {
            Ok(rules) => rules,
            Err(e) => return Err(e),
        };
        if rules.len() == 0 {
            return Err(IngestError::NoTierRules);
        }
        proof {
            lemma_map_holds(text@);
        }
        Ok(TierMap(rules))
    }

    /// The first rule that matches this row's QOS and partition.
    /// **Calculation.**
    #[must_use]
    pub fn rule_for(&self, qos: &[char], partition: &[char]) -> (r: Option<&TierRule>)
        ensures
            match (r, first_rule(self@, qos@, partition@)) {
                (Some(rule), Some(expected)) => rule@ == expected,
                (None, None) => true,
                _ => false,
            },
    {
        let mut i: usize = 0;
        assert(self@.skip(0) =~= self@);
        while i < self.0.len()
            invariant
                i <= self.0@.len(),
                first_rule(self@, qos@, partition@) == first_rule(
                    self@.skip(i as int),
                    qos@,
                    partition@,
                ),
            decreases self.0@.len() - i,
        {
            assert(self@.skip(i as int)[0] == self.0@[i as int]@);
            assert(self@.skip(i as int).skip(1) =~= self@.skip(i + 1));
            if self.0[i].matches(qos, partition) {
                return Some(&self.0[i]);
            }
            i = i + 1;
        }
        None
    }
}

impl TierRule {
    /// Whether this rule covers that QOS and partition. **Calculation.**
    pub fn matches(&self, qos: &[char], partition: &[char]) -> (b: bool)
        ensures
            b == covers(self@, qos@, partition@),
    {
        accepts(&self.qos, qos) && accepts(&self.partition, partition)
    }

    /// The window this rule's jobs get: its own, or the tier's.
    /// **Calculation.**
    pub fn window_hours(&self) -> (hours: u32)
        ensures
            hours == window_in(self@),
    {
        match self.window_hours {
            Some(hours) => hours,
            None => match self.tier {
                Tier::Latency => LATENCY_WINDOW_HOURS,
                Tier::Flexible | Tier::Fixed => FLEXIBLE_WINDOW_HOURS,
            },
        }
    }

    /// The pad the tier carries. **Calculation.**
    pub fn pad_hours(&self) -> (hours: u32)
        ensures
            hours == pad_in(self@),
    {
        match self.tier {
            Tier::Latency => LATENCY_PAD_HOURS,
            Tier::Flexible | Tier::Fixed => FLEXIBLE_PAD_HOURS,
        }
    }
}

/// Whether an optional matcher lets a value through. **Calculation.**
fn accepts(matcher: &Option<String>, value: &[char]) -> (b: bool)
    ensures
        b == lets_through(text::optional(*matcher), value@),
{
    match matcher {
        Some(wanted) => is_word(value, wanted.as_str()),
        None => true,
    }
}

}
