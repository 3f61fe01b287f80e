//! The site's clock, hour by hour, and the hours that an export covers.

use vstd::prelude::*;
use crate::error::{IngestError, IngestErrorView};
use crate::record;
use crate::table;
use crate::table::TextMap;
use crate::text;
use crate::text::{chars_of, comes_before};

verus! {

/// The longest export that is read: two years of hours.
pub const MAX_EXPORT_HOURS: u32 = 17_568;

/// Width in bytes of `YYYY-MM-DDTHH`, the part of a local reading that names
/// its hour.
pub const READING_HOUR_WIDTH: usize = 13;

/// An hour, counted from the site's first local midnight. **Data.**
#[derive(Debug, Clone, Copy, PartialEq, Eq, Structural)]
pub struct HourIndex(pub u32);

impl HourIndex {
    /// The hour with this number. **Calculation.**
    #[must_use]
    pub fn new(hour: u32) -> (h: HourIndex)
        ensures
            h.0 == hour,
    {
        HourIndex(hour)
    }

    /// The hour's number. **Calculation.**
    #[must_use]
    pub fn get(self) -> (hour: u32)
        ensures
            hour == self.0,
    {
        self.0
    }

    /// The hour that many hours later, where there is such an index.
    /// **Calculation.**
    #[must_use]
    pub fn offset_by(self, hours: u32) -> (r: Option<HourIndex>)
        ensures
            r == later(self, hours),
    {
        match self.0.checked_add(hours) {
            Some(hour) => Some(HourIndex(hour)),
            None => None,
        }
    }
}

/// The hour that many hours later, where there is such an index.
pub open spec fn later(hour: HourIndex, hours: u32) -> Option<HourIndex> {
    if hour.0 + hours <= u32::MAX {
        Some(HourIndex((hour.0 + hours) as u32))
    } else {
        None
    }
}

/// A change of the site's clock. **Data.**
#[derive(Debug, Clone, Copy, PartialEq, Eq, Structural)]
pub enum DstCrossing {
    /// A local hour is skipped; `at` is the hour that follows the gap.
    Missing { at: HourIndex },
    /// A local hour comes again; `at` is the hour that repeats it.
    Doubled { at: HourIndex },
}

/// The hour of a change.
pub open spec fn hour_at(crossing: DstCrossing) -> HourIndex {
    match crossing {
        DstCrossing::Missing { at } => at,
        DstCrossing::Doubled { at } => at,
    }
}

/// What a change does to a local hour.
pub open spec fn kind_of(crossing: DstCrossing) -> Seq<char> {
    match crossing {
        DstCrossing::Missing { .. } => "never happens"@,
        DstCrossing::Doubled { .. } => "happens twice"@,
    }
}

/// What the site's clock shows at every hour that an export may cover, and the
/// change of the clock, if any, in each span that starts at hour zero.
/// **Data.**
#[derive(Debug, PartialEq, Eq)]
pub struct SiteClock {
    readings: Vec<String>,
    reports: Vec<Option<DstCrossing>>,
}

/// What a clock shows.
#[verifier::ext_equal]
pub struct ClockView {
    /// The reading at each hour.
    pub readings: Seq<Seq<char>>,
    /// For each hour, the change in the span that ends before it.
    pub reports: Seq<Option<DstCrossing>>,
}

/// What a list of strings holds.
pub open spec fn strings(s: Seq<String>) -> Seq<Seq<char>> {
    s.map_values(|x: String| x@)
}

/// Whether a clock has a reading and a report for each hour that an export may
/// cover, and its reports stay within those hours.
pub open spec fn is_clock(clock: ClockView) -> bool {
    &&& clock.readings.len() == MAX_EXPORT_HOURS
    &&& clock.reports.len() == MAX_EXPORT_HOURS
    &&& forall|i: int|
        0 <= i < clock.reports.len() ==> ((#[trigger] clock.reports[i]) matches Some(crossing)
            ==> hour_at(crossing).0 < MAX_EXPORT_HOURS)
}

/// Whether readings, from the first hour on, and a change of the clock are
/// what an export's hours can show.
pub open spec fn is_span(readings: Seq<Seq<char>>, crossing: Option<DstCrossing>) -> bool {
    &&& readings.len() <= MAX_EXPORT_HOURS
    &&& crossing matches Some(crossing) ==> hour_at(crossing).0 < readings.len()
}

/// A clock of which nothing is known past these readings.
pub open spec fn spanned(readings: Seq<Seq<char>>, crossing: Option<DstCrossing>) -> ClockView {
    ClockView {
        readings: Seq::new(
            MAX_EXPORT_HOURS as nat,
            |i: int|
                if i < readings.len() {
                    readings[i]
                } else {
                    Seq::empty()
                },
        ),
        reports: Seq::new(
            MAX_EXPORT_HOURS as nat,
            |i: int|
                if i + 1 == readings.len() {
                    crossing
                } else {
                    None
                },
        ),
    }
}

/// Whether the hours of an export whose latest key is `until` go on past these
/// readings.
pub open spec fn goes_on(readings: Seq<Seq<char>>, until: Option<Seq<char>>) -> bool {
    until matches Some(until) && readings.len() < MAX_EXPORT_HOURS && (readings.len() == 0
        || !text::precedes(until, hour_key_in(readings.last())))
}

impl View for SiteClock {
    type V = ClockView;

    closed spec fn view(&self) -> ClockView {
        ClockView { readings: strings(self.readings@), reports: self.reports@ }
    }
}

impl SiteClock {
    #[verifier::type_invariant]
    spec fn complete(self) -> bool {
        is_clock(self@)
    }

    /// The clock that shows these readings and has these changes, or `None`
    /// where an hour is left out or a change lies past the last hour.
    /// **Calculation.**
    #[must_use]
    pub fn new(readings: Vec<String>, reports: Vec<Option<DstCrossing>>) -> (r: Option<SiteClock>)
        ensures
            ({
                let clock = ClockView { readings: strings(readings@), reports: reports@ };
                match r {
                    Some(made) => is_clock(clock) && made@ == clock,
                    None => !is_clock(clock),
                }
            }),
    {
        let ghost clock = ClockView { readings: strings(readings@), reports: reports@ };
        if readings.len() != MAX_EXPORT_HOURS as usize || reports.len()
            != MAX_EXPORT_HOURS as usize {
            return None;
        }
        let mut i: usize = 0;
        while i < reports.len()
            invariant
                i <= reports@.len(),
                clock.reports == reports@,
                forall|k: int|
                    0 <= k < i ==> ((#[trigger] clock.reports[k]) matches Some(crossing)
                        ==> hour_at(crossing).0 < MAX_EXPORT_HOURS),
            decreases reports@.len() - i,
        {
            assert(clock.reports[i as int] == reports@[i as int]);
            match reports[i] {
                Some(DstCrossing::Missing { at }) => {
                    if at.0 >= MAX_EXPORT_HOURS {
                        return None;
                    }
                },
                Some(DstCrossing::Doubled { at }) => {
                    if at.0 >= MAX_EXPORT_HOURS {
                        return None;
                    }
                },
                None => {},
            }
            i = i + 1;
        }
        Some(SiteClock { readings, reports })
    }

    /// The clock of an export whose hours end with the last of these readings,
    /// with the change of the clock before that hour, or `None` where the
    /// readings reach too far or the change lies past them. What a clock shows
    /// past the end of an export decides nothing, so it need not be asked.
    /// **Calculation.**
    #[must_use]
    pub fn of_span(readings: Vec<String>, crossing: Option<DstCrossing>) -> (r: Option<SiteClock>)
        ensures
            match r {
                Some(made) => is_span(strings(readings@), crossing) && made@ == spanned(
                    strings(readings@),
                    crossing,
                ),
                None => !is_span(strings(readings@), crossing),
            },
    {
        let ghost given = strings(readings@);
        let n: usize = readings.len();
        let past = match crossing {
            Some(DstCrossing::Missing { at }) => at.0 as usize >= n,
            Some(DstCrossing::Doubled { at }) => at.0 as usize >= n,
            None => false,
        };
        if n > MAX_EXPORT_HOURS as usize || past {
            return None;
        }
        let ghost whole = spanned(given, crossing);
        let mut readings = readings;
        let mut reports: Vec<Option<DstCrossing>> = Vec::new();
        let mut i: usize = 0;
        assert(strings(readings@).len() == n);
        while i < MAX_EXPORT_HOURS as usize
            invariant
                i <= MAX_EXPORT_HOURS,
                n <= MAX_EXPORT_HOURS,
                given.len() == n,
                whole == spanned(given, crossing),
                reports@ == whole.reports.take(i as int),
                strings(readings@) == whole.readings.take(
                    if i < n {
                        n as int
                    } else {
                        i as int
                    },
                ),
            decreases MAX_EXPORT_HOURS - i,
        {
            let ghost shown = strings(readings@);
            if i >= n {
                readings.push(String::new());
                assert(strings(readings@) =~= shown.push(Seq::empty()));
                assert(whole.readings.take(i + 1) =~= whole.readings.take(i as int).push(
                    Seq::empty(),
                ));
            }
            reports.push(
                if i + 1 == n {
                    crossing
                } else {
                    None
                },
            );
            assert(whole.reports.take(i + 1) =~= whole.reports.take(i as int).push(
                whole.reports[i as int],
            ));
            i = i + 1;
        }
        assert(whole.reports.take(i as int) =~= whole.reports);
        assert(whole.readings.take(i as int) =~= whole.readings);
        Some(SiteClock { readings, reports })
    }

    /// What the clock shows at an hour. **Calculation.**
    #[must_use]
    pub fn local_iso(&self, hour: HourIndex) -> (reading: &String)
        requires
            hour.0 < MAX_EXPORT_HOURS,
        ensures
            reading@ == self@.readings[hour.0 as int],
            is_clock(self@),
    {
        proof {
            use_type_invariant(self);
        }
        &self.readings[hour.0 as usize]
    }

    /// The change of the clock before an hour. **Calculation.**
    #[must_use]
    pub fn crossing_report(&self, end: HourIndex) -> (r: Option<DstCrossing>)
        requires
            end.0 < MAX_EXPORT_HOURS,
        ensures
            r == self@.reports[end.0 as int],
            r matches Some(crossing) ==> hour_at(crossing).0 < MAX_EXPORT_HOURS,
    {
        proof {
            use_type_invariant(self);
            assert(self@.reports[end.0 as int] == self.reports@[end.0 as int]);
        }
        self.reports[end.0 as usize]
    }
}

/// The number of bytes that a character takes in UTF-8.
pub open spec fn utf8_width(c: char) -> nat {
    if (c as u32) < 0x80 {
        1
    } else if (c as u32) < 0x800 {
        2
    } else if (c as u32) < 0x10000 {
        3
    } else {
        4
    }
}

/// The number of bytes that a text takes in UTF-8.
pub open spec fn byte_len(s: Seq<char>) -> nat
    decreases s.len(),
{
    if s.len() == 0 {
        0
    } else {
        byte_len(s.drop_last()) + utf8_width(s.last())
    }
}

/// The characters of a text that fill its first `width` bytes, where a
/// character ends there.
pub open spec fn byte_prefix(s: Seq<char>, width: nat) -> Option<Seq<char>>
    decreases s.len(),
{
    if byte_len(s) < width {
        None
    } else if byte_len(s) == width {
        Some(s)
    } else if s.len() == 0 {
        None
    } else {
        byte_prefix(s.drop_last(), width)
    }
}

/// The `YYYY-MM-DDTHH` that a local reading starts with, or the whole of a
/// reading that has no such start.
pub open spec fn hour_key_in(reading: Seq<char>) -> Seq<char> {
    match byte_prefix(reading, READING_HOUR_WIDTH as nat) {
        Some(key) => key,
        None => reading,
    }
}

/// The keys of a list of readings.
pub open spec fn hour_keys(readings: Seq<Seq<char>>) -> Seq<Seq<char>> {
    readings.map_values(|reading: Seq<char>| hour_key_in(reading))
}

/// The hour of each key, the earliest where a key comes twice.
pub open spec fn hours_by_key(keys: Seq<Seq<char>>) -> Seq<(Seq<char>, HourIndex)>
    decreases keys.len(),
{
    if keys.len() == 0 {
        Seq::empty()
    } else {
        let before = hours_by_key(keys.drop_last());
        match table::lookup(before, keys.last()) {
            Some(_) => before,
            None => table::put(before, keys.last(), HourIndex((keys.len() - 1) as u32)),
        }
    }
}

/// The first key from `from` on that is later than `until`, or the number of
/// keys where none is.
pub open spec fn first_later(keys: Seq<Seq<char>>, until: Seq<char>, from: int) -> int
    decreases keys.len() - from,
{
    if from >= keys.len() || text::precedes(until, keys[from]) {
        from
    } else {
        first_later(keys, until, from + 1)
    }
}

/// What an export's hours hold.
#[verifier::ext_equal]
pub struct HoursView {
    /// The hour of each key, in key order.
    pub by_reading: Seq<(Seq<char>, HourIndex)>,
    /// The first hour past the export.
    pub past_end: HourIndex,
}

/// The hours of an export whose latest key is `until`.
pub open spec fn hours_until(clock: ClockView, until: Seq<char>) -> Result<
    HoursView,
    IngestErrorView,
> {
    let keys = hour_keys(clock.readings);
    let end = first_later(keys, until, 0);
    if end < keys.len() {
        Ok(
            HoursView {
                by_reading: hours_by_key(keys.take(end + 1)),
                past_end: HourIndex(end as u32),
            },
        )
    } else {
        Err(IngestErrorView::ExportTooLong { hours: MAX_EXPORT_HOURS })
    }
}

/// The hours of an export with nothing to place.
pub open spec fn no_hours() -> HoursView {
    HoursView { by_reading: Seq::empty(), past_end: HourIndex(0) }
}

/// The hour that a reading falls in.
pub open spec fn hour_in(hours: HoursView, reading: Seq<char>) -> Option<HourIndex> {
    table::lookup(hours.by_reading, hour_key_in(reading))
}

/// The span that an export's hours cover, first reading to last.
pub open spec fn covered(hours: HoursView, clock: ClockView) -> Seq<char> {
    let last = if hours.past_end.0 == 0 {
        0
    } else {
        hours.past_end.0 - 1
    };
    clock.readings[0] + " to "@ + clock.readings[last]
}

/// Whether the next hour of the clock is to be read: the hours of an export
/// whose latest key is `until` go on past these readings. **Calculation.**
#[must_use]
pub fn wants_reading(readings: &Vec<String>, until: &Option<String>) -> (b: bool)
    ensures
        b == goes_on(strings(readings@), text::optional(*until)),
{
    match until {
        None => false,
        Some(until) => {
            let n: usize = readings.len();
            if n == 0 {
                return true;
            }
            if n >= MAX_EXPORT_HOURS as usize {
                return false;
            }
            let latest = chars_of(until.as_str());
            let last = chars_of(readings[n - 1].as_str());
            assert(strings(readings@).last() == last@);
            !comes_before(latest.as_slice(), hour_key(last.as_slice()))
        },
    }
}

/// The `YYYY-MM-DDTHH` that a local reading starts with. **Calculation.**
#[must_use]
pub fn hour_key(reading: &[char]) -> (key: &[char])
    ensures
        key@ == hour_key_in(reading@),
{
    let mut bytes: usize = 0;
    let mut i: usize = 0;
    assert(reading@.take(0).len() == 0);
    while i < reading.len() && bytes < READING_HOUR_WIDTH
        invariant
            i <= reading@.len(),
            bytes == byte_len(reading@.take(i as int)),
            bytes < READING_HOUR_WIDTH + 4,
            i == 0 || byte_len(reading@.take(i - 1)) < READING_HOUR_WIDTH,
        decreases reading@.len() - i,
    {
        let c = reading[i];
        let code: u32 = c as u32;
        let width: usize = if code < 0x80 {
            1
        } else if code < 0x800 {
            2
        } else if code < 0x10000 {
            3
        } else {
            4
        };
        assert(reading@.take(i + 1).drop_last() =~= reading@.take(i as int));
        assert(reading@.take(i + 1).last() == c);
        bytes = bytes + width;
        i = i + 1;
    }
    proof {
        if bytes >= READING_HOUR_WIDTH {
            lemma_byte_prefix(reading@, READING_HOUR_WIDTH as nat, i as int);
        } else {
            assert(reading@.take(i as int) =~= reading@);
        }
    }
    if bytes == READING_HOUR_WIDTH {
        vstd::slice::slice_subrange(reading, 0, i)
    } else {
        reading
    }
}

/// Where a text's first `n` characters are the first to reach the width, they
/// are the prefix if they reach it exactly, and there is none if they pass it.
proof fn lemma_byte_prefix(s: Seq<char>, width: nat, n: int)
    requires
        0 < n <= s.len(),
        byte_len(s.take(n)) >= width,
        byte_len(s.take(n - 1)) < width,
    ensures
        byte_prefix(s, width) == if byte_len(s.take(n)) == width {
            Some(s.take(n))
        } else {
            None
        },
    decreases s.len(),
{
    if n == s.len() {
        assert(s.take(n) =~= s);
        assert(s.drop_last() =~= s.take(n - 1));
        if byte_len(s) > width {
            assert(byte_prefix(s.drop_last(), width) is None);
        }
    } else {
        lemma_byte_len_grows(s, n);
        assert(s.drop_last().take(n) =~= s.take(n));
        assert(s.drop_last().take(n - 1) =~= s.take(n - 1));
        lemma_byte_prefix(s.drop_last(), width, n);
    }
}

/// A longer text takes more bytes.
proof fn lemma_byte_len_grows(s: Seq<char>, n: int)
    requires
        0 <= n < s.len(),
    ensures
        byte_len(s.take(n)) < byte_len(s),
    decreases s.len(),
{
    if n < s.len() - 1 {
        assert(s.drop_last().take(n) =~= s.take(n));
        lemma_byte_len_grows(s.drop_last(), n);
    } else {
        assert(s.take(n) =~= s.drop_last());
    }
}

/// The site's own local clock readings, hour by hour. **Data.**
///
/// Keyed by `YYYY-MM-DDTHH`, which is what the site's clock read at the start
/// of each hour of the export. Both readings of a doubled hour share a key and
/// the earlier one wins; a missing local hour has no key at all, so a row
/// claiming it is refused rather than placed.
#[derive(Debug, PartialEq, Eq)]
pub struct LocalHours {
    by_reading: TextMap<HourIndex>,
    /// The first hour past the export: the one whose reading is later than
    /// every `Submit` in it, and so the exclusive end of its range.
    past_end: HourIndex,
}

impl View for LocalHours {
    type V = HoursView;

    closed spec fn view(&self) -> HoursView {
        HoursView { by_reading: self.by_reading@, past_end: self.past_end }
    }
}

impl LocalHours {
    #[verifier::type_invariant]
    spec fn bounded(self) -> bool {
        self.past_end.0 < MAX_EXPORT_HOURS
    }

    /// The clock's readings, far enough to cover `until`. **Calculation.**
    ///
    /// # Errors
    /// [`IngestError::ExportTooLong`] when `until` is further from the first
    /// hour than an export may reach.
    pub fn of(clock: &SiteClock, until: &[char]) -> (r: Result<LocalHours, IngestError>)
        ensures
            record::seen(r) == hours_until(clock@, until@),
    {
        proof {
            use_type_invariant(clock);
        }
        let ghost keys = hour_keys(clock@.readings);
        let mut by_reading: TextMap<HourIndex> = TextMap::new();
        let mut hour: u32 = 0;
        while hour < MAX_EXPORT_HOURS
            invariant
                hour <= MAX_EXPORT_HOURS,
                keys == hour_keys(clock@.readings),
                keys.len() == MAX_EXPORT_HOURS,
                by_reading@ == hours_by_key(keys.take(hour as int)),
                first_later(keys, until@, 0) == first_later(keys, until@, hour as int),
            decreases MAX_EXPORT_HOURS - hour,
        {
            let reading = chars_of(clock.local_iso(HourIndex(hour)).as_str());
            let key = hour_key(reading.as_slice());
            assert(key@ == keys[hour as int]);
            assert(keys.take(hour + 1).drop_last() =~= keys.take(hour as int));
            let known = by_reading.find(key).is_some();
            if !known {
                by_reading = by_reading.with(key, HourIndex(hour));
            }
            if comes_before(until, key) {
                return Ok(LocalHours { by_reading, past_end: HourIndex(hour) });
            }
            hour = hour + 1;
        }
        Err(IngestError::ExportTooLong { hours: MAX_EXPORT_HOURS })
    }

    /// The readings of an export with nothing to place. **Calculation.**
    ///
    /// An export whose every row was skipped or rejected has no range, and
    /// asking the clock to render one would be inventing one.
    #[must_use]
    pub fn none() -> (hours: LocalHours)
        ensures
            hours@ == no_hours(),
    {
        LocalHours { by_reading: TextMap::new(), past_end: HourIndex(0) }
    }

    /// The hour index that a local reading falls in. **Calculation.**
    #[must_use]
    pub fn hour_of(&self, reading: &[char]) -> (r: Option<HourIndex>)
        ensures
            r == hour_in(self@, reading@),
    {
        match self.by_reading.find(hour_key(reading)) {
            Some(hour) => Some(*hour),
            None => None,
        }
    }

    /// The end of the export's hours, which a crossing is looked for before.
    /// **Calculation.**
    #[must_use]
    pub fn end(&self) -> (hour: HourIndex)
        ensures
            hour == self@.past_end,
            hour.0 < MAX_EXPORT_HOURS,
    {
        proof {
            use_type_invariant(self);
        }
        self.past_end
    }

    /// The span that this covers, as the refusal names it. **Calculation.**
    #[must_use]
    pub fn covers(&self, clock: &SiteClock) -> (span: String)
        ensures
            span@ == covered(self@, clock@),
    {
        let end = self.end();
        let last: u32 = if end.0 == 0 {
            0
        } else {
            end.0 - 1
        };
        let mut span = String::new();
        span.append(clock.local_iso(HourIndex(0)).as_str());
        span.append(" to ");
        span.append(clock.local_iso(HourIndex(last)).as_str());
        assert(span@ =~= covered(self@, clock@));
        span
    }
}

/// The refusal that a clock crossing earns. **Calculation.**
#[must_use]
pub fn crossing_refused(clock: &SiteClock, crossing: DstCrossing) -> (e: IngestError)
    requires
        hour_at(crossing).0 < MAX_EXPORT_HOURS,
    ensures
        e@ == refused(clock@, crossing),
{
    let (kind, at) = match crossing {
        DstCrossing::Missing { at } => ("never happens", at),
        DstCrossing::Doubled { at } => ("happens twice", at),
    };
    IngestError::DstCrossing { local: clock.local_iso(at).clone(), kind }
}

/// The refusal that a clock crossing earns: the reading at it, and its kind.
pub open spec fn refused(clock: ClockView, crossing: DstCrossing) -> IngestErrorView {
    IngestErrorView::DstCrossing {
        local: clock.readings[hour_at(crossing).0 as int],
        kind: kind_of(crossing),
    }
}

/// A key has the earliest hour whose reading starts with it, and a key that no
/// reading starts with has none.
pub proof fn law_earliest_reading_wins(keys: Seq<Seq<char>>, key: Seq<char>)
    requires
        keys.len() <= MAX_EXPORT_HOURS,
    ensures
        match table::lookup(hours_by_key(keys), key) {
            Some(hour) => {
                &&& hour.0 < keys.len()
                &&& keys[hour.0 as int] == key
                &&& forall|i: int| 0 <= i < hour.0 ==> #[trigger] keys[i] != key
            },
            None => !keys.contains(key),
        },
    decreases keys.len(),
{
    if keys.len() > 0 {
        let less = keys.drop_last();
        law_earliest_reading_wins(less, key);
        lemma_hours_ordered(less);
        let before = hours_by_key(less);
        table::law_put(before, keys.last(), HourIndex((keys.len() - 1) as u32), key);
        law_earliest_reading_wins(less, keys.last());
        assert forall|i: int| 0 <= i < less.len() implies #[trigger] keys[i] == less[i] by {}
        if keys.last() == key && table::lookup(before, key) is None {
            assert forall|i: int| 0 <= i < less.len() implies #[trigger] keys[i] != key by {
                assert(less[i] == keys[i]);
            }
        }
        match table::lookup(hours_by_key(keys), key) {
            Some(hour) => {
                assert forall|i: int| 0 <= i < hour.0 implies #[trigger] keys[i] != key by {
                    assert(less[i] == keys[i]);
                }
            },
            None => {
                assert(keys.last() != key);
                assert forall|i: int| 0 <= i < keys.len() implies #[trigger] keys[i] != key by {
                    if i < less.len() {
                        assert(less[i] == keys[i]);
                    }
                }
            },
        }
    }
}

proof fn lemma_hours_ordered(keys: Seq<Seq<char>>)
    ensures
        table::ordered(hours_by_key(keys)),
    decreases keys.len(),
{
    if keys.len() > 0 {
        lemma_hours_ordered(keys.drop_last());
        table::law_put(
            hours_by_key(keys.drop_last()),
            keys.last(),
            HourIndex((keys.len() - 1) as u32),
            keys.last(),
        );
    }
}

/// The end of an export is the first hour that reads later than its latest
/// `Submit`: every hour before it reads no later.
pub proof fn law_end_is_first_later(keys: Seq<Seq<char>>, until: Seq<char>, from: int)
    requires
        0 <= from <= keys.len(),
    ensures
        from <= first_later(keys, until, from) <= keys.len(),
        first_later(keys, until, from) < keys.len() ==> text::precedes(
            until,
            keys[first_later(keys, until, from)],
        ),
        forall|i: int|
            from <= i < first_later(keys, until, from) ==> !text::precedes(
                until,
                #[trigger] keys[i],
            ),
    decreases keys.len() - from,
{
    if from < keys.len() && !text::precedes(until, keys[from]) {
        law_end_is_first_later(keys, until, from + 1);
    }
}

/// A clock is read for as long as an export's hours go on: not at all where
/// there is nothing to place, and else up to the first hour that reads later
/// than the latest key, or the last that an export may have.
pub proof fn law_when_the_hours_go_on(readings: Seq<Seq<char>>, until: Seq<char>)
    ensures
        !goes_on(readings, None),
        goes_on(Seq::empty(), Some(until)),
        readings.len() >= 2 * 366 * 24 ==> !goes_on(readings, Some(until)),
        0 < readings.len() < 2 * 366 * 24 ==> (goes_on(readings, Some(until)) <==> !text::precedes(
            until,
            hour_key_in(readings[readings.len() - 1]),
        )),
{
}

/// An hour later is an hour with a number that much larger, and there is none
/// past the largest number.
pub proof fn law_later(hour: HourIndex, hours: u32)
    ensures
        match later(hour, hours) {
            Some(then) => then.0 - hour.0 == hours,
            None => hour.0 + hours > u32::MAX,
        },
{
}

/// A character of UTF-8 takes one byte up to code point 7f, two up to 7ff,
/// three up to ffff and else four, and a text as many as its characters.
pub proof fn law_bytes(s: Seq<char>, c: char)
    ensures
        byte_len(s.push(c)) == byte_len(s) + utf8_width(c),
        byte_len(Seq::empty()) == 0,
        utf8_width(c) == 1 <==> (c as u32) <= 0x7f,
        utf8_width(c) <= 2 <==> (c as u32) <= 0x7ff,
        utf8_width(c) <= 3 <==> (c as u32) <= 0xffff,
        1 <= utf8_width(c) <= 4,
{
    assert(s.push(c).drop_last() =~= s);
}

/// The first 13 bytes of a reading name its hour, where a character ends there,
/// and else the whole reading does.
pub proof fn law_hour_key(head: Seq<char>, tail: Seq<char>)
    ensures
        byte_len(head) == 13 ==> hour_key_in(head + tail) == head,
        (forall|n: int| 0 <= n <= head.len() ==> byte_len(#[trigger] head.take(n)) != 13)
            ==> hour_key_in(head) == head,
        head.len() == 13 && (forall|i: int| 0 <= i < 13 ==> (#[trigger] head[i] as u32) <= 0x7f)
            ==> hour_key_in(head + tail) == head,
{
    if byte_len(head) == 13 {
        lemma_key_of_bytes(head, tail);
    }
    if forall|n: int| 0 <= n <= head.len() ==> byte_len(#[trigger] head.take(n)) != 13 {
        lemma_no_key(head, head.len() as int);
        assert(head.take(head.len() as int) =~= head);
    }
    if head.len() == 13 && (forall|i: int| 0 <= i < 13 ==> (#[trigger] head[i] as u32) <= 0x7f) {
        lemma_ascii(head, 13);
        assert(head.take(13) =~= head);
        lemma_key_of_bytes(head, tail);
    }
}

proof fn lemma_ascii(s: Seq<char>, n: int)
    requires
        0 <= n <= s.len(),
        forall|i: int| 0 <= i < n ==> (#[trigger] s[i] as u32) <= 0x7f,
    ensures
        byte_len(s.take(n)) == n,
    decreases n,
{
    if n > 0 {
        lemma_ascii(s, n - 1);
        assert(s.take(n).drop_last() =~= s.take(n - 1));
        assert(s.take(n).last() == s[n - 1]);
    }
}

proof fn lemma_key_of_bytes(head: Seq<char>, tail: Seq<char>)
    requires
        byte_len(head) == 13,
    ensures
        byte_prefix(head + tail, 13) == Some(head),
{
    let whole = head + tail;
    let n = head.len() as int;
    assert(n > 0);
    assert(whole.take(n) =~= head);
    assert(whole.take(n - 1) =~= head.drop_last());
    lemma_byte_len_grows(head, n - 1);
    assert(head.take(n - 1) =~= head.drop_last());
    lemma_byte_prefix(whole, 13, n);
}

proof fn lemma_no_key(s: Seq<char>, n: int)
    requires
        0 <= n <= s.len(),
        forall|m: int| 0 <= m <= s.len() ==> byte_len(#[trigger] s.take(m)) != 13,
    ensures
        byte_prefix(s.take(n), 13) is None,
    decreases n,
{
    let start = s.take(n);
    assert(byte_len(start) != 13);
    if n > 0 {
        assert(start.drop_last() =~= s.take(n - 1));
        lemma_no_key(s, n - 1);
    }
}

}
