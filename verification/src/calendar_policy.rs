//! Calendar-aware policy evaluation (grace periods, SLAs, sunset dates).

use vstd::prelude::*;
use std::collections::HashMap;
use crate::text::{chars_of, parse_i64_text, parse_u32_text, signed_text, split_by, split_chars, unsigned_text, views};

verus! {

broadcast use vstd::std_specs::hash::group_hash_axioms;

/// Grace-window severity for calendar evaluation.
#[derive(Debug, Clone, Copy, PartialEq, Eq, Structural)]
pub enum GraceSeverity {
    /// Violations warn (non-blocking unless strict calendar checking is asked for).
    Warn,
    /// Violations fail during grace.
    Fail,
}

impl Default for GraceSeverity {
    fn default() -> (r: Self)
        ensures
            r == GraceSeverity::Warn,
    {
        GraceSeverity::Warn
    }
}

/// Calendar severity surfaced on violations.
#[derive(Debug, Clone, Copy, PartialEq, Eq, Structural)]
pub enum CalendarSeverity {
    /// Non-blocking unless strict calendar checking is asked for.
    Warn,
    /// Blocking failure.
    Fail,
}

impl CalendarSeverity {
    /// JSON / CLI string label.
    pub fn as_str(self) -> (r: &'static str)
        ensures
            r@ == (match self {
                CalendarSeverity::Warn => seq!['w', 'a', 'r', 'n'],
                CalendarSeverity::Fail => seq!['f', 'a', 'i', 'l'],
            }),
    {
        match self {
            CalendarSeverity::Warn => {
                proof {
                    reveal_strlit("warn");
                }
                "warn"
            },
            CalendarSeverity::Fail => {
                proof {
                    reveal_strlit("fail");
                }
                "fail"
            },
        }
    }
}

/// Per-violation calendar outcome.
#[derive(Debug, Clone, Copy, PartialEq, Eq, Structural)]
pub struct CalendarDisposition {
    /// Optional warn/fail label for JSON output.
    pub severity: Option<CalendarSeverity>,
    /// When set, overrides base temporal blocking (`true` = fail, `false` = pass).
    pub override_blocking: Option<bool>,
}

impl Default for CalendarDisposition {
    fn default() -> (r: Self)
        ensures
            r == no_disposition(),
    {
        CalendarDisposition { severity: None, override_blocking: None }
    }
}

/// The disposition that changes nothing.
pub open spec fn no_disposition() -> CalendarDisposition {
    CalendarDisposition { severity: None, override_blocking: None }
}

/// A disposition with the given severity and blocking override.
pub open spec fn disp(severity: Option<CalendarSeverity>, blocking: Option<bool>) -> CalendarDisposition {
    CalendarDisposition { severity: severity, override_blocking: blocking }
}

/// Calendar policy configuration from the policy file `temporal` section.
#[derive(Debug, Clone)]
pub struct PolicyTemporal {
    /// ISO date (`YYYY-MM-DD`) when the policy becomes effective.
    pub effective_from: Option<String>,
    /// Days after `effective_from` where violations may warn instead of fail.
    pub grace_period_days: Option<u32>,
    /// Fail `existing` violations older than this many days when `enforce_sla` is set.
    pub violation_sla_days: Option<u32>,
    /// ISO date when the rule sunsets (escalates to fail after this date).
    pub sunset_date: Option<String>,
    /// Days before `sunset_date` to emit `warn` severity.
    pub sunset_warn_days: Option<u32>,
    /// Behavior for violations during the grace window.
    pub severity_during_grace: GraceSeverity,
    /// After grace, treat `existing` violations as blocking.
    pub fail_existing_after_grace: bool,
    /// Enforce `violation_sla_days` using the ledger's first-seen time.
    pub enforce_sla: bool,
}

impl Default for PolicyTemporal {
    fn default() -> (r: Self)
        ensures
            r.effective_from is None,
            r.grace_period_days is None,
            r.violation_sla_days is None,
            r.sunset_date is None,
            r.sunset_warn_days is None,
            r.severity_during_grace == GraceSeverity::Warn,
            !r.fail_existing_after_grace,
            !r.enforce_sla,
    {
        PolicyTemporal {
            effective_from: None,
            grace_period_days: None,
            violation_sla_days: None,
            sunset_date: None,
            sunset_warn_days: None,
            severity_during_grace: GraceSeverity::Warn,
            fail_existing_after_grace: false,
            enforce_sla: false,
        }
    }
}

/// How a violation relates to the baseline.
#[derive(Debug, Clone, Copy, PartialEq, Eq, Structural)]
pub enum TemporalClass {
    /// Introduced since the baseline.
    New,
    /// Present in the baseline too.
    Existing,
    /// Present in the baseline, gone now.
    Resolved,
}

/// One temporal policy delta, with what the violation ledger reports for it.
#[derive(Debug, Clone, Copy, PartialEq, Eq, Structural)]
pub struct CalendarDelta {
    /// Stable key of the violating symbol.
    pub key: u64,
    /// Classification against the baseline.
    pub classification: TemporalClass,
    /// Days since the ledger first saw this violation, when it has seen it.
    pub ledger_age_days: Option<u64>,
}

/// Rust's division of `a` by positive `b` (rounds toward zero).
pub open spec fn tdiv(a: int, b: int) -> int {
    if a >= 0 {
        a / b
    } else {
        -((-a) / b)
    }
}

/// The shifted year of a civil date (January and February count with the year before).
pub open spec fn civil_y(year: int, month: int) -> int {
    if month <= 2 { year - 1 } else { year }
}

/// 400-year era of the shifted year.
pub open spec fn civil_era(year: int, month: int) -> int {
    let y = civil_y(year, month);
    if y >= 0 { tdiv(y, 400) } else { tdiv(y - 399, 400) }
}

/// Month counted from March.
pub open spec fn civil_mp(month: int) -> int {
    if month > 2 { month - 3 } else { month + 9 }
}

/// Day of the shifted year.
pub open spec fn civil_doy(month: int, day: int) -> int {
    (153 * civil_mp(month) + 2) / 5 + day - 1
}

/// Day of the era.
pub open spec fn civil_doe(year: int, month: int, day: int) -> int {
    let yoe = civil_y(year, month) - civil_era(year, month) * 400;
    yoe * 365 + yoe / 4 - yoe / 100 + civil_doy(month, day)
}

/// Days since 1970-01-01 of a proleptic Gregorian date.
pub open spec fn civil_day(year: int, month: int, day: int) -> int {
    civil_era(year, month) * 146_097 + civil_doe(year, month, day) - 719_468
}

/// `year` is a Gregorian leap year.
pub open spec fn is_leap(year: int) -> bool {
    year % 4 == 0 && (year % 100 != 0 || year % 400 == 0)
}

/// Days in `month` of `year`.
pub open spec fn days_in_month(year: int, month: int) -> int {
    if month == 2 {
        if is_leap(year) { 29 } else { 28 }
    } else if month == 4 || month == 6 || month == 9 || month == 11 {
        30
    } else {
        31
    }
}

/// Largest year whose day number is computed: the last year of the last 400-year era
/// whose day numbers fit an `i64`.
pub const MAX_ISO_YEAR: i64 = 25_252_734_927_766_399;

/// A calendar date from 1970 through [`MAX_ISO_YEAR`]: month 1 to 12, day within its month.
pub open spec fn valid_date(year: int, month: int, day: int) -> bool {
    &&& 1970 <= year <= MAX_ISO_YEAR
    &&& 1 <= month <= 12
    &&& 1 <= day <= days_in_month(year, month)
}

proof fn lemma_civil_bounds(year: int, month: int, day: int)
    requires
        valid_date(year, month, day),
    ensures
        4 <= civil_era(year, month) <= 63_131_837_319_415,
        0 <= civil_y(year, month) - civil_era(year, month) * 400 <= 399,
        0 <= civil_doe(year, month, day) <= 146_096 + 400,
{
    let y = civil_y(year, month);
    assert(y >= 1969);
    assert(tdiv(y, 400) == y / 400);
    assert(4 <= y / 400 <= 63_131_837_319_415) by (nonlinear_arith)
        requires
            1969 <= y <= 25_252_734_927_766_399,
    ;
    assert(0 <= y - (y / 400) * 400 <= 399) by (nonlinear_arith)
        requires
            y >= 0,
    ;
    let yoe = y - civil_era(year, month) * 400;
    assert(0 <= yoe * 365 + yoe / 4 - yoe / 100 <= 399 * 365 + 99) by (nonlinear_arith)
        requires
            0 <= yoe <= 399,
    ;
    assert(0 <= civil_doy(month, day) <= 365);
}

/// Days since the Unix epoch of a valid date.
fn civil_date_to_day_number(year: i64, month: u32, day: u32) -> (r: i64)
    requires
        valid_date(year as int, month as int, day as int),
    ensures
        r == civil_day(year as int, month as int, day as int),
{
    proof {
        lemma_civil_bounds(year as int, month as int, day as int);
    }
    let y: i64 = if month <= 2 { year - 1 } else { year };
    let era: i64 = y / 400;
    let yoe: i64 = y - era * 400;
    let mp: u32 = if month > 2 { month - 3 } else { month + 9 };
    let doy: u32 = (153 * mp + 2) / 5 + day - 1;
    let doe: i64 = yoe * 365 + yoe / 4 - yoe / 100 + doy as i64;
    era * 146_097 + doe - 719_468
}

fn leap_year(year: i64) -> (r: bool)
    ensures
        r == is_leap(year as int),
{
    year % 4 == 0 && (year % 100 != 0 || year % 400 == 0)
}

fn month_days(year: i64, month: u32) -> (r: u32)
    ensures
        r == days_in_month(year as int, month as int),
{
    if month == 2 {
        if leap_year(year) { 29 } else { 28 }
    } else if month == 4 || month == 6 || month == 9 || month == 11 {
        30
    } else {
        31
    }
}

/// The three `-`-separated fields of an ISO date, parsed as year, month and day.
pub open spec fn iso_parts(s: Seq<char>) -> Option<(int, int, int)> {
    let parts = split_by(s, seq!['-']);
    if parts.len() != 3 {
        None
    } else {
        match (signed_text(parts[0]), unsigned_text(parts[1]), unsigned_text(parts[2])) {
            (Some(y), Some(m), Some(d)) => if i64::MIN <= y <= i64::MAX && m <= u32::MAX && d <= u32::MAX {
                Some((y, m, d))
            } else {
                None
            },
            _ => None,
        }
    }
}

/// Day number of an ISO date: `Some` exactly for a valid calendar date on or after
/// 1970-01-01 (day 0).
pub open spec fn iso_day(s: Seq<char>) -> Option<u64> {
    match iso_parts(s) {
        Some((y, m, d)) => if valid_date(y, m, d) && civil_day(y, m, d) >= 0 {
            Some(civil_day(y, m, d) as u64)
        } else {
            None
        },
        None => None,
    }
}

/// Parse `YYYY-MM-DD` to days since Unix epoch (UTC); `None` for text that is not a
/// calendar date, or a date before the epoch or after [`MAX_ISO_YEAR`].
pub fn iso_date_to_day_number(iso: &str) -> (r: Option<u64>)
    ensures
        r == iso_day(iso@),
{
    let s = chars_of(iso);
    let seps = vec!['-'];
    proof {
        assert(seps@ =~= seq!['-']);
    }
    let parts = split_chars(s.as_slice(), seps.as_slice());
    let ghost ps = split_by(iso@, seq!['-']);
    proof {
        assert(views(parts@) == ps);
    }
    if parts.len() != 3 {
        return None;
    }
    proof {
        assert(ps[0] == parts@[0]@);
        assert(ps[1] == parts@[1]@);
        assert(ps[2] == parts@[2]@);
    }
    let year = match parse_i64_text(parts[0].as_slice()) {
        Some(v) => v,
        None => return None,
    };
    let month = match parse_u32_text(parts[1].as_slice()) {
        Some(v) => v,
        None => return None,
    };
    let day = match parse_u32_text(parts[2].as_slice()) {
        Some(v) => v,
        None => return None,
    };
    proof {
        assert(signed_text(ps[0]) == Some(year as int));
        assert(unsigned_text(ps[1]) == Some(month as int));
        assert(unsigned_text(ps[2]) == Some(day as int));
        assert(iso_parts(iso@) == Some((year as int, month as int, day as int)));
    }
    if year < 1970 || year > MAX_ISO_YEAR || month < 1 || month > 12 || day < 1 || day > month_days(year, month) {
        return None;
    }
    let days = civil_date_to_day_number(year, month, day);
    if days < 0 {
        return None;
    }
    Some(days as u64)
}

/// `base + delta` for `delta >= 0`, `base - |delta|` otherwise, saturating at the ends
/// of `u64`.
pub open spec fn shift_days(base: u64, delta: i64) -> u64 {
    if delta >= 0 {
        if base + delta <= u64::MAX { (base + delta) as u64 } else { u64::MAX }
    } else {
        if base + delta >= 0 { (base + delta) as u64 } else { 0 }
    }
}

/// Days since epoch for an ISO date offset by `delta_days`.
pub fn iso_date_plus_days(iso: &str, delta_days: i64) -> (r: Option<u64>)
    requires
        iso_day(iso@) is Some ==> delta_days > i64::MIN,
    ensures
        r == (match iso_day(iso@) {
            Some(base) => Some(shift_days(base, delta_days)),
            None => None::<u64>,
        }),
{
    match iso_date_to_day_number(iso) {
        Some(base) => {
            if delta_days >= 0 {
                Some(base.saturating_add(delta_days as u64))
            } else {
                Some(base.saturating_sub((-delta_days) as u64))
            }
        },
        None => None,
    }
}

/// Whole UTC days in `secs` seconds since the epoch.
pub fn unix_secs_to_utc_days(secs: u64) -> (r: u64)
    ensures
        r == secs / 86_400,
{
    secs / 86_400
}

/// Seconds since the Unix epoch by the system clock (std `SystemTime::now` and
/// `duration_since(UNIX_EPOCH)`); `None` when the clock reads before the epoch. What
/// the clock reads is not stated.
#[verifier::external_body]
fn clock_secs_since_epoch() -> (r: Option<u64>) {
    match std::time::SystemTime::now().duration_since(std::time::UNIX_EPOCH) {
        Ok(d) => Some(d.as_secs()),
        Err(_) => None,
    }
}

/// Seconds since the epoch for a clock reading: the reading, or 0 for a clock that reads
/// before the epoch.
pub fn unix_secs_of_reading(reading: Option<u64>) -> (r: u64)
    ensures
        r == (match reading {
            Some(s) => s,
            None => 0u64,
        }),
{
    match reading {
        Some(s) => s,
        None => 0,
    }
}

/// Current Unix timestamp in seconds (0 when the clock reads before the epoch). The clock's
/// reading depends on the time of the call, so no clause states it; what is done with the
/// reading is [`unix_secs_of_reading`].
pub fn system_unix_secs() -> (r: u64) {
    let reading = clock_secs_since_epoch();
    unix_secs_of_reading(reading)
}

/// UTC day number for the current system time (days since Unix epoch): the whole days
/// ([`unix_secs_to_utc_days`]) in a reading of the clock, which no clause can state.
pub fn system_today_days() -> (r: u64)
    ensures
        r <= u64::MAX / 86_400,
{
    unix_secs_to_utc_days(system_unix_secs())
}

/// The day number of an optional configured date.
pub open spec fn opt_day(s: Option<String>) -> Option<u64> {
    match s {
        Some(t) => iso_day(t@),
        None => None,
    }
}

impl PolicyTemporal {
    /// Nothing calendar-related is configured.
    pub open spec fn empty_spec(&self) -> bool {
        &&& self.effective_from is None
        &&& self.grace_period_days is None
        &&& self.violation_sla_days is None
        &&& self.sunset_date is None
        &&& !self.fail_existing_after_grace
        &&& !self.enforce_sla
    }

    /// Nothing calendar-related is configured.
    pub fn is_empty(&self) -> (r: bool)
        ensures
            r == self.empty_spec(),
    {
        self.effective_from.is_none() && self.grace_period_days.is_none() && self.violation_sla_days.is_none()
            && self.sunset_date.is_none() && !self.fail_existing_after_grace && !self.enforce_sla
    }
}

/// What the effective date and grace window decide, if they decide.
pub open spec fn effective_step(class: TemporalClass, c: PolicyTemporal, today: u64) -> Option<CalendarDisposition> {
    match opt_day(c.effective_from) {
        Some(eff) => if today < eff {
            Some(disp(None, Some(false)))
        } else {
            match c.grace_period_days {
                Some(g) => {
                    let grace_end = if eff + g <= u64::MAX { eff + g } else { u64::MAX as int };
                    if today < grace_end {
                        Some(disp(
                            Some(if c.severity_during_grace == GraceSeverity::Warn { CalendarSeverity::Warn } else { CalendarSeverity::Fail }),
                            Some(c.severity_during_grace == GraceSeverity::Fail),
                        ))
                    } else if c.fail_existing_after_grace && class == TemporalClass::Existing {
                        Some(disp(Some(CalendarSeverity::Fail), Some(true)))
                    } else {
                        None
                    }
                },
                None => None,
            }
        },
        None => None,
    }
}

/// The service-level rule fails a violation the ledger has known for longer than allowed.
pub open spec fn sla_step(c: PolicyTemporal, age: Option<u64>) -> Option<CalendarDisposition> {
    if c.enforce_sla {
        match (c.violation_sla_days, age) {
            (Some(sla), Some(a)) => if a > sla { Some(disp(Some(CalendarSeverity::Fail), Some(true))) } else { None },
            _ => None,
        }
    } else {
        None
    }
}

/// What the sunset date decides, if it decides.
pub open spec fn sunset_step(c: PolicyTemporal, today: u64) -> Option<CalendarDisposition> {
    match opt_day(c.sunset_date) {
        Some(s) => if today >= s {
            Some(disp(Some(CalendarSeverity::Fail), Some(true)))
        } else {
            match c.sunset_warn_days {
                Some(w) => if s - today <= w { Some(disp(Some(CalendarSeverity::Warn), Some(false))) } else { None },
                None => None,
            }
        },
        None => None,
    }
}

/// Calendar outcome for one violation: resolved violations and unconfigured policies get
/// nothing; otherwise the effective date and grace window, then the service level, then
/// the sunset date decide, in that order.
pub open spec fn calendar_disposition(class: TemporalClass, c: PolicyTemporal, age: Option<u64>, today: u64) -> CalendarDisposition {
    if class == TemporalClass::Resolved || c.empty_spec() {
        no_disposition()
    } else {
        match effective_step(class, c, today) {
            Some(d) => d,
            None => match sla_step(c, age) {
                Some(d) => d,
                None => match sunset_step(c, today) {
                    Some(d) => d,
                    None => no_disposition(),
                },
            },
        }
    }
}

fn opt_date_day(s: &Option<String>) -> (r: Option<u64>)
    ensures
        r == opt_day(*s),
{
    match s {
        Some(t) => iso_date_to_day_number(t.as_str()),
        None => None,
    }
}

/// Evaluate calendar disposition for one temporal delta; `ledger_age_days` is how long
/// the violation ledger has known the violation.
pub fn evaluate_calendar_disposition(
    classification: TemporalClass,
    config: &PolicyTemporal,
    ledger_age_days: Option<u64>,
    today_days: u64,
) -> (r: CalendarDisposition)
    ensures
        r == calendar_disposition(classification, *config, ledger_age_days, today_days),
{
    if classification == TemporalClass::Resolved {
        return CalendarDisposition::default();
    }
    if config.is_empty() {
        return CalendarDisposition::default();
    }
    if let Some(effective) = opt_date_day(&config.effective_from) {
        if today_days < effective {
            return CalendarDisposition { severity: None, override_blocking: Some(false) };
        }
        if let Some(grace_days) = config.grace_period_days {
            let grace_end = effective.saturating_add(grace_days as u64);
            if today_days < grace_end {
                let severity = match config.severity_during_grace {
                    GraceSeverity::Warn => CalendarSeverity::Warn,
                    GraceSeverity::Fail => CalendarSeverity::Fail,
                };
                return CalendarDisposition {
                    severity: Some(severity),
                    override_blocking: Some(config.severity_during_grace == GraceSeverity::Fail),
                };
            }
            if config.fail_existing_after_grace && classification == TemporalClass::Existing {
                return CalendarDisposition { severity: Some(CalendarSeverity::Fail), override_blocking: Some(true) };
            }
        }
    }
    if config.enforce_sla {
        if let Some(sla_days) = config.violation_sla_days {
            if let Some(age_days) = ledger_age_days {
                if age_days > sla_days as u64 {
                    return CalendarDisposition { severity: Some(CalendarSeverity::Fail), override_blocking: Some(true) };
                }
            }
        }
    }
    if let Some(sunset) = opt_date_day(&config.sunset_date) {
        if today_days >= sunset {
            return CalendarDisposition { severity: Some(CalendarSeverity::Fail), override_blocking: Some(true) };
        }
        if let Some(warn_days) = config.sunset_warn_days {
            let days_until = sunset.saturating_sub(today_days);
            if days_until <= warn_days as u64 {
                return CalendarDisposition { severity: Some(CalendarSeverity::Warn), override_blocking: Some(false) };
            }
        }
    }
    CalendarDisposition::default()
}

/// Dispositions keyed by stable key; a later delta with the same key replaces an earlier
/// one.
pub open spec fn dispositions(deltas: Seq<CalendarDelta>, c: PolicyTemporal, today: u64) -> Map<u64, CalendarDisposition>
    decreases deltas.len(),
{
    if deltas.len() == 0 {
        Map::empty()
    } else {
        let d = deltas.last();
        dispositions(deltas.drop_last(), c, today).insert(d.key, calendar_disposition(d.classification, c, d.ledger_age_days, today))
    }
}

/// The map holds one entry per key that some delta carries, and the entry of a key is the
/// disposition of the last delta carrying it.
pub proof fn lemma_dispositions_last_wins(deltas: Seq<CalendarDelta>, c: PolicyTemporal, today: u64, k: u64, i: int)
    ensures
        dispositions(deltas, c, today).dom().contains(k) <==> exists|j: int| 0 <= j < deltas.len() && #[trigger] deltas[j].key == k,
        0 <= i < deltas.len() && deltas[i].key == k && (forall|j: int| i < j < deltas.len() ==> #[trigger] deltas[j].key != k)
            ==> dispositions(deltas, c, today)[k] == calendar_disposition(deltas[i].classification, c, deltas[i].ledger_age_days, today),
    decreases deltas.len(),
{
    if deltas.len() > 0 {
        let init = deltas.drop_last();
        lemma_dispositions_last_wins(init, c, today, k, i);
        if exists|j: int| 0 <= j < init.len() && #[trigger] init[j].key == k {
            let j = choose|j: int| 0 <= j < init.len() && #[trigger] init[j].key == k;
            assert(deltas[j].key == k);
        }
        if exists|j: int| 0 <= j < deltas.len() && #[trigger] deltas[j].key == k {
            let j = choose|j: int| 0 <= j < deltas.len() && #[trigger] deltas[j].key == k;
            if j < init.len() {
                assert(init[j].key == k);
            }
        }
        if 0 <= i < deltas.len() && deltas[i].key == k && (forall|j: int| i < j < deltas.len() ==> #[trigger] deltas[j].key != k) {
            if i < init.len() {
                assert(deltas[deltas.len() - 1].key != k);
                assert forall|j: int| i < j < init.len() implies #[trigger] init[j].key != k by {
                    assert(deltas[j].key != k);
                }
                assert(init[i] == deltas[i]);
            }
        }
    }
}

/// Evaluate calendar rules for all policy deltas.
pub fn evaluate_calendar_for_deltas(deltas: &[CalendarDelta], config: &PolicyTemporal, today_days: u64) -> (r: HashMap<u64, CalendarDisposition>)
    ensures
        r@ == dispositions(deltas@, *config, today_days),
{
    let mut r: HashMap<u64, CalendarDisposition> = HashMap::new();
    let mut i: usize = 0;
    while i < deltas.len()
        invariant
            i <= deltas@.len(),
            r@ == dispositions(deltas@.take(i as int), *config, today_days),
        decreases deltas.len() - i,
    {
        let d = deltas[i];
        let disposition = evaluate_calendar_disposition(d.classification, config, d.ledger_age_days, today_days);
        r.insert(d.key, disposition);
        proof {
            assert(deltas@.take(i as int + 1).drop_last() =~= deltas@.take(i as int));
            assert(deltas@.take(i as int + 1).last() == d);
        }
        i = i + 1;
    }
    proof {
        assert(deltas@.take(i as int) =~= deltas@);
    }
    r
}


/// The calendar date after `(year, month, day)`.
pub open spec fn next_date(year: int, month: int, day: int) -> (int, int, int) {
    if day < days_in_month(year, month) {
        (year, month, day + 1)
    } else if month < 12 {
        (year, month + 1, 1)
    } else {
        (year + 1, 1, 1)
    }
}

/// Days from March 1 of era 0 to March 1 of the year counted from March `y`.
spec fn march_start(y: int) -> int {
    let era = y / 400;
    let yoe = y - era * 400;
    era * 146_097 + yoe * 365 + yoe / 4 - yoe / 100
}

proof fn lemma_civil_day_split(year: int, month: int, day: int)
    requires
        civil_y(year, month) >= 0,
    ensures
        civil_day(year, month, day) == march_start(civil_y(year, month)) + civil_doy(month, day) - 719_468,
{
    let y = civil_y(year, month);
    assert(tdiv(y, 400) == y / 400);
}

/// A year counted from March has 366 days when the following calendar year is a leap year,
/// else 365.
proof fn lemma_march_year_length(y: int)
    requires
        y >= 0,
    ensures
        march_start(y + 1) == march_start(y) + 365 + (if is_leap(y + 1) { 1int } else { 0int }),
{
    let q = y / 400;
    let r = y % 400;
    assert(y == 400 * q + r && 0 <= r < 400) by (nonlinear_arith)
        requires
            y >= 0,
            q == y / 400,
            r == y % 400,
    ;
    if r < 399 {
        assert((y + 1) / 400 == q && (y + 1) - ((y + 1) / 400) * 400 == r + 1) by (nonlinear_arith)
            requires
                y == 400 * q + r,
                0 <= r < 399,
        ;
        assert(y / 400 == q && y - (y / 400) * 400 == r) by (nonlinear_arith)
            requires
                y == 400 * q + r,
                0 <= r < 399,
        ;
        assert((y + 1) % 4 == (r + 1) % 4 && (y + 1) % 100 == (r + 1) % 100 && (y + 1) % 400 == r + 1) by (
        nonlinear_arith)
            requires
                y == 400 * q + r,
                0 <= r < 399,
        ;
        assert((r + 1) / 4 - r / 4 == (if (r + 1) % 4 == 0 { 1int } else { 0int }));
        assert((r + 1) / 100 - r / 100 == (if (r + 1) % 100 == 0 { 1int } else { 0int }));
        assert((r + 1) % 100 == 0 ==> (r + 1) % 4 == 0);
    } else {
        assert((y + 1) / 400 == q + 1 && (y + 1) - ((y + 1) / 400) * 400 == 0) by (nonlinear_arith)
            requires
                y == 400 * q + r,
                r == 399,
        ;
        assert(y / 400 == q && y - (y / 400) * 400 == 399) by (nonlinear_arith)
            requires
                y == 400 * q + r,
                r == 399,
        ;
        assert((y + 1) % 400 == 0 && (y + 1) % 4 == 0) by (nonlinear_arith)
            requires
                y == 400 * q + r,
                r == 399,
        ;
    }
}

/// Consecutive calendar dates get consecutive day numbers.
pub proof fn lemma_next_date_is_next_day(year: int, month: int, day: int)
    requires
        valid_date(year, month, day),
        valid_date(next_date(year, month, day).0, next_date(year, month, day).1, next_date(year, month, day).2),
    ensures
        civil_day(next_date(year, month, day).0, next_date(year, month, day).1, next_date(year, month, day).2)
            == civil_day(year, month, day) + 1,
{
    let (ny, nm, nd) = next_date(year, month, day);
    lemma_civil_day_split(year, month, day);
    lemma_civil_day_split(ny, nm, nd);
    if day < days_in_month(year, month) {
    } else if month == 2 {
        lemma_march_year_length(year - 1);
    } else {
        assert(civil_y(ny, nm) == civil_y(year, month));
    }
}

/// Day numbers count from 1970-01-01.
pub proof fn lemma_epoch_is_day_zero()
    ensures
        civil_day(1970, 1, 1) == 0,
{
    lemma_civil_day_split(1970, 1, 1);
    assert(1969int / 400 == 4);
    assert(369int / 4 == 92 && 369int / 100 == 3);
    assert(march_start(1969) == 719_162);
}

/// ISO dates of consecutive calendar days read as consecutive day numbers, starting from
/// day 0 at 1970-01-01.
pub proof fn lemma_iso_next_day(s: Seq<char>, t: Seq<char>)
    requires
        iso_day(s) is Some,
        iso_parts(s) matches Some((y, m, d)) && iso_parts(t) == Some(next_date(y, m, d)),
        iso_parts(t) matches Some((y2, m2, d2)) && valid_date(y2, m2, d2),
    ensures
        iso_day(t) == Some((iso_day(s)->0 + 1) as u64),
{
    let (y, m, d) = iso_parts(s)->0;
    lemma_next_date_is_next_day(y, m, d);
    lemma_civil_bounds(next_date(y, m, d).0, next_date(y, m, d).1, next_date(y, m, d).2);
}

/// A violation that is not `existing` is untouched by the fail-existing-after-grace rule:
/// switching that rule on or off never changes its disposition.
pub proof fn lemma_fail_existing_only_touches_existing(
    class: TemporalClass,
    c: PolicyTemporal,
    c2: PolicyTemporal,
    age: Option<u64>,
    today: u64,
)
    requires
        class != TemporalClass::Existing,
        c2.effective_from == c.effective_from,
        c2.grace_period_days == c.grace_period_days,
        c2.violation_sla_days == c.violation_sla_days,
        c2.sunset_date == c.sunset_date,
        c2.sunset_warn_days == c.sunset_warn_days,
        c2.severity_during_grace == c.severity_during_grace,
        c2.enforce_sla == c.enforce_sla,
    ensures
        calendar_disposition(class, c, age, today) == calendar_disposition(class, c2, age, today),
{
}

/// After the grace window, a new violation with no service level and no sunset configured
/// gets no disposition, whatever the fail-existing rule says.
pub proof fn lemma_new_after_grace_undecided(c: PolicyTemporal, age: Option<u64>, today: u64)
    requires
        opt_day(c.effective_from) matches Some(eff) && c.grace_period_days matches Some(g) && today >= eff + g,
        !c.enforce_sla,
        c.sunset_date is None,
    ensures
        calendar_disposition(TemporalClass::New, c, age, today) == no_disposition(),
{
}


/// Resolved violations never get a disposition.
pub proof fn lemma_resolved_undisposed(c: PolicyTemporal, age: Option<u64>, today: u64)
    ensures
        calendar_disposition(TemporalClass::Resolved, c, age, today) == no_disposition(),
{
}

/// Before the effective date a live violation passes, without severity, whatever the
/// other rules say.
pub proof fn lemma_before_effective_passes(class: TemporalClass, c: PolicyTemporal, age: Option<u64>, today: u64)
    requires
        class != TemporalClass::Resolved,
        opt_day(c.effective_from) matches Some(eff) && today < eff,
    ensures
        calendar_disposition(class, c, age, today) == disp(None, Some(false)),
{
}

/// Inside the grace window a live violation gets the grace severity, and blocks exactly
/// when that severity is `fail`, whatever the other rules say.
pub proof fn lemma_grace_window_severity(class: TemporalClass, c: PolicyTemporal, age: Option<u64>, today: u64)
    requires
        class != TemporalClass::Resolved,
        opt_day(c.effective_from) matches Some(eff) && c.grace_period_days matches Some(g) && eff <= today < eff + g,
    ensures
        calendar_disposition(class, c, age, today).override_blocking == Some(
            c.severity_during_grace == GraceSeverity::Fail,
        ),
        calendar_disposition(class, c, age, today).severity == Some(
            if c.severity_during_grace == GraceSeverity::Fail {
                CalendarSeverity::Fail
            } else {
                CalendarSeverity::Warn
            },
        ),
{
}

/// After the grace window, with the fail-existing rule on, an existing violation fails.
pub proof fn lemma_existing_fails_after_grace(c: PolicyTemporal, age: Option<u64>, today: u64)
    requires
        opt_day(c.effective_from) matches Some(eff) && c.grace_period_days matches Some(g) && today >= eff + g,
        c.fail_existing_after_grace,
    ensures
        calendar_disposition(TemporalClass::Existing, c, age, today) == disp(Some(CalendarSeverity::Fail), Some(true)),
{
}

/// Without an effective date, a live violation older than the enforced service level
/// fails.
pub proof fn lemma_sla_breach_fails(class: TemporalClass, c: PolicyTemporal, age: u64, today: u64)
    requires
        class != TemporalClass::Resolved,
        c.effective_from is None,
        c.enforce_sla,
        c.violation_sla_days matches Some(sla) && age > sla,
    ensures
        calendar_disposition(class, c, Some(age), today) == disp(Some(CalendarSeverity::Fail), Some(true)),
{
}

/// Without an effective date or an enforced service level, a live violation fails from
/// the sunset date on, and warns without blocking within the warning days before it.
pub proof fn lemma_sunset(class: TemporalClass, c: PolicyTemporal, age: Option<u64>, today: u64)
    requires
        class != TemporalClass::Resolved,
        c.effective_from is None,
        !c.enforce_sla,
        opt_day(c.sunset_date) is Some,
    ensures
        today >= opt_day(c.sunset_date)->0 ==> calendar_disposition(class, c, age, today) == disp(
            Some(CalendarSeverity::Fail),
            Some(true),
        ),
        today < opt_day(c.sunset_date)->0 && (c.sunset_warn_days matches Some(w) && opt_day(c.sunset_date)->0 - today
            <= w) ==> calendar_disposition(class, c, age, today) == disp(Some(CalendarSeverity::Warn), Some(false)),
        today < opt_day(c.sunset_date)->0 && c.sunset_warn_days is None ==> calendar_disposition(class, c, age, today)
            == no_disposition(),
{
}

} // verus!
