use rgctl_analysis::calendar_policy::{
    CalendarDelta, CalendarSeverity, GraceSeverity, PolicyTemporal, TemporalClass, evaluate_calendar_disposition,
    evaluate_calendar_for_deltas, iso_date_plus_days, iso_date_to_day_number, system_today_days, system_unix_secs,
    unix_secs_of_reading, unix_secs_to_utc_days,
};

#[test]
fn grace_period_warns_only() {
    let today = iso_date_to_day_number("2026-09-10").unwrap();
    let config = PolicyTemporal {
        effective_from: Some("2026-08-01".into()),
        grace_period_days: Some(60),
        severity_during_grace: GraceSeverity::Warn,
        ..Default::default()
    };
    let disposition = evaluate_calendar_disposition(TemporalClass::Existing, &config, None, today);
    assert_eq!(disposition.severity, Some(CalendarSeverity::Warn));
    assert_eq!(disposition.override_blocking, Some(false));
}

#[test]
fn post_grace_fails_existing() {
    let today = iso_date_to_day_number("2026-10-15").unwrap();
    let config = PolicyTemporal {
        effective_from: Some("2026-08-01".into()),
        grace_period_days: Some(30),
        fail_existing_after_grace: true,
        ..Default::default()
    };
    let disposition = evaluate_calendar_disposition(TemporalClass::Existing, &config, None, today);
    assert_eq!(disposition.override_blocking, Some(true));
}

#[test]
fn sla_enforcement_uses_ledger_first_seen() {
    let now_secs = 4_000_000_000u64;
    let first_seen = now_secs - (45 * 86_400);
    let age_days = (now_secs - first_seen) / 86_400;
    let config = PolicyTemporal { violation_sla_days: Some(30), enforce_sla: true, ..Default::default() };
    let disposition = evaluate_calendar_disposition(TemporalClass::Existing, &config, Some(age_days), system_today_days());
    assert_eq!(disposition.override_blocking, Some(true));
}

#[test]
fn day_numbers_of_known_dates() {
    assert_eq!(iso_date_to_day_number("1970-01-01"), Some(0));
    assert_eq!(iso_date_to_day_number("1970-01-02"), Some(1));
    assert_eq!(iso_date_to_day_number("2000-03-01"), Some(11_017));
    assert_eq!(iso_date_to_day_number("2026-08-01"), Some(20_666));
    assert_eq!(iso_date_to_day_number("+2026-08-01"), Some(20_666));
    assert_eq!(iso_date_to_day_number("2026-08"), None);
    assert_eq!(iso_date_to_day_number("2026-aa-01"), None);
    assert_eq!(iso_date_to_day_number("2026-08-01-02"), None);
    assert_eq!(iso_date_to_day_number(""), None);
}

#[test]
fn plus_days_saturates() {
    assert_eq!(iso_date_plus_days("1970-01-10", -3), Some(6));
    assert_eq!(iso_date_plus_days("1970-01-10", -30), Some(0));
    assert_eq!(iso_date_plus_days("1970-01-10", 5), Some(14));
    assert_eq!(iso_date_plus_days("nope", 5), None);
}

#[test]
fn resolved_and_empty_get_nothing() {
    let config = PolicyTemporal { enforce_sla: true, violation_sla_days: Some(1), ..Default::default() };
    let d = evaluate_calendar_disposition(TemporalClass::Resolved, &config, Some(100), 0);
    assert_eq!(d.severity, None);
    assert_eq!(d.override_blocking, None);
    let d = evaluate_calendar_disposition(TemporalClass::New, &PolicyTemporal::default(), Some(100), 0);
    assert_eq!(d.override_blocking, None);
}

#[test]
fn before_effective_date_passes() {
    let today = iso_date_to_day_number("2026-07-01").unwrap();
    let config = PolicyTemporal { effective_from: Some("2026-08-01".into()), ..Default::default() };
    let d = evaluate_calendar_disposition(TemporalClass::New, &config, None, today);
    assert_eq!(d.severity, None);
    assert_eq!(d.override_blocking, Some(false));
}

#[test]
fn grace_fail_mode_blocks() {
    let today = iso_date_to_day_number("2026-08-05").unwrap();
    let config = PolicyTemporal {
        effective_from: Some("2026-08-01".into()),
        grace_period_days: Some(10),
        severity_during_grace: GraceSeverity::Fail,
        ..Default::default()
    };
    let d = evaluate_calendar_disposition(TemporalClass::New, &config, None, today);
    assert_eq!(d.severity, Some(CalendarSeverity::Fail));
    assert_eq!(d.override_blocking, Some(true));
}

#[test]
fn sunset_warns_then_fails() {
    let config = PolicyTemporal { sunset_date: Some("2026-12-31".into()), sunset_warn_days: Some(14), ..Default::default() };
    let sunset = iso_date_to_day_number("2026-12-31").unwrap();
    let d = evaluate_calendar_disposition(TemporalClass::New, &config, None, sunset - 10);
    assert_eq!(d.severity, Some(CalendarSeverity::Warn));
    assert_eq!(d.override_blocking, Some(false));
    let d = evaluate_calendar_disposition(TemporalClass::New, &config, None, sunset);
    assert_eq!(d.severity, Some(CalendarSeverity::Fail));
    let d = evaluate_calendar_disposition(TemporalClass::New, &config, None, sunset - 30);
    assert_eq!(d.severity, None);
    assert_eq!(d.override_blocking, None);
}

#[test]
fn deltas_keyed_by_stable_key_last_wins() {
    let config = PolicyTemporal { violation_sla_days: Some(30), enforce_sla: true, ..Default::default() };
    let deltas = vec![
        CalendarDelta { key: 7, classification: TemporalClass::Existing, ledger_age_days: Some(40) },
        CalendarDelta { key: 8, classification: TemporalClass::Existing, ledger_age_days: Some(10) },
        CalendarDelta { key: 7, classification: TemporalClass::Resolved, ledger_age_days: Some(40) },
    ];
    let m = evaluate_calendar_for_deltas(&deltas, &config, 0);
    assert_eq!(m.len(), 2);
    assert_eq!(m[&7].override_blocking, None);
    assert_eq!(m[&8].override_blocking, None);
    let m = evaluate_calendar_for_deltas(&deltas[..1], &config, 0);
    assert_eq!(m[&7].override_blocking, Some(true));
}

#[test]
fn severity_labels() {
    assert_eq!(CalendarSeverity::Warn.as_str(), "warn");
    assert_eq!(CalendarSeverity::Fail.as_str(), "fail");
}

#[test]
fn clock_reads_are_consistent() {
    let secs = system_unix_secs();
    let days = system_today_days();
    assert!(days <= secs / 86_400 + 1);
}

#[test]
fn clock_readings_convert() {
    assert_eq!(unix_secs_of_reading(Some(1_700_000_000)), 1_700_000_000);
    assert_eq!(unix_secs_of_reading(None), 0);
    assert_eq!(unix_secs_to_utc_days(86_399), 0);
    assert_eq!(unix_secs_to_utc_days(86_400), 1);
    assert_eq!(unix_secs_to_utc_days(1_700_000_000), 19_675);
    assert!(system_unix_secs() > 1_600_000_000);
}

#[test]
fn impossible_and_pre_epoch_dates_are_refused() {
    assert_eq!(iso_date_to_day_number("1969-12-31"), None);
    assert_eq!(iso_date_to_day_number("2026-03-00"), None);
    assert_eq!(iso_date_to_day_number("2026-13-40"), None);
    assert_eq!(iso_date_to_day_number("2023-02-29"), None);
    assert_eq!(iso_date_to_day_number("2024-02-29"), Some(19_782));
    assert_eq!(iso_date_to_day_number("2026-04-31"), None);
    assert_eq!(iso_date_to_day_number("1234567890123456789-01-01"), None);
    assert_eq!(iso_date_plus_days("2026-08-01", 60), Some(20_726));
    assert_eq!(iso_date_plus_days("2026-08-01", -1), Some(20_665));
    assert_eq!(iso_date_plus_days("1970-01-01", -5), Some(0));
    assert_eq!(iso_date_plus_days("bad", 5), None);
}

#[test]
fn far_future_dates_keep_their_day_number() {
    // 1_000_000_000-01-01 and one year later: the day count grows by one common year.
    let a = iso_date_to_day_number("1000000001-01-01").unwrap();
    let b = iso_date_to_day_number("1000000002-01-01").unwrap();
    assert_eq!(b - a, 365);
    assert!(iso_date_to_day_number("25252734927766399-12-31").is_some());
    assert_eq!(iso_date_to_day_number("25252734927766400-01-01"), None);
}
