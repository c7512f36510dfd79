use trust_pipeline::assurance::{
    AlertManager, AlertSeverity, AlertStatus, AlertType, ELKDataSource, PrometheusDataSource,
    TrustThresholds,
};
use trust_pipeline::text::{
    decimal_string, parse_fixed_point, score_string, seconds_from_millis, signed_decimal_string,
};

fn thresholds() -> TrustThresholds {
    TrustThresholds { critical: 300_000, warning: 600_000, normal: 800_000 }
}

#[test]
fn critical_and_warning_alerts() {
    let mut m = AlertManager::new();
    m.check_alerts_at(&"db".to_string(), 250_000, &thresholds(), 1_700_000_000_999);
    assert_eq!(m.alerts.len(), 1);
    let a = &m.alerts[0];
    assert_eq!(a.alert_id, "db-critical-1700000000");
    assert_eq!(a.message, "Critical trust score: 0.25");
    assert_eq!(a.severity, AlertSeverity::Critical);
    assert_eq!(a.alert_type, AlertType::TrustScoreLow);
    assert_eq!(a.status, AlertStatus::Active);
    m.check_alerts_at(&"api".to_string(), 300_000, &thresholds(), 5_000);
    assert_eq!(m.alerts[1].alert_id, "api-warning-5");
    assert_eq!(m.alerts[1].message, "Warning trust score: 0.30");
    assert_eq!(m.alerts[1].severity, AlertSeverity::Medium);
    m.check_alerts_at(&"ok".to_string(), 600_000, &thresholds(), 5_000);
    assert_eq!(m.alerts.len(), 2);
}

#[test]
fn only_active_alerts_are_listed() {
    let mut m = AlertManager::new();
    m.check_alerts(&"a".to_string(), 0, &thresholds());
    m.check_alerts(&"b".to_string(), 0, &thresholds());
    m.check_alerts(&"c".to_string(), 400_000, &thresholds());
    assert!(m.alerts[0].timestamp > 1_600_000_000_000);
    m.alerts[1].status = AlertStatus::Acknowledged;
    let active = m.get_active_alerts();
    assert_eq!(active.len(), 2);
    assert_eq!(active[0].component_id, "a");
    assert_eq!(active[1].component_id, "c");
    assert_eq!(active[1].severity, AlertSeverity::Medium);
}

#[test]
fn decimal_rendering() {
    assert_eq!(decimal_string(0), "0");
    assert_eq!(decimal_string(1_234_567_890), "1234567890");
    assert_eq!(decimal_string(u64::MAX), u64::MAX.to_string());
    assert_eq!(signed_decimal_string(-42), "-42");
    assert_eq!(signed_decimal_string(i64::MIN), i64::MIN.to_string());
    assert_eq!(score_string(1_000_000), "1.00");
    assert_eq!(score_string(4_999), "0.00");
    assert_eq!(score_string(5_000), "0.01");
    assert_eq!(score_string(123_456), "0.12");
    assert_eq!(seconds_from_millis(-1), -1);
    assert_eq!(seconds_from_millis(-1000), -1);
    assert_eq!(seconds_from_millis(1999), 1);
}

#[test]
fn data_sources_report_name_and_health() {
    let p = PrometheusDataSource {
        endpoint: "http://prom".to_string(),
        query: "up".to_string(),
        name: "prometheus".to_string(),
    };
    let e = ELKDataSource {
        elasticsearch_url: "http://es".to_string(),
        index_pattern: "logs-*".to_string(),
        name: "elk".to_string(),
    };
    assert_eq!(p.get_source_name(), "prometheus");
    assert!(p.is_healthy());
    assert_eq!(e.get_source_name(), "elk");
    assert!(e.is_healthy());
}

#[test]
fn fixed_point_parsing() {
    assert_eq!(parse_fixed_point("2.0"), Some(2_000_000));
    assert_eq!(parse_fixed_point("3"), Some(3_000_000));
    assert_eq!(parse_fixed_point("0.25"), Some(250_000));
    assert_eq!(parse_fixed_point("1.1234567"), Some(1_123_456));
    assert_eq!(parse_fixed_point("7."), Some(7_000_000));
    assert_eq!(parse_fixed_point(""), None);
    assert_eq!(parse_fixed_point(".5"), None);
    assert_eq!(parse_fixed_point("1.2.3"), None);
    assert_eq!(parse_fixed_point("abc"), None);
    assert_eq!(parse_fixed_point("-1"), None);
    assert_eq!(parse_fixed_point("18446744073709"), Some(18_446_744_073_709_000_000));
    assert_eq!(parse_fixed_point("18446744073710"), None);
    assert_eq!(parse_fixed_point("99999999999999999999999"), None);
}
