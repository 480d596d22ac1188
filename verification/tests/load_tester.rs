use rs_practice::load_tester::{latency_report, p90_index, RequestResult, Summary};

#[test]
fn record_counts_outcomes_and_caps_error_samples() {
    let mut summary: Summary<f64> = Summary::new();
    for i in 0..8 {
        summary.record(RequestResult {
            success: i % 2 == 0,
            latency_ms: i as f64,
            status_code: if i < 6 { Some(200) } else { None },
            error: if i % 2 == 1 { None } else { Some(format!("e{i}")) },
        });
    }
    for _ in 0..4 {
        summary.record(RequestResult {
            success: false,
            latency_ms: 1.5,
            status_code: Some(500),
            error: Some("late".to_string()),
        });
    }
    assert_eq!(summary.success, 4);
    assert_eq!(summary.failure, 8);
    assert_eq!(summary.latencies_ms.len(), 12);
    assert_eq!(summary.status_codes.len(), 10);
    assert_eq!(
        summary.sample_errors,
        vec!["e0".to_string(), "e2".to_string(), "e4".to_string(), "e6".to_string(), "late".to_string()]
    );
}

#[test]
fn p90_index_values() {
    assert_eq!(p90_index(1), 0);
    assert_eq!(p90_index(5), 4);
    assert_eq!(p90_index(10), 8);
    assert_eq!(p90_index(11), 9);
    assert_eq!(p90_index(20), 17);
}

#[test]
fn latency_report_sorts_and_counts() {
    let results = vec![Ok(30), Err(()), Ok(10), Ok(50), Err(()), Ok(20), Ok(40)];
    let report = latency_report(&results);
    assert_eq!(report.sorted_successes, vec![10, 20, 30, 40, 50]);
    assert_eq!(report.success_count, 5);
    assert_eq!(report.fail_count, 2);
    assert_eq!(report.p90, 50);
    let empty = latency_report(&vec![Err(())]);
    assert_eq!(empty.p90, 0);
    assert_eq!(empty.fail_count, 1);
}
