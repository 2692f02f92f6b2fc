use httpstress::cli::{DurationNs, RunConfig, StopCondition};
use httpstress::control::{statistic, CancelSignal, RunController};
use httpstress::histogram::LatencyHistogram;
use httpstress::outcome::{Outcome, RequestResult, ResponseStatistic};
use httpstress::report::StatisticList;
use httpstress::stats::StatisticsAccumulator;

fn test_config() -> RunConfig {
    RunConfig {
        url: String::from("http://localhost:8080/"),
        concurrency: 5,
        stop: StopCondition::Duration(DurationNs {
            nanos: 1_000_000_000,
        }),
        timeout_ns: 500_000_000,
        headers: Vec::new(),
        body: None,
    }
}

fn success(latency_ns: u64, status_code: u16, content_length: u64) -> Outcome {
    Outcome::Success(ResponseStatistic {
        time_cost_ns: latency_ns,
        status_code,
        content_length,
    })
}

fn transport_failure(msg: &str) -> Outcome {
    Outcome::Failure {
        kind: httpstress::outcome::FailureKind::Transport,
        message: String::from(msg),
    }
}

#[test]
fn histogram_quantiles_on_linear_values() {
    let mut h = LatencyHistogram::new(3);
    for v in 1..=100u64 {
        h.record(v);
    }
    assert_eq!(h.count(), 100);
    assert_eq!(h.min(), 1);
    assert_eq!(h.max(), 100);
    assert_eq!(h.value_at_quantile(500), 50);
    assert_eq!(h.value_at_quantile(900), 90);
    assert_eq!(h.value_at_quantile(950), 95);
    assert_eq!(h.value_at_quantile(990), 99);
    assert_eq!(h.value_at_quantile(999), 100);
    assert_eq!(h.value_at_quantile(1000), 100);
}

#[test]
fn histogram_empty_answers_zero() {
    let h = LatencyHistogram::new(3);
    assert_eq!(h.count(), 0);
    assert_eq!(h.min(), 0);
    assert_eq!(h.max(), 0);
    assert_eq!(h.value_at_quantile(500), 0);
    assert_eq!(h.value_at_quantile(999), 0);
}

#[test]
fn histogram_log_region_bounded_error() {
    let mut h = LatencyHistogram::new(3);
    for _ in 0..5 {
        h.record(10_000_000);
    }
    // All samples equal: every quantile is clamped to the recorded maximum.
    assert_eq!(h.value_at_quantile(500), 10_000_000);
    assert_eq!(h.value_at_quantile(999), 10_000_000);
    h.record(20_000_000);
    // The median bucket's representative of 10ms at three significant
    // digits: within 0.1% of the exact value.
    let p50 = h.value_at_quantile(500);
    assert_eq!(p50, 10_002_431);
    assert_eq!(h.max(), 20_000_000);
    assert_eq!(h.min(), 10_000_000);
}

#[test]
fn histogram_quantiles_are_monotone() {
    let mut h = LatencyHistogram::new(3);
    let values = [
        1u64, 700, 35_000, 35_001, 2_000_000, 90_000_000, 4_000_000_000, 12,
    ];
    for v in values {
        h.record(v);
    }
    let mut prev = h.min();
    for q in [0u64, 100, 250, 500, 750, 900, 950, 990, 999, 1000] {
        let cur = h.value_at_quantile(q);
        assert!(prev <= cur, "quantile regressed at {q}: {prev} > {cur}");
        prev = cur;
    }
    assert!(prev <= h.max());
}

#[test]
fn accumulator_conservation_of_outcomes() {
    let mut acc = StatisticsAccumulator::new();
    acc.record(success(1_000, 200, 10));
    acc.record(success(2_000, 200, 20));
    acc.record(success(3_000, 404, 0));
    acc.record(transport_failure("connection refused"));
    acc.record(transport_failure("connection reset"));
    acc.record(transport_failure("connection refused"));
    assert_eq!(acc.total_issued, 6);
    assert_eq!(acc.successful, 3);
    let error_total: u64 = acc.error_counts.iter().map(|e| e.1).sum();
    assert_eq!(acc.total_issued, acc.successful + error_total);
    let code_200 = acc
        .status_counts
        .iter()
        .find(|e| e.0 == 200)
        .map(|e| e.1)
        .unwrap_or(0);
    let code_404 = acc
        .status_counts
        .iter()
        .find(|e| e.0 == 404)
        .map(|e| e.1)
        .unwrap_or(0);
    assert_eq!(code_200, 2);
    assert_eq!(code_404, 1);
    let refused = acc
        .error_counts
        .iter()
        .find(|e| e.0 == "connection refused")
        .map(|e| e.1)
        .unwrap_or(0);
    assert_eq!(refused, 2);
    assert_eq!(acc.total_bytes, 30);
}

#[test]
fn accumulator_order_independent() {
    let outcomes = |acc: &mut StatisticsAccumulator, order: &[usize]| {
        let make = |i: usize| -> Outcome {
            match i {
                0 => success(5_000, 200, 100),
                1 => success(9_000, 500, 50),
                2 => transport_failure("connection refused"),
                3 => success(5_000, 200, 100),
                _ => transport_failure("dns failure"),
            }
        };
        for &i in order {
            acc.record(make(i));
        }
    };
    let mut a = StatisticsAccumulator::new();
    let mut b = StatisticsAccumulator::new();
    outcomes(&mut a, &[0, 1, 2, 3, 4]);
    outcomes(&mut b, &[4, 2, 3, 1, 0]);
    assert_eq!(a.total_issued, b.total_issued);
    assert_eq!(a.successful, b.successful);
    assert_eq!(a.total_bytes, b.total_bytes);
    assert_eq!(a.latency_sum, b.latency_sum);
    assert_eq!(a.latency_sq_sum, b.latency_sq_sum);
    for code in [200u16, 500, 404] {
        let ca: u64 = a.status_counts.iter().filter(|e| e.0 == code).map(|e| e.1).sum();
        let cb: u64 = b.status_counts.iter().filter(|e| e.0 == code).map(|e| e.1).sum();
        assert_eq!(ca, cb);
    }
    for msg in ["connection refused", "dns failure", "other"] {
        let ca: u64 = a.error_counts.iter().filter(|e| e.0 == msg).map(|e| e.1).sum();
        let cb: u64 = b.error_counts.iter().filter(|e| e.0 == msg).map(|e| e.1).sum();
        assert_eq!(ca, cb);
    }
    for q in [500u64, 900, 950, 990, 999] {
        assert_eq!(
            a.histogram.value_at_quantile(q),
            b.histogram.value_at_quantile(q)
        );
    }
    assert_eq!(a.histogram.min(), b.histogram.min());
    assert_eq!(a.histogram.max(), b.histogram.max());
}

#[test]
fn analyze_no_data_is_none() {
    let list = StatisticList {
        cli: test_config(),
        acc: StatisticsAccumulator::new(),
    };
    assert!(list.analyze(1_000_000_000).is_none());
}

#[test]
fn analyze_fixed_delay_scenario() {
    // Target always answers 200 OK after a fixed 10ms: five workers for one
    // second of wall time produce about 500 outcomes.
    let mut acc = StatisticsAccumulator::new();
    for _ in 0..500 {
        acc.record(success(10_000_000, 200, 128));
    }
    let list = StatisticList {
        cli: test_config(),
        acc,
    };
    let b = list.analyze(1_000_000_000).unwrap();
    assert_eq!(b.total_requests, 500);
    assert_eq!(b.successful_requests, 500);
    // 500 requests over one second: 500.000 requests per second.
    assert_eq!(b.requests_per_sec_milli, 500_000);
    assert_eq!(b.status_code_dist, vec![(200u16, 500u64)]);
    assert!(b.error_dist.is_empty());
    assert_eq!(b.average_latency_ns, 10_000_000);
    assert_eq!(b.latency_std_dev_ns, 0);
    assert_eq!(b.p50_ns, 10_000_000);
    assert_eq!(b.p99_9_ns, 10_000_000);
    assert_eq!(b.fastest_ns, 10_000_000);
    assert_eq!(b.slowest_ns, 10_000_000);
    assert_eq!(b.total_data, 500 * 128);
    assert_eq!(b.bytes_per_sec, 500 * 128);
    assert_eq!(b.avg_size_per_request_milli, 128_000);
}

#[test]
fn analyze_all_connections_refused() {
    // Target refuses every connection: only transport failures, and the
    // error distribution accounts for every issued request.
    let mut list = StatisticList {
        cli: test_config(),
        acc: StatisticsAccumulator::new(),
    };
    for _ in 0..20 {
        statistic(
            &mut list,
            100_000,
            RequestResult::TransportError {
                message: String::from("connection refused"),
            },
        );
    }
    let b = list.analyze(2_000_000_000).unwrap();
    assert_eq!(b.successful_requests, 0);
    assert_eq!(b.total_requests, 20);
    let error_total: u64 = b.error_dist.iter().map(|e| e.1).sum();
    assert_eq!(error_total, 20);
    assert_eq!(b.error_dist, vec![(String::from("connection refused"), 20u64)]);
    assert!(b.status_code_dist.is_empty());
    assert_eq!(b.total_data, 0);
    assert_eq!(b.p50_ns, 0);
    assert_eq!(b.average_latency_ns, 0);
    // 20 requests over two seconds: 10.000 requests per second.
    assert_eq!(b.requests_per_sec_milli, 10_000);
}

#[test]
fn analyze_all_timeouts() {
    // Per-request timeout far below the target's delay: every outcome is a
    // timeout failure, no successes at all.
    let mut list = StatisticList {
        cli: test_config(),
        acc: StatisticsAccumulator::new(),
    };
    for _ in 0..10 {
        statistic(&mut list, 5_000_000, RequestResult::TimedOut);
    }
    let b = list.analyze(1_000_000_000).unwrap();
    assert_eq!(b.successful_requests, 0);
    assert_eq!(b.total_requests, 10);
    assert_eq!(b.error_dist, vec![(String::from("Request timeout"), 10u64)]);
    assert!(b.status_code_dist.is_empty());
}

#[test]
fn analyze_mixed_statuses_and_stddev() {
    let mut acc = StatisticsAccumulator::new();
    acc.record(success(1_000, 200, 10));
    acc.record(success(3_000, 503, 30));
    let list = StatisticList {
        cli: test_config(),
        acc,
    };
    let b = list.analyze(1_000_000_000).unwrap();
    assert_eq!(b.average_latency_ns, 2_000);
    // Variance of {1000, 3000} is 1_000_000; its square root is exact.
    assert_eq!(b.latency_std_dev_ns, 1_000);
    assert_eq!(b.fastest_ns, 1_000);
    assert_eq!(b.slowest_ns, 3_000);
    assert_eq!(b.total_data, 40);
}

#[test]
fn analyze_stddev_is_population_floor() {
    // Latencies {10, 11}: the population standard deviation is 0.5, whose
    // floor is 0 - not an artifact of separately truncated means.
    let mut acc = StatisticsAccumulator::new();
    acc.record(success(10, 200, 0));
    acc.record(success(11, 200, 0));
    let list = StatisticList {
        cli: test_config(),
        acc,
    };
    let b = list.analyze(1_000_000_000).unwrap();
    assert_eq!(b.average_latency_ns, 10);
    assert_eq!(b.latency_std_dev_ns, 0);
}

#[test]
fn request_budget_grants_exactly_the_budget() {
    // Stop condition RequestCount(100) with ten workers: exactly 100 grants,
    // not more, not fewer, whatever the interleaving.
    let mut controller = RunController::new(StopCondition::RequestCount(100));
    let mut grants = 0u64;
    let mut denials = 0u64;
    for _round in 0..15 {
        for _worker in 0..10 {
            if controller.try_begin_request() {
                grants += 1;
            } else {
                denials += 1;
            }
        }
    }
    assert_eq!(grants, 100);
    assert_eq!(controller.issued, 100);
    assert_eq!(denials, 50);
    assert!(controller.is_cancelled());
}

#[test]
fn budget_exhaustion_fires_cancellation_once() {
    let mut controller = RunController::new(StopCondition::RequestCount(3));
    assert!(!controller.is_cancelled());
    assert!(controller.try_begin_request());
    assert!(!controller.is_cancelled());
    assert!(controller.try_begin_request());
    assert!(!controller.is_cancelled());
    assert!(controller.try_begin_request());
    // The worker that took the last slot fired the signal.
    assert!(controller.is_cancelled());
    assert!(!controller.try_begin_request());
}

#[test]
fn deadline_cancellation_is_idempotent() {
    let mut controller = RunController::new(StopCondition::Duration(DurationNs {
        nanos: 1_000_000_000,
    }));
    assert!(controller.try_begin_request());
    controller.on_deadline();
    assert!(controller.is_cancelled());
    // Firing twice is a no-op, never an error.
    controller.on_deadline();
    assert!(controller.is_cancelled());
    assert!(!controller.try_begin_request());
    assert_eq!(controller.issued, 1);
}

#[test]
fn cancel_signal_is_one_shot_fan_out() {
    let mut signal = CancelSignal::new();
    assert!(!signal.is_fired());
    signal.fire();
    assert!(signal.is_fired());
    signal.fire();
    assert!(signal.is_fired());
}

#[test]
fn statistic_records_classified_outcome() {
    let mut list = StatisticList {
        cli: test_config(),
        acc: StatisticsAccumulator::new(),
    };
    statistic(
        &mut list,
        7_000,
        RequestResult::Response {
            status_code: 200,
            content_length_header: Some(String::from("2048")),
        },
    );
    assert_eq!(list.acc.total_issued, 1);
    assert_eq!(list.acc.successful, 1);
    assert_eq!(list.acc.total_bytes, 2048);
    assert_eq!(list.acc.histogram.min(), 7_000);
}

#[test]
fn histogram_extreme_values() {
    let mut h = LatencyHistogram::new(3);
    h.record(0);
    h.record(u64::MAX);
    assert_eq!(h.min(), 0);
    assert_eq!(h.max(), u64::MAX);
    assert_eq!(h.value_at_quantile(0), 0);
    assert_eq!(h.value_at_quantile(1000), u64::MAX);
}

#[test]
fn accumulator_byte_total_saturates() {
    let mut acc = StatisticsAccumulator::new();
    acc.record(success(1, 200, u64::MAX));
    acc.record(success(1, 200, u64::MAX));
    assert_eq!(acc.total_bytes, u64::MAX);
    assert_eq!(acc.total_issued, 2);
}
