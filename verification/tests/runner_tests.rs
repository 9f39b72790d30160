use s3_csv_agg::fetch::FetchError;
use s3_csv_agg::runner::{Action, Runner};

#[test]
fn cache_hit_skips_the_download() {
    let mut r = Runner::start();
    let a = r.on_cache_check(true);
    assert_eq!(a, Action::Aggregate);
    let a = r.on_aggregate_result(true);
    assert_eq!(a, Action::Report);
}

#[test]
fn cache_miss_orders_a_download() {
    let mut r = Runner::start();
    let a = r.on_cache_check(false);
    assert_eq!(a, Action::Download);
    let a = r.on_fetch_result(&Ok(42));
    assert_eq!(a, Action::Aggregate);
    let a = r.on_aggregate_result(true);
    assert_eq!(a, Action::Report);
}

#[test]
fn interrupted_fetch_aborts_before_aggregation() {
    let mut r = Runner::start();
    let a = r.on_cache_check(false);
    assert_eq!(a, Action::Download);
    let a = r.on_fetch_result(&Err(FetchError::StreamInterrupted));
    assert_eq!(a, Action::Abort);
}

#[test]
fn failed_request_aborts_before_aggregation() {
    let mut r = Runner::start();
    let a = r.on_cache_check(false);
    assert_eq!(a, Action::Download);
    let a = r.on_fetch_result(&Err(FetchError::RequestFailed));
    assert_eq!(a, Action::Abort);
}

#[test]
fn failed_aggregation_aborts_the_run() {
    let mut r = Runner::start();
    let a = r.on_cache_check(true);
    assert_eq!(a, Action::Aggregate);
    let a = r.on_aggregate_result(false);
    assert_eq!(a, Action::Abort);
}
