use zest::logger::Verbosity;
use zest::pool::{pool_size, PoolModel, DEFAULT_THREAD_COUNT, MAX_THREAD_AMOUNT};

#[test]
fn pool_size_clamps_invalid_requests() {
    assert_eq!(pool_size(0), DEFAULT_THREAD_COUNT);
    assert_eq!(pool_size(MAX_THREAD_AMOUNT + 1), DEFAULT_THREAD_COUNT);
    assert_eq!(pool_size(1), 1);
    assert_eq!(pool_size(5), 5);
    assert_eq!(pool_size(MAX_THREAD_AMOUNT), MAX_THREAD_AMOUNT);
}

#[test]
fn pool_model_runs_each_job_once() {
    let mut pool = PoolModel::new(2);
    let a = pool.submit();
    let b = pool.submit();
    let c = pool.submit();
    assert_eq!(vec![a, b, c], vec![0, 1, 2]);
    assert_eq!(pool.queued, vec![0, 1, 2]);

    pool.begin_next();
    pool.begin_next();
    // two workers, so two jobs run; the third waits its turn
    assert_eq!(pool.running, vec![0, 1]);
    assert_eq!(pool.queued, vec![2]);

    pool.finish(1);
    assert_eq!(pool.running, vec![0]);
    assert_eq!(pool.done, vec![1]);

    pool.begin_next();
    assert_eq!(pool.running, vec![0, 2]);

    pool.finish(0);
    pool.finish(0);
    assert_eq!(pool.queued, Vec::<u64>::new());
    assert_eq!(pool.running, Vec::<u64>::new());
    assert_eq!(pool.done, vec![1, 0, 2]);
}

#[test]
fn verbosity_levels_count_up() {
    assert_eq!(Verbosity::from(0u8), Verbosity::Default);
    assert_eq!(Verbosity::from(1u8), Verbosity::Details);
    assert_eq!(Verbosity::from(2u8), Verbosity::Debug);
    assert_eq!(Verbosity::from(7u8), Verbosity::Debug);
    assert_eq!(Verbosity::Details.level(), 1);
}
