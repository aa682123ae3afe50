use dahlia_utils::perf_utils::Timer;
use std::time::{Duration, Instant};

fn wait_for(span: Duration) {
    let start = Instant::now();
    while start.elapsed() < span {
        std::hint::spin_loop();
    }
}

#[test]
fn timer_starts_near_zero() {
    let timer = Timer::new();
    assert!(timer.elapsed_millis() < 1000);
    assert!(timer.elapsed() < Duration::from_secs(1));
}

#[test]
fn timer_measures_a_known_wait() {
    let timer = Timer::new();
    wait_for(Duration::from_millis(25));
    assert!(timer.elapsed_millis() >= 25);
    assert!(timer.elapsed() >= Duration::from_millis(25));
}

#[test]
fn timer_can_be_read_again_and_does_not_reset() {
    let timer = Timer::new();
    wait_for(Duration::from_millis(5));
    let first = timer.elapsed();
    wait_for(Duration::from_millis(5));
    let second = timer.elapsed();
    assert!(first >= Duration::from_millis(5));
    assert!(second >= first + Duration::from_millis(5));
    assert!(timer.elapsed_millis() >= 10);
}

#[test]
fn timer_millis_are_the_whole_millis_of_the_duration() {
    let timer = Timer::new();
    wait_for(Duration::from_millis(3));
    let before = timer.elapsed().as_millis();
    let millis = timer.elapsed_millis();
    let after = timer.elapsed().as_millis();
    assert!(before <= millis);
    assert!(millis <= after);
}
