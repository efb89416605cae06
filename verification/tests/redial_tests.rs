//! Redial schedule: doubling backoff, reset after a link, capped.

use rustcrdt::network::redial::{redial_step, INITIAL_BACKOFF_MS, MAX_BACKOFF_MS};

#[test]
fn backoff_doubles_until_the_cap() {
    let mut backoff = INITIAL_BACKOFF_MS;
    let mut waits = Vec::new();
    for _ in 0..8 {
        let (wait, next) = redial_step(backoff, false);
        waits.push(wait);
        backoff = next;
    }
    assert_eq!(waits, vec![250, 500, 1000, 2000, 4000, 8000, 10_000, 10_000]);
    assert_eq!(backoff, MAX_BACKOFF_MS);
}

#[test]
fn a_made_link_resets_the_wait() {
    assert_eq!(redial_step(8000, true), (250, 500));
    assert_eq!(redial_step(MAX_BACKOFF_MS, true), (INITIAL_BACKOFF_MS, 2 * INITIAL_BACKOFF_MS));
}

#[test]
fn wait_never_exceeds_the_cap_from_a_capped_backoff() {
    assert_eq!(redial_step(6000, false), (6000, 10_000));
    assert_eq!(redial_step(5000, false), (5000, 10_000));
}
