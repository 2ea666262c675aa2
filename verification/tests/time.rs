#![allow(non_snake_case)]

use zink_client::recv::Backoff;
use zink_client::rng::{token_of, Draw, SystemRng, TestDraw};
use zink_client::time::{jittered, jittered_by, next_backoff, ClientConfig, Duration, TestClock, TestWallClock, WallClock};

#[test]
fn jittered__should_span_half_to_under_three_halves_of_the_backoff() {
    // Given
    let backoff = Duration::from_secs(1);

    // When / Then: the extreme draws pin the band's endpoints
    assert_eq!(jittered(backoff, &TestDraw(0)), Duration::from_millis(500));
    assert_eq!(jittered(backoff, &TestDraw(u64::MAX)), Duration::from_millis(1499));
    // A zero backoff stays an immediate retry, not a panic.
    assert_eq!(jittered(Duration::zero(), &TestDraw(u64::MAX)), Duration::zero());
}

#[test]
fn jittered_by__should_saturate_far_beyond_the_ceiling() {
    let longest = Duration::from_nanos(u128::MAX);
    assert_eq!(jittered_by(longest, u64::MAX), Duration::from_millis(u64::MAX));
    assert_eq!(jittered_by(Duration::from_millis(7), 2), Duration::from_millis(5));
}

#[test]
fn system_draw__should_stay_below_the_bound() {
    for bound in [1u64, 2, 1000] {
        assert!(SystemRng.draw(bound) < bound);
    }
}

#[test]
fn advance__should_move_monotonic_time() {
    // Given
    let mut clock = TestClock::new();
    let before = clock.now();

    // When
    clock.advance(Duration::from_secs(90));

    // Then
    assert_eq!(clock.now().duration_since(before), Duration::from_secs(90));
}

#[test]
fn set_ms__should_jump_wall_time_in_either_direction() {
    // Given
    let mut wall = TestWallClock::new(2_000);

    // When
    wall.set_ms(500);
    let rewound = wall.now_ms();
    wall.set_ms(3_000);
    let advanced = wall.now_ms();

    // Then
    assert_eq!(rewound, 500);
    assert_eq!(advanced, 3_000);
}

#[test]
fn sleep__should_resolve_only_once_advanced_past_its_deadline() {
    let mut clock = TestClock::new();
    let id = clock.sleep(Duration::from_secs(10));
    assert!(clock.has_sleepers(1));
    assert_eq!(clock.advance(Duration::from_secs(9)), Vec::<u64>::new());
    assert_eq!(clock.advance(Duration::from_secs(1)), vec![id]);
    assert!(!clock.has_sleepers(1));
}

#[test]
fn sleep__should_fire_two_concurrent_timers_on_one_advance() {
    let mut clock = TestClock::new();
    let a = clock.sleep(Duration::from_secs(5));
    let b = clock.sleep(Duration::from_secs(5));
    let c = clock.sleep(Duration::from_secs(5));
    assert!(clock.has_sleepers(3));
    clock.cancel(b);
    assert_eq!(clock.advance(Duration::from_secs(5)), vec![a, c]);
}

#[test]
fn backoff__should_double_to_a_minute_and_start_over() {
    let mut backoff = Backoff::new();
    let mut delays = Vec::new();
    for _ in 0..8 {
        delays.push(backoff.next_delay(&TestDraw(0)).as_millis());
    }
    assert_eq!(delays, vec![500, 1000, 2000, 4000, 8000, 16000, 30000, 30000]);
    backoff.reset();
    assert_eq!(backoff.next_delay(&TestDraw(0)), Duration::from_millis(500));
    assert_eq!(next_backoff(Duration::from_secs(40)), Duration::from_secs(60));
}

#[test]
fn config__should_default_to_ten_and_five_seconds() {
    let config = ClientConfig::default();
    assert_eq!(config.connect_timeout, Duration::from_secs(10));
    assert_eq!(config.close_deadline, Duration::from_secs(5));
}

#[test]
fn spans_of_one_length__should_be_equal() {
    assert_eq!(Duration::from_secs(1), Duration::from_millis(1000));
    assert_eq!(Duration::from_secs(1), Duration::from_nanos(1_000_000_000));
    assert_ne!(Duration::from_secs(1), Duration::from_millis(999));
}

#[test]
fn token_of__should_keep_both_draws() {
    assert_eq!(token_of(0, 7), 7);
    assert_eq!(token_of(1, 0), 0x1_0000_0000_0000_0000);
    assert_eq!(token_of(2, 3), 0x2_0000_0000_0000_0003);
    assert_eq!(token_of(u64::MAX, u64::MAX), u128::MAX);
    assert_ne!(token_of(1, 2), token_of(2, 1));
}
