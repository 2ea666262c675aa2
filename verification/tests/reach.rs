#![allow(non_snake_case)]

use zink_client::ids::PublicKey;
use zink_client::reach::{direct_budget, Reach, ReachLedger, FAIL_COOLDOWN_MS};
use zink_client::state::ClientState;
use zink_client::time::Duration;

fn key(byte: u8) -> PublicKey {
    PublicKey([byte; 32])
}

const NOW: u64 = 10 * 60 * 1000;

fn production() -> Duration {
    Duration::from_secs(10)
}

#[test]
fn direct_budget__should_spend_time_only_where_evidence_says_it_lands() {
    // Given
    let now = NOW;
    let production = production();
    let never = Reach::default();
    let reached = Reach { seen_ms: now - 1000, failed_ms: 0 };
    let stale = Reach {
        seen_ms: now - 6 * 60 * 1000, // past the evidence TTL
        failed_ms: 0,
    };
    let just_failed = Reach { seen_ms: now - 1000, failed_ms: now - 5000 };

    // When / Then: an unreachable recipient costs a send nothing…
    assert_eq!(direct_budget(just_failed, now, production), None);
    // …a live conversation gets a real budget…
    assert_eq!(direct_budget(reached, now, production), Some(Duration::from_secs(3)));
    // …an unknown or stale peer gets one cheap probe…
    assert_eq!(direct_budget(never, now, production), Some(Duration::from_millis(600)));
    assert_eq!(direct_budget(stale, now, production), Some(Duration::from_millis(600)));
    // …and an edge that tightened `connect_timeout` still wins.
    assert_eq!(
        direct_budget(reached, now, Duration::from_millis(200)),
        Some(Duration::from_millis(200))
    );
    // A cooled-down failure is retried again afterwards.
    let recovered = now + 61 * 1000;
    assert!(direct_budget(just_failed, recovered, production).is_some());
}

#[test]
fn restore__should_drop_failures_past_the_cooldown() {
    // Given: one failure from just now and one ancient
    let fresh = key(7);
    let ancient = key(8);
    let ledger = ReachLedger::restore(vec![(fresh.0, NOW), (ancient.0, 1)], NOW);

    // Then: the fresh one still suppresses dialing, the cooled-down one
    // doesn't…
    assert_eq!(ledger.dial_budget(&fresh, NOW, production()), None);
    assert!(ledger.dial_budget(&ancient, NOW, production()).is_some());
    // …and nothing restores positive evidence: once the failure cools,
    // last run's peer gets one cheap probe, not the known-peer budget.
    let cooled = NOW + FAIL_COOLDOWN_MS;
    assert_eq!(
        ledger.dial_budget(&fresh, cooled, production()),
        Some(Duration::from_millis(600))
    );
}

#[test]
fn restore__should_drop_future_dated_failures_after_a_wall_rewind() {
    // Given: a failure recorded under a wall clock a year ahead of the
    // one we restore with
    const YEAR_MS: u64 = 365 * 24 * 60 * 60 * 1000;
    let peer = key(9);

    // When
    let ledger = ReachLedger::restore(vec![(peer.0, 2 * YEAR_MS)], YEAR_MS);

    // Then: future-dated evidence must not suppress dials
    assert!(ledger.dial_budget(&peer, YEAR_MS, production()).is_some());
}

#[test]
fn note_delivered__should_clear_the_cooldown_a_concurrent_dial_set() {
    // Given: a fan-out where one dial failed and another was accepted
    let peer = key(1);
    let mut ledger = ReachLedger::restore(Vec::new(), NOW);
    ledger.note_failed(&peer, NOW);

    // When
    ledger.note_delivered(&peer, NOW);

    // Then: the accepted delivery wins — full budget, nothing persisted
    assert_eq!(
        ledger.dial_budget(&peer, NOW, production()),
        Some(Duration::from_secs(3))
    );
    assert_eq!(ledger.unreachable_snapshot(NOW), Vec::new());
}

#[test]
fn note_seen__should_not_clear_a_pending_cooldown() {
    // Given: a failed dial, then mere proof the peer exists (a decline,
    // or an inbound connection)
    let peer = key(2);
    let mut ledger = ReachLedger::restore(Vec::new(), NOW);
    ledger.note_failed(&peer, NOW);

    // When
    ledger.note_seen(&peer, NOW + 1);

    // Then: the cooldown holds until it expires on its own…
    assert_eq!(ledger.dial_budget(&peer, NOW + 2, production()), None);
    // …and the failure is still worth persisting.
    assert_eq!(ledger.unreachable_snapshot(NOW + 2), vec![(peer.0, NOW)]);
}

#[test]
fn unreachable_snapshot__should_keep_only_failures_inside_the_cooldown() {
    // Given: a fresh failure, a cooled-down one, and a cleared one
    let fresh = key(3);
    let cooled = key(4);
    let cleared = key(5);
    let mut ledger = ReachLedger::restore(Vec::new(), NOW);
    ledger.note_failed(&fresh, NOW);
    ledger.note_failed(&cooled, NOW - FAIL_COOLDOWN_MS);
    ledger.note_failed(&cleared, NOW);
    ledger.note_delivered(&cleared, NOW);

    // When / Then: only the fresh failure is worth writing
    assert_eq!(ledger.unreachable_snapshot(NOW), vec![(fresh.0, NOW)]);
}

#[test]
fn unreachable_snapshot__should_survive_a_restart_in_key_order() {
    let mut ledger = ReachLedger::restore(Vec::new(), NOW);
    for byte in [9u8, 1, 5] {
        ledger.note_failed(&key(byte), NOW);
        ledger.note_seen(&key(byte), NOW);
    }
    let state = ClientState::open("me.key");
    let file = state.save_unreachable(&ledger.unreachable_snapshot(NOW));
    assert_eq!(file.path, "me.key.state/unreachable.keys");
    let read = state.unreachable(Some(file.text.as_str()));
    assert_eq!(read, vec![([1; 32], NOW), ([5; 32], NOW), ([9; 32], NOW)]);
    let next = ReachLedger::restore(read, NOW + 10);
    assert_eq!(next.dial_budget(&key(5), NOW + 10, production()), None);
    assert_eq!(next.reach_of(&key(5)), Reach { seen_ms: 0, failed_ms: NOW });
}

#[test]
fn direct_budget__should_probe_an_unknown_peer_at_any_time() {
    for now in [0u64, 1_000, NOW] {
        assert_eq!(
            direct_budget(Reach::default(), now, production()),
            Some(Duration::from_millis(600))
        );
    }
    assert_eq!(direct_budget(Reach { seen_ms: 0, failed_ms: 1 }, 1_000, production()), None);
    assert_eq!(
        direct_budget(Reach { seen_ms: 1, failed_ms: 0 }, 1_000, production()),
        Some(Duration::from_secs(3))
    );
}
