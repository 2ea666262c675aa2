//! Time as data: spans, the hand-driven clocks that stand for the time ports
//! in tests, and the tuning that edges inject. Nothing here runs a timer.
use vstd::prelude::*;

use crate::rng::Draw;
use crate::seqs::{lemma_filter_step, lemma_take_all};

verus! {

/// The longest span: just under 2^64 seconds.
pub const MAX_NANOS: u128 = 18_446_744_073_709_551_615_999_999_999;

/// A span of time, to the nanosecond.
#[derive(Clone, Copy, Debug, PartialEq, Eq, Structural)]
pub struct Duration {
    nanos: u128,
}

pub open spec fn least(a: nat, b: nat) -> nat {
    if a <= b {
        a
    } else {
        b
    }
}

impl Duration {
    #[verifier::type_invariant]
    closed spec fn bounded(self) -> bool {
        self.nanos <= MAX_NANOS
    }

    /// The span in nanoseconds.
    pub closed spec fn length(self) -> nat {
        self.nanos as nat
    }

    /// No time at all.
    pub fn zero() -> (r: Self)
        ensures
            r.length() == 0,
    {
        Duration { nanos: 0 }
    }

    pub fn from_secs(secs: u64) -> (r: Self)
        ensures
            r.length() == secs * 1_000_000_000,
    {
        Duration { nanos: secs as u128 * 1_000_000_000 }
    }

    pub fn from_millis(millis: u64) -> (r: Self)
        ensures
            r.length() == millis * 1_000_000,
    {
        Duration { nanos: millis as u128 * 1_000_000 }
    }

    /// A span of so many nanoseconds, at most the longest.
    pub fn from_nanos(nanos: u128) -> (r: Self)
        ensures
            r.length() == least(nanos as nat, MAX_NANOS as nat),
    {
        if nanos <= MAX_NANOS {
            Duration { nanos }
        } else {
            Duration { nanos: MAX_NANOS }
        }
    }

    pub fn as_nanos(&self) -> (r: u128)
        ensures
            r == self.length(),
            r <= MAX_NANOS,
    {
        proof {
            use_type_invariant(self);
        }
        self.nanos
    }

    /// Whole milliseconds.
    pub fn as_millis(&self) -> (r: u128)
        ensures
            r == self.length() / 1_000_000,
    {
        self.nanos / 1_000_000
    }

    pub fn min(self, other: Duration) -> (r: Self)
        ensures
            r.length() == least(self.length(), other.length()),
            r == self || r == other,
    {
        if self.nanos <= other.nanos {
            self
        } else {
            other
        }
    }

    /// The sum, at most the longest span.
    pub fn saturating_add(self, other: Duration) -> (r: Self)
        ensures
            r.length() == least(self.length() + other.length(), MAX_NANOS as nat),
    {
        proof {
            use_type_invariant(&self);
            use_type_invariant(&other);
        }
        Duration::from_nanos(self.nanos + other.nanos)
    }
}

/// Spans of one length are the same span.
pub proof fn law_length_determines(a: Duration, b: Duration)
    ensures
        (a.length() == b.length()) == (a == b),
{
}

// ---- reconnecting ----

/// The first reconnect delay.
pub fn initial_backoff() -> (r: Duration)
    ensures
        r.length() == 1_000_000_000,
{
    Duration::from_secs(1)
}

/// A span doubled, at most a minute.
pub open spec fn doubled(length: nat) -> nat {
    least(2 * length, 60_000_000_000)
}

/// The delay grows from failure to failure until it is a minute, and stays
/// there.
pub proof fn law_backoff_grows_to_a_minute(length: nat)
    ensures
        length <= 30_000_000_000 ==> doubled(length) == 2 * length,
        length >= 30_000_000_000 ==> doubled(length) == 60 * 1_000_000_000,
{
}

/// The delay after one more failure: doubled, at most a minute.
pub fn next_backoff(backoff: Duration) -> (r: Duration)
    ensures
        r.length() == doubled(backoff.length()),
{
    backoff.saturating_add(backoff).min(Duration::from_secs(60))
}

/// Whole milliseconds of a span, as far as 64 bits count.
pub open spec fn whole_millis(d: Duration) -> nat {
    least(d.length() / 1_000_000, u64::MAX as nat)
}

/// The delay a draw makes of a backoff: half of it and what was drawn.
pub open spec fn jitter(backoff: Duration, drawn: u64) -> nat {
    least(whole_millis(backoff) / 2 + drawn as nat, u64::MAX as nat) * 1_000_000
}

/// How far a reconnect delay may be drawn.
pub open spec fn jitter_bound(backoff: Duration) -> nat {
    if whole_millis(backoff) >= 1 {
        whole_millis(backoff)
    } else {
        1
    }
}

fn millis_of(d: Duration) -> (r: u64)
    ensures
        r == whole_millis(d),
{
    let millis: u128 = d.as_millis();
    if millis <= u64::MAX as u128 {
        millis as u64
    } else {
        u64::MAX
    }
}

/// The reconnect delay for a number drawn.
pub fn jittered_by(backoff: Duration, drawn: u64) -> (r: Duration)
    ensures
        r.length() == jitter(backoff, drawn),
{
    let base: u64 = millis_of(backoff);
    let half: u64 = base / 2;
    let millis: u64 = if drawn <= u64::MAX - half {
        half + drawn
    } else {
        u64::MAX
    };
    Duration::from_millis(millis)
}

/// A delay that a source makes of a backoff by drawing once, below the bound.
pub open spec fn drawn_delay<R: Draw>(backoff: Duration, rng: &R, delay: nat) -> bool {
    exists|drawn: u64| #[trigger]
        rng.may_draw(jitter_bound(backoff) as u64, drawn) && drawn < jitter_bound(backoff) && delay
            == jitter(backoff, drawn)
}

/// The jittered reconnect delay: over [backoff/2, 3·backoff/2), so a relay
/// restart does not get a thundering herd of resubscriptions.
pub fn jittered<R: Draw>(backoff: Duration, rng: &R) -> (r: Duration)
    ensures
        drawn_delay(backoff, rng, r.length()),
{
    let base: u64 = millis_of(backoff);
    let bound: u64 = if base >= 1 {
        base
    } else {
        1
    };
    let drawn: u64 = rng.draw(bound);
    assert(rng.may_draw(jitter_bound(backoff) as u64, drawn));
    jittered_by(backoff, drawn)
}

/// A delay is never under half the backoff's whole milliseconds, and always
/// under three halves of them where there is a backoff at all.
pub proof fn law_jitter_band(backoff: Duration, drawn: u64)
    requires
        drawn < jitter_bound(backoff),
        whole_millis(backoff) < 0x8000_0000_0000_0000,
    ensures
        jitter(backoff, drawn) >= whole_millis(backoff) / 2 * 1_000_000,
        whole_millis(backoff) >= 1 ==> 2 * jitter(backoff, drawn) < 3 * whole_millis(backoff)
            * 1_000_000,
        whole_millis(backoff) == 0 ==> jitter(backoff, drawn) == 0,
{
}

// ---- deadlines and wall time ----

/// A deadline fired before what it bounded resolved.
#[derive(Debug, Clone, Copy, PartialEq, Eq, Structural)]
pub struct TimedOut;

/// Wall time in unix milliseconds: persisted and on-the-wire timestamps.
pub trait WallClock {
    fn now_ms(&self) -> (r: u64);
}

/// A settable wall clock: wall time jumps, forward or backward, rather than
/// flowing.
#[derive(Debug)]
pub struct TestWallClock {
    now: u64,
}

impl TestWallClock {
    /// What the clock shows.
    pub closed spec fn shows(&self) -> u64 {
        self.now
    }

    pub fn new(now_ms: u64) -> (r: Self)
        ensures
            r.shows() == now_ms,
    {
        TestWallClock { now: now_ms }
    }

    pub fn set_ms(&mut self, now_ms: u64)
        ensures
            final(self).shows() == now_ms,
    {
        self.now = now_ms;
    }
}

impl WallClock for TestWallClock {
    fn now_ms(&self) -> (r: u64)
        ensures
            r == self.shows(),
    {
        self.now
    }
}

// ---- the hand-driven monotonic clock ----

/// A moment of a hand-driven clock: the time since it was made.
#[derive(Clone, Copy, Debug)]
pub struct Instant {
    pub since: Duration,
}

impl Instant {
    /// The span since an earlier moment; none where that one is later.
    pub fn duration_since(&self, earlier: Instant) -> (r: Duration)
        ensures
            r.length() == if self.since.length() >= earlier.since.length() {
                (self.since.length() - earlier.since.length()) as nat
            } else {
                0
            },
    {
        let a: u128 = self.since.as_nanos();
        let b: u128 = earlier.since.as_nanos();
        if a >= b {
            Duration::from_nanos(a - b)
        } else {
            Duration::zero()
        }
    }
}

/// A parked sleep: who sleeps, and until when.
pub struct SleeperView {
    pub id: u64,
    pub deadline: nat,
}

/// A parked sleep.
#[derive(Clone, Copy, Debug)]
pub struct Sleeper {
    pub id: u64,
    pub deadline: Duration,
}

impl DeepView for Sleeper {
    type V = SleeperView;

    open spec fn deep_view(&self) -> SleeperView {
        SleeperView { id: self.id, deadline: self.deadline.length() }
    }
}

/// A hand-driven monotonic clock: time moves only on `advance`, and a sleep
/// is over the moment an `advance` reaches its deadline.
#[derive(Debug)]
pub struct TestClock {
    now: Duration,
    next_id: u64,
    sleepers: Vec<Sleeper>,
}

/// Whether a time has reached a sleeper's deadline.
pub open spec fn due(now: nat) -> spec_fn(SleeperView) -> bool {
    |s: SleeperView| s.deadline <= now
}

pub open spec fn not_due(now: nat) -> spec_fn(SleeperView) -> bool {
    |s: SleeperView| s.deadline > now
}

pub open spec fn sleeper_id() -> spec_fn(SleeperView) -> u64 {
    |s: SleeperView| s.id
}

pub open spec fn other_sleeper(id: u64) -> spec_fn(SleeperView) -> bool {
    |s: SleeperView| s.id != id
}

impl TestClock {
    /// The time since the clock was made.
    pub closed spec fn elapsed(&self) -> nat {
        self.now.length()
    }

    /// The parked sleeps, in the order they parked.
    pub closed spec fn parked(&self) -> Seq<SleeperView> {
        self.sleepers.deep_view()
    }

    /// How many sleeps have been begun.
    pub closed spec fn begun(&self) -> u64 {
        self.next_id
    }

    pub fn new() -> (r: Self)
        ensures
            r.elapsed() == 0,
            r.parked() == Seq::<SleeperView>::empty(),
            r.begun() == 0,
    {
        let sleepers: Vec<Sleeper> = Vec::new();
        assert(sleepers.deep_view() =~= Seq::<SleeperView>::empty());
        TestClock { now: Duration::zero(), next_id: 0, sleepers }
    }

    pub fn now(&self) -> (r: Instant)
        ensures
            r.since.length() == self.elapsed(),
    {
        Instant { since: self.now }
    }

    /// Moves time forward and wakes every sleeper it reaches: their ids, in
    /// the order they parked.
    pub fn advance(&mut self, by: Duration) -> (woken: Vec<u64>)
        requires
            old(self).elapsed() + by.length() <= MAX_NANOS,
        ensures
            final(self).elapsed() == old(self).elapsed() + by.length(),
            final(self).begun() == old(self).begun(),
            final(self).parked() == old(self).parked().filter(not_due(final(self).elapsed())),
            woken@ == old(self).parked().filter(due(final(self).elapsed())).map_values(
                sleeper_id(),
            ),
    {
        let now: Duration = self.now.saturating_add(by);
        let ghost s = self.sleepers.deep_view();
        let ghost p = not_due(now.length());
        let ghost q = due(now.length());
        let ghost f = sleeper_id();
        let mut kept: Vec<Sleeper> = Vec::new();
        let mut woken: Vec<u64> = Vec::new();
        proof {
            reveal(Seq::filter);
            assert(kept.deep_view() =~= s.take(0).filter(p));
            assert(woken@ =~= s.take(0).filter(q).map_values(f));
        }
        for i in 0..self.sleepers.len()
            invariant
                s == self.sleepers.deep_view(),
                p == not_due(now.length()),
                q == due(now.length()),
                f == sleeper_id(),
                kept.deep_view() == s.take(i as int).filter(p),
                woken@ == s.take(i as int).filter(q).map_values(f),
        {
            proof {
                lemma_filter_step(s, p, i as int);
                lemma_filter_step(s, q, i as int);
            }
            let sleeper: Sleeper = self.sleepers[i];
            assert(s[i as int] == sleeper.deep_view());
            if sleeper.deadline.as_nanos() > now.as_nanos() {
                let ghost before = kept.deep_view();
                kept.push(sleeper);
                assert(kept.deep_view() =~= before.push(s[i as int]));
            } else {
                let ghost before = s.take(i as int).filter(q);
                woken.push(sleeper.id);
                assert(before.push(s[i as int]).map_values(f) =~= before.map_values(f).push(
                    sleeper.id,
                ));
            }
        }
        proof {
            lemma_take_all(s);
        }
        self.now = now;
        self.sleepers = kept;
        woken
    }

    /// Begins a sleep: it parks until its deadline, or is over at once.
    pub fn sleep(&mut self, dur: Duration) -> (id: u64)
        requires
            old(self).elapsed() + dur.length() <= MAX_NANOS,
            old(self).begun() < u64::MAX,
        ensures
            id == old(self).begun() + 1,
            final(self).begun() == id,
            final(self).elapsed() == old(self).elapsed(),
            final(self).parked() == if dur.length() == 0 {
                old(self).parked()
            } else {
                old(self).parked().push(
                    SleeperView { id, deadline: old(self).elapsed() + dur.length() },
                )
            },
    {
        self.next_id += 1;
        let id: u64 = self.next_id;
        let deadline: Duration = self.now.saturating_add(dur);
        if deadline.as_nanos() > self.now.as_nanos() {
            let ghost before = self.sleepers.deep_view();
            let sleeper: Sleeper = Sleeper { id, deadline };
            let ghost v = sleeper.deep_view();
            self.sleepers.push(sleeper);
            assert(self.sleepers.deep_view() =~= before.push(v));
        }
        id
    }

    /// Gives a sleep up: a race's losing timer stops counting.
    pub fn cancel(&mut self, id: u64)
        ensures
            final(self).parked() == old(self).parked().filter(other_sleeper(id)),
            final(self).elapsed() == old(self).elapsed(),
            final(self).begun() == old(self).begun(),
    {
        let ghost s = self.sleepers.deep_view();
        let ghost p = other_sleeper(id);
        let mut kept: Vec<Sleeper> = Vec::new();
        proof {
            reveal(Seq::filter);
            assert(kept.deep_view() =~= s.take(0).filter(p));
        }
        for i in 0..self.sleepers.len()
            invariant
                s == self.sleepers.deep_view(),
                p == other_sleeper(id),
                kept.deep_view() == s.take(i as int).filter(p),
        {
            proof {
                lemma_filter_step(s, p, i as int);
            }
            let sleeper: Sleeper = self.sleepers[i];
            if sleeper.id != id {
                let ghost before = kept.deep_view();
                kept.push(sleeper);
                assert(kept.deep_view() =~= before.push(s[i as int]));
            }
        }
        proof {
            lemma_take_all(s);
        }
        self.sleepers = kept;
    }

    /// Whether at least so many sleeps are parked.
    pub fn has_sleepers(&self, n: usize) -> (r: bool)
        ensures
            r == (self.parked().len() >= n),
    {
        self.sleepers.len() >= n
    }
}

// ---- tuning ----

/// Tuning the edges inject at construction; the default fits production.
#[derive(Debug, Clone, Copy)]
pub struct ClientConfig {
    /// Deadline for reaching a relay.
    pub connect_timeout: Duration,
    /// How long closing waits for the endpoint to shut down gracefully.
    pub close_deadline: Duration,
}

impl Default for ClientConfig {
    fn default() -> (r: Self)
        ensures
            r.connect_timeout.length() == 10_000_000_000,
            r.close_deadline.length() == 5_000_000_000,
    {
        ClientConfig { connect_timeout: Duration::from_secs(10), close_deadline: Duration::from_secs(5) }
    }
}

} // verus!
