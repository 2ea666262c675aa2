//! The reach ledger: per-peer evidence about direct reachability, and the
//! policy that spends it. The ledger holds no clock and does no I/O: `now` is
//! data, `restore` is handed the persisted rows, and `unreachable_snapshot`
//! returns what to write.
use vstd::prelude::*;

use crate::ids::{bytes_before, bytes_less, same_bytes, PublicKey};
use crate::order::{Duplicate, Ranked};
use crate::seqs::{lemma_filter_map_step, lemma_take_all, lemma_take_step};
use crate::time::{least, Duration};

verus! {

/// How long a failed dial suppresses the next one.
pub const FAIL_COOLDOWN_MS: u64 = 60_000;

/// How long evidence of reachability stays worth acting on.
pub const EVIDENCE_TTL_MS: u64 = 300_000;

/// What is known of a peer, as wall-clock milliseconds; 0 where nothing is.
#[derive(Clone, Copy, Debug, PartialEq, Eq, Structural)]
pub struct Reach {
    /// Last evidence the peer is reachable: a delivery it took, a push it
    /// declined, or a connection it opened to us.
    pub seen_ms: u64,
    /// Last dial that got nowhere.
    pub failed_ms: u64,
}

impl Default for Reach {
    fn default() -> (r: Self)
        ensures
            r == never(),
    {
        Reach { seen_ms: 0, failed_ms: 0 }
    }
}

/// Nothing known.
pub open spec fn never() -> Reach {
    Reach { seen_ms: 0, failed_ms: 0 }
}

/// How much later than a moment it is; nothing where the moment is ahead.
pub open spec fn age(now: u64, at: u64) -> nat {
    if now >= at {
        (now - at) as nat
    } else {
        0
    }
}

/// How long a dial is worth, in nanoseconds: nothing while a failure cools
/// down; three seconds for a peer seen lately, 600 ms for any other, at most
/// the connect timeout. A stamp of 0 is no evidence, whatever time it is.
pub open spec fn budget(reach: Reach, now: u64, connect_timeout: Duration) -> Option<nat> {
    if reach.failed_ms > 0 && age(now, reach.failed_ms) < FAIL_COOLDOWN_MS {
        None
    } else if reach.seen_ms > 0 && age(now, reach.seen_ms) < EVIDENCE_TTL_MS {
        Some(least(connect_timeout.length(), 3_000_000_000))
    } else {
        Some(least(connect_timeout.length(), 600_000_000))
    }
}

pub open spec fn span(o: Option<Duration>) -> Option<nat> {
    match o {
        Some(d) => Some(d.length()),
        None => None,
    }
}

/// How long to spend dialing one recipient directly; `None` is not at all. A
/// recipient that is simply offline must not cost a send anything, however
/// often one is sent to it.
pub fn direct_budget(reach: Reach, now: u64, connect_timeout: Duration) -> (r: Option<Duration>)
    ensures
        span(r) == budget(reach, now, connect_timeout),
{
    if reach.failed_ms > 0 && now.saturating_sub(reach.failed_ms) < FAIL_COOLDOWN_MS {
        return None;
    }
    let cap: Duration = if reach.seen_ms > 0 && now.saturating_sub(reach.seen_ms) < EVIDENCE_TTL_MS {
        Duration::from_secs(3)
    } else {
        Duration::from_millis(600)
    };
    Some(connect_timeout.min(cap))
}

/// The shared fact table: what is known of each peer, one row per key, in the
/// order of keys.
pub struct ReachLedger {
    rows: Vec<(PublicKey, Reach)>,
}

impl DeepView for Reach {
    type V = Reach;

    open spec fn deep_view(&self) -> Reach {
        *self
    }
}

impl Duplicate for Reach {
    fn duplicate(&self) -> (r: Self) {
        *self
    }
}

/// The table: what each known peer's row says.
pub open spec fn facts(rows: Seq<(PublicKey, Reach)>) -> Map<PublicKey, Reach>
    decreases rows.len(),
{
    if rows.len() == 0 {
        Map::empty()
    } else {
        facts(rows.drop_last()).insert(rows.last().0, rows.last().1)
    }
}

/// What is known of a peer: nothing where it has no row.
pub open spec fn known(table: Map<PublicKey, Reach>, key: PublicKey) -> Reach {
    if table.dom().contains(key) {
        table[key]
    } else {
        never()
    }
}

/// The table once a peer took a delivery.
pub open spec fn after_delivery(table: Map<PublicKey, Reach>, key: PublicKey, now: u64) -> Map<
    PublicKey,
    Reach,
> {
    table.insert(key, Reach { seen_ms: now, failed_ms: 0 })
}

/// The table once a peer showed that a path exists.
pub open spec fn after_sight(table: Map<PublicKey, Reach>, key: PublicKey, now: u64) -> Map<
    PublicKey,
    Reach,
> {
    table.insert(key, Reach { seen_ms: now, failed_ms: known(table, key).failed_ms })
}

/// The table once a dial to a peer got nowhere.
pub open spec fn after_failure(table: Map<PublicKey, Reach>, key: PublicKey, now: u64) -> Map<
    PublicKey,
    Reach,
> {
    table.insert(key, Reach { seen_ms: known(table, key).seen_ms, failed_ms: now })
}

/// Rows in strictly ascending order of keys.
pub open spec fn keyed(rows: Seq<(PublicKey, Reach)>) -> bool {
    forall|i: int, j: int|
        0 <= i < j < rows.len() ==> bytes_less((#[trigger] rows[i]).0.0, (#[trigger] rows[j]).0.0)
}

proof fn lemma_facts(rows: Seq<(PublicKey, Reach)>)
    requires
        keyed(rows),
    ensures
        forall|i: int|
            0 <= i < rows.len() ==> facts(rows).dom().contains((#[trigger] rows[i]).0) && facts(
                rows,
            )[rows[i].0] == rows[i].1,
        forall|k: PublicKey| #[trigger]
            facts(rows).dom().contains(k) ==> exists|i: int|
                0 <= i < rows.len() && (#[trigger] rows[i]).0 == k,
    decreases rows.len(),
{
    if rows.len() > 0 {
        let d = rows.drop_last();
        assert(keyed(d)) by {
            assert forall|i: int, j: int| 0 <= i < j < d.len() implies bytes_less((#[trigger] d[i]).0.0, (#[trigger] d[j]).0.0) by {
                assert(bytes_less(rows[i].0.0, rows[j].0.0));
            }
        }
        lemma_facts(d);
        let last = rows.last();
        assert forall|i: int| 0 <= i < rows.len() implies facts(rows).dom().contains((#[trigger] rows[i]).0) && facts(rows)[rows[i].0] == rows[i].1 by {
            if i < d.len() {
                assert(d[i] == rows[i]);
                assert(bytes_less(rows[i].0.0, rows[rows.len() - 1].0.0));
                PublicKey::order_laws(last.0, last.0, last.0);
            }
        }
        assert forall|k: PublicKey| #[trigger] facts(rows).dom().contains(k) implies exists|i: int| 0 <= i < rows.len() && (#[trigger] rows[i]).0 == k by {
            if k == last.0 {
                assert(rows[rows.len() - 1].0 == k);
            } else {
                assert(facts(d).dom().contains(k));
                let i = choose|i: int| 0 <= i < d.len() && (#[trigger] d[i]).0 == k;
                assert(rows[i] == d[i]);
            }
        }
    }
}

proof fn lemma_facts_insert(rows: Seq<(PublicKey, Reach)>, k: int, key: PublicKey, reach: Reach)
    requires
        0 <= k <= rows.len(),
        keyed(rows.insert(k, (key, reach))),
        keyed(rows),
    ensures
        facts(rows.insert(k, (key, reach))) == facts(rows).insert(key, reach),
{
    let t = rows.insert(k, (key, reach));
    lemma_facts(t);
    lemma_facts(rows);
    assert(t[k] == (key, reach));
    assert forall|x: PublicKey| facts(t).dom().contains(x) <==> #[trigger] facts(rows).insert(key, reach).dom().contains(x) by {
        if facts(t).dom().contains(x) {
            let i = choose|i: int| 0 <= i < t.len() && (#[trigger] t[i]).0 == x;
            if i < k {
                assert(rows[i] == t[i]);
            } else if i > k {
                assert(rows[i - 1] == t[i]);
            }
        }
        if facts(rows).dom().contains(x) {
            let i = choose|i: int| 0 <= i < rows.len() && (#[trigger] rows[i]).0 == x;
            if i < k {
                assert(t[i] == rows[i]);
            } else {
                assert(t[i + 1] == rows[i]);
            }
        }
    }
    assert forall|x: PublicKey| facts(rows).insert(key, reach).dom().contains(x) implies facts(t)[x]
        == #[trigger] facts(rows).insert(key, reach)[x] by {
        let i = choose|i: int| 0 <= i < t.len() && (#[trigger] t[i]).0 == x;
        if i < k {
            assert(rows[i] == t[i]);
        } else if i > k {
            assert(rows[i - 1] == t[i]);
        }
        if x == key {
            assert(t[k].0 == x);
        } else {
            assert(i != k);
        }
    }
    assert(facts(t) =~= facts(rows).insert(key, reach));
}

proof fn lemma_facts_update(rows: Seq<(PublicKey, Reach)>, k: int, reach: Reach)
    requires
        0 <= k < rows.len(),
        keyed(rows),
    ensures
        keyed(rows.update(k, (rows[k].0, reach))),
        facts(rows.update(k, (rows[k].0, reach))) == facts(rows).insert(rows[k].0, reach),
{
    let t = rows.update(k, (rows[k].0, reach));
    assert(keyed(t)) by {
        assert forall|i: int, j: int| 0 <= i < j < t.len() implies bytes_less((#[trigger] t[i]).0.0, (#[trigger] t[j]).0.0) by {
            assert(t[i].0 == rows[i].0 && t[j].0 == rows[j].0);
        }
    }
    lemma_facts(t);
    lemma_facts(rows);
    let m = facts(rows).insert(rows[k].0, reach);
    assert forall|x: PublicKey| facts(t).dom().contains(x) <==> #[trigger] m.dom().contains(x) by {
        if facts(t).dom().contains(x) {
            let i = choose|i: int| 0 <= i < t.len() && (#[trigger] t[i]).0 == x;
            assert(rows[i].0 == x);
        }
        if facts(rows).dom().contains(x) {
            let i = choose|i: int| 0 <= i < rows.len() && (#[trigger] rows[i]).0 == x;
            assert(t[i].0 == x);
        }
        assert(t[k].0 == rows[k].0);
    }
    assert forall|x: PublicKey| m.dom().contains(x) implies facts(t)[x] == #[trigger] m[x] by {
        if x == rows[k].0 {
            assert(t[k] == (x, reach));
        } else {
            let i = choose|i: int| 0 <= i < rows.len() && (#[trigger] rows[i]).0 == x;
            assert(t[i] == rows[i]);
        }
    }
    assert(facts(t) =~= m);
}

/// Persisted failures read in order, a later row of a key over an earlier
/// one: those still cooling down, and not dated ahead of now.
pub open spec fn restored(persisted: Seq<([u8; 32], u64)>, now: u64) -> Map<PublicKey, Reach>
    decreases persisted.len(),
{
    if persisted.len() == 0 {
        Map::empty()
    } else {
        let rest = restored(persisted.drop_last(), now);
        let (key, failed_ms) = persisted.last();
        if failed_ms <= now && now - failed_ms < FAIL_COOLDOWN_MS {
            rest.insert(PublicKey(key), Reach { seen_ms: 0, failed_ms })
        } else {
            rest
        }
    }
}

/// A peer's failure is worth persisting: there is one, and it has not cooled
/// down.
pub open spec fn unreachable(reach: Reach, now: u64) -> bool {
    reach.failed_ms > 0 && age(now, reach.failed_ms) < FAIL_COOLDOWN_MS
}

pub open spec fn failure(now: u64) -> spec_fn((PublicKey, Reach)) -> Option<([u8; 32], u64)> {
    |e: (PublicKey, Reach)|
        if unreachable(e.1, now) {
            Some((e.0.0, e.1.failed_ms))
        } else {
            None
        }
}

impl ReachLedger {
    #[verifier::type_invariant]
    closed spec fn in_key_order(self) -> bool {
        keyed(self.rows.deep_view())
    }

    pub closed spec fn rows(&self) -> Seq<(PublicKey, Reach)> {
        self.rows.deep_view()
    }

    /// What the ledger knows.
    pub open spec fn table(&self) -> Map<PublicKey, Reach> {
        facts(self.rows())
    }

    /// Where a key's row is, or would be.
    fn place(&self, key: &PublicKey) -> (r: (usize, bool))
        ensures
            r.0 <= self.rows().len(),
            r.1 ==> r.0 < self.rows().len() && self.rows()[r.0 as int].0 == *key,
            !r.1 ==> forall|j: int|
                r.0 <= j < self.rows().len() ==> bytes_less(key.0, (#[trigger] self.rows()[j]).0.0),
            forall|j: int| 0 <= j < r.0 ==> bytes_less((#[trigger] self.rows()[j]).0.0, key.0),
    {
        proof {
            use_type_invariant(self);
        }
        let ghost s = self.rows.deep_view();
        let mut i: usize = 0;
        while i < self.rows.len() && bytes_before(&self.rows[i].0.0, &key.0)
            invariant
                i <= self.rows.len(),
                s == self.rows.deep_view(),
                forall|j: int| 0 <= j < i ==> bytes_less((#[trigger] s[j]).0.0, key.0),
            decreases self.rows.len() - i,
        {
            assert(s[i as int] == self.rows@[i as int].deep_view());
            i += 1;
        }
        if i < self.rows.len() {
            assert(s[i as int] == self.rows@[i as int].deep_view());
            if same_bytes(&self.rows[i].0.0, &key.0) {
                return (i, true);
            }
            proof {
                PublicKey::order_laws(s[i as int].0, *key, *key);
                assert(bytes_less(key.0, s[i as int].0.0));
                assert forall|j: int| i <= j < s.len() implies bytes_less(key.0, (#[trigger] s[j]).0.0) by {
                    if j > i {
                        assert(bytes_less(s[i as int].0.0, s[j].0.0));
                        PublicKey::order_laws(*key, s[i as int].0, s[j].0);
                    }
                }
            }
        }
        (i, false)
    }

    /// What is known of a peer.
    pub fn reach_of(&self, key: &PublicKey) -> (r: Reach)
        ensures
            r == known(self.table(), *key),
    {
        proof {
            use_type_invariant(self);
            lemma_facts(self.rows());
        }
        let (i, found): (usize, bool) = self.place(key);
        if found {
            assert(self.rows()[i as int] == self.rows@[i as int].deep_view());
            self.rows[i].1
        } else {
            proof {
                if self.table().dom().contains(*key) {
                    let j = choose|j: int|
                        0 <= j < self.rows().len() && (#[trigger] self.rows()[j]).0 == *key;
                    PublicKey::order_laws(*key, *key, *key);
                }
            }
            Reach::default()
        }
    }

    fn set(&mut self, key: PublicKey, reach: Reach)
        ensures
            final(self).table() == old(self).table().insert(key, reach),
    {
        let (i, found): (usize, bool) = self.place(&key);
        proof {
            use_type_invariant(&*self);
        }
        let ghost s = self.rows.deep_view();
        let mut rows: Vec<(PublicKey, Reach)> = Vec::new();
        assert(rows.deep_view() =~= s.take(0));
        for j in 0..self.rows.len()
            invariant
                s == self.rows.deep_view(),
                rows.deep_view() == s.take(j as int),
        {
            proof {
                lemma_take_step(s, j as int);
            }
            let ghost before = rows.deep_view();
            rows.push(self.rows[j]);
            assert(rows.deep_view() =~= before.push(s[j as int]));
        }
        proof {
            lemma_take_all(s);
        }
        if found {
            proof {
                lemma_facts_update(s, i as int, reach);
            }
            rows.set(i, (key, reach));
            assert(rows.deep_view() =~= s.update(i as int, (key, reach)));
        } else {
            let ghost held = rows@;
            rows.insert(i, (key, reach));
            proof {
                assert(rows@ == held.insert(i as int, (key, reach)));
                assert(rows.deep_view() =~= s.insert(i as int, (key, reach)));
                let t = s.insert(i as int, (key, reach));
                assert(keyed(t)) by {
                    assert forall|a: int, b: int| 0 <= a < b < t.len() implies bytes_less((#[trigger] t[a]).0.0, (#[trigger] t[b]).0.0) by {
                        if b < i {
                            assert(bytes_less(s[a].0.0, s[b].0.0));
                        } else if b == i {
                            assert(bytes_less(s[a].0.0, key.0));
                        } else if a < i {
                            assert(bytes_less(s[a].0.0, s[b - 1].0.0));
                        } else if a == i {
                            assert(bytes_less(key.0, s[b - 1].0.0));
                        } else {
                            assert(bytes_less(s[a - 1].0.0, s[b - 1].0.0));
                        }
                    }
                }
                lemma_facts_insert(s, i as int, key, reach);
            }
        }
        self.rows = rows;
    }

    /// Seeds the ledger from the persisted failures. Only failures are
    /// restored: a path that existed in the last run may not exist now.
    pub fn restore(persisted: Vec<([u8; 32], u64)>, now: u64) -> (r: Self)
        ensures
            r.table() == restored(persisted@, now),
    {
        let rows: Vec<(PublicKey, Reach)> = Vec::new();
        assert(rows.deep_view() =~= Seq::<(PublicKey, Reach)>::empty());
        let mut ledger: ReachLedger = ReachLedger { rows };
        let ghost s = persisted@;
        for i in 0..persisted.len()
            invariant
                s == persisted@,
                ledger.table() == restored(s.take(i as int), now),
        {
            proof {
                lemma_take_step(s, i as int);
            }
            let failed_ms: u64 = persisted[i].1;
            if failed_ms <= now && now - failed_ms < FAIL_COOLDOWN_MS {
                ledger.set(PublicKey(persisted[i].0), Reach { seen_ms: 0, failed_ms });
            }
        }
        proof {
            lemma_take_all(s);
        }
        ledger
    }

    /// How long a direct dial to a peer is worth right now.
    pub fn dial_budget(&self, key: &PublicKey, now: u64, connect_timeout: Duration) -> (r: Option<
        Duration,
    >)
        ensures
            span(r) == budget(known(self.table(), *key), now, connect_timeout),
    {
        direct_budget(self.reach_of(key), now, connect_timeout)
    }

    /// A delivery the peer accepted: the strongest evidence, so it also clears
    /// a pending cooldown.
    pub fn note_delivered(&mut self, key: &PublicKey, now: u64)
        ensures
            final(self).table() == after_delivery(old(self).table(), *key, now),
    {
        self.set(*key, Reach { seen_ms: now, failed_ms: 0 });
    }

    /// Proof that a path exists, and nothing more: a pending cooldown is left
    /// to expire on its own.
    pub fn note_seen(&mut self, key: &PublicKey, now: u64)
        ensures
            final(self).table() == after_sight(old(self).table(), *key, now),
    {
        let reach: Reach = self.reach_of(key);
        self.set(*key, Reach { seen_ms: now, failed_ms: reach.failed_ms });
    }

    /// A dial got nowhere: the cooldown starts.
    pub fn note_failed(&mut self, key: &PublicKey, now: u64)
        ensures
            final(self).table() == after_failure(old(self).table(), *key, now),
    {
        let reach: Reach = self.reach_of(key);
        self.set(*key, Reach { seen_ms: reach.seen_ms, failed_ms: now });
    }

    /// The failures worth persisting, in the order of keys: what has cooled
    /// down or a success cleared is not among them, and never a positive fact.
    pub fn unreachable_snapshot(&self, now: u64) -> (r: Vec<([u8; 32], u64)>)
        ensures
            r@ == self.rows().filter_map(failure(now)),
            forall|key: [u8; 32], at: u64|
                #[trigger] r@.contains((key, at)) <==> (self.table().dom().contains(PublicKey(key))
                    && unreachable(self.table()[PublicKey(key)], now)
                    && self.table()[PublicKey(key)].failed_ms == at),
            forall|i: int, j: int|
                0 <= i < j < r@.len() ==> bytes_less((#[trigger] r@[i]).0, (#[trigger] r@[j]).0),
    {
        let ghost s = self.rows.deep_view();
        let ghost f = failure(now);
        let mut out: Vec<([u8; 32], u64)> = Vec::new();
        assert(out@ =~= s.take(0).filter_map(f));
        for i in 0..self.rows.len()
            invariant
                s == self.rows.deep_view(),
                f == failure(now),
                out@ == s.take(i as int).filter_map(f),
        {
            proof {
                lemma_filter_map_step(s, f, i as int);
                assert(s[i as int] == self.rows@[i as int].deep_view());
            }
            let reach: Reach = self.rows[i].1;
            if reach.failed_ms > 0 && now.saturating_sub(reach.failed_ms) < FAIL_COOLDOWN_MS {
                out.push((self.rows[i].0.0, reach.failed_ms));
            }
        }
        proof {
            lemma_take_all(s);
            use_type_invariant(self);
            lemma_snapshot(s, now);
            lemma_snapshot_order(s, now);
        }
        out
    }
}

proof fn lemma_snapshot(rows: Seq<(PublicKey, Reach)>, now: u64)
    requires
        keyed(rows),
    ensures
        forall|key: [u8; 32], at: u64|
            #[trigger] rows.filter_map(failure(now)).contains((key, at)) <==> (facts(
                rows,
            ).dom().contains(PublicKey(key)) && unreachable(facts(rows)[PublicKey(key)], now)
                && facts(rows)[PublicKey(key)].failed_ms == at),
{
    let f = failure(now);
    let out = rows.filter_map(f);
    lemma_facts(rows);
    assert forall|key: [u8; 32], at: u64| #[trigger] out.contains((key, at)) <==> (facts(rows).dom().contains(
        PublicKey(key),
    ) && unreachable(facts(rows)[PublicKey(key)], now) && facts(rows)[PublicKey(key)].failed_ms == at) by {
        let pair = (key, at);
        if out.contains(pair) {
            rows.lemma_filter_map_contains(f, pair);
            let i = choose|i: int| 0 <= i < rows.len() && f(#[trigger] rows[i]) == Some(pair);
            assert(rows[i].0 == PublicKey(key));
        }
        if facts(rows).dom().contains(PublicKey(key)) && unreachable(facts(rows)[PublicKey(key)], now)
            && facts(rows)[PublicKey(key)].failed_ms == at {
            let i = choose|i: int| 0 <= i < rows.len() && (#[trigger] rows[i]).0 == PublicKey(key);
            crate::seqs::lemma_filter_map_has(rows, f, i);
        }
    }
}

proof fn lemma_snapshot_order(rows: Seq<(PublicKey, Reach)>, now: u64)
    requires
        keyed(rows),
    ensures
        forall|i: int, j: int|
            0 <= i < j < rows.filter_map(failure(now)).len() ==> bytes_less(
                (#[trigger] rows.filter_map(failure(now))[i]).0,
                (#[trigger] rows.filter_map(failure(now))[j]).0,
            ),
    decreases rows.len(),
{
    let f = failure(now);
    if rows.len() == 0 {
        assert(rows.filter_map(f) =~= Seq::<([u8; 32], u64)>::empty());
    } else {
        let d = rows.drop_last();
        let n = rows.len() - 1;
        assert(keyed(d)) by {
            assert forall|i: int, j: int| 0 <= i < j < d.len() implies bytes_less((#[trigger] d[i]).0.0, (#[trigger] d[j]).0.0) by {
                assert(bytes_less(rows[i].0.0, rows[j].0.0));
            }
        }
        lemma_snapshot_order(d, now);
        lemma_take_all(rows);
        assert(rows.take(n) =~= d);
        lemma_filter_map_step(rows, f, n);
        let before = d.filter_map(f);
        let whole = rows.filter_map(f);
        assert forall|i: int, j: int| 0 <= i < j < whole.len() implies bytes_less((#[trigger] whole[i]).0, (#[trigger] whole[j]).0) by {
            assert(whole[i] == before[i]);
            if j < before.len() {
                assert(whole[j] == before[j]);
            } else {
                assert(before.contains(before[i]));
                d.lemma_filter_map_contains(f, before[i]);
                let k = choose|k: int| 0 <= k < d.len() && f(#[trigger] d[k]) == Some(before[i]);
                assert(bytes_less(rows[k].0.0, rows[n].0.0));
            }
        }
    }
}

// ---- laws ----

/// A recipient just found unreachable costs the next sends nothing, until the
/// cooldown is over; then it is tried again.
pub proof fn law_failure_cools_down(reach: Reach, failed: u64, now: u64, timeout: Duration)
    requires
        0 < failed <= now,
    ensures
        budget(Reach { failed_ms: failed, ..reach }, now, timeout) is None <==> now - failed
            < FAIL_COOLDOWN_MS,
{
}

/// A peer nothing is known of gets one cheap probe, at any time.
pub proof fn law_unknown_is_probed(now: u64, timeout: Duration)
    ensures
        budget(never(), now, timeout) == Some(least(timeout.length(), 600_000_000)),
{
}

/// No dial is worth more than the connect timeout, nor more than three
/// seconds.
pub proof fn law_budget_is_capped(reach: Reach, now: u64, timeout: Duration)
    requires
        budget(reach, now, timeout) is Some,
    ensures
        budget(reach, now, timeout)->0 <= timeout.length(),
        budget(reach, now, timeout)->0 <= 3_000_000_000,
{
}

/// What a later process restores of a snapshot taken now: each failure in it
/// still suppresses dials, and nothing positive comes back.
pub proof fn law_restore_of_snapshot(rows: Seq<(PublicKey, Reach)>, now: u64, key: PublicKey)
    requires
        keyed(rows),
        forall|i: int| 0 <= i < rows.len() ==> (#[trigger] rows[i]).1.failed_ms <= now,
    ensures
        restored(rows.filter_map(failure(now)), now).dom().contains(key) <==> (facts(
            rows,
        ).dom().contains(key) && unreachable(facts(rows)[key], now)),
        restored(rows.filter_map(failure(now)), now).dom().contains(key) ==> restored(
            rows.filter_map(failure(now)),
            now,
        )[key] == (Reach { seen_ms: 0, failed_ms: facts(rows)[key].failed_ms }),
    decreases rows.len(),
{
    let f = failure(now);
    if rows.len() == 0 {
        assert(rows.filter_map(f) =~= Seq::<([u8; 32], u64)>::empty());
    } else {
        let d = rows.drop_last();
        assert forall|i: int| 0 <= i < d.len() implies (#[trigger] d[i]).1.failed_ms <= now by {
            assert(d[i] == rows[i]);
        }
        assert(keyed(d)) by {
            assert forall|i: int, j: int| 0 <= i < j < d.len() implies bytes_less((#[trigger] d[i]).0.0, (#[trigger] d[j]).0.0) by {
                assert(bytes_less(rows[i].0.0, rows[j].0.0));
            }
        }
        law_restore_of_snapshot(d, now, key);
        lemma_facts(d);
        let n = rows.len() - 1;
        lemma_take_all(rows);
        assert(rows.take(n) =~= d);
        lemma_filter_map_step(rows, f, n);
        let last = rows[n];
        assert(last.1.failed_ms <= now);
        if unreachable(last.1, now) {
            let whole = rows.filter_map(f);
            assert(whole.drop_last() =~= d.filter_map(f));
            assert(PublicKey(last.0.0) == last.0);
        } else if key == last.0 {
            if facts(d).dom().contains(key) {
                let i = choose|i: int| 0 <= i < d.len() && (#[trigger] d[i]).0 == key;
                assert(bytes_less(rows[i].0.0, rows[n].0.0));
                PublicKey::order_laws(key, key, key);
            }
        }
    }
}

/// A peer seen within the last five minutes is worth three seconds; without
/// such evidence a peer gets the cheap probe. A dial that failed within the
/// last minute is worth nothing, whatever else is known.
pub proof fn law_what_a_dial_is_worth(reach: Reach, now: u64, timeout: Duration)
    requires
        reach.seen_ms <= now,
        reach.failed_ms <= now,
    ensures
        ({
            let cooling = reach.failed_ms > 0 && now - reach.failed_ms < 60_000;
            let fresh = reach.seen_ms > 0 && now - reach.seen_ms < 300_000;
            match budget(reach, now, timeout) {
                None => cooling,
                Some(n) => {
                    &&& !cooling
                    &&& fresh ==> n == least(timeout.length(), 3_000_000_000)
                    &&& !fresh ==> n == least(timeout.length(), 600_000_000)
                }
            }
        }),
{
}

/// A delivery taken clears a cooldown: the next dial gets its full time. What
/// is known of others stays.
pub proof fn law_delivery_clears_the_cooldown(
    table: Map<PublicKey, Reach>,
    key: PublicKey,
    at: u64,
    now: u64,
    timeout: Duration,
    other: PublicKey,
)
    requires
        0 < at <= now,
        now - at < EVIDENCE_TTL_MS,
    ensures
        budget(known(after_delivery(table, key, at), key), now, timeout) == Some(
            least(timeout.length(), 3_000_000_000),
        ),
        other != key ==> known(after_delivery(table, key, at), other) == known(table, other),
{
}

/// A sight of a peer is evidence, but ends no cooldown that is running. What is
/// known of others stays.
pub proof fn law_sight_ends_no_cooldown(
    table: Map<PublicKey, Reach>,
    key: PublicKey,
    at: u64,
    now: u64,
    timeout: Duration,
    other: PublicKey,
)
    requires
        0 < at <= now,
        now - at < EVIDENCE_TTL_MS,
    ensures
        ({
            let after = known(after_sight(table, key, at), key);
            &&& budget(after, now, timeout) is None <==> budget(known(table, key), now, timeout) is None
            &&& budget(after, now, timeout) is Some ==> budget(after, now, timeout) == Some(
                least(timeout.length(), 3_000_000_000),
            )
        }),
        other != key ==> known(after_sight(table, key, at), other) == known(table, other),
{
}

/// A failed dial silences a peer for a minute; after that it is worth what it
/// was without the failure. What is known of others stays.
pub proof fn law_failure_silences_for_a_minute(
    table: Map<PublicKey, Reach>,
    key: PublicKey,
    at: u64,
    now: u64,
    timeout: Duration,
    other: PublicKey,
)
    requires
        0 < at <= now,
    ensures
        ({
            let before = known(table, key);
            let after = known(after_failure(table, key, at), key);
            &&& now - at < 60_000 ==> budget(after, now, timeout) is None
            &&& now - at >= 60_000 ==> budget(after, now, timeout) == budget(
                Reach { failed_ms: 0, ..before },
                now,
                timeout,
            )
        }),
        other != key ==> known(after_failure(table, key, at), other) == known(table, other),
{
}

/// A persisted row still counts: its failure is past and has not cooled down.
pub open spec fn still_counts(row: ([u8; 32], u64), now: u64) -> bool {
    row.1 <= now && now - row.1 < 60_000
}

/// What is restored of a peer is the last of its rows that still counts, as a
/// failure and nothing else; a peer without one is not known.
pub proof fn law_restored_failures(persisted: Seq<([u8; 32], u64)>, now: u64, key: [u8; 32])
    ensures
        ({
            let table = restored(persisted, now);
            if table.dom().contains(PublicKey(key)) {
                exists|i: int|
                    0 <= i < persisted.len() && (#[trigger] persisted[i]).0 == key && still_counts(
                        persisted[i],
                        now,
                    ) && table[PublicKey(key)] == (Reach {
                        seen_ms: 0,
                        failed_ms: persisted[i].1,
                    }) && forall|j: int|
                        i < j < persisted.len() && (#[trigger] persisted[j]).0 == key
                            ==> !still_counts(persisted[j], now)
            } else {
                forall|i: int|
                    0 <= i < persisted.len() && (#[trigger] persisted[i]).0 == key ==> !still_counts(
                        persisted[i],
                        now,
                    )
            }
        }),
    decreases persisted.len(),
{
    if persisted.len() > 0 {
        let d = persisted.drop_last();
        law_restored_failures(d, now, key);
        let n = persisted.len() - 1;
        let row = persisted.last();
        assert(persisted[n] == row);
        let table = restored(persisted, now);
        if row.0 == key && still_counts(row, now) {
            assert(table[PublicKey(key)] == (Reach { seen_ms: 0, failed_ms: row.1 }));
        } else {
            assert(PublicKey(row.0) == PublicKey(key) ==> row.0 == key);
            if table.dom().contains(PublicKey(key)) {
                let i = choose|i: int|
                    0 <= i < d.len() && (#[trigger] d[i]).0 == key && still_counts(d[i], now)
                        && restored(d, now)[PublicKey(key)] == (Reach {
                        seen_ms: 0,
                        failed_ms: d[i].1,
                    }) && forall|j: int|
                        i < j < d.len() && (#[trigger] d[j]).0 == key ==> !still_counts(d[j], now);
                assert(persisted[i] == d[i]);
                assert forall|j: int|
                    i < j < persisted.len() && (#[trigger] persisted[j]).0 == key implies !still_counts(
                    persisted[j],
                    now,
                ) by {
                    if j < n {
                        assert(d[j] == persisted[j]);
                    }
                }
            } else {
                assert forall|i: int|
                    0 <= i < persisted.len() && (#[trigger] persisted[i]).0 == key implies !still_counts(
                    persisted[i],
                    now,
                ) by {
                    if i < n {
                        assert(d[i] == persisted[i]);
                    }
                }
            }
        }
    }
}

} // verus!
