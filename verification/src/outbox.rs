//! The outbox: the ledger of deliveries still owed, per message and relay.
//!
//! The ledger owes recipients, not dial strings: the relay set staged at send
//! time is a snapshot, and records move. Every flush first reconciles each
//! message's entries against current knowledge: recipients re-resolve,
//! entries for relays no longer owed are released, newly owed relays get
//! entries that inherit the message's age, and what every recipient has
//! durably acked is settled outright.
use vstd::prelude::*;

use crate::client::{trusted_record, Client, ClientView, OutboxEntry, OutboxView};
use crate::history::{Conversation, ConversationView, Envelope, EnvelopeView};
use crate::ids::{BlobHash, MessageId, PublicKey};
use crate::order::{ascending, ascending_list, copies, holds, lemma_list_exists, lemma_list_is, lemma_sorted_contains, lists, set_difference, set_insert, sort_stably, sorted, Duplicate, Ranked};
use crate::record::RelayEntry;
use crate::relays::{effective, mailbox_list, mailboxes, oldest};
use crate::seqs::{count_where, first, gathered, lemma_filter, lemma_filter_all, lemma_filter_none, lemma_filter_step, lemma_first, lemma_first_found, lemma_first_step, lemma_gathered_step, lemma_map_step, lemma_take_all, lemma_take_step, some};
use crate::text::same_text;

verus! {

/// Outbox entries older than this are no longer retried, but stay surfaced:
/// thirty days, the relays' default retention.
pub const OUTBOX_GIVE_UP_MS: u64 = 30 * 24 * 60 * 60 * 1000;

/// How many owed deliveries a flush has in flight at once.
pub const FLUSH_CONCURRENCY: usize = 8;

/// What one outbox flush accomplished.
#[derive(Debug, Clone, Copy)]
pub struct FlushReport {
    pub delivered: usize,
    pub pending: usize,
    /// Entries past the give-up window: left in place, no longer retried.
    pub expired: usize,
    /// Entries settled without a deposit: released debt, not delivery.
    pub released: usize,
}

impl Default for FlushReport {
    fn default() -> (r: Self)
        ensures
            r == (FlushReport { delivered: 0, pending: 0, expired: 0, released: 0 }),
    {
        FlushReport { delivered: 0, pending: 0, expired: 0, released: 0 }
    }
}

// ---- stored envelopes and acks ----

pub open spec fn conversation_is(id: MessageId) -> spec_fn(ConversationView) -> bool {
    |x: ConversationView| x.id == id
}

pub open spec fn envelope_is(id: MessageId) -> spec_fn(EnvelopeView) -> bool {
    |e: EnvelopeView| e.id == id
}

/// One stored envelope, by conversation and message id.
pub open spec fn stored_envelope(
    c: ClientView,
    conversation: MessageId,
    message: MessageId,
) -> Option<EnvelopeView> {
    match first(c.conversations, conversation_is(conversation)) {
        Some(x) => first(x.envelopes, envelope_is(message)),
        None => None,
    }
}

pub open spec fn acks_for(message: MessageId) -> spec_fn((MessageId, Seq<PublicKey>)) -> bool {
    |e: (MessageId, Seq<PublicKey>)| e.0 == message
}

/// The devices that confirmed a durable store of a message.
pub open spec fn confirmed(c: ClientView, message: MessageId) -> Seq<PublicKey> {
    match first(c.acks, acks_for(message)) {
        Some(e) => e.1,
        None => Seq::empty(),
    }
}

/// The index of a conversation by id.
pub fn find_conversation(conversations: &Vec<Conversation>, id: &MessageId) -> (r: Option<usize>)
    ensures
        match r {
            Some(i) => i < conversations.len() && first(
                conversations.deep_view(),
                conversation_is(*id),
            ) == Some(conversations.deep_view()[i as int]),
            None => first(conversations.deep_view(), conversation_is(*id)) is None,
        },
{
    let ghost s = conversations.deep_view();
    let ghost p = conversation_is(*id);
    let mut i: usize = 0;
    while i < conversations.len()
        invariant
            s == conversations.deep_view(),
            p == conversation_is(*id),
            i <= conversations.len(),
            first(s.take(i as int), p) is None,
        decreases conversations.len() - i,
    {
        proof {
            lemma_first_step(s, p, i as int);
        }
        if conversations[i].id == *id {
            proof {
                lemma_first_found(s, p, i + 1);
            }
            return Some(i);
        }
        i += 1;
    }
    proof {
        lemma_take_all(s);
    }
    None
}

/// The index of an envelope by id.
pub fn find_envelope_in(envelopes: &Vec<Envelope>, id: &MessageId) -> (r: Option<usize>)
    ensures
        match r {
            Some(i) => i < envelopes.len() && first(envelopes.deep_view(), envelope_is(*id)) == Some(
                envelopes.deep_view()[i as int],
            ),
            None => first(envelopes.deep_view(), envelope_is(*id)) is None,
        },
{
    let ghost s = envelopes.deep_view();
    let ghost p = envelope_is(*id);
    let mut i: usize = 0;
    while i < envelopes.len()
        invariant
            s == envelopes.deep_view(),
            p == envelope_is(*id),
            i <= envelopes.len(),
            first(s.take(i as int), p) is None,
        decreases envelopes.len() - i,
    {
        proof {
            lemma_first_step(s, p, i as int);
        }
        if envelopes[i].id == *id {
            proof {
                lemma_first_found(s, p, i + 1);
            }
            return Some(i);
        }
        i += 1;
    }
    proof {
        lemma_take_all(s);
    }
    None
}

impl Client {
    /// One stored envelope by conversation and message id.
    pub fn load_envelope(&self, conversation: MessageId, message: MessageId) -> (r: Option<&Envelope>)
        ensures
            match r {
                Some(e) => Some(e.deep_view()) == stored_envelope(
                    self.deep_view(),
                    conversation,
                    message,
                ),
                None => stored_envelope(self.deep_view(), conversation, message) is None,
            },
    {
        match find_conversation(&self.conversations, &conversation) {
            Some(i) => {
                let envelopes: &Vec<Envelope> = &self.conversations[i].envelopes;
                match find_envelope_in(envelopes, &message) {
                    Some(j) => Some(&envelopes[j]),
                    None => None,
                }
            },
            None => None,
        }
    }

    /// The devices that confirmed a durable store of a message.
    pub fn acks_of(&self, message: &MessageId) -> (r: Vec<PublicKey>)
        ensures
            r.deep_view() == confirmed(self.deep_view(), *message),
    {
        let ghost s = self.acks.deep_view();
        let ghost p = acks_for(*message);
        let mut i: usize = 0;
        while i < self.acks.len()
            invariant
                s == self.acks.deep_view(),
                p == acks_for(*message),
                i <= self.acks.len(),
                first(s.take(i as int), p) is None,
            decreases self.acks.len() - i,
        {
            proof {
                lemma_first_step(s, p, i as int);
            }
            if self.acks[i].0 == *message {
                proof {
                    lemma_first_found(s, p, i + 1);
                }
                return copies(&self.acks[i].1);
            }
            i += 1;
        }
        proof {
            lemma_take_all(s);
        }
        let none: Vec<PublicKey> = Vec::new();
        assert(none.deep_view() =~= Seq::<PublicKey>::empty());
        none
    }
}

// ---- what a message still owes ----

/// A recipient still needs the mailbox copy: it has not acked, or the message
/// carries blobs, whose bytes recipients fetch from their own relay.
pub open spec fn unsettled(c: ClientView, e: EnvelopeView) -> spec_fn(PublicKey) -> bool {
    |k: PublicKey| e.blob_refs.len() > 0 || !confirmed(c, e.id).contains(k)
}

/// The mailboxes a key resolves to now.
pub open spec fn mailboxes_of(c: ClientView) -> spec_fn(PublicKey) -> Seq<Seq<char>> {
    |k: PublicKey| mailboxes(effective(c, k, trusted_record(c, k)))
}

/// The recipients a message still owes.
pub open spec fn debtors(c: ClientView, e: EnvelopeView) -> Seq<PublicKey> {
    e.recipients.filter(unsettled(c, e))
}

/// The mailboxes a message is owed to now.
pub open spec fn owed_now(c: ClientView, e: EnvelopeView) -> Set<Seq<char>> {
    gathered(debtors(c, e), mailboxes_of(c)).to_set()
}

pub open spec fn routeless(c: ClientView) -> spec_fn(PublicKey) -> bool {
    |k: PublicKey| mailboxes_of(c)(k).len() == 0
}

/// A recipient that resolves to no relay keeps every staged entry alive:
/// there is no evidence to drop the debt on.
pub open spec fn keeps_staged(c: ClientView, e: EnvelopeView) -> bool {
    some(debtors(c, e), routeless(c))
}

pub open spec fn of_message(m: MessageId) -> spec_fn(OutboxView) -> bool {
    |e: OutboxView| e.message == m
}

pub open spec fn still_due(c: ClientView, e: EnvelopeView) -> spec_fn(OutboxView) -> bool {
    |o: OutboxView| keeps_staged(c, e) || owed_now(c, e).contains(o.relay)
}

pub open spec fn relay_of() -> spec_fn(OutboxView) -> Seq<char> {
    |o: OutboxView| o.relay
}

pub open spec fn entry_for(m: MessageId, conversation: MessageId, created_ms: u64) -> spec_fn(
    Seq<char>,
) -> OutboxView {
    |relay: Seq<char>| OutboxView { message: m, relay, conversation, created_ms }
}

/// What the entries of one message become: those still due, then one for each
/// newly owed relay, of the message's age.
pub open spec fn reconciled(c: ClientView, entries: Seq<OutboxView>, e: EnvelopeView) -> Seq<
    OutboxView,
> {
    let kept = entries.filter(still_due(c, e));
    let fresh = ascending_list::<String>(
        owed_now(c, e).difference(entries.map_values(relay_of()).to_set()),
    );
    let age = oldest(entries, of_message(e.id));
    kept + fresh.map_values(entry_for(e.id, entries[0].conversation, age->0))
}

/// The entries of a message.
pub open spec fn entries_of(c: ClientView, m: MessageId) -> Seq<OutboxView> {
    c.outbox.filter(of_message(m))
}

/// What a message owes after reconciliation: nothing where its envelope is
/// gone, for nothing could ever be sent.
pub open spec fn owes(c: ClientView) -> spec_fn(MessageId) -> Seq<OutboxView> {
    |m: MessageId|
        {
            let entries = entries_of(c, m);
            match stored_envelope(c, entries[0].conversation, m) {
                Some(e) => reconciled(c, entries, e),
                None => Seq::empty(),
            }
        }
}

/// How many entries of a message are released.
pub open spec fn releases(c: ClientView, m: MessageId) -> nat {
    let entries = entries_of(c, m);
    match stored_envelope(c, entries[0].conversation, m) {
        Some(e) => (entries.len() - entries.filter(still_due(c, e)).len()) as nat,
        None => 0,
    }
}

pub open spec fn message_of() -> spec_fn(OutboxView) -> MessageId {
    |o: OutboxView| o.message
}

/// The messages with an entry, in ascending order.
pub open spec fn messages(c: ClientView) -> Seq<MessageId> {
    ascending_list::<MessageId>(c.outbox.map_values(message_of()).to_set())
}

/// What the ledger owes after reconciliation, message by message.
pub open spec fn owed(c: ClientView) -> Seq<OutboxView> {
    gathered(messages(c), owes(c))
}

pub open spec fn total_releases(c: ClientView, ms: Seq<MessageId>) -> nat
    decreases ms.len(),
{
    if ms.len() == 0 {
        0
    } else {
        total_releases(c, ms.drop_last()) + releases(c, ms.last())
    }
}

/// Older entries first.
pub open spec fn by_age() -> spec_fn(OutboxView, OutboxView) -> bool {
    |a: OutboxView, b: OutboxView| a.created_ms < b.created_ms
}

fn older(a: &OutboxEntry, b: &OutboxEntry) -> (r: bool)
    ensures
        r == by_age()(a.deep_view(), b.deep_view()),
{
    a.created_ms < b.created_ms
}

/// The messages with an entry, ascending.
fn message_list(outbox: &Vec<OutboxEntry>) -> (r: Vec<MessageId>)
    ensures
        lists::<MessageId>(
            r.deep_view(),
            outbox.deep_view().map_values(message_of()).to_set(),
        ),
{
    let ghost s = outbox.deep_view();
    let ghost f = message_of();
    let mut out: Vec<MessageId> = Vec::new();
    proof {
        assert(out.deep_view() =~= Seq::<MessageId>::empty());
        assert(out.deep_view().to_set() =~= s.take(0).map_values(f).to_set());
    }
    for i in 0..outbox.len()
        invariant
            s == outbox.deep_view(),
            f == message_of(),
            ascending::<MessageId>(out.deep_view()),
            out.deep_view().to_set() == s.take(i as int).map_values(f).to_set(),
    {
        set_insert(&mut out, outbox[i].message);
        proof {
            lemma_map_step(s, f, i as int);
            s.take(i as int).map_values(f).lemma_push_to_set_commute(f(s[i as int]));
        }
    }
    proof {
        lemma_take_all(s);
    }
    out
}

fn group(outbox: &Vec<OutboxEntry>, m: &MessageId) -> (r: Vec<OutboxEntry>)
    ensures
        r.deep_view() == outbox.deep_view().filter(of_message(*m)),
{
    let ghost s = outbox.deep_view();
    let ghost p = of_message(*m);
    let mut out: Vec<OutboxEntry> = Vec::new();
    proof {
        reveal(Seq::filter);
        assert(out.deep_view() =~= s.take(0).filter(p));
    }
    for i in 0..outbox.len()
        invariant
            s == outbox.deep_view(),
            p == of_message(*m),
            out.deep_view() == s.take(i as int).filter(p),
    {
        proof {
            lemma_filter_step(s, p, i as int);
        }
        if outbox[i].message == *m {
            let ghost before = out.deep_view();
            out.push(outbox[i].duplicate());
            assert(out.deep_view() =~= before.push(s[i as int]));
        }
    }
    proof {
        lemma_take_all(s);
    }
    out
}

impl Client {
    /// The mailboxes a message is owed to now, ascending, and whether some
    /// recipient resolves to none.
    fn current_debt(&self, envelope: &Envelope) -> (r: (Vec<String>, bool))
        ensures
            lists::<String>(
                r.0.deep_view(),
                owed_now(self.deep_view(), envelope.deep_view()),
            ),
            r.1 == keeps_staged(self.deep_view(), envelope.deep_view()),
    {
        let ghost c = self.deep_view();
        let ghost e = envelope.deep_view();
        let ghost p = unsettled(c, e);
        let ghost f = mailboxes_of(c);
        let ghost s = e.recipients;
        let acked: Vec<PublicKey> = self.acks_of(&envelope.id);
        let has_blobs: bool = envelope.blob_refs.len() > 0;
        let mut current: Vec<String> = Vec::new();
        let mut keep: bool = false;
        proof {
            reveal(Seq::filter);
            assert(s.take(0).filter(p) =~= Seq::<PublicKey>::empty());
            assert(current.deep_view() =~= Seq::<Seq<char>>::empty());
            assert(current.deep_view().to_set() =~= gathered(s.take(0).filter(p), f).to_set());
        }
        for i in 0..envelope.recipients.len()
            invariant
                c == self.deep_view(),
                e == envelope.deep_view(),
                p == unsettled(c, e),
                f == mailboxes_of(c),
                s == e.recipients,
                acked.deep_view() == confirmed(c, e.id),
                has_blobs == (e.blob_refs.len() > 0),
                ascending::<String>(current.deep_view()),
                current.deep_view().to_set() == gathered(s.take(i as int).filter(p), f).to_set(),
                keep == some(s.take(i as int).filter(p), routeless(c)),
        {
            let key: PublicKey = envelope.recipients[i];
            let ghost d = s.take(i as int).filter(p);
            proof {
                lemma_filter_step(s, p, i as int);
                assert(s[i as int] == key);
            }
            if has_blobs || !holds(&acked, &key) {
                proof {
                    assert(p(key));
                    assert(d.push(key).drop_last() =~= d);
                }
                let relays: Vec<RelayEntry> = self.relays_of(key);
                let boxes: Vec<String> = mailbox_list(&relays);
                let ghost t = boxes.deep_view();
                assert(t == f(key));
                let ghost base = current.deep_view().to_set();
                assert(current.deep_view().to_set() =~= base + t.take(0).to_set());
                for j in 0..boxes.len()
                    invariant
                        t == boxes.deep_view(),
                        ascending::<String>(current.deep_view()),
                        current.deep_view().to_set() == base + t.take(j as int).to_set(),
                {
                    set_insert(&mut current, boxes[j].clone());
                    proof {
                        crate::order::lemma_take_set(t, j as int);
                        assert(current.deep_view().to_set() =~= base + t.take(j + 1).to_set());
                    }
                }
                proof {
                    lemma_take_all(t);
                    let g = gathered(d, f);
                    vstd::seq_lib::seq_to_set_distributes_over_add(g, t);
                    assert(current.deep_view().to_set() =~= (g + t).to_set());
                    assert(gathered(d.push(key), f) == g + t);
                    lemma_some_push(d, routeless(c), key);
                }
                if boxes.len() == 0 {
                    keep = true;
                }
            }
        }
        proof {
            lemma_take_all(s);
        }
        (current, keep)
    }
}

/// One more element may be the one with the property.
pub proof fn lemma_some_push<V>(s: Seq<V>, p: spec_fn(V) -> bool, x: V)
    ensures
        some(s.push(x), p) == (some(s, p) || p(x)),
{
    if some(s, p) {
        let k = choose|k: int| 0 <= k < s.len() && p(#[trigger] s[k]);
        assert(p(s.push(x)[k]));
    }
    if p(x) {
        assert(p(s.push(x)[s.len() as int]));
    }
    if some(s.push(x), p) {
        let k = choose|k: int| 0 <= k < s.push(x).len() && p(#[trigger] s.push(x)[k]);
        if k < s.len() {
            assert(p(s[k]));
        }
    }
}

fn youngest_stamp(entries: &Vec<OutboxEntry>, m: &MessageId) -> (r: u64)
    requires
        entries.len() > 0,
        forall|i: int| 0 <= i < entries.len() ==> #[trigger] entries.deep_view()[i].message == *m,
    ensures
        oldest(entries.deep_view(), of_message(*m)) == Some(r),
{
    let ghost s = entries.deep_view();
    let ghost p = of_message(*m);
    let mut least: u64 = entries[0].created_ms;
    proof {
        assert(s[0].message == *m);
        assert(s.take(1) =~= seq![s[0]]);
        assert(seq![s[0]].drop_last() =~= Seq::<OutboxView>::empty());
        reveal_with_fuel(oldest, 2);
    }
    let mut i: usize = 1;
    while i < entries.len()
        invariant
            1 <= i <= entries.len(),
            s == entries.deep_view(),
            p == of_message(*m),
            forall|k: int| 0 <= k < entries.len() ==> #[trigger] entries.deep_view()[k].message == *m,
            oldest(s.take(i as int), p) == Some(least),
        decreases entries.len() - i,
    {
        proof {
            lemma_take_step(s, i as int);
            assert(s[i as int].message == *m);
        }
        if entries[i].created_ms < least {
            least = entries[i].created_ms;
        }
        i += 1;
    }
    proof {
        lemma_take_all(s);
    }
    least
}

impl Client {
    /// What the entries of one message become, and how many are released.
    fn reconcile_message(&self, entries: &Vec<OutboxEntry>, envelope: &Envelope) -> (r: (
        Vec<OutboxEntry>,
        usize,
    ))
        requires
            entries.len() > 0,
            forall|i: int|
                0 <= i < entries.len() ==> #[trigger] entries.deep_view()[i].message == envelope.id,
        ensures
            r.0.deep_view() == reconciled(
                self.deep_view(),
                entries.deep_view(),
                envelope.deep_view(),
            ),
            r.1 == entries.len() - entries.deep_view().filter(
                still_due(self.deep_view(), envelope.deep_view()),
            ).len(),
            r.1 <= entries.len(),
    {
        let ghost c = self.deep_view();
        let ghost e = envelope.deep_view();
        let ghost s = entries.deep_view();
        let ghost p = still_due(c, e);
        let (current, keep): (Vec<String>, bool) = self.current_debt(envelope);
        let age: u64 = youngest_stamp(entries, &envelope.id);
        let mut owed: Vec<OutboxEntry> = Vec::new();
        let mut released: usize = 0;
        let mut staged: Vec<String> = Vec::new();
        proof {
            reveal(Seq::filter);
            assert(owed.deep_view() =~= s.take(0).filter(p));
            assert(staged.deep_view() =~= s.take(0).map_values(relay_of()));
        }
        for i in 0..entries.len()
            invariant
                c == self.deep_view(),
                e == envelope.deep_view(),
                s == entries.deep_view(),
                p == still_due(c, e),
                keep == keeps_staged(c, e),
                lists::<String>(current.deep_view(), owed_now(c, e)),
                owed.deep_view() == s.take(i as int).filter(p),
                released + owed.len() == i,
                staged.deep_view() == s.take(i as int).map_values(relay_of()),
        {
            proof {
                lemma_filter_step(s, p, i as int);
                lemma_map_step(s, relay_of(), i as int);
                assert(current.deep_view().to_set().contains(s[i as int].relay)
                    == current.deep_view().contains(s[i as int].relay));
            }
            let ghost before_staged = staged.deep_view();
            staged.push(entries[i].relay.clone());
            assert(staged.deep_view() =~= before_staged.push(s[i as int].relay));
            if keep || holds(&current, &entries[i].relay) {
                let ghost before = owed.deep_view();
                owed.push(entries[i].duplicate());
                assert(owed.deep_view() =~= before.push(s[i as int]));
            } else {
                released += 1;
            }
        }
        proof {
            lemma_take_all(s);
        }
        let fresh: Vec<String> = set_difference(&current, &staged);
        let ghost l = fresh.deep_view();
        let ghost f = entry_for(e.id, s[0].conversation, age);
        proof {
            lemma_list_is::<String>(l, owed_now(c, e).difference(s.map_values(relay_of()).to_set()));
            assert(owed.deep_view() + l.take(0).map_values(f) =~= s.filter(p));
        }
        for i in 0..fresh.len()
            invariant
                e == envelope.deep_view(),
                entries.len() > 0,
                s == entries.deep_view(),
                l == fresh.deep_view(),
                f == entry_for(e.id, s[0].conversation, age),
                owed.deep_view() == s.filter(p) + l.take(i as int).map_values(f),
        {
            proof {
                lemma_map_step(l, f, i as int);
            }
            let ghost before = owed.deep_view();
            owed.push(
                OutboxEntry {
                    message: envelope.id,
                    relay: fresh[i].clone(),
                    conversation: entries[0].conversation,
                    created_ms: age,
                },
            );
            assert(owed.deep_view() =~= before.push(f(l[i as int])));
            assert(owed.deep_view() =~= s.filter(p) + l.take(i + 1).map_values(f));
        }
        proof {
            lemma_take_all(l);
        }
        (owed, released)
    }

    /// Re-derives what each pending message still owes and reshapes the
    /// ledger to match. Returns what is owed, message by message.
    pub fn reconcile_outbox(&mut self, report: &mut FlushReport) -> (r: Vec<OutboxEntry>)
        requires
            old(report).released + old(self).outbox.len() <= usize::MAX,
        ensures
            r.deep_view() == owed(old(self).deep_view()),
            final(self).deep_view() == with_ledger_settled(old(self).deep_view()),
            *final(report) == (FlushReport {
                released: (old(report).released + total_releases(
                    old(self).deep_view(),
                    messages(old(self).deep_view()),
                )) as usize,
                ..*old(report)
            }),
            old(report).released + total_releases(
                old(self).deep_view(),
                messages(old(self).deep_view()),
            ) <= usize::MAX,
    {
        let ghost c = self.deep_view();
        let ghost start = report.released;
        let ids: Vec<MessageId> = message_list(&self.outbox);
        let ghost ms = ids.deep_view();
        let ghost f = owes(c);
        let mut all: Vec<OutboxEntry> = Vec::new();
        let mut released: usize = 0;
        proof {
            lemma_list_is::<MessageId>(ms, c.outbox.map_values(message_of()).to_set());
            assert(all.deep_view() =~= gathered(ms.take(0), f));
            lemma_group_total(c.outbox, ms.take(0));
        }
        for i in 0..ids.len()
            invariant
                c == self.deep_view(),
                ms == ids.deep_view(),
                ms == messages(c),
                lists::<MessageId>(ms, c.outbox.map_values(message_of()).to_set()),
                f == owes(c),
                all.deep_view() == gathered(ms.take(i as int), f),
                released == total_releases(c, ms.take(i as int)),
                released <= group_total(c.outbox, ms.take(i as int)),
                group_total(c.outbox, ms.take(i as int)) <= self.outbox.len(),
        {
            let ghost m = ms[i as int];
            let entries: Vec<OutboxEntry> = group(&self.outbox, &ids[i]);
            let ghost g = entries.deep_view();
            proof {
                lemma_gathered_step(ms, f, i as int);
                lemma_take_step(ms, i as int);
                lemma_group_bound(c.outbox, ms, i + 1);
                assert(ms.to_set().contains(m));
                let k = choose|k: int|
                    0 <= k < c.outbox.len() && c.outbox.map_values(message_of())[k] == m;
                assert(of_message(m)(c.outbox[k]));
                lemma_filter(c.outbox, of_message(m));
                assert(g.len() > 0);
                assert forall|j: int| 0 <= j < g.len() implies #[trigger] g[j].message == m by {
                    assert(of_message(m)(g[j]));
                }
            }
            match self.load_envelope(entries[0].conversation, ids[i]) {
                Some(envelope) => {
                    proof {
                        assert(g[0].conversation == entries[0].conversation);
                        lemma_stored_id(c, g[0].conversation, m);
                    }
                    let (mut kept, n): (Vec<OutboxEntry>, usize) = self.reconcile_message(
                        &entries,
                        envelope,
                    );
                    let ghost before = all.deep_view();
                    let ghost more = kept.deep_view();
                    let ghost held = all@;
                    let ghost held_more = kept@;
                    all.append(&mut kept);
                    proof {
                        assert(all@ == held + held_more);
                        assert(all.deep_view() =~= before + more);
                    }
                    released += n;
                },
                None => {
                    assert(all.deep_view() =~= all.deep_view() + Seq::<OutboxView>::empty());
                },
            }
        }
        proof {
            lemma_take_all(ms);
        }
        report.released += released;
        let mut ledger: Vec<OutboxEntry> = copies(&all);
        sort_stably(&mut ledger, older, Ghost(by_age()));
        self.outbox = ledger;
        all
    }
}

proof fn lemma_stored_id(c: ClientView, conversation: MessageId, m: MessageId)
    ensures
        stored_envelope(c, conversation, m) is Some ==> stored_envelope(c, conversation, m)->0.id
            == m,
{
    match first(c.conversations, conversation_is(conversation)) {
        Some(x) => {
            lemma_first(x.envelopes, envelope_is(m));
        },
        None => {},
    }
}

/// How many entries the messages of a list have together.
spec fn group_total(outbox: Seq<OutboxView>, ms: Seq<MessageId>) -> nat
    decreases ms.len(),
{
    if ms.len() == 0 {
        0
    } else {
        group_total(outbox, ms.drop_last()) + outbox.filter(of_message(ms.last())).len()
    }
}

proof fn lemma_group_total(outbox: Seq<OutboxView>, ms: Seq<MessageId>)
    requires
        ms.len() == 0,
    ensures
        group_total(outbox, ms) == 0,
{
}

/// Distinct messages have no entry in common, so their entries together are
/// no more than there are.
proof fn lemma_group_bound(outbox: Seq<OutboxView>, ms: Seq<MessageId>, n: int)
    requires
        0 <= n <= ms.len(),
        ascending::<MessageId>(ms),
    ensures
        group_total(outbox, ms.take(n)) <= outbox.len(),
    decreases outbox.len(),
{
    reveal(Seq::filter);
    if outbox.len() == 0 {
        lemma_group_zero(outbox, ms.take(n));
    } else {
        let d = outbox.drop_last();
        lemma_group_bound(d, ms, n);
        lemma_group_last(outbox, ms, n);
    }
}

proof fn lemma_group_zero(outbox: Seq<OutboxView>, ms: Seq<MessageId>)
    requires
        outbox.len() == 0,
    ensures
        group_total(outbox, ms) == 0,
    decreases ms.len(),
{
    reveal(Seq::filter);
    if ms.len() > 0 {
        lemma_group_zero(outbox, ms.drop_last());
    }
}

/// The last entry belongs to one message of the list at most.
proof fn lemma_group_last(outbox: Seq<OutboxView>, ms: Seq<MessageId>, n: int)
    requires
        0 <= n <= ms.len(),
        outbox.len() > 0,
        ascending::<MessageId>(ms),
    ensures
        group_total(outbox, ms.take(n)) == group_total(outbox.drop_last(), ms.take(n)) + (if ms.take(
            n,
        ).contains(outbox.last().message) {
            1int
        } else {
            0int
        }),
    decreases n,
{
    reveal(Seq::filter);
    let m = outbox.last().message;
    if n > 0 {
        lemma_group_last(outbox, ms, n - 1);
        lemma_take_step(ms, n - 1);
        let t = ms.take(n - 1);
        if ms[n - 1] == m {
            if t.contains(m) {
                let k = choose|k: int| 0 <= k < t.len() && t[k] == m;
                assert(ms[k] == m);
                assert(MessageId::below(ms[k], ms[n - 1]));
                MessageId::order_laws(m, m, m);
            }
            assert(t.push(m)[n - 1] == m);
        } else {
            if t.contains(m) {
                let k = choose|k: int| 0 <= k < t.len() && t[k] == m;
                assert(t.push(ms[n - 1])[k] == m);
            }
            if t.push(ms[n - 1]).contains(m) {
                let k = choose|k: int| 0 <= k < t.push(ms[n - 1]).len() && #[trigger] t.push(ms[n - 1])[k] == m;
                assert(t[k] == m);
            }
        }
    }
}

// ---- the flush ----

/// Past the give-up window at `now`.
pub open spec fn expired(now: u64) -> spec_fn(OutboxView) -> bool {
    |o: OutboxView| now - o.created_ms > OUTBOX_GIVE_UP_MS
}

/// The client with its ledger settled: what is owed, the oldest first.
pub open spec fn with_ledger_settled(c: ClientView) -> ClientView {
    ClientView { outbox: sorted(owed(c), by_age()), ..c }
}

/// The deliveries to try again.
pub open spec fn to_retry(c: ClientView, now: u64) -> Seq<OutboxView> {
    owed(c).filter(retried(now))
}

/// How many deliveries are given up.
pub open spec fn given_up(c: ClientView, now: u64) -> nat {
    count_where(owed(c), expired(now))
}

pub open spec fn retried(now: u64) -> spec_fn(OutboxView) -> bool {
    |o: OutboxView| !expired(now)(o)
}

pub open spec fn owed_by(message: MessageId, relay: Seq<char>) -> spec_fn(OutboxView) -> bool {
    |o: OutboxView| o.message == message && o.relay == relay
}

pub open spec fn not_owed_by(message: MessageId, relay: Seq<char>) -> spec_fn(OutboxView) -> bool {
    |o: OutboxView| !owed_by(message, relay)(o)
}

/// The ledger without the debt of a message to a relay.
pub open spec fn cleared(outbox: Seq<OutboxView>, message: MessageId, relay: Seq<char>) -> Seq<
    OutboxView,
> {
    outbox.filter(not_owed_by(message, relay))
}

/// The ledger with an entry, which takes the place of one for the same
/// message and relay.
pub open spec fn with_debt(outbox: Seq<OutboxView>, o: OutboxView) -> Seq<OutboxView> {
    crate::order::placed(cleared(outbox, o.message, o.relay), o, by_age())
}

/// The blobs of a message that are in the cache.
pub open spec fn blobs_at_hand(e: EnvelopeView, cached: Seq<BlobHash>) -> Seq<BlobHash> {
    e.blob_refs.filter(is_cached(cached))
}

pub open spec fn is_cached(cached: Seq<BlobHash>) -> spec_fn(BlobHash) -> bool {
    |h: BlobHash| cached.contains(h)
}

/// An entry's position after a stable placement.
fn place_by_age(outbox: &mut Vec<OutboxEntry>, entry: OutboxEntry)
    ensures
        final(outbox).deep_view() == crate::order::placed(
            old(outbox).deep_view(),
            entry.deep_view(),
            by_age(),
        ),
{
    let ghost s = outbox.deep_view();
    let ghost o = entry.deep_view();
    let mut k: usize = outbox.len();
    while k > 0 && entry.created_ms < outbox[k - 1].created_ms
        invariant
            k <= outbox.len(),
            s == outbox.deep_view(),
            o == entry.deep_view(),
            forall|j: int| k <= j < s.len() ==> by_age()(o, #[trigger] s[j]),
        decreases k,
    {
        k -= 1;
    }
    let ghost held = outbox@;
    outbox.insert(k, entry);
    proof {
        assert(outbox@ == held.insert(k as int, entry));
        assert(outbox.deep_view() =~= s.insert(k as int, o));
        crate::order::lemma_placed_at(s, o, by_age(), k as int);
    }
}

impl Client {
    /// Delivery of a message to a relay is no longer owed.
    pub fn clear_outbox(&mut self, message: MessageId, relay: &str)
        ensures
            final(self).deep_view() == (ClientView {
                outbox: cleared(old(self).deep_view().outbox, message, relay@),
                ..old(self).deep_view()
            }),
    {
        let ghost s = self.outbox.deep_view();
        let ghost p = not_owed_by(message, relay@);
        let mut out: Vec<OutboxEntry> = Vec::new();
        proof {
            reveal(Seq::filter);
            assert(out.deep_view() =~= s.take(0).filter(p));
        }
        for i in 0..self.outbox.len()
            invariant
                s == self.outbox.deep_view(),
                p == not_owed_by(message, relay@),
                out.deep_view() == s.take(i as int).filter(p),
        {
            proof {
                lemma_filter_step(s, p, i as int);
            }
            if !(self.outbox[i].message == message && same_text(&self.outbox[i].relay, relay)) {
                let ghost before = out.deep_view();
                out.push(self.outbox[i].duplicate());
                assert(out.deep_view() =~= before.push(s[i as int]));
            }
        }
        proof {
            lemma_take_all(s);
        }
        self.outbox = out;
    }

    /// Records that a message still owes a relay a deposit.
    pub fn add_outbox(&mut self, message: MessageId, relay: &str, conversation: MessageId, created_ms: u64)
        ensures
            final(self).deep_view() == (ClientView {
                outbox: with_debt(
                    old(self).deep_view().outbox,
                    OutboxView { message, relay: relay@, conversation, created_ms },
                ),
                ..old(self).deep_view()
            }),
    {
        self.clear_outbox(message, relay);
        place_by_age(
            &mut self.outbox,
            OutboxEntry { message, relay: relay.to_owned(), conversation, created_ms },
        );
    }

    /// Begins a flush at `now`: reconciles the ledger and returns what to
    /// retry, with the report so far. Entries past the give-up window are
    /// counted and left in place.
    pub fn flush_outbox(&mut self, now: u64) -> (r: (Vec<OutboxEntry>, FlushReport))
        ensures
            final(self).deep_view() == with_ledger_settled(old(self).deep_view()),
            r.0.deep_view() == to_retry(old(self).deep_view(), now),
            r.1.expired == given_up(old(self).deep_view(), now),
            r.1.released == total_releases(
                old(self).deep_view(),
                messages(old(self).deep_view()),
            ),
            r.1.delivered == 0 && r.1.pending == 0,
    {
        let mut report: FlushReport = FlushReport::default();
        let due: Vec<OutboxEntry> = self.reconcile_outbox(&mut report);
        let ghost s = due.deep_view();
        let ghost p = retried(now);
        let ghost q = expired(now);
        let mut out: Vec<OutboxEntry> = Vec::new();
        let mut aged: usize = 0;
        proof {
            reveal(Seq::filter);
            assert(out.deep_view() =~= s.take(0).filter(p));
            assert(s.take(0).filter(q) =~= Seq::<OutboxView>::empty());
        }
        for i in 0..due.len()
            invariant
                s == due.deep_view(),
                p == retried(now),
                q == expired(now),
                out.deep_view() == s.take(i as int).filter(p),
                aged == s.take(i as int).filter(q).len(),
                aged <= i,
        {
            proof {
                lemma_filter_step(s, p, i as int);
                lemma_filter_step(s, q, i as int);
            }
            let age: u64 = now.saturating_sub(due[i].created_ms);
            if age > OUTBOX_GIVE_UP_MS {
                aged += 1;
            } else {
                let ghost before = out.deep_view();
                out.push(due[i].duplicate());
                assert(out.deep_view() =~= before.push(s[i as int]));
            }
        }
        proof {
            lemma_take_all(s);
        }
        report.expired = aged;
        (out, report)
    }

    /// What one owed delivery needs: the blobs of its envelope that are in
    /// the cache. `None` where the envelope is gone: the entry is dropped.
    pub fn reload_owed(&mut self, entry: &OutboxEntry, cached: &Vec<BlobHash>) -> (r: Option<
        Vec<BlobHash>,
    >)
        ensures
            match stored_envelope(old(self).deep_view(), entry.conversation, entry.message) {
                Some(e) => r.deep_view() == Some(blobs_at_hand(e, cached.deep_view()))
                    && final(self).deep_view() == old(self).deep_view(),
                None => r is None && final(self).deep_view() == (ClientView {
                    outbox: cleared(old(self).deep_view().outbox, entry.message, entry.relay@),
                    ..old(self).deep_view()
                }),
            },
    {
        match self.load_envelope(entry.conversation, entry.message) {
            Some(envelope) => {
                let ghost s = envelope.blob_refs.deep_view();
                let ghost p = is_cached(cached.deep_view());
                let mut out: Vec<BlobHash> = Vec::new();
                proof {
                    reveal(Seq::filter);
                    assert(out.deep_view() =~= s.take(0).filter(p));
                }
                for i in 0..envelope.blob_refs.len()
                    invariant
                        s == envelope.blob_refs.deep_view(),
                        p == is_cached(cached.deep_view()),
                        out.deep_view() == s.take(i as int).filter(p),
                {
                    proof {
                        lemma_filter_step(s, p, i as int);
                    }
                    if holds(cached, &envelope.blob_refs[i]) {
                        let ghost before = out.deep_view();
                        out.push(envelope.blob_refs[i]);
                        assert(out.deep_view() =~= before.push(s[i as int]));
                    }
                }
                proof {
                    lemma_take_all(s);
                }
                return Some(out);
            },
            None => {},
        }
        self.clear_outbox(entry.message, entry.relay.as_str());
        None
    }

    /// Takes the outcome of one retried delivery into the ledger and the
    /// report.
    pub fn note_retry(&mut self, entry: &OutboxEntry, delivered: bool, report: &mut FlushReport)
        requires
            old(report).delivered < usize::MAX,
            old(report).pending < usize::MAX,
        ensures
            delivered ==> final(self).deep_view() == (ClientView {
                outbox: cleared(old(self).deep_view().outbox, entry.message, entry.relay@),
                ..old(self).deep_view()
            }) && *final(report) == (FlushReport {
                delivered: (old(report).delivered + 1) as usize,
                ..*old(report)
            }),
            !delivered ==> final(self).deep_view() == old(self).deep_view() && *final(report) == (
            FlushReport { pending: (old(report).pending + 1) as usize, ..*old(report) }),
    {
        if delivered {
            self.clear_outbox(entry.message, entry.relay.as_str());
            report.delivered += 1;
        } else {
            report.pending += 1;
        }
    }
}

// ---- laws ----

/// A debt is never dropped on no evidence: while a recipient that still needs
/// the message resolves to no relay, every staged entry stays.
pub proof fn law_no_evidence_keeps_debt(c: ClientView, entries: Seq<OutboxView>, e: EnvelopeView)
    requires
        keeps_staged(c, e),
    ensures
        entries.is_prefix_of(reconciled(c, entries, e)),
{
    lemma_filter_all(entries, still_due(c, e));
    let r = reconciled(c, entries, e);
    assert(r.subrange(0, entries.len() as int) =~= entries);
}

/// A message without blobs that every recipient has durably acked owes
/// nothing: all its entries are released.
pub proof fn law_acked_message_is_settled(c: ClientView, entries: Seq<OutboxView>, e: EnvelopeView)
    requires
        e.blob_refs.len() == 0,
        forall|i: int|
            0 <= i < e.recipients.len() ==> confirmed(c, e.id).contains(#[trigger] e.recipients[i]),
    ensures
        reconciled(c, entries, e) == Seq::<OutboxView>::empty(),
{
    lemma_filter_none(e.recipients, unsettled(c, e));
    assert(debtors(c, e) == Seq::<PublicKey>::empty());
    assert(owed_now(c, e) =~= Set::<Seq<char>>::empty());
    lemma_filter_none(entries, still_due(c, e));
    let fresh = owed_now(c, e).difference(entries.map_values(relay_of()).to_set());
    assert(fresh =~= Set::<Seq<char>>::empty());
    assert(Seq::<Seq<char>>::empty().to_set() =~= fresh);
    lemma_list_is::<String>(Seq::<Seq<char>>::empty(), fresh);
    assert(reconciled(c, entries, e) =~= Seq::<OutboxView>::empty());
}

/// Every mailbox a message is owed to now has an entry after reconciliation,
/// and an entry that was not there before has the message's original age: a
/// moved record never resets the give-up clock.
pub proof fn law_new_debts_inherit_age(
    c: ClientView,
    entries: Seq<OutboxView>,
    e: EnvelopeView,
    relay: Seq<char>,
)
    requires
        owed_now(c, e).contains(relay),
    ensures
        exists|i: int|
            0 <= i < reconciled(c, entries, e).len() && #[trigger] reconciled(c, entries, e)[i].relay
                == relay,
        !entries.map_values(relay_of()).contains(relay) ==> reconciled(c, entries, e).contains(
            OutboxView {
                message: e.id,
                relay,
                conversation: entries[0].conversation,
                created_ms: oldest(entries, of_message(e.id))->0,
            },
        ),
{
    let r = reconciled(c, entries, e);
    let kept = entries.filter(still_due(c, e));
    let set = owed_now(c, e).difference(entries.map_values(relay_of()).to_set());
    let fresh = ascending_list::<String>(set);
    vstd::seq_lib::seq_to_set_is_finite(gathered(debtors(c, e), mailboxes_of(c)));
    lemma_list_exists::<String>(set);
    let relays = entries.map_values(relay_of());
    if relays.contains(relay) {
        let k = choose|k: int| 0 <= k < relays.len() && relays[k] == relay;
        assert(still_due(c, e)(entries[k]));
        lemma_filter(entries, still_due(c, e));
        let j = choose|j: int| 0 <= j < kept.len() && kept[j] == entries[k];
        assert(r[j].relay == relay);
    } else {
        assert(set.contains(relay));
        assert(fresh.to_set().contains(relay));
        let j = choose|j: int| 0 <= j < fresh.len() && fresh[j] == relay;
        assert(r[kept.len() + j].relay == relay);
    }
}

/// Reconciling settles a message: while knowledge stays as it is, a second
/// reconciliation neither releases nor adds anything.
#[verifier::spinoff_prover]
pub proof fn law_reconciling_settles(c: ClientView, entries: Seq<OutboxView>, e: EnvelopeView)
    ensures
        reconciled(c, reconciled(c, entries, e), e) == reconciled(c, entries, e),
{
    let r = reconciled(c, entries, e);
    let due = still_due(c, e);
    let again = owed_now(c, e).difference(r.map_values(relay_of()).to_set());
    assert(r.filter(due) == r) by {
        let kept = entries.filter(due);
        let set = owed_now(c, e).difference(entries.map_values(relay_of()).to_set());
        let fresh = ascending_list::<String>(set);
        vstd::seq_lib::seq_to_set_is_finite(gathered(debtors(c, e), mailboxes_of(c)));
        lemma_list_exists::<String>(set);
        lemma_filter(entries, due);
        assert forall|i: int| 0 <= i < r.len() implies due(#[trigger] r[i]) by {
            if i < kept.len() {
                assert(r[i] == kept[i]);
            } else {
                assert(r[i].relay == fresh[i - kept.len()]);
                assert(fresh.to_set().contains(fresh[i - kept.len()]));
            }
        }
        lemma_filter_all(r, due);
    }
    assert(ascending_list::<String>(again) == Seq::<Seq<char>>::empty()) by {
        assert forall|relay: Seq<char>| !(#[trigger] again.contains(relay)) by {
            if owed_now(c, e).contains(relay) {
                law_new_debts_inherit_age(c, entries, e, relay);
                let i = choose|i: int| 0 <= i < r.len() && (#[trigger] r[i]).relay == relay;
                assert(r.map_values(relay_of())[i] == relay);
            }
        }
        assert(again =~= Set::<Seq<char>>::empty());
        assert(Seq::<Seq<char>>::empty().to_set() =~= again);
        lemma_list_is::<String>(Seq::<Seq<char>>::empty(), again);
    }
    assert(reconciled(c, r, e) =~= r);
}

/// An entry past the give-up window is not retried, and stays in the ledger.
pub proof fn law_expired_stays_surfaced(c: ClientView, now: u64, o: OutboxView)
    requires
        owed(c).contains(o),
        expired(now)(o),
    ensures
        !owed(c).filter(retried(now)).contains(o),
        sorted(owed(c), by_age()).contains(o),
{
    let s = owed(c);
    lemma_filter(s, retried(now));
    let f = s.filter(retried(now));
    if f.contains(o) {
        let k = choose|k: int| 0 <= k < f.len() && f[k] == o;
        assert(retried(now)(f[k]));
    }
    lemma_sorted_contains(s, by_age(), o);
}

/// A recipient still needs the copy in its mailbox: the message has blobs to
/// fetch there, or the recipient has not confirmed it.
pub open spec fn needs_copy(c: ClientView, e: EnvelopeView, key: PublicKey) -> bool {
    e.recipients.contains(key) && (e.blob_refs.len() > 0 || !confirmed(c, e.id).contains(key))
}

proof fn lemma_debtors(c: ClientView, e: EnvelopeView, key: PublicKey)
    ensures
        debtors(c, e).contains(key) <==> needs_copy(c, e, key),
{
    crate::seqs::lemma_filter_contains(e.recipients, unsettled(c, e), key);
}

/// A message is owed to a mailbox now exactly where the mailbox is one that a
/// recipient who still needs the copy resolves to.
pub proof fn law_owed_to_whom_it_may_reach(c: ClientView, e: EnvelopeView, relay: Seq<char>)
    ensures
        owed_now(c, e).contains(relay) <==> exists|key: PublicKey, j: int|
            needs_copy(c, e, key) && 0 <= j < effective(c, key, trusted_record(c, key)).len() && (
            #[trigger] effective(c, key, trusted_record(c, key))[j]).mailbox == relay,
        keeps_staged(c, e) <==> exists|key: PublicKey| #[trigger]
            needs_copy(c, e, key) && effective(c, key, trusted_record(c, key)).len() == 0,
{
    let s = debtors(c, e);
    let f = mailboxes_of(c);
    crate::seqs::lemma_gathered_contains(s, f, relay);
    if owed_now(c, e).contains(relay) {
        let i = choose|i: int| 0 <= i < s.len() && f(#[trigger] s[i]).contains(relay);
        let key = s[i];
        assert(s.contains(key));
        lemma_debtors(c, e, key);
        let list = f(key);
        let j = choose|j: int| 0 <= j < list.len() && list[j] == relay;
        assert(effective(c, key, trusted_record(c, key))[j].mailbox == relay);
    }
    if exists|key: PublicKey, j: int|
        needs_copy(c, e, key) && 0 <= j < effective(c, key, trusted_record(c, key)).len() && (
        #[trigger] effective(c, key, trusted_record(c, key))[j]).mailbox == relay {
        let (key, j) = choose|key: PublicKey, j: int|
            needs_copy(c, e, key) && 0 <= j < effective(c, key, trusted_record(c, key)).len() && (
            #[trigger] effective(c, key, trusted_record(c, key))[j]).mailbox == relay;
        lemma_debtors(c, e, key);
        let i = choose|i: int| 0 <= i < s.len() && s[i] == key;
        assert(f(s[i])[j] == relay);
        assert(f(s[i]).contains(relay));
    }
    if keeps_staged(c, e) {
        let i = choose|i: int| 0 <= i < s.len() && routeless(c)(#[trigger] s[i]);
        assert(s.contains(s[i]));
        lemma_debtors(c, e, s[i]);
        assert(needs_copy(c, e, s[i]));
    }
    if exists|key: PublicKey| #[trigger]
        needs_copy(c, e, key) && effective(c, key, trusted_record(c, key)).len() == 0 {
        let key = choose|key: PublicKey| #[trigger]
            needs_copy(c, e, key) && effective(c, key, trusted_record(c, key)).len() == 0;
        lemma_debtors(c, e, key);
        let i = choose|i: int| 0 <= i < s.len() && s[i] == key;
        assert(routeless(c)(s[i]));
    }
}

/// What reconciliation leaves of a message's entries: each one whose relay is
/// still owed, as it was, or all of them while a recipient cannot be routed
/// to; and a new one for each relay owed that had none, of the message's age.
pub proof fn law_reconciled_entries(
    c: ClientView,
    entries: Seq<OutboxView>,
    e: EnvelopeView,
    o: OutboxView,
)
    ensures
        reconciled(c, entries, e).contains(o) <==> {
            ||| entries.contains(o) && (keeps_staged(c, e) || owed_now(c, e).contains(o.relay))
            ||| {
                &&& owed_now(c, e).contains(o.relay)
                &&& forall|i: int| 0 <= i < entries.len() ==> (#[trigger] entries[i]).relay != o.relay
                &&& o.message == e.id
                &&& o.conversation == entries[0].conversation
                &&& o.created_ms == oldest(entries, of_message(e.id))->0
            }
        },
{
    let r = reconciled(c, entries, e);
    let kept = entries.filter(still_due(c, e));
    let relays = entries.map_values(relay_of());
    let set = owed_now(c, e).difference(relays.to_set());
    let fresh = ascending_list::<String>(set);
    vstd::seq_lib::seq_to_set_is_finite(gathered(debtors(c, e), mailboxes_of(c)));
    lemma_list_exists::<String>(set);
    crate::seqs::lemma_filter_contains(entries, still_due(c, e), o);
    assert(fresh.to_set().contains(o.relay) == set.contains(o.relay));
    let f = entry_for(e.id, entries[0].conversation, oldest(entries, of_message(e.id))->0);
    let more = fresh.map_values(f);
    assert(r == kept + more);
    if relays.contains(o.relay) {
        let k = choose|k: int| 0 <= k < relays.len() && relays[k] == o.relay;
        assert(entries[k].relay == o.relay);
    }
    assert forall|i: int| 0 <= i < entries.len() && (#[trigger] entries[i]).relay == o.relay implies relays.contains(
        o.relay,
    ) by {
        assert(relays[i] == o.relay);
    }
    if r.contains(o) {
        let k = choose|k: int| 0 <= k < r.len() && r[k] == o;
        if k < kept.len() {
            assert(kept[k] == o);
        } else {
            assert(more[k - kept.len()] == o);
            assert(fresh[k - kept.len()] == o.relay);
            assert(fresh.contains(o.relay));
        }
    }
    if kept.contains(o) {
        let k = choose|k: int| 0 <= k < kept.len() && kept[k] == o;
        assert(r[k] == o);
    }
    if fresh.contains(o.relay) && o == f(o.relay) {
        let k = choose|k: int| 0 <= k < fresh.len() && fresh[k] == o.relay;
        assert(more[k] == o);
        assert(r[kept.len() + k] == o);
    }
}

/// The ledger after reconciliation owes exactly what each message with an
/// entry owes by its stored envelope; a message whose envelope is gone owes
/// nothing. Whatever is owed is retried until the give-up window is over.
pub proof fn law_flush_retries_what_is_owed(c: ClientView, now: u64, o: OutboxView)
    ensures
        owed(c).contains(o) <==> exists|i: int| 0 <= i < c.outbox.len() && {
            let m = (#[trigger] c.outbox[i]).message;
            let entries = c.outbox.filter(of_message(m));
            match stored_envelope(c, entries[0].conversation, m) {
                Some(e) => reconciled(c, entries, e).contains(o),
                None => false,
            }
        },
        to_retry(c, now).contains(o) <==> owed(c).contains(o) && now - o.created_ms
            <= 2_592_000_000,
        with_ledger_settled(c).outbox.contains(o) <==> owed(c).contains(o),
        with_ledger_settled(c) == (ClientView { outbox: with_ledger_settled(c).outbox, ..c }),
{
    let ms = messages(c);
    let f = owes(c);
    let all = c.outbox.map_values(message_of());
    vstd::seq_lib::seq_to_set_is_finite(all);
    lemma_list_exists::<MessageId>(all.to_set());
    crate::seqs::lemma_gathered_contains(ms, f, o);
    crate::seqs::lemma_filter_contains(owed(c), retried(now), o);
    lemma_sorted_contains(owed(c), by_age(), o);
    if owed(c).contains(o) {
        let k = choose|k: int| 0 <= k < ms.len() && f(#[trigger] ms[k]).contains(o);
        assert(ms.to_set().contains(ms[k]));
        assert(all.to_set().contains(ms[k]));
        let i = choose|i: int| 0 <= i < all.len() && all[i] == ms[k];
        assert(c.outbox[i].message == ms[k]);
    }
    if exists|i: int| 0 <= i < c.outbox.len() && {
        let m = (#[trigger] c.outbox[i]).message;
        let entries = c.outbox.filter(of_message(m));
        match stored_envelope(c, entries[0].conversation, m) {
            Some(e) => reconciled(c, entries, e).contains(o),
            None => false,
        }
    } {
        let i = choose|i: int| 0 <= i < c.outbox.len() && {
            let m = (#[trigger] c.outbox[i]).message;
            let entries = c.outbox.filter(of_message(m));
            match stored_envelope(c, entries[0].conversation, m) {
                Some(e) => reconciled(c, entries, e).contains(o),
                None => false,
            }
        };
        let m = c.outbox[i].message;
        assert(all[i] == m);
        assert(all.to_set().contains(m));
        assert(ms.to_set().contains(m));
        let k = choose|k: int| 0 <= k < ms.len() && ms[k] == m;
        assert(f(ms[k]).contains(o));
    }
}

/// Clearing a debt drops that message's debt to that relay and no other; a
/// debt recorded takes the place of an earlier one and leaves the others.
pub proof fn law_debts_are_per_message_and_relay(
    outbox: Seq<OutboxView>,
    message: MessageId,
    relay: Seq<char>,
    new: OutboxView,
    o: OutboxView,
)
    ensures
        cleared(outbox, message, relay).contains(o) <==> outbox.contains(o) && !(o.message == message
            && o.relay == relay),
        with_debt(outbox, new).contains(o) <==> o == new || outbox.contains(o) && !(o.message
            == new.message && o.relay == new.relay),
{
    crate::seqs::lemma_filter_contains(outbox, not_owed_by(message, relay), o);
    crate::seqs::lemma_filter_contains(outbox, not_owed_by(new.message, new.relay), o);
    crate::order::lemma_placed_contains(
        cleared(outbox, new.message, new.relay),
        new,
        by_age(),
        o,
    );
}

/// A message is found by its id in the conversation of that id, and only
/// there.
pub proof fn law_stored_by_ids(c: ClientView, conversation: MessageId, message: MessageId, at: int, i: int)
    ensures
        stored_envelope(c, conversation, message) is Some ==> stored_envelope(
            c,
            conversation,
            message,
        )->0.id == message,
        0 <= at < c.conversations.len() && c.conversations[at].id == conversation && (forall|j: int|
            0 <= j < at ==> (#[trigger] c.conversations[j]).id != conversation) && 0 <= i
            < c.conversations[at].envelopes.len() && c.conversations[at].envelopes[i].id == message
            && (forall|j: int|
            0 <= j < i ==> (#[trigger] c.conversations[at].envelopes[j]).id != message)
            ==> stored_envelope(c, conversation, message) == Some(c.conversations[at].envelopes[i]),
        (forall|j: int|
            0 <= j < c.conversations.len() ==> (#[trigger] c.conversations[j]).id != conversation)
            ==> stored_envelope(c, conversation, message) is None,
{
    lemma_stored_id(c, conversation, message);
    lemma_first(c.conversations, conversation_is(conversation));
    if 0 <= at < c.conversations.len() && c.conversations[at].id == conversation && (forall|j: int|
        0 <= j < at ==> (#[trigger] c.conversations[j]).id != conversation) && 0 <= i
        < c.conversations[at].envelopes.len() && c.conversations[at].envelopes[i].id == message && (
    forall|j: int| 0 <= j < i ==> (#[trigger] c.conversations[at].envelopes[j]).id != message) {
        assert forall|j: int| 0 <= j < at implies !conversation_is(conversation)(
            #[trigger] c.conversations[j],
        ) by {}
        crate::seqs::lemma_first_is(c.conversations, conversation_is(conversation), at);
        let s = c.conversations[at].envelopes;
        assert forall|j: int| 0 <= j < i implies !envelope_is(message)(#[trigger] s[j]) by {}
        crate::seqs::lemma_first_is(s, envelope_is(message), i);
    }
}

/// A delivery tried again carries every blob of its message that is at hand.
pub proof fn law_blobs_go_with_the_message(e: EnvelopeView, cached: Seq<BlobHash>, h: BlobHash)
    ensures
        blobs_at_hand(e, cached).contains(h) <==> e.blob_refs.contains(h) && cached.contains(h),
{
    crate::seqs::lemma_filter_contains(e.blob_refs, is_cached(cached), h);
}

/// A debt cleared is gone, and no other is.
pub proof fn law_one_debt_is_cleared(
    outbox: Seq<OutboxView>,
    message: MessageId,
    relay: Seq<char>,
    o: OutboxView,
)
    ensures
        cleared(outbox, message, relay).contains(o) <==> outbox.contains(o) && !(o.message == message
            && o.relay == relay),
{
    crate::seqs::lemma_filter_contains(outbox, not_owed_by(message, relay), o);
}

/// What is released of a message is what is no longer due: the entries are
/// those released and those still due. Of a message that is not stored nothing
/// is.
pub proof fn law_released_is_what_is_not_due(c: ClientView, m: MessageId)
    ensures
        match stored_envelope(c, entries_of(c, m)[0].conversation, m) {
            Some(e) => releases(c, m) == entries_of(c, m).filter(
                |o: OutboxView| !keeps_staged(c, e) && !owed_now(c, e).contains(o.relay),
            ).len(),
            None => releases(c, m) == 0,
        },
{
    let s = entries_of(c, m);
    match stored_envelope(c, s[0].conversation, m) {
        Some(e) => {
            let q = |o: OutboxView| !keeps_staged(c, e) && !owed_now(c, e).contains(o.relay);
            lemma_filter_parts(s, still_due(c, e), q);
        },
        None => {},
    }
}

/// Two properties of which each element has one part a sequence.
pub proof fn lemma_filter_parts<V>(s: Seq<V>, p: spec_fn(V) -> bool, q: spec_fn(V) -> bool)
    requires
        forall|v: V| #[trigger] p(v) <==> !q(v),
    ensures
        s.filter(p).len() + s.filter(q).len() == s.len(),
    decreases s.len(),
{
    if s.len() > 0 {
        let n = s.len() - 1;
        lemma_filter_parts(s.take(n), p, q);
        crate::seqs::lemma_filter_step(s, p, n);
        crate::seqs::lemma_filter_step(s, q, n);
        crate::seqs::lemma_take_all(s);
        assert(p(s[n]) <==> !q(s[n]));
    } else {
        crate::seqs::lemma_filter_none(s, p);
        crate::seqs::lemma_filter_none(s, q);
    }
}

/// The releases of several messages add up.
pub proof fn law_releases_add_up(c: ClientView, a: Seq<MessageId>, b: Seq<MessageId>, m: MessageId)
    ensures
        total_releases(c, a + b) == total_releases(c, a) + total_releases(c, b),
        total_releases(c, seq![m]) == releases(c, m),
    decreases b.len(),
{
    reveal_with_fuel(total_releases, 2);
    assert(seq![m].drop_last() =~= Seq::<MessageId>::empty());
    if b.len() == 0 {
        assert(a + b =~= a);
    } else {
        law_releases_add_up(c, a, b.drop_last(), m);
        assert((a + b).drop_last() =~= a + b.drop_last());
        assert((a + b).last() == b.last());
    }
}

/// Whatever is owed is tried again or given up.
pub proof fn law_retried_or_given_up(c: ClientView, now: u64)
    ensures
        to_retry(c, now).len() + given_up(c, now) == owed(c).len(),
{
    lemma_filter_parts(owed(c), expired(now), retried(now));
}

} // verus!
