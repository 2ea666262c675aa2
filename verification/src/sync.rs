//! Peer sync, the serving side: whom this device answers, what it answers
//! from, and which directly delivered messages it takes. Serving is at this
//! device's discretion: declining and not holding look the same.
use vstd::prelude::*;

use crate::client::{device_with, entry_with, find_filed, find_listing, share_of, stance, Client, ClientView};
use crate::history::{children, held_envelope, known_key, Envelope, EnvelopeView};
use crate::ids::{MessageId, PublicKey};
use crate::order::{ascending_list, holds, lemma_list_is, Duplicate};
use crate::reach::{known, Reach, ReachLedger};
use crate::record::{ContactRecord, RecordView, SignedAttestation, SignedView};
use crate::recv::{Received, ReceivedView};
use crate::seqs::{lemma_filter_step, lemma_take_all};
use crate::store::{remembered, Graph, GraphView};
use crate::trust::as_list;

verus! {

/// The record served about a subject: this device's own where it has one, a
/// recognized device's, else a contact's as stored. What was learned is never
/// served again.
pub open spec fn served_record(c: ClientView, subject: PublicKey, own_record: Option<RecordView>) -> Option<
    RecordView,
> {
    if subject == c.device {
        own_record
    } else {
        match device_with(c, subject) {
            Some(d) => Some(d.1),
            None => match entry_with(c, subject) {
                Some(e) => Some(e.1),
                None => None,
            },
        }
    }
}

/// A held message.
pub open spec fn is_held(c: ClientView) -> spec_fn(MessageId) -> bool {
    |id: MessageId| held_envelope(c, id) is Some
}

/// The messages re-wrapped for a recognized device: those held, of the first
/// few asked for. Nobody else gets any.
pub open spec fn rewrapped(c: ClientView, caller: PublicKey, ids: Seq<MessageId>, limit: usize) -> Option<
    Seq<MessageId>,
> {
    if device_with(c, caller) is None {
        None
    } else {
        Some(
            (if ids.len() <= limit {
                ids
            } else {
                ids.take(limit as int)
            }).filter(is_held(c)),
        )
    }
}

/// A delivery taken: from somebody served, in a format this client reads,
/// verified, addressed to this device, and opened.
pub open spec fn is_taken(c: ClientView, serves: bool, e: EnvelopeView) -> bool {
    serves && e.supported && e.verified && e.recipients.contains(c.device) && e.body is Ok
}

impl Client {
    /// Contacts, recognized devices and this device itself are served; of a
    /// recognized device only the vouched key.
    pub fn serves(&self, caller: PublicKey) -> (r: bool)
        ensures
            r == known_key(self.deep_view(), caller),
    {
        self.knows(&caller)
    }

    /// A peer connected: whether it is served. One that is has shown that a
    /// path exists.
    pub fn greet(&self, reach: &mut ReachLedger, caller: PublicKey, now: u64) -> (r: bool)
        ensures
            r == known_key(self.deep_view(), caller),
            final(reach).table() == greeted(self.deep_view(), old(reach).table(), caller, now),
    {
        let served: bool = self.serves(caller);
        if served {
            reach.note_seen(&caller, now);
        }
        served
    }

    /// The record served about a subject. `own_record` is the freshly signed
    /// one of this device, where its profile is complete.
    pub fn who_is(&self, subject: PublicKey, own_record: Option<ContactRecord>) -> (r: Option<
        ContactRecord,
    >)
        ensures
            r.deep_view() == served_record(self.deep_view(), subject, own_record.deep_view()),
    {
        if subject == self.device {
            return own_record;
        }
        match find_filed(&self.devices, &subject) {
            Some(i) => Some(self.devices[i].1.duplicate()),
            None => match find_listing(&self.contacts, &subject) {
                Some(i) => Some(self.contacts[i].1.duplicate()),
                None => None,
            },
        }
    }

    /// The messages to re-wrap for a caller, at most `limit` of those asked
    /// for; `None` declines.
    pub fn get_keys(&self, caller: PublicKey, ids: &Vec<MessageId>, limit: usize) -> (r: Option<
        Vec<MessageId>,
    >)
        ensures
            r.deep_view() == rewrapped(self.deep_view(), caller, ids.deep_view(), limit),
    {
        if find_filed(&self.devices, &caller).is_none() {
            return None;
        }
        let ghost c = self.deep_view();
        let ghost s = ids.deep_view();
        let ghost p = is_held(c);
        let n: usize = if ids.len() <= limit {
            ids.len()
        } else {
            limit
        };
        let mut out: Vec<MessageId> = Vec::new();
        proof {
            reveal(Seq::filter);
            assert(out.deep_view() =~= s.take(0).filter(p));
        }
        for i in 0..n
            invariant
                n <= ids.len(),
                c == self.deep_view(),
                s == ids.deep_view(),
                p == is_held(c),
                out.deep_view() == s.take(i as int).filter(p),
        {
            proof {
                lemma_filter_step(s, p, i as int);
                assert(s[i as int] == ids@[i as int]);
            }
            if self.find_envelope(&ids[i]).is_some() {
                let ghost before = out.deep_view();
                out.push(ids[i]);
                assert(out.deep_view() =~= before.push(s[i as int]));
            }
        }
        proof {
            lemma_take_all(s);
        }
        Some(out)
    }

    /// Accepts a directly delivered message, or declines it. The message
    /// returned is stored: the sender skips its mailbox on that word.
    pub fn accept_delivery(&mut self, serves: bool, envelope: Envelope, graph: Graph, now: u64) -> (r:
        Option<Received>)
        ensures
            if is_taken(old(self).deep_view(), serves, envelope.deep_view()) {
                &&& r.deep_view() == Some(
                    ReceivedView { envelope: envelope.deep_view(), relay: None },
                )
                &&& final(self).deep_view() == remembered(
                    old(self).deep_view(),
                    envelope.deep_view(),
                    graph.deep_view(),
                    now,
                )
            } else {
                r is None && final(self).deep_view() == old(self).deep_view()
            },
    {
        if !serves || !envelope.supported || !envelope.verified || !holds(
            &envelope.recipients,
            &self.device,
        ) || envelope.body.is_err() {
            return None;
        }
        let held: Envelope = envelope.duplicate();
        self.remember(envelope, graph, now);
        Some(Received { envelope: held, relay: None })
    }
}

// ---- requests ----

/// What a peer asks.
#[derive(Debug)]
pub enum SyncOp {
    /// A message by id.
    Get { id: MessageId },
    /// The messages that name one as a parent.
    GetSuccessors { id: MessageId },
    /// What is known of a key.
    WhoIs { key: PublicKey },
    /// Fresh key wraps for held messages.
    GetKeys { ids: Vec<MessageId> },
    /// Take this message, whose conversation has this graph with it.
    Deliver { envelope: Envelope, graph: Graph },
}

pub enum OpView {
    Get(MessageId),
    GetSuccessors(MessageId),
    WhoIs(PublicKey),
    GetKeys(Seq<MessageId>),
    Deliver(EnvelopeView, GraphView),
}

impl DeepView for SyncOp {
    type V = OpView;

    open spec fn deep_view(&self) -> OpView {
        match *self {
            SyncOp::Get { id } => OpView::Get(id),
            SyncOp::GetSuccessors { id } => OpView::GetSuccessors(id),
            SyncOp::WhoIs { key } => OpView::WhoIs(key),
            SyncOp::GetKeys { ids } => OpView::GetKeys(ids.deep_view()),
            SyncOp::Deliver { envelope, graph } => OpView::Deliver(
                envelope.deep_view(),
                graph.deep_view(),
            ),
        }
    }
}

/// What a peer is answered.
#[derive(Debug)]
pub enum SyncAnswer {
    Envelope(Envelope),
    NotHeld,
    Successors(Vec<MessageId>),
    Known { record: ContactRecord, endorsements: Vec<SignedAttestation> },
    /// Wraps of these messages, sealed to the caller.
    Wraps(Vec<MessageId>),
    /// Stored; the edge is told of it.
    Stored(Received),
    /// The request did not decode.
    Malformed,
}

pub enum AnswerView {
    Envelope(EnvelopeView),
    NotHeld,
    Successors(Seq<MessageId>),
    Known(RecordView, Seq<SignedView>),
    Wraps(Seq<MessageId>),
    Stored(ReceivedView),
    Malformed,
}

impl DeepView for SyncAnswer {
    type V = AnswerView;

    open spec fn deep_view(&self) -> AnswerView {
        match *self {
            SyncAnswer::Envelope(e) => AnswerView::Envelope(e.deep_view()),
            SyncAnswer::NotHeld => AnswerView::NotHeld,
            SyncAnswer::Successors(ids) => AnswerView::Successors(ids.deep_view()),
            SyncAnswer::Known { record, endorsements } => AnswerView::Known(
                record.deep_view(),
                endorsements.deep_view(),
            ),
            SyncAnswer::Wraps(ids) => AnswerView::Wraps(ids.deep_view()),
            SyncAnswer::Stored(m) => AnswerView::Stored(m.deep_view()),
            SyncAnswer::Malformed => AnswerView::Malformed,
        }
    }
}

/// The answer to a request.
pub open spec fn answered(
    c: ClientView,
    caller: PublicKey,
    serves: bool,
    op: Option<OpView>,
    own_record: Option<RecordView>,
    limit: usize,
) -> AnswerView {
    match op {
        None => AnswerView::Malformed,
        Some(OpView::Get(id)) => match held_envelope(c, id) {
            Some(e) => if serves {
                AnswerView::Envelope(e)
            } else {
                AnswerView::NotHeld
            },
            None => AnswerView::NotHeld,
        },
        Some(OpView::GetSuccessors(id)) => AnswerView::Successors(
            if serves {
                ascending_list::<MessageId>(children(c, id))
            } else {
                Seq::empty()
            },
        ),
        Some(OpView::WhoIs(key)) => match served_record(c, key, own_record) {
            Some(record) => if serves {
                AnswerView::Known(record, as_list(stance(c, key)) + as_list(share_of(c, key)))
            } else {
                AnswerView::NotHeld
            },
            None => AnswerView::NotHeld,
        },
        Some(OpView::GetKeys(ids)) => match rewrapped(c, caller, ids, limit) {
            Some(list) => AnswerView::Wraps(list),
            None => AnswerView::NotHeld,
        },
        Some(OpView::Deliver(e, _)) => if is_taken(c, serves, e) {
            AnswerView::Stored(ReceivedView { envelope: e, relay: None })
        } else {
            AnswerView::NotHeld
        },
    }
}

/// What a request changes: only a delivery taken changes anything.
pub open spec fn after_request(c: ClientView, serves: bool, op: Option<OpView>, now: u64) -> ClientView {
    match op {
        Some(OpView::Deliver(e, graph)) => if is_taken(c, serves, e) {
            remembered(c, e, graph, now)
        } else {
            c
        },
        _ => c,
    }
}

impl Client {
    /// Answers one request. `serves` is the verdict the caller's connection
    /// was greeted with.
    pub fn answer(
        &mut self,
        caller: PublicKey,
        serves: bool,
        op: Option<SyncOp>,
        own_record: Option<ContactRecord>,
        limit: usize,
        now: u64,
    ) -> (r: SyncAnswer)
        ensures
            r.deep_view() == answered(
                old(self).deep_view(),
                caller,
                serves,
                op.deep_view(),
                own_record.deep_view(),
                limit,
            ),
            final(self).deep_view() == after_request(
                old(self).deep_view(),
                serves,
                op.deep_view(),
                now,
            ),
    {
        match op {
            None => SyncAnswer::Malformed,
            Some(SyncOp::Get { id }) => match self.find_envelope(&id) {
                Some(e) => {
                    if serves {
                        SyncAnswer::Envelope(e.duplicate())
                    } else {
                        SyncAnswer::NotHeld
                    }
                },
                None => SyncAnswer::NotHeld,
            },
            Some(SyncOp::GetSuccessors { id }) => {
                if serves {
                    let ids: Vec<MessageId> = self.successors(id);
                    proof {
                        lemma_list_is::<MessageId>(ids.deep_view(), children(self.deep_view(), id));
                    }
                    SyncAnswer::Successors(ids)
                } else {
                    let none: Vec<MessageId> = Vec::new();
                    assert(none.deep_view() =~= Seq::<MessageId>::empty());
                    SyncAnswer::Successors(none)
                }
            },
            Some(SyncOp::WhoIs { key }) => match self.who_is(key, own_record) {
                Some(record) => {
                    if !serves {
                        return SyncAnswer::NotHeld;
                    }
                    let mut endorsements: Vec<SignedAttestation> = Vec::new();
                    match self.vouch_for(&key) {
                        Some(v) => {
                            let ghost w = v.deep_view();
                            endorsements.push(v);
                            assert(endorsements.deep_view() =~= seq![w]);
                        },
                        None => {
                            assert(endorsements.deep_view() =~= Seq::<SignedView>::empty());
                        },
                    }
                    let ghost before = endorsements.deep_view();
                    match self.avatar_share_for(&key) {
                        Some(v) => {
                            let ghost w = v.deep_view();
                            endorsements.push(v);
                            assert(endorsements.deep_view() =~= before + seq![w]);
                        },
                        None => {
                            assert(before + Seq::<SignedView>::empty() =~= before);
                        },
                    }
                    SyncAnswer::Known { record, endorsements }
                },
                None => SyncAnswer::NotHeld,
            },
            Some(SyncOp::GetKeys { ids }) => match self.get_keys(caller, &ids, limit) {
                Some(list) => SyncAnswer::Wraps(list),
                None => SyncAnswer::NotHeld,
            },
            Some(SyncOp::Deliver { envelope, graph }) => match self.accept_delivery(
                serves,
                envelope,
                graph,
                now,
            ) {
                Some(m) => SyncAnswer::Stored(m),
                None => SyncAnswer::NotHeld,
            },
        }
    }
}

// ---- laws ----

/// A stranger learns nothing: whatever two devices hold, one that neither
/// serves gets the same answers, and changes nothing.
pub proof fn law_strangers_learn_nothing(
    a: ClientView,
    b: ClientView,
    caller: PublicKey,
    op: Option<OpView>,
    mine: Option<RecordView>,
    theirs: Option<RecordView>,
    limit: usize,
    now: u64,
)
    requires
        !known_key(a, caller),
        !known_key(b, caller),
    ensures
        answered(a, caller, false, op, mine, limit) == answered(b, caller, false, op, theirs, limit),
        after_request(a, false, op, now) == a,
{
    lemma_device_is_known(a, caller);
    lemma_device_is_known(b, caller);
}

proof fn lemma_device_is_known(c: ClientView, key: PublicKey)
    ensures
        device_with(c, key) is Some ==> known_key(c, key),
{
    let f = |e: (PublicKey, RecordView)| e.0;
    crate::seqs::lemma_first(c.devices, crate::client::filed::<RecordView>(key));
    match device_with(c, key) {
        Some(d) => {
            let k = choose|k: int| 0 <= k < c.devices.len() && c.devices[k] == d;
            assert(c.devices.map_values(f)[k] == key);
        },
        None => {},
    }
}

/// Hearsay is never passed on: what was learned changes no answer.
pub proof fn law_learned_is_never_served(
    c: ClientView,
    learned: Seq<(PublicKey, crate::client::LearnedView)>,
    caller: PublicKey,
    serves: bool,
    op: Option<OpView>,
    own_record: Option<RecordView>,
    limit: usize,
)
    ensures
        answered(ClientView { learned, ..c }, caller, serves, op, own_record, limit) == answered(
            c,
            caller,
            serves,
            op,
            own_record,
            limit,
        ),
{
    let d = ClientView { learned, ..c };
    assert(is_held(d) =~= is_held(c)) by {
        assert forall|id: MessageId| #[trigger] is_held(d)(id) == is_held(c)(id) by {}
    }
}

/// Whoever is served a record is served this device's own claims about the key
/// with it: its stance, and the picture it shares.
pub proof fn law_own_claims_are_served(
    c: ClientView,
    caller: PublicKey,
    key: PublicKey,
    own_record: Option<RecordView>,
    limit: usize,
)
    requires
        served_record(c, key, own_record) is Some,
    ensures
        answered(c, caller, true, Some(OpView::WhoIs(key)), own_record, limit) is Known,
        stance(c, key) is Some ==> served_claims(c, caller, key, own_record, limit).contains(
            stance(c, key)->0,
        ),
        share_of(c, key) is Some ==> served_claims(c, caller, key, own_record, limit).contains(
            share_of(c, key)->0,
        ),
{
    let s = served_claims(c, caller, key, own_record, limit);
    if stance(c, key) is Some {
        assert(s[0] == stance(c, key)->0);
    }
    if share_of(c, key) is Some {
        assert(s[s.len() - 1] == share_of(c, key)->0);
    }
}

/// The claims served about a key.
pub open spec fn served_claims(
    c: ClientView,
    caller: PublicKey,
    key: PublicKey,
    own_record: Option<RecordView>,
    limit: usize,
) -> Seq<SignedView> {
    match answered(c, caller, true, Some(OpView::WhoIs(key)), own_record, limit) {
        AnswerView::Known(_, claims) => claims,
        _ => Seq::empty(),
    }
}

/// A delivery acknowledged is stored: the message is found under its
/// conversation, so the sender may skip its mailbox.
pub proof fn law_acknowledged_is_stored(
    c: ClientView,
    serves: bool,
    e: EnvelopeView,
    graph: GraphView,
    now: u64,
)
    requires
        is_taken(c, serves, e),
    ensures
        crate::outbox::stored_envelope(
            after_request(c, serves, Some(OpView::Deliver(e, graph)), now),
            crate::store::thread_of(e),
            e.id,
        ) == Some(e),
{
    crate::store::law_remembered_is_found(c, e, graph, now);
}

/// Whoever is served gets a message that is held, as it is stored, by its id;
/// a message is said not to be held exactly where it is not, or the caller is
/// not served.
pub proof fn law_held_messages_are_given(
    c: ClientView,
    caller: PublicKey,
    serves: bool,
    id: MessageId,
    own_record: Option<RecordView>,
    limit: usize,
)
    ensures
        match answered(c, caller, serves, Some(OpView::Get(id)), own_record, limit) {
            AnswerView::Envelope(e) => serves && e.id == id && exists|x: int|
                0 <= x < c.conversations.len() && (#[trigger] c.conversations[x]).envelopes.contains(e),
            AnswerView::NotHeld => !serves || forall|x: int, i: int|
                0 <= x < c.conversations.len() && 0 <= i < c.conversations[x].envelopes.len() ==> (
                #[trigger] c.conversations[x].envelopes[i]).id != id,
            _ => false,
        },
{
    let f = crate::history::envelopes_of();
    let all = crate::seqs::gathered(c.conversations, f);
    let p = crate::outbox::envelope_is(id);
    crate::seqs::lemma_first(all, p);
    match held_envelope(c, id) {
        Some(e) => {
            crate::seqs::lemma_gathered_contains(c.conversations, f, e);
            let x = choose|x: int|
                0 <= x < c.conversations.len() && f(#[trigger] c.conversations[x]).contains(e);
            assert(c.conversations[x].envelopes.contains(e));
        },
        None => {
            assert forall|x: int, i: int|
                0 <= x < c.conversations.len() && 0 <= i < c.conversations[x].envelopes.len() implies (
            #[trigger] c.conversations[x].envelopes[i]).id != id by {
                let e = c.conversations[x].envelopes[i];
                assert(f(c.conversations[x]).contains(e));
                crate::seqs::lemma_gathered_contains(c.conversations, f, e);
                let k = choose|k: int| 0 <= k < all.len() && all[k] == e;
                assert(!p(all[k]));
            }
        },
    }
}

/// Whoever is served is named every stored child of a message, and nothing
/// else; whoever is not is named none.
pub proof fn law_children_are_named(
    c: ClientView,
    caller: PublicKey,
    serves: bool,
    id: MessageId,
    own_record: Option<RecordView>,
    limit: usize,
    child: MessageId,
)
    ensures
        match answered(c, caller, serves, Some(OpView::GetSuccessors(id)), own_record, limit) {
            AnswerView::Successors(ids) => ids.contains(child) <==> serves && exists|x: int, i: int|
                0 <= x < c.conversations.len() && 0 <= i < c.conversations[x].envelopes.len() && (
                #[trigger] c.conversations[x].envelopes[i]).id == child
                    && c.conversations[x].envelopes[i].parents.contains(id),
            _ => false,
        },
{
    crate::history::law_children_name_the_parent(c, id, child);
    let set = children(c, id);
    vstd::seq_lib::seq_to_set_is_finite(
        crate::seqs::gathered(c.conversations, crate::history::envelopes_of()).filter_map(
            crate::history::child_of(id),
        ),
    );
    crate::order::lemma_list_exists::<MessageId>(set);
    assert(ascending_list::<MessageId>(set).to_set().contains(child) == set.contains(child));
}

/// What is served about a key: this device's own record for its own key, else
/// the recognized device's of that key, else that of a contact which lists the
/// key; with this device's own claims about the key and nobody else's.
pub proof fn law_served_about_a_key(
    c: ClientView,
    caller: PublicKey,
    serves: bool,
    key: PublicKey,
    own_record: Option<RecordView>,
    limit: usize,
    s: SignedView,
)
    ensures
        match answered(c, caller, serves, Some(OpView::WhoIs(key)), own_record, limit) {
            AnswerView::Known(record, claims) => {
                &&& serves
                &&& claims.contains(s) <==> stance(c, key) == Some(s) || share_of(c, key) == Some(s)
                &&& if key == c.device {
                    own_record == Some(record)
                } else {
                    ||| c.devices.contains((key, record))
                    ||| (forall|i: int| 0 <= i < c.devices.len() ==> (#[trigger] c.devices[i]).0 != key)
                        && record.keys.contains(key) && exists|i: int|
                        0 <= i < c.contacts.len() && (#[trigger] c.contacts[i]).1 == record
                }
            },
            AnswerView::NotHeld => {
                ||| !serves
                ||| key == c.device && own_record is None
                ||| key != c.device && (forall|i: int|
                    0 <= i < c.devices.len() ==> (#[trigger] c.devices[i]).0 != key) && (forall|i: int|
                    0 <= i < c.contacts.len() ==> !(#[trigger] c.contacts[i]).1.keys.contains(key))
            },
            _ => false,
        },
{
    crate::client::law_entry_by_key(c, key);
    crate::seqs::lemma_first(c.devices, crate::client::filed(key));
    match device_with(c, key) {
        Some(_) => {},
        None => {
            assert forall|i: int| 0 <= i < c.devices.len() implies (#[trigger] c.devices[i]).0 != key by {
                assert(!crate::client::filed::<RecordView>(key)(c.devices[i]));
            }
        },
    }
    let a = as_list(stance(c, key));
    let b = as_list(share_of(c, key));
    let both = a + b;
    if stance(c, key) == Some(s) {
        assert(both[0] == s);
    }
    if share_of(c, key) == Some(s) {
        assert(both[a.len() as int] == s);
    }
    if both.contains(s) {
        let k = choose|k: int| 0 <= k < both.len() && both[k] == s;
        if k < a.len() {
            assert(a[k] == s);
        } else {
            assert(b[k - a.len()] == s);
        }
    }
}

/// Key wraps are for this user's own devices: a recognized device is given one
/// for each message it asks for and this device holds, of as many as the limit
/// allows; anybody else is told that nothing is held.
pub proof fn law_wraps_for_own_devices(
    c: ClientView,
    caller: PublicKey,
    serves: bool,
    ids: Seq<MessageId>,
    own_record: Option<RecordView>,
    limit: usize,
    id: MessageId,
)
    ensures
        match answered(c, caller, serves, Some(OpView::GetKeys(ids)), own_record, limit) {
            AnswerView::Wraps(list) => {
                &&& exists|i: int| 0 <= i < c.devices.len() && (#[trigger] c.devices[i]).0 == caller
                &&& list.contains(id) <==> held_envelope(c, id) is Some && exists|k: int|
                    0 <= k < ids.len() && k < limit && #[trigger] ids[k] == id
            },
            AnswerView::NotHeld => forall|i: int|
                0 <= i < c.devices.len() ==> (#[trigger] c.devices[i]).0 != caller,
            _ => false,
        },
{
    crate::seqs::lemma_first(c.devices, crate::client::filed(caller));
    match device_with(c, caller) {
        Some(d) => {
            let i = choose|i: int| 0 <= i < c.devices.len() && c.devices[i] == d;
            assert(c.devices[i].0 == caller);
            let head = if ids.len() <= limit {
                ids
            } else {
                ids.take(limit as int)
            };
            crate::seqs::lemma_filter_contains(head, is_held(c), id);
            if head.contains(id) {
                let k = choose|k: int| 0 <= k < head.len() && head[k] == id;
                assert(ids[k] == id);
            }
            if exists|k: int| 0 <= k < ids.len() && k < limit && #[trigger] ids[k] == id {
                let k = choose|k: int| 0 <= k < ids.len() && k < limit && #[trigger] ids[k] == id;
                assert(head[k] == id);
            }
        },
        None => {
            assert forall|i: int| 0 <= i < c.devices.len() implies (#[trigger] c.devices[i]).0
                != caller by {
                assert(!crate::client::filed::<RecordView>(caller)(c.devices[i]));
            }
        },
    }
}

/// A delivery is taken exactly where its sender is served, its format is read
/// here, it verifies, is addressed to this device and opens; it is then
/// reported as it came, and nothing but the store changes. A request of any
/// other kind changes nothing.
pub proof fn law_deliveries_taken(
    c: ClientView,
    caller: PublicKey,
    serves: bool,
    e: EnvelopeView,
    graph: GraphView,
    own_record: Option<RecordView>,
    limit: usize,
    now: u64,
    op: Option<OpView>,
)
    ensures
        ({
            let a = answered(c, caller, serves, Some(OpView::Deliver(e, graph)), own_record, limit);
            let taken = serves && e.supported && e.verified && e.recipients.contains(c.device)
                && e.body is Ok;
            &&& taken ==> a == AnswerView::Stored(ReceivedView { envelope: e, relay: None })
            &&& !taken ==> a == AnswerView::NotHeld
            &&& !taken ==> after_request(c, serves, Some(OpView::Deliver(e, graph)), now) == c
        }),
        op is None || !(op->0 is Deliver) ==> after_request(c, serves, op, now) == c,
        answered(c, caller, serves, None, own_record, limit) is Malformed,
{
}

/// Only who is trusted is served: this device, a recognized device, or a key
/// that a contact lists.
pub proof fn law_who_is_served(c: ClientView, caller: PublicKey)
    ensures
        known_key(c, caller) <==> crate::history::is_trusted_author(c, caller),
{
    crate::client::law_own_keys(c, caller);
    crate::client::law_entry_by_key(c, caller);
}

/// What is known of peers once one has connected.
pub open spec fn greeted(
    c: ClientView,
    table: Map<PublicKey, Reach>,
    caller: PublicKey,
    now: u64,
) -> Map<PublicKey, Reach> {
    if known_key(c, caller) {
        crate::reach::after_sight(table, caller, now)
    } else {
        table
    }
}

/// A peer that is served has been seen when it connects; a stranger leaves no
/// trace, and neither touches what is known of others.
pub proof fn law_who_connects_was_seen(
    c: ClientView,
    table: Map<PublicKey, Reach>,
    caller: PublicKey,
    now: u64,
    other: PublicKey,
)
    ensures
        known_key(c, caller) ==> known(greeted(c, table, caller, now), caller).seen_ms == now && known(
            greeted(c, table, caller, now),
            caller,
        ).failed_ms == known(table, caller).failed_ms,
        !known_key(c, caller) ==> greeted(c, table, caller, now) == table,
        other != caller ==> known(greeted(c, table, caller, now), other) == known(table, other),
{
}

} // verus!
