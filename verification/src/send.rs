//! Sending: what to seal and for whom, what staging a sealed message leaves
//! behind so that an edge can render it before delivery finishes, and what
//! delivery makes of the outcomes: direct to each recipient where reach
//! evidence warrants it, then one deposit per distinct relay.
use vstd::prelude::*;

use crate::client::{own, trusted_record, Client, ClientView, OutboxView};
use crate::error::{Error, ErrorView};
use crate::history::{carries, dag_of, members, not_stored, participants_fn, ConversationView, DagView, Envelope, EnvelopeView};
use crate::ids::{MessageId, PublicKey};
use crate::order::{ascending, ascending_list, copies, holds, lemma_list_exists, lemma_list_is, set_insert, set_of, Duplicate};
use crate::outbox::{cleared, conversation_is, find_conversation, with_debt};
use crate::reach::{budget, known, Reach, ReachLedger};
use crate::record::{lemma_keys_view, ContactRecord, RecordView};
use crate::relays::{dialable, effective, mailbox_list, mailboxes, Contact, ContactView, Peer, PeerView, Refusal, RefusalView};
use crate::seqs::{first, gathered, lemma_filter, lemma_filter_map_step, lemma_filter_step, lemma_gathered_step, lemma_map_step, lemma_take_all, lemma_take_step, some};
use crate::store::{acked, mapped, remembered, thread_of, Graph, GraphView};
use crate::time::Duration;
use crate::trust::is_excluded;

verus! {

// ---- drafts ----

/// A message to be sealed: where it threads, and for whom.
#[derive(Debug)]
pub struct MessageDraft {
    /// The conversation it continues; `None` begins one.
    pub conversation: Option<MessageId>,
    pub parents: Vec<MessageId>,
    pub recipients: Vec<PublicKey>,
    pub seq: u64,
    pub logical: u64,
    pub timestamp_ms: u64,
}

pub struct DraftView {
    pub conversation: Option<MessageId>,
    pub parents: Seq<MessageId>,
    pub recipients: Seq<PublicKey>,
    pub seq: u64,
    pub logical: u64,
    pub timestamp_ms: u64,
}

impl DeepView for MessageDraft {
    type V = DraftView;

    open spec fn deep_view(&self) -> DraftView {
        DraftView {
            conversation: self.conversation,
            parents: self.parents.deep_view(),
            recipients: self.recipients.deep_view(),
            seq: self.seq,
            logical: self.logical,
            timestamp_ms: self.timestamp_ms,
        }
    }
}

pub open spec fn contact_keys() -> spec_fn(ContactView) -> Seq<PublicKey> {
    |x: ContactView| x.keys
}

/// Everyone the contacts name.
pub open spec fn addressed(contacts: Seq<ContactView>) -> Seq<PublicKey> {
    gathered(contacts, contact_keys())
}

/// A message that begins a conversation.
pub open spec fn genesis(recipients: Seq<PublicKey>, now: u64) -> DraftView {
    DraftView {
        conversation: None,
        parents: Seq::empty(),
        recipients,
        seq: 0,
        logical: 0,
        timestamp_ms: now,
    }
}

/// A message threaded onto a stored conversation's heads, or why it cannot
/// be.
pub open spec fn threaded(
    c: ClientView,
    conversation: MessageId,
    recipients: Seq<PublicKey>,
    now: u64,
) -> Result<DraftView, ErrorView> {
    match first(c.conversations, conversation_is(conversation)) {
        None => Err(not_stored()),
        Some(x) => match dag_of(x) {
            Err(e) => Err(e),
            Ok(d) => Ok(
                DraftView {
                    conversation: Some(conversation),
                    parents: d.heads,
                    recipients,
                    seq: d.next_seq,
                    logical: d.next_logical,
                    timestamp_ms: now,
                },
            ),
        },
    }
}

/// The conversation a send to these people continues: the one their set with
/// this user's own devices maps to, else the one the bare set does.
pub open spec fn continued(c: ClientView, recipients: Seq<PublicKey>) -> Option<MessageId> {
    let bare = recipients.to_set().insert(c.device);
    match mapped(c, ascending_list::<PublicKey>(bare + own(c))) {
        Some(id) => Some(id),
        None => mapped(c, ascending_list::<PublicKey>(bare)),
    }
}

/// The draft of a send: into the conversation of the people it goes to, where
/// there is one, else a new one.
pub open spec fn drafted(c: ClientView, contacts: Seq<ContactView>, now: u64) -> Result<
    DraftView,
    ErrorView,
> {
    if contacts.len() == 0 {
        Err(ErrorView::NoRecipients)
    } else {
        let recipients = addressed(contacts);
        match continued(c, recipients) {
            Some(conversation) => threaded(c, conversation, recipients, now),
            None => Ok(genesis(recipients, now)),
        }
    }
}

/// The draft of a send into a known conversation, whatever its participant
/// set maps to.
pub open spec fn drafted_in(
    c: ClientView,
    conversation: MessageId,
    contacts: Seq<ContactView>,
    now: u64,
) -> Result<DraftView, ErrorView> {
    if contacts.len() == 0 {
        Err(ErrorView::NoRecipients)
    } else {
        threaded(c, conversation, addressed(contacts), now)
    }
}

impl Duplicate for Contact {
    fn duplicate(&self) -> (r: Self) {
        let keys: Vec<PublicKey> = copies(&self.keys);
        proof {
            lemma_keys_view(&keys);
            lemma_keys_view(&self.keys);
        }
        Contact { keys, relays: copies(&self.relays) }
    }
}

fn recipients_of(contacts: &Vec<Contact>) -> (r: Vec<PublicKey>)
    ensures
        r.deep_view() == addressed(contacts.deep_view()),
{
    let ghost s = contacts.deep_view();
    let ghost f = contact_keys();
    let mut out: Vec<PublicKey> = Vec::new();
    assert(out.deep_view() =~= gathered(s.take(0), f));
    for i in 0..contacts.len()
        invariant
            s == contacts.deep_view(),
            f == contact_keys(),
            out.deep_view() == gathered(s.take(i as int), f),
    {
        proof {
            lemma_gathered_step(s, f, i as int);
            lemma_keys_view(&contacts@[i as int].keys);
        }
        crate::trust::append_copies(&mut out, &contacts[i].keys);
    }
    proof {
        lemma_take_all(s);
    }
    out
}

impl Client {
    /// A draft that begins a conversation.
    pub fn genesis_draft(&self, recipients: Vec<PublicKey>, now: u64) -> (r: MessageDraft)
        ensures
            r.deep_view() == genesis(recipients.deep_view(), now),
    {
        let parents: Vec<MessageId> = Vec::new();
        assert(parents.deep_view() =~= Seq::<MessageId>::empty());
        MessageDraft { conversation: None, parents, recipients, seq: 0, logical: 0, timestamp_ms: now }
    }

    /// A draft threaded onto the stored graph's heads.
    pub fn threaded_draft(&self, conversation: MessageId, recipients: Vec<PublicKey>, now: u64) -> (r:
        Result<MessageDraft, Error>)
        ensures
            match threaded(self.deep_view(), conversation, recipients.deep_view(), now) {
                Ok(d) => r is Ok && r->Ok_0.deep_view() == d,
                Err(e) => r is Err && r->Err_0.deep_view() == e,
            },
    {
        let i: usize = match find_conversation(&self.conversations, &conversation) {
            Some(i) => i,
            None => {
                return Err(Error::Storage("no such conversation".to_owned()));
            },
        };
        match self.conversations[i].graph() {
            Ok(d) => Ok(
                MessageDraft {
                    conversation: Some(conversation),
                    parents: copies(&d.heads),
                    recipients,
                    seq: d.next_seq,
                    logical: d.next_logical,
                    timestamp_ms: now,
                },
            ),
            Err(e) => Err(e),
        }
    }

    /// The draft a send threads: into the participant set's conversation if
    /// one is known, else a fresh genesis.
    pub fn send_draft(&self, contacts: &Vec<Contact>, now: u64) -> (r: Result<MessageDraft, Error>)
        ensures
            match drafted(self.deep_view(), contacts.deep_view(), now) {
                Ok(d) => r is Ok && r->Ok_0.deep_view() == d,
                Err(e) => r is Err && r->Err_0.deep_view() == e,
            },
    {
        assert(contacts.deep_view().len() == contacts.len());
        if contacts.len() == 0 {
            return Err(Error::NoRecipients);
        }
        let recipients: Vec<PublicKey> = recipients_of(contacts);
        let ghost c = self.deep_view();
        let ghost bare = recipients.deep_view().to_set().insert(c.device);
        let mut set: Vec<PublicKey> = set_of(&recipients);
        set_insert(&mut set, self.device);
        let mut extended: Vec<PublicKey> = set_of(&set);
        let own_keys: Vec<PublicKey> = self.own_keys();
        let ghost t = own_keys.deep_view();
        assert(extended.deep_view().to_set() =~= bare + t.take(0).to_set());
        for i in 0..own_keys.len()
            invariant
                t == own_keys.deep_view(),
                ascending::<PublicKey>(extended.deep_view()),
                extended.deep_view().to_set() == bare + t.take(i as int).to_set(),
        {
            set_insert(&mut extended, own_keys[i]);
            proof {
                crate::order::lemma_take_set(t, i as int);
                assert(extended.deep_view().to_set() =~= bare + t.take(i + 1).to_set());
            }
        }
        proof {
            lemma_take_all(t);
            lemma_list_is::<PublicKey>(set.deep_view(), bare);
            lemma_list_is::<PublicKey>(extended.deep_view(), bare + own(c));
        }
        let existing: Option<MessageId> = match self.conversation_for(&extended) {
            Some(id) => Some(id),
            None => self.conversation_for(&set),
        };
        match existing {
            Some(conversation) => self.threaded_draft(conversation, recipients, now),
            None => Ok(self.genesis_draft(recipients, now)),
        }
    }

    /// The draft of a reply from a history view.
    pub fn reply_draft(&self, conversation: MessageId, contacts: &Vec<Contact>, now: u64) -> (r: Result<
        MessageDraft,
        Error,
    >)
        ensures
            match drafted_in(self.deep_view(), conversation, contacts.deep_view(), now) {
                Ok(d) => r is Ok && r->Ok_0.deep_view() == d,
                Err(e) => r is Err && r->Err_0.deep_view() == e,
            },
    {
        assert(contacts.deep_view().len() == contacts.len());
        if contacts.len() == 0 {
            return Err(Error::NoRecipients);
        }
        self.threaded_draft(conversation, recipients_of(contacts), now)
    }
}

// ---- own devices ----

/// The recognized devices a send is also sealed for: not the sending one, and
/// none already addressed.
pub open spec fn joining(
    device: PublicKey,
    recipients: Seq<PublicKey>,
    devices: Seq<(PublicKey, RecordView)>,
) -> Seq<(PublicKey, RecordView)>
    decreases devices.len(),
{
    if devices.len() == 0 {
        Seq::empty()
    } else {
        let rest = joining(device, recipients, devices.drop_last());
        let key = devices.last().0;
        if key == device || (recipients + rest.map_values(device_key())).contains(key) {
            rest
        } else {
            rest.push(devices.last())
        }
    }
}

pub open spec fn device_key() -> spec_fn((PublicKey, RecordView)) -> PublicKey {
    |e: (PublicKey, RecordView)| e.0
}

/// A device as somebody to send to.
pub open spec fn device_contact(c: ClientView) -> spec_fn((PublicKey, RecordView)) -> ContactView {
    |e: (PublicKey, RecordView)|
        ContactView { keys: seq![e.0], relays: mailboxes(effective(c, e.0, Some(e.1))) }
}

/// The draft as it is sealed: this user's other devices are members of every
/// conversation this device speaks in.
pub open spec fn to_seal(c: ClientView, d: DraftView) -> DraftView {
    DraftView {
        recipients: d.recipients + joining(c.device, d.recipients, c.devices).map_values(
            device_key(),
        ),
        ..d
    }
}

/// Everyone a send is delivered to: the contacts, then the joining devices.
pub open spec fn destinations(c: ClientView, d: DraftView, contacts: Seq<ContactView>) -> Seq<
    ContactView,
> {
    contacts + joining(c.device, d.recipients, c.devices).map_values(device_contact(c))
}

impl Client {
    /// Adds this user's other devices to a draft, and to those it is delivered
    /// to.
    pub fn include_devices(&self, draft: &mut MessageDraft, contacts: &mut Vec<Contact>)
        ensures
            final(draft).deep_view() == to_seal(self.deep_view(), old(draft).deep_view()),
            final(contacts).deep_view() == destinations(
                self.deep_view(),
                old(draft).deep_view(),
                old(contacts).deep_view(),
            ),
    {
        let ghost c = self.deep_view();
        let ghost s = self.devices.deep_view();
        let ghost d = draft.deep_view();
        let ghost base = contacts.deep_view();
        let mut recipients: Vec<PublicKey> = copies(&draft.recipients);
        let mut out: Vec<Contact> = copies(contacts);
        proof {
            let none = joining(c.device, d.recipients, s.take(0));
            assert(recipients.deep_view() =~= d.recipients + none.map_values(device_key()));
            assert(out.deep_view() =~= base + none.map_values(device_contact(c)));
        }
        for i in 0..self.devices.len()
            invariant
                c == self.deep_view(),
                s == self.devices.deep_view(),
                recipients.deep_view() == d.recipients + joining(
                    c.device,
                    d.recipients,
                    s.take(i as int),
                ).map_values(device_key()),
                out.deep_view() == base + joining(
                    c.device,
                    d.recipients,
                    s.take(i as int),
                ).map_values(device_contact(c)),
        {
            proof {
                lemma_take_step(s, i as int);
            }
            let ghost rest = joining(c.device, d.recipients, s.take(i as int));
            let key: PublicKey = self.devices[i].0;
            if !(key == self.device) && !holds(&recipients, &key) {
                let relays: Vec<String> = mailbox_list(
                    &self.effective_relays(key, Some(&self.devices[i].1)),
                );
                let ghost r0 = recipients.deep_view();
                let ghost o0 = out.deep_view();
                let mut keys: Vec<PublicKey> = Vec::new();
                keys.push(key);
                assert(keys@ =~= seq![key]);
                let contact: Contact = Contact { keys, relays };
                let ghost v = contact.deep_view();
                recipients.push(key);
                out.push(contact);
                proof {
                    let now = rest.push(s[i as int]);
                    assert(recipients.deep_view() =~= r0.push(key));
                    assert(out.deep_view() =~= o0.push(v));
                    assert(now.map_values(device_key()) =~= rest.map_values(device_key()).push(key));
                    assert(now.map_values(device_contact(c)) =~= rest.map_values(
                        device_contact(c),
                    ).push(v));
                    assert(r0.push(key) =~= d.recipients + now.map_values(device_key()));
                    assert(o0.push(v) =~= base + now.map_values(device_contact(c)));
                }
            }
        }
        proof {
            lemma_take_all(s);
        }
        draft.recipients = recipients;
        *contacts = out;
    }
}

// ---- staging ----

pub open spec fn contact_relays() -> spec_fn(ContactView) -> Seq<Seq<char>> {
    |x: ContactView| x.relays
}

/// Each text once, where it is first named.
pub open spec fn distinct(s: Seq<Seq<char>>) -> Seq<Seq<char>>
    decreases s.len(),
{
    if s.len() == 0 {
        Seq::empty()
    } else {
        let rest = distinct(s.drop_last());
        if rest.contains(s.last()) {
            rest
        } else {
            rest.push(s.last())
        }
    }
}

/// The distinct relays a message is owed to, in the order they are first
/// named.
pub open spec fn owed_relays(contacts: Seq<ContactView>) -> Seq<Seq<char>> {
    distinct(gathered(contacts, contact_relays()))
}

pub open spec fn at_relays(relays: Seq<Seq<char>>) -> spec_fn(PublicKey) -> (PublicKey, Seq<Seq<char>>) {
    |k: PublicKey| (k, relays)
}

/// Each key of a contact, with the relays that host its mailbox.
pub open spec fn hosted_by() -> spec_fn(ContactView) -> Seq<(PublicKey, Seq<Seq<char>>)> {
    |x: ContactView| x.keys.map_values(at_relays(x.relays))
}

/// The ledger with a message's debt to each of some relays.
pub open spec fn with_debts(
    outbox: Seq<OutboxView>,
    message: MessageId,
    conversation: MessageId,
    now: u64,
    relays: Seq<Seq<char>>,
) -> Seq<OutboxView>
    decreases relays.len(),
{
    if relays.len() == 0 {
        outbox
    } else {
        with_debt(
            with_debts(outbox, message, conversation, now, relays.drop_last()),
            OutboxView { message, relay: relays.last(), conversation, created_ms: now },
        )
    }
}

/// A message that is sealed, stored and ledgered, but not yet delivered. If
/// the process dies here, the ledger still owes the delivery.
#[derive(Debug)]
pub struct StagedSend {
    pub id: MessageId,
    pub conversation: MessageId,
    pub seq: u64,
    pub recipients: Vec<PublicKey>,
    /// How many blobs go with it.
    pub blobs: usize,
    /// Recipient keys, each with the relays hosting its mailbox.
    pub hosted: Vec<(PublicKey, Vec<String>)>,
    /// The distinct relays it is owed to.
    pub relays: Vec<String>,
}

pub struct StagedView {
    pub id: MessageId,
    pub conversation: MessageId,
    pub seq: u64,
    pub recipients: Seq<PublicKey>,
    pub blobs: usize,
    pub hosted: Seq<(PublicKey, Seq<Seq<char>>)>,
    pub relays: Seq<Seq<char>>,
}

impl DeepView for StagedSend {
    type V = StagedView;

    open spec fn deep_view(&self) -> StagedView {
        StagedView {
            id: self.id,
            conversation: self.conversation,
            seq: self.seq,
            recipients: self.recipients.deep_view(),
            blobs: self.blobs,
            hosted: self.hosted.deep_view(),
            relays: self.relays.deep_view(),
        }
    }
}

/// What staging a sealed message hands to delivery.
pub open spec fn staged(e: EnvelopeView, blobs: usize, contacts: Seq<ContactView>) -> StagedView {
    StagedView {
        id: e.id,
        conversation: thread_of(e),
        seq: e.seq,
        recipients: e.recipients,
        blobs,
        hosted: gathered(contacts, hosted_by()),
        relays: owed_relays(contacts),
    }
}

/// What staging a sealed message leaves behind: the message, its participant
/// set's mapping, and a debt to each relay, before any network work.
pub open spec fn after_staging(
    c: ClientView,
    e: EnvelopeView,
    graph: GraphView,
    contacts: Seq<ContactView>,
    now: u64,
) -> ClientView {
    let d = remembered(c, e, graph, now);
    ClientView {
        outbox: with_debts(d.outbox, e.id, thread_of(e), now, owed_relays(contacts)),
        ..d
    }
}

fn distinct_relays(contacts: &Vec<Contact>) -> (r: Vec<String>)
    ensures
        r.deep_view() == owed_relays(contacts.deep_view()),
{
    let ghost s = contacts.deep_view();
    let ghost f = contact_relays();
    let mut out: Vec<String> = Vec::new();
    assert(out.deep_view() =~= distinct(gathered(s.take(0), f)));
    for i in 0..contacts.len()
        invariant
            s == contacts.deep_view(),
            f == contact_relays(),
            out.deep_view() == distinct(gathered(s.take(i as int), f)),
    {
        let relays: &Vec<String> = &contacts[i].relays;
        let ghost t = relays.deep_view();
        let ghost base = gathered(s.take(i as int), f);
        assert(base + t.take(0) =~= base);
        for j in 0..relays.len()
            invariant
                t == relays.deep_view(),
                out.deep_view() == distinct(base + t.take(j as int)),
        {
            proof {
                lemma_take_step(t, j as int);
                assert((base + t.take(j + 1)).drop_last() =~= base + t.take(j as int));
                assert((base + t.take(j + 1)).last() == t[j as int]);
            }
            if !holds(&out, &relays[j]) {
                let ghost before = out.deep_view();
                out.push(relays[j].clone());
                assert(out.deep_view() =~= before.push(t[j as int]));
            }
        }
        proof {
            lemma_take_all(t);
            lemma_gathered_step(s, f, i as int);
        }
    }
    proof {
        lemma_take_all(s);
    }
    out
}

fn hosted_keys(contacts: &Vec<Contact>) -> (r: Vec<(PublicKey, Vec<String>)>)
    ensures
        r.deep_view() == gathered(contacts.deep_view(), hosted_by()),
{
    let ghost s = contacts.deep_view();
    let ghost f = hosted_by();
    let mut out: Vec<(PublicKey, Vec<String>)> = Vec::new();
    assert(out.deep_view() =~= gathered(s.take(0), f));
    for i in 0..contacts.len()
        invariant
            s == contacts.deep_view(),
            f == hosted_by(),
            out.deep_view() == gathered(s.take(i as int), f),
    {
        let keys: &Vec<PublicKey> = &contacts[i].keys;
        let ghost t = keys@;
        let ghost g = at_relays(contacts@[i as int].relays.deep_view());
        let ghost base = gathered(s.take(i as int), f);
        assert(out.deep_view() =~= base + t.take(0).map_values(g));
        for j in 0..keys.len()
            invariant
                i < contacts.len(),
                t == keys@,
                g == at_relays(contacts@[i as int].relays.deep_view()),
                out.deep_view() == base + t.take(j as int).map_values(g),
        {
            proof {
                lemma_map_step(t, g, j as int);
            }
            let ghost before = out.deep_view();
            let pair: (PublicKey, Vec<String>) = (keys[j], copies(&contacts[i].relays));
            let ghost v = pair.deep_view();
            out.push(pair);
            assert(out.deep_view() =~= before.push(v));
            assert(out.deep_view() =~= base + t.take(j + 1).map_values(g));
        }
        proof {
            lemma_take_all(t);
            lemma_gathered_step(s, f, i as int);
        }
    }
    proof {
        lemma_take_all(s);
    }
    out
}

impl Client {
    /// The local half of every send, once the message is sealed: store it,
    /// map its participants, and ledger what every relay is owed. `contacts`
    /// is everyone it is delivered to, `graph` the conversation's graph with
    /// it.
    pub fn stage(
        &mut self,
        envelope: Envelope,
        graph: Graph,
        blobs: usize,
        contacts: &Vec<Contact>,
        now: u64,
    ) -> (r: StagedSend)
        ensures
            r.deep_view() == staged(envelope.deep_view(), blobs, contacts.deep_view()),
            final(self).deep_view() == after_staging(
                old(self).deep_view(),
                envelope.deep_view(),
                graph.deep_view(),
                contacts.deep_view(),
                now,
            ),
    {
        let ghost e = envelope.deep_view();
        let id: MessageId = envelope.id;
        let seq: u64 = envelope.seq;
        let recipients: Vec<PublicKey> = copies(&envelope.recipients);
        let conversation: MessageId = match envelope.conversation {
            Some(c) => c,
            None => envelope.id,
        };
        self.remember(envelope, graph, now);
        let ghost d = self.deep_view();
        let relays: Vec<String> = distinct_relays(contacts);
        let ghost t = relays.deep_view();
        for i in 0..relays.len()
            invariant
                t == relays.deep_view(),
                id == e.id,
                conversation == thread_of(e),
                self.deep_view() == (ClientView {
                    outbox: with_debts(d.outbox, e.id, thread_of(e), now, t.take(i as int)),
                    ..d
                }),
        {
            proof {
                lemma_take_step(t, i as int);
            }
            self.add_outbox(id, relays[i].as_str(), conversation, now);
        }
        proof {
            lemma_take_all(t);
        }
        StagedSend { id, conversation, seq, recipients, blobs, hosted: hosted_keys(contacts), relays }
    }
}

// ---- direct delivery ----

/// Somebody worth dialing directly, and for how long.
#[derive(Debug)]
pub struct DirectTarget {
    pub peer: Peer,
    pub budget: Duration,
}

pub struct TargetView {
    pub peer: PeerView,
    pub budget: nat,
}

impl DeepView for DirectTarget {
    type V = TargetView;

    open spec fn deep_view(&self) -> TargetView {
        TargetView { peer: self.peer.deep_view(), budget: self.budget.length() }
    }
}

/// The recipients a message is pushed to directly.
pub open spec fn targets(
    c: ClientView,
    table: Map<PublicKey, Reach>,
    now: u64,
    timeout: Duration,
    recipients: Seq<PublicKey>,
    refused: Seq<RefusalView>,
) -> Seq<TargetView> {
    recipients.filter_map(target(c, table, now, timeout, refused))
}

/// A recipient as a direct target: not this device, worth a dial by the
/// evidence, and with a dialable route.
pub open spec fn target(
    c: ClientView,
    table: Map<PublicKey, Reach>,
    now: u64,
    timeout: Duration,
    refused: Seq<RefusalView>,
) -> spec_fn(PublicKey) -> Option<TargetView> {
    |key: PublicKey|
        if key == c.device {
            None
        } else {
            match (
                budget(known(table, key), now, timeout),
                dialable(c, key, trusted_record(c, key), refused),
            ) {
                (Some(b), Ok(peer)) => Some(TargetView { peer, budget: b }),
                _ => None,
            }
        }
}

impl Client {
    /// The recipients a direct push is tried for.
    pub fn direct_targets(
        &self,
        reach: &ReachLedger,
        recipients: &Vec<PublicKey>,
        now: u64,
        connect_timeout: Duration,
        refused: &Vec<Refusal>,
    ) -> (r: Vec<DirectTarget>)
        ensures
            r.deep_view() == targets(
                self.deep_view(),
                reach.table(),
                now,
                connect_timeout,
                recipients.deep_view(),
                refused.deep_view(),
            ),
    {
        let ghost c = self.deep_view();
        let ghost s = recipients.deep_view();
        let ghost f = target(c, reach.table(), now, connect_timeout, refused.deep_view());
        let mut out: Vec<DirectTarget> = Vec::new();
        assert(out.deep_view() =~= s.take(0).filter_map(f));
        for i in 0..recipients.len()
            invariant
                c == self.deep_view(),
                s == recipients.deep_view(),
                f == target(c, reach.table(), now, connect_timeout, refused.deep_view()),
                out.deep_view() == s.take(i as int).filter_map(f),
        {
            let key: PublicKey = recipients[i];
            proof {
                lemma_filter_map_step(s, f, i as int);
                assert(s[i as int] == key);
            }
            if !(key == self.device) {
                match reach.dial_budget(&key, now, connect_timeout) {
                    Some(budget) => {
                        let record: Option<ContactRecord> = self.trusted_record_for(&key);
                        let route: Result<Peer, Error> = match &record {
                            Some(known_record) => self.peer_addr_for(
                                key,
                                Some(known_record),
                                refused,
                            ),
                            None => self.peer_addr_for(key, None, refused),
                        };
                        match route {
                            Ok(peer) => {
                                let ghost before = out.deep_view();
                                let item: DirectTarget = DirectTarget { peer, budget };
                                let ghost v = item.deep_view();
                                out.push(item);
                                assert(out.deep_view() =~= before.push(v));
                            },
                            Err(_) => {},
                        }
                    },
                    None => {},
                }
            }
        }
        proof {
            lemma_take_all(s);
        }
        out
    }
}

/// What a direct push came to.
#[derive(Debug, Clone, Copy, PartialEq, Eq, Structural)]
pub enum DirectOutcome {
    /// Durably stored: the ack that licenses skipping the mailbox.
    Stored,
    /// The peer answered, and declined.
    NotHeld,
    /// Unreachable, cut off, or an answer outside the protocol.
    Failed,
}

impl DeepView for DirectOutcome {
    type V = DirectOutcome;

    open spec fn deep_view(&self) -> DirectOutcome {
        *self
    }
}

/// The evidence after a push: only an unreachable peer starts a cooldown, and
/// a delivery ends one.
pub open spec fn noted(
    table: Map<PublicKey, Reach>,
    key: PublicKey,
    outcome: DirectOutcome,
    now: u64,
) -> Map<PublicKey, Reach> {
    let held = known(table, key);
    table.insert(
        key,
        match outcome {
            DirectOutcome::Stored => Reach { seen_ms: now, failed_ms: 0 },
            DirectOutcome::NotHeld => Reach { seen_ms: now, ..held },
            DirectOutcome::Failed => Reach { failed_ms: now, ..held },
        },
    )
}

/// The evidence after several pushes.
pub open spec fn noted_all(
    table: Map<PublicKey, Reach>,
    outcomes: Seq<(PublicKey, DirectOutcome)>,
    now: u64,
) -> Map<PublicKey, Reach>
    decreases outcomes.len(),
{
    if outcomes.len() == 0 {
        table
    } else {
        noted(
            noted_all(table, outcomes.drop_last(), now),
            outcomes.last().0,
            outcomes.last().1,
            now,
        )
    }
}

pub open spec fn taker() -> spec_fn((PublicKey, DirectOutcome)) -> Option<PublicKey> {
    |e: (PublicKey, DirectOutcome)|
        if e.1 == DirectOutcome::Stored {
            Some(e.0)
        } else {
            None
        }
}

/// Who took the message, ascending.
pub open spec fn takers(outcomes: Seq<(PublicKey, DirectOutcome)>) -> Seq<PublicKey> {
    ascending_list::<PublicKey>(outcomes.filter_map(taker()).to_set())
}

/// Settles a fan-out of direct pushes: the evidence of each, and who acked.
pub fn settle_direct(
    reach: &mut ReachLedger,
    outcomes: &Vec<(PublicKey, DirectOutcome)>,
    now: u64,
) -> (r: Vec<PublicKey>)
    ensures
        r.deep_view() == takers(outcomes.deep_view()),
        final(reach).table() == noted_all(old(reach).table(), outcomes.deep_view(), now),
{
    let ghost s = outcomes.deep_view();
    let ghost f = taker();
    let ghost table = reach.table();
    let mut out: Vec<PublicKey> = Vec::new();
    proof {
        assert(out.deep_view() =~= Seq::<PublicKey>::empty());
        assert(out.deep_view().to_set() =~= s.take(0).filter_map(f).to_set());
    }
    for i in 0..outcomes.len()
        invariant
            s == outcomes.deep_view(),
            f == taker(),
            ascending::<PublicKey>(out.deep_view()),
            out.deep_view().to_set() == s.take(i as int).filter_map(f).to_set(),
            reach.table() == noted_all(table, s.take(i as int), now),
    {
        proof {
            lemma_take_step(s, i as int);
            lemma_filter_map_step(s, f, i as int);
            assert(s[i as int] == outcomes@[i as int].deep_view());
        }
        let key: PublicKey = outcomes[i].0;
        match outcomes[i].1 {
            DirectOutcome::Stored => {
                reach.note_delivered(&key, now);
                set_insert(&mut out, key);
                proof {
                    s.take(i as int).filter_map(f).lemma_push_to_set_commute(key);
                }
            },
            DirectOutcome::NotHeld => {
                reach.note_seen(&key, now);
            },
            DirectOutcome::Failed => {
                reach.note_failed(&key, now);
            },
        }
    }
    proof {
        lemma_take_all(s);
        lemma_list_is::<PublicKey>(out.deep_view(), s.filter_map(f).to_set());
    }
    out
}

// ---- deposits ----

/// A recipient whose mailbox a relay hosts.
pub open spec fn hosted_at(relay: Seq<char>) -> spec_fn((PublicKey, Seq<Seq<char>>)) -> bool {
    |e: (PublicKey, Seq<Seq<char>>)| e.1.contains(relay)
}

pub open spec fn unacked_at(relay: Seq<char>, direct: Seq<PublicKey>) -> spec_fn(
    (PublicKey, Seq<Seq<char>>),
) -> bool {
    |e: (PublicKey, Seq<Seq<char>>)| e.1.contains(relay) && !direct.contains(e.0)
}

/// Direct delivery discharges a relay: the message carries no blobs, the relay
/// hosts a recipient, and every recipient it hosts acked.
pub open spec fn discharged(v: StagedView, direct: Seq<PublicKey>) -> spec_fn(Seq<char>) -> bool {
    |relay: Seq<char>|
        v.blobs == 0 && some(v.hosted, hosted_at(relay)) && !some(
            v.hosted,
            unacked_at(relay, direct),
        )
}

pub open spec fn undischarged(v: StagedView, direct: Seq<PublicKey>) -> spec_fn(Seq<char>) -> bool {
    |relay: Seq<char>| !discharged(v, direct)(relay)
}

/// The ledger without a message's debts to some relays.
pub open spec fn cleared_all(outbox: Seq<OutboxView>, message: MessageId, relays: Seq<Seq<char>>) -> Seq<
    OutboxView,
>
    decreases relays.len(),
{
    if relays.len() == 0 {
        outbox
    } else {
        cleared(cleared_all(outbox, message, relays.drop_last()), message, relays.last())
    }
}

/// What the direct path leaves behind: its acks, and no debt to a relay it
/// discharged.
pub open spec fn after_direct(c: ClientView, v: StagedView, direct: Seq<PublicKey>) -> ClientView {
    let d = acked(c, v.id, direct);
    ClientView {
        outbox: cleared_all(d.outbox, v.id, v.relays.filter(discharged(v, direct))),
        ..d
    }
}

impl StagedSend {
    fn is_discharged(&self, relay: &String, direct: &Vec<PublicKey>) -> (r: bool)
        ensures
            r == discharged(self.deep_view(), direct.deep_view())(relay@),
    {
        let ghost s = self.hosted.deep_view();
        let ghost p = hosted_at(relay@);
        let ghost q = unacked_at(relay@, direct.deep_view());
        if self.blobs != 0 {
            return false;
        }
        let mut here: bool = false;
        let mut i: usize = 0;
        while i < self.hosted.len()
            invariant
                i <= self.hosted.len(),
                s == self.hosted.deep_view(),
                p == hosted_at(relay@),
                q == unacked_at(relay@, direct.deep_view()),
                here <==> exists|k: int| 0 <= k < i && p(#[trigger] s[k]),
                forall|k: int| 0 <= k < i ==> !q(#[trigger] s[k]),
            decreases self.hosted.len() - i,
        {
            assert(s[i as int] == self.hosted@[i as int].deep_view());
            if holds(&self.hosted[i].1, relay) {
                assert(p(s[i as int]));
                here = true;
                if !holds(direct, &self.hosted[i].0) {
                    assert(q(s[i as int]));
                    return false;
                }
            }
            i += 1;
        }
        here
    }
}

impl Client {
    /// Takes the direct path's result into account: the acks are recorded, and
    /// a relay it discharged never learns of the message. Returns the relays
    /// that still need a deposit.
    pub fn plan_deposits(&mut self, staged: &StagedSend, direct: &Vec<PublicKey>) -> (r: Vec<String>)
        ensures
            r.deep_view() == deposits_left(staged.deep_view(), direct.deep_view()),
            final(self).deep_view() == after_direct(
                old(self).deep_view(),
                staged.deep_view(),
                direct.deep_view(),
            ),
    {
        self.add_acks(staged.id, direct);
        let ghost d = self.deep_view();
        let ghost v = staged.deep_view();
        let ghost s = v.relays;
        let ghost p = discharged(v, direct.deep_view());
        let ghost q = undischarged(v, direct.deep_view());
        let mut out: Vec<String> = Vec::new();
        proof {
            reveal(Seq::filter);
            assert(out.deep_view() =~= s.take(0).filter(q));
            assert(s.take(0).filter(p) =~= Seq::<Seq<char>>::empty());
        }
        for i in 0..staged.relays.len()
            invariant
                v == staged.deep_view(),
                s == v.relays,
                p == discharged(v, direct.deep_view()),
                q == undischarged(v, direct.deep_view()),
                out.deep_view() == s.take(i as int).filter(q),
                self.deep_view() == (ClientView {
                    outbox: cleared_all(d.outbox, v.id, s.take(i as int).filter(p)),
                    ..d
                }),
        {
            proof {
                lemma_filter_step(s, p, i as int);
                lemma_filter_step(s, q, i as int);
                assert(s[i as int] == staged.relays@[i as int].deep_view());
            }
            if staged.is_discharged(&staged.relays[i], direct) {
                self.clear_outbox(staged.id, staged.relays[i].as_str());
                proof {
                    let before = s.take(i as int).filter(p);
                    assert(before.push(s[i as int]).drop_last() =~= before);
                }
            } else {
                let ghost before = out.deep_view();
                out.push(staged.relays[i].clone());
                assert(out.deep_view() =~= before.push(s[i as int]));
            }
        }
        proof {
            lemma_take_all(s);
        }
        out
    }
}

/// What a send came to.
#[derive(Debug)]
pub struct SendReceipt {
    pub id: MessageId,
    pub conversation: MessageId,
    pub seq: u64,
    pub blob_count: usize,
    pub relay_count: usize,
    /// Relays that did not take the delivery: queued for a later flush.
    pub pending_relays: usize,
    /// Recipient devices that took the message directly.
    pub direct_recipients: usize,
    /// Relays skipped because direct delivery discharged them.
    pub skipped_relays: usize,
}

/// What a receipt tells of a send.
pub struct ReceiptView {
    pub id: MessageId,
    pub conversation: MessageId,
    pub seq: u64,
    pub blobs: nat,
    pub relays: nat,
    pub pending: nat,
    pub direct: nat,
    pub skipped: nat,
}

/// The receipt of a send.
pub open spec fn receipt_of(
    v: StagedView,
    direct: Seq<PublicKey>,
    outcomes: Seq<(Seq<char>, Option<Seq<char>>)>,
) -> ReceiptView {
    ReceiptView {
        id: v.id,
        conversation: v.conversation,
        seq: v.seq,
        blobs: v.blobs as nat,
        relays: v.relays.len(),
        pending: failures(outcomes).len(),
        direct: direct.len(),
        skipped: v.relays.filter(discharged(v, direct)).len(),
    }
}

/// The relays a deposit is still owed to after direct delivery.
pub open spec fn deposits_left(v: StagedView, direct: Seq<PublicKey>) -> Seq<Seq<char>> {
    v.relays.filter(undischarged(v, direct))
}

/// The ledger once the deposits that were taken are settled.
pub open spec fn after_deposits(
    c: ClientView,
    id: MessageId,
    outcomes: Seq<(Seq<char>, Option<Seq<char>>)>,
) -> ClientView {
    ClientView { outbox: cleared_all(c.outbox, id, outcomes.filter_map(taken_by())), ..c }
}

/// A deposit that was not taken.
pub open spec fn untaken() -> spec_fn((Seq<char>, Option<Seq<char>>)) -> Option<Seq<char>> {
    |o: (Seq<char>, Option<Seq<char>>)| o.1
}

pub open spec fn taken_by() -> spec_fn((Seq<char>, Option<Seq<char>>)) -> Option<Seq<char>> {
    |o: (Seq<char>, Option<Seq<char>>)|
        if o.1 is None {
            Some(o.0)
        } else {
            None
        }
}

/// The errors of the deposits that were not taken, in order.
pub open spec fn failures(outcomes: Seq<(Seq<char>, Option<Seq<char>>)>) -> Seq<Seq<char>> {
    outcomes.filter_map(untaken())
}

/// Nothing took the message: every relay it is owed to failed, there is one,
/// and nobody took it directly.
pub open spec fn all_pending(
    v: StagedView,
    direct: Seq<PublicKey>,
    outcomes: Seq<(Seq<char>, Option<Seq<char>>)>,
) -> bool {
    failures(outcomes).len() == v.relays.len() && v.relays.len() > 0 && direct.len() == 0
}

impl Client {
    /// Ends a delivery: each deposit taken settles its debt, and what failed
    /// stays in the ledger. Errors only where nothing took the message, which
    /// is then queued, not lost. `outcomes` holds each relay a deposit was
    /// tried at, with the error where it failed.
    pub fn finish_delivery(
        &mut self,
        staged: &StagedSend,
        direct: &Vec<PublicKey>,
        outcomes: &Vec<(String, Option<String>)>,
    ) -> (r: Result<SendReceipt, Error>)
        ensures
            final(self).deep_view() == after_deposits(
                old(self).deep_view(),
                staged.id,
                outcomes.deep_view(),
            ),
            r is Err <==> all_pending(staged.deep_view(), direct.deep_view(), outcomes.deep_view()),
            r is Err ==> r->Err_0.deep_view() == ErrorView::AllRelaysPending(
                failures(outcomes.deep_view()).last(),
            ),
            r is Ok ==> {
                let v = receipt_of(staged.deep_view(), direct.deep_view(), outcomes.deep_view());
                let receipt = r->Ok_0;
                &&& receipt.id == v.id
                &&& receipt.conversation == v.conversation
                &&& receipt.seq == v.seq
                &&& receipt.blob_count == v.blobs
                &&& receipt.relay_count == v.relays
                &&& receipt.pending_relays == v.pending
                &&& receipt.direct_recipients == v.direct
                &&& receipt.skipped_relays == v.skipped
            },
    {
        let ghost d = self.deep_view();
        let ghost v = staged.deep_view();
        let ghost s = outcomes.deep_view();
        let ghost f = taken_by();
        let ghost g = untaken();
        let mut pending: usize = 0;
        let mut last_error: String = String::new();
        proof {
            assert(s.take(0).filter_map(f) =~= Seq::<Seq<char>>::empty());
            assert(s.take(0).filter_map(g) =~= Seq::<Seq<char>>::empty());
        }
        for i in 0..outcomes.len()
            invariant
                v == staged.deep_view(),
                s == outcomes.deep_view(),
                f == taken_by(),
                g == untaken(),
                pending <= i,
                pending == s.take(i as int).filter_map(g).len(),
                pending > 0 ==> last_error@ == s.take(i as int).filter_map(g).last(),
                self.deep_view() == (ClientView {
                    outbox: cleared_all(d.outbox, v.id, s.take(i as int).filter_map(f)),
                    ..d
                }),
        {
            proof {
                lemma_filter_map_step(s, f, i as int);
                lemma_filter_map_step(s, g, i as int);
                assert(s[i as int] == outcomes@[i as int].deep_view());
            }
            match &outcomes[i].1 {
                None => {
                    self.clear_outbox(staged.id, outcomes[i].0.as_str());
                    proof {
                        let before = s.take(i as int).filter_map(f);
                        assert(before.push(s[i as int].0).drop_last() =~= before);
                    }
                },
                Some(error) => {
                    pending += 1;
                    last_error = error.clone();
                },
            }
        }
        proof {
            lemma_take_all(s);
            assert(staged.relays.len() == v.relays.len());
            assert(direct.len() == direct.deep_view().len());
        }
        if pending == staged.relays.len() && staged.relays.len() > 0 && direct.len() == 0 {
            return Err(Error::AllRelaysPending(last_error));
        }
        let ghost t = v.relays;
        let ghost p = discharged(v, direct.deep_view());
        let mut skipped: usize = 0;
        proof {
            reveal(Seq::filter);
            assert(t.take(0).filter(p).len() == 0);
        }
        for i in 0..staged.relays.len()
            invariant
                v == staged.deep_view(),
                t == v.relays,
                p == discharged(v, direct.deep_view()),
                skipped <= i,
                skipped == t.take(i as int).filter(p).len(),
        {
            proof {
                lemma_filter_step(t, p, i as int);
                assert(t[i as int] == staged.relays@[i as int].deep_view());
            }
            if staged.is_discharged(&staged.relays[i], direct) {
                skipped += 1;
            }
        }
        proof {
            lemma_take_all(t);
        }
        Ok(
            SendReceipt {
                id: staged.id,
                conversation: staged.conversation,
                seq: staged.seq,
                blob_count: staged.blobs,
                relay_count: staged.relays.len(),
                pending_relays: pending,
                direct_recipients: direct.len(),
                skipped_relays: skipped,
            },
        )
    }
}

// ---- replies ----

/// Whom a reply reaches: the members it is sealed for, those of them with no
/// route, and the keys an accepted disavowal leaves out.
#[derive(Debug)]
pub struct ReplyContacts {
    pub contacts: Vec<Contact>,
    pub unknown: Vec<PublicKey>,
    pub disavowed: Vec<PublicKey>,
}

/// A member a reply is sealed for.
pub open spec fn replies_to(c: ClientView) -> spec_fn(PublicKey) -> bool {
    |k: PublicKey| k != c.device && !is_excluded(c, k)
}

/// A member left out on purpose.
pub open spec fn left_out(c: ClientView) -> spec_fn(PublicKey) -> bool {
    |k: PublicKey| k != c.device && is_excluded(c, k)
}

/// Whom a reply goes to: whom it is sealed for, who of them has no route, and
/// who is left out on purpose.
pub struct ReplyView {
    pub contacts: Seq<ContactView>,
    pub unknown: Seq<PublicKey>,
    pub disavowed: Seq<PublicKey>,
}

/// Whom a reply into a conversation goes to.
pub open spec fn reply_of(c: ClientView, x: ConversationView) -> ReplyView {
    let all = ascending_list::<PublicKey>(members(x));
    ReplyView {
        contacts: all.filter(replies_to(c)).map_values(member_contact(c)),
        unknown: all.filter(unroutable(c)),
        disavowed: all.filter(left_out(c)),
    }
}

/// A member with no route: sealed for, delivered nowhere.
pub open spec fn unroutable(c: ClientView) -> spec_fn(PublicKey) -> bool {
    |k: PublicKey|
        replies_to(c)(k) && mailboxes(effective(c, k, trusted_record(c, k))).len() == 0
}

pub open spec fn member_contact(c: ClientView) -> spec_fn(PublicKey) -> ContactView {
    |k: PublicKey|
        ContactView { keys: seq![k], relays: mailboxes(effective(c, k, trusted_record(c, k))) }
}

impl Client {
    /// Whom a reply in this conversation goes to: the current membership minus
    /// this device. A member with no route is still a recipient: dropping them
    /// from the signed recipients would shrink membership for everyone.
    pub fn reply_contacts(&self, conversation: MessageId) -> (r: Result<ReplyContacts, Error>)
        ensures
            match first(self.deep_view().conversations, conversation_is(conversation)) {
                None => r is Err && r->Err_0.deep_view() == not_stored(),
                Some(x) => {
                    let v = reply_of(self.deep_view(), x);
                    &&& r is Ok
                    &&& r->Ok_0.contacts.deep_view() == v.contacts
                    &&& r->Ok_0.unknown.deep_view() == v.unknown
                    &&& r->Ok_0.disavowed.deep_view() == v.disavowed
                },
            },
    {
        let all: Vec<PublicKey> = match self.membership(conversation) {
            Ok(keys) => keys,
            Err(e) => {
                return Err(e);
            },
        };
        let ghost c = self.deep_view();
        let ghost s = all.deep_view();
        proof {
            let x = first(c.conversations, conversation_is(conversation))->0;
            lemma_list_is::<PublicKey>(s, members(x));
        }
        let ghost p = replies_to(c);
        let ghost q = unroutable(c);
        let ghost w = left_out(c);
        let ghost f = member_contact(c);
        let mut contacts: Vec<Contact> = Vec::new();
        let mut unknown: Vec<PublicKey> = Vec::new();
        let mut disavowed: Vec<PublicKey> = Vec::new();
        proof {
            reveal(Seq::filter);
            assert(contacts.deep_view() =~= s.take(0).filter(p).map_values(f));
            assert(unknown.deep_view() =~= s.take(0).filter(q));
            assert(disavowed.deep_view() =~= s.take(0).filter(w));
        }
        for i in 0..all.len()
            invariant
                c == self.deep_view(),
                s == all.deep_view(),
                p == replies_to(c),
                q == unroutable(c),
                w == left_out(c),
                f == member_contact(c),
                contacts.deep_view() == s.take(i as int).filter(p).map_values(f),
                unknown.deep_view() == s.take(i as int).filter(q),
                disavowed.deep_view() == s.take(i as int).filter(w),
        {
            let key: PublicKey = all[i];
            proof {
                lemma_filter_step(s, p, i as int);
                lemma_filter_step(s, q, i as int);
                lemma_filter_step(s, w, i as int);
                assert(s[i as int] == key);
            }
            if !(key == self.device) {
                if self.is_disavowed(key) {
                    let ghost before = disavowed.deep_view();
                    disavowed.push(key);
                    assert(disavowed.deep_view() =~= before.push(key));
                } else {
                    let record: Option<ContactRecord> = self.trusted_record_for(&key);
                    let relays: Vec<String> = match &record {
                        Some(known_record) => mailbox_list(
                            &self.effective_relays(key, Some(known_record)),
                        ),
                        None => mailbox_list(&self.effective_relays(key, None)),
                    };
                    assert(relays.deep_view().len() == relays.len());
                    if relays.len() == 0 {
                        let ghost before = unknown.deep_view();
                        unknown.push(key);
                        assert(unknown.deep_view() =~= before.push(key));
                    }
                    let mut keys: Vec<PublicKey> = Vec::new();
                    keys.push(key);
                    assert(keys@ =~= seq![key]);
                    let contact: Contact = Contact { keys, relays };
                    let ghost before = contacts.deep_view();
                    let ghost v = contact.deep_view();
                    contacts.push(contact);
                    proof {
                        assert(contacts.deep_view() =~= before.push(v));
                        let held = s.take(i as int).filter(p);
                        assert(held.push(key).map_values(f) =~= held.map_values(f).push(v));
                    }
                }
            }
        }
        proof {
            lemma_take_all(s);
        }
        Ok(ReplyContacts { contacts, unknown, disavowed })
    }
}

// ---- laws ----

/// Nobody the transport refuses is dialed for a direct push.
pub proof fn law_refused_are_not_pushed_to(
    c: ClientView,
    table: Map<PublicKey, Reach>,
    now: u64,
    timeout: Duration,
    recipients: Seq<PublicKey>,
    refused: Seq<RefusalView>,
    i: int,
    j: int,
)
    requires
        0 <= i < recipients.filter_map(target(c, table, now, timeout, refused)).len(),
        0 <= j < refused.len(),
    ensures
        recipients.filter_map(target(c, table, now, timeout, refused))[i].peer != refused[j].peer,
{
    let f = target(c, table, now, timeout, refused);
    let s = recipients.filter_map(f);
    assert(s.contains(s[i]));
    recipients.lemma_filter_map_contains(f, s[i]);
    let key = choose|key: PublicKey| #[trigger] recipients.contains(key) && f(key) == Some(s[i]);
    crate::relays::law_refused_is_not_dialable(c, key, trusted_record(c, key), refused, j);
}

/// A group send never loses a member: a relay is skipped only if every
/// recipient it hosts acked.
pub proof fn law_skipped_only_if_all_acked(v: StagedView, direct: Seq<PublicKey>, relay: Seq<char>, i: int)
    requires
        discharged(v, direct)(relay),
        0 <= i < v.hosted.len(),
        v.hosted[i].1.contains(relay),
    ensures
        direct.contains(v.hosted[i].0),
{
    if !direct.contains(v.hosted[i].0) {
        assert(unacked_at(relay, direct)(v.hosted[i]));
    }
}

/// Every relay is either deposited to or discharged, never both.
pub proof fn law_every_relay_is_served(v: StagedView, direct: Seq<PublicKey>, relay: Seq<char>)
    requires
        v.relays.contains(relay),
    ensures
        v.relays.filter(discharged(v, direct)).contains(relay) != v.relays.filter(
            undischarged(v, direct),
        ).contains(relay),
{
    let p = discharged(v, direct);
    let q = undischarged(v, direct);
    crate::seqs::lemma_filter(v.relays, p);
    crate::seqs::lemma_filter(v.relays, q);
    let k = choose|k: int| 0 <= k < v.relays.len() && v.relays[k] == relay;
    let a = v.relays.filter(p);
    let b = v.relays.filter(q);
    if p(v.relays[k]) {
        if b.contains(relay) {
            let j = choose|j: int| 0 <= j < b.len() && b[j] == relay;
            assert(q(b[j]));
        }
    } else {
        assert(q(v.relays[k]));
        if a.contains(relay) {
            let j = choose|j: int| 0 <= j < a.len() && a[j] == relay;
            assert(p(a[j]));
        }
    }
}

/// Messages with blobs never skip a relay: recipients fetch the blobs there.
pub proof fn law_blobs_keep_their_relays(v: StagedView, direct: Seq<PublicKey>, relay: Seq<char>)
    requires
        v.blobs > 0,
    ensures
        !discharged(v, direct)(relay),
{
}

/// No relay is owed a message twice, and everyone's are among those owed.
pub proof fn law_owed_relays_distinct(s: Seq<Seq<char>>)
    ensures
        distinct(s).no_duplicates(),
        distinct(s).to_set() == s.to_set(),
    decreases s.len(),
{
    if s.len() == 0 {
        assert(distinct(s).to_set() =~= s.to_set());
    } else {
        let d = s.drop_last();
        law_owed_relays_distinct(d);
        assert(s =~= d.push(s.last()));
        d.lemma_push_to_set_commute(s.last());
        let rest = distinct(d);
        if rest.contains(s.last()) {
            assert(rest.to_set().contains(s.last()));
            assert(d.to_set().insert(s.last()) =~= d.to_set());
        } else {
            rest.lemma_push_to_set_commute(s.last());
        }
    }
}

/// A sealed message addresses everyone its draft named, and every recognized
/// device but the sending one.
pub proof fn law_own_devices_are_included(c: ClientView, d: DraftView, i: int)
    requires
        0 <= i < c.devices.len(),
        c.devices[i].0 != c.device,
    ensures
        to_seal(c, d).recipients.contains(c.devices[i].0),
{
    lemma_joined(c, d, c.devices, i);
}

proof fn lemma_joined(c: ClientView, d: DraftView, devices: Seq<(PublicKey, RecordView)>, i: int)
    requires
        0 <= i < devices.len(),
        devices[i].0 != c.device,
    ensures
        (d.recipients + joining(c.device, d.recipients, devices).map_values(
            device_key(),
        )).contains(devices[i].0),
    decreases devices.len(),
{
    let before = devices.drop_last();
    let rest = joining(c.device, d.recipients, before);
    let a = d.recipients + rest.map_values(device_key());
    let now = joining(c.device, d.recipients, devices);
    let b = d.recipients + now.map_values(device_key());
    if i < before.len() {
        assert(before[i] == devices[i]);
        lemma_joined(c, d, before, i);
        let k = choose|k: int| 0 <= k < a.len() && a[k] == devices[i].0;
        assert(b[k] == devices[i].0);
    } else if !a.contains(devices.last().0) {
        assert(now == rest.push(devices.last()));
        assert(b[b.len() - 1] == devices.last().0);
    }
}

/// Staging owes every relay the delivery before anything is sent: nothing is
/// lost if the process dies here.
pub proof fn law_staged_is_owed(
    c: ClientView,
    e: EnvelopeView,
    graph: GraphView,
    contacts: Seq<ContactView>,
    now: u64,
    relay: Seq<char>,
)
    requires
        owed_relays(contacts).contains(relay),
    ensures
        after_staging(c, e, graph, contacts, now).outbox.contains(
            OutboxView { message: e.id, relay, conversation: thread_of(e), created_ms: now },
        ),
{
    let relays = owed_relays(contacts);
    let k = choose|k: int| 0 <= k < relays.len() && relays[k] == relay;
    lemma_debt_stands(
        remembered(c, e, graph, now).outbox,
        e.id,
        thread_of(e),
        now,
        relays,
        k,
    );
}

proof fn lemma_debt_stands(
    outbox: Seq<OutboxView>,
    message: MessageId,
    conversation: MessageId,
    now: u64,
    relays: Seq<Seq<char>>,
    i: int,
)
    requires
        0 <= i < relays.len(),
    ensures
        with_debts(outbox, message, conversation, now, relays).contains(
            OutboxView { message, relay: relays[i], conversation, created_ms: now },
        ),
    decreases relays.len(),
{
    let before = relays.drop_last();
    let held = with_debts(outbox, message, conversation, now, before);
    let last = OutboxView { message, relay: relays.last(), conversation, created_ms: now };
    let o = OutboxView { message, relay: relays[i], conversation, created_ms: now };
    let kept = cleared(held, message, relays.last());
    if o != last {
        assert(before[i] == relays[i]);
        lemma_debt_stands(outbox, message, conversation, now, before, i);
        let p = crate::outbox::not_owed_by(message, relays.last());
        crate::seqs::lemma_filter(held, p);
        let k = choose|k: int| 0 <= k < held.len() && held[k] == o;
        assert(p(held[k]));
    }
    crate::order::lemma_placed_contains(kept, last, crate::outbox::by_age(), o);
}

/// A send never forks its conversation: once a message this device sealed is
/// staged, the next send to the same people continues where it went.
pub proof fn law_next_send_continues(
    c: ClientView,
    d: DraftView,
    e: EnvelopeView,
    graph: GraphView,
    contacts: Seq<ContactView>,
    now: u64,
)
    requires
        e.sender == c.device,
        e.recipients == to_seal(c, d).recipients,
    ensures
        continued(after_staging(c, e, graph, contacts, now), d.recipients) == Some(thread_of(e)),
{
    let after = after_staging(c, e, graph, contacts, now);
    let set = crate::history::participants(e).to_set();
    let bare = d.recipients.to_set().insert(c.device);
    assert(own(after) == own(c));
    let f = |x: (PublicKey, RecordView)| x.0;
    let keys = c.devices.map_values(f);
    let more = joining(c.device, d.recipients, c.devices).map_values(device_key());
    assert(bare + own(c) =~= set) by {
        e.recipients.lemma_push_to_set_commute(e.sender);
        vstd::seq_lib::seq_to_set_distributes_over_add(d.recipients, more);
        assert forall|k: PublicKey| own(c).contains(k) implies #[trigger] set.contains(k) by {
            if k != c.device {
                let i = choose|i: int| 0 <= i < keys.len() && keys[i] == k;
                law_own_devices_are_included(c, d, i);
            }
        }
        assert forall|k: PublicKey| #[trigger] more.contains(k) implies own(c).contains(k) by {
            let j = choose|j: int| 0 <= j < more.len() && more[j] == k;
            lemma_joining_devices(c.device, d.recipients, c.devices, j);
            let i = choose|i: int|
                0 <= i < c.devices.len() && c.devices[i] == joining(
                    c.device,
                    d.recipients,
                    c.devices,
                )[j];
            assert(keys[i] == k);
        }
        assert forall|k: PublicKey| #[trigger] set.contains(k) == (bare + own(c)).contains(k) by {
            assert(set == e.recipients.to_set().insert(e.sender));
            assert(e.recipients.to_set() == d.recipients.to_set() + more.to_set());
        }
    }
    crate::store::law_latest_mapping_wins(
        crate::store::stored(c, thread_of(e), e, graph, now),
        crate::store::participant_set(e),
        thread_of(e),
        Seq::empty(),
    );
}

proof fn lemma_joining_devices(
    device: PublicKey,
    recipients: Seq<PublicKey>,
    devices: Seq<(PublicKey, RecordView)>,
    j: int,
)
    requires
        0 <= j < joining(device, recipients, devices).len(),
    ensures
        devices.contains(joining(device, recipients, devices)[j]),
    decreases devices.len(),
{
    let before = devices.drop_last();
    let rest = joining(device, recipients, before);
    if j < rest.len() {
        lemma_joining_devices(device, recipients, before, j);
        let i = choose|i: int| 0 <= i < before.len() && before[i] == rest[j];
        assert(devices[i] == rest[j]);
    } else {
        assert(devices[devices.len() - 1] == devices.last());
    }
}

/// Membership is not deliverability: every member but this device is among
/// those a reply goes to, routable or not, unless an accepted disavowal
/// excludes it, and nobody else is.
pub proof fn law_reply_keeps_the_membership(c: ClientView, x: ConversationView, key: PublicKey)
    requires
        key != c.device,
    ensures
        ascending_list::<PublicKey>(members(x)).filter(replies_to(c)).map_values(
            member_contact(c),
        ).contains(member_contact(c)(key)) == (members(x).contains(key) && !is_excluded(c, key)),
        ascending_list::<PublicKey>(members(x)).filter(left_out(c)).contains(key) == (members(
            x,
        ).contains(key) && is_excluded(c, key)),
{
    let all = ascending_list::<PublicKey>(members(x));
    vstd::seq_lib::seq_to_set_is_finite(
        gathered(x.envelopes.filter(carries(x)), participants_fn()),
    );
    lemma_list_exists::<PublicKey>(members(x));
    lemma_filter(all, replies_to(c));
    lemma_filter(all, left_out(c));
    let kept = all.filter(replies_to(c));
    let out = kept.map_values(member_contact(c));
    let want = member_contact(c)(key);
    assert(members(x).contains(key) == all.to_set().contains(key));
    if out.contains(want) {
        let i = choose|i: int| 0 <= i < out.len() && out[i] == want;
        assert(out[i].keys[0] == kept[i]);
        assert(want.keys[0] == key);
        assert(replies_to(c)(kept[i]));
        assert(all.to_set().contains(kept[i]));
    }
    if members(x).contains(key) {
        let k = choose|k: int| 0 <= k < all.len() && all[k] == key;
        if !is_excluded(c, key) {
            assert(replies_to(c)(all[k]));
            let i = choose|i: int| 0 <= i < kept.len() && kept[i] == key;
            assert(out[i] == want);
        } else {
            assert(left_out(c)(all[k]));
        }
    }
    let excluded = all.filter(left_out(c));
    if excluded.contains(key) {
        let i = choose|i: int| 0 <= i < excluded.len() && excluded[i] == key;
        assert(left_out(c)(excluded[i]));
        assert(all.to_set().contains(key));
    }
}

/// A message threaded onto a stored conversation follows what its graph says:
/// it answers the heads, is this device's next by number, and comes after
/// every message seen by the logical clock.
pub proof fn law_draft_follows_the_graph(
    c: ClientView,
    at: int,
    d: DagView,
    genesis: int,
    recipients: Seq<PublicKey>,
    now: u64,
)
    requires
        0 <= at < c.conversations.len(),
        forall|j: int|
            0 <= j < at ==> (#[trigger] c.conversations[j]).id != c.conversations[at].id,
        0 <= genesis < c.conversations[at].envelopes.len(),
        c.conversations[at].envelopes[genesis].conversation is None,
        c.conversations[at].dag == Some(d),
    ensures
        match threaded(c, c.conversations[at].id, recipients, now) {
            Ok(t) => {
                &&& t.seq == d.next_seq
                &&& t.logical == d.next_logical
                &&& t.parents == d.heads
                &&& t.conversation == Some(c.conversations[at].id)
                &&& t.recipients == recipients
                &&& t.timestamp_ms == now
            },
            Err(_) => false,
        },
{
    let x = c.conversations[at];
    assert forall|j: int| 0 <= j < at implies !conversation_is(x.id)(#[trigger] c.conversations[j]) by {}
    crate::seqs::lemma_first_is(c.conversations, conversation_is(x.id), at);
    assert(crate::history::is_genesis()(x.envelopes[genesis]));
}

/// A graph whose counters are ahead of what is stored: no stored message has a
/// logical time as late as the next, and none of this device's a number as
/// high as its next.
pub open spec fn ahead(device: PublicKey, x: ConversationView, d: DagView) -> bool {
    forall|k: int|
        0 <= k < x.envelopes.len() ==> (#[trigger] x.envelopes[k]).logical < d.next_logical && (
        x.envelopes[k].sender == device ==> x.envelopes[k].seq < d.next_seq)
}

/// What is sent into a conversation, by either way of sending, comes after
/// every stored message and after every message of this device, where the
/// graph's counters are ahead of them.
pub proof fn law_draft_comes_last(
    c: ClientView,
    at: int,
    d: DagView,
    genesis: int,
    contacts: Seq<ContactView>,
    now: u64,
    k: int,
)
    requires
        0 <= at < c.conversations.len(),
        forall|j: int|
            0 <= j < at ==> (#[trigger] c.conversations[j]).id != c.conversations[at].id,
        0 <= genesis < c.conversations[at].envelopes.len(),
        c.conversations[at].envelopes[genesis].conversation is None,
        c.conversations[at].dag == Some(d),
        ahead(c.device, c.conversations[at], d),
        contacts.len() > 0,
        0 <= k < c.conversations[at].envelopes.len(),
    ensures
        ({
            let e = c.conversations[at].envelopes[k];
            match drafted_in(c, c.conversations[at].id, contacts, now) {
                Ok(t) => t.logical > e.logical && (e.sender == c.device ==> t.seq > e.seq),
                Err(_) => false,
            }
        }),
        continued(c, addressed(contacts)) == Some(c.conversations[at].id) ==> drafted(
            c,
            contacts,
            now,
        ) == drafted_in(c, c.conversations[at].id, contacts, now),
{
    law_draft_follows_the_graph(c, at, d, genesis, addressed(contacts), now);
}

/// A send addresses every key of every contact it is given and nobody else. It
/// is refused for want of recipients exactly where there is no contact; where
/// no conversation is known for these people, it begins one.
pub proof fn law_send_addresses_everyone(
    c: ClientView,
    contacts: Seq<ContactView>,
    now: u64,
    key: PublicKey,
)
    ensures
        contacts.len() == 0 <==> drafted(c, contacts, now) == Err::<DraftView, ErrorView>(
            ErrorView::NoRecipients,
        ),
        forall|id: MessageId|
            #![trigger drafted_in(c, id, contacts, now)]
            contacts.len() == 0 <==> drafted_in(c, id, contacts, now) == Err::<DraftView, ErrorView>(
                ErrorView::NoRecipients,
            ),
        match drafted(c, contacts, now) {
            Ok(t) => {
                &&& t.timestamp_ms == now
                &&& t.recipients.contains(key) <==> exists|i: int|
                    0 <= i < contacts.len() && (#[trigger] contacts[i]).keys.contains(key)
                &&& t.conversation is None ==> t.seq == 0 && t.logical == 0 && t.parents.len() == 0
            },
            Err(_) => true,
        },
        contacts.len() > 0 && continued(c, addressed(contacts)) is None ==> match drafted(
            c,
            contacts,
            now,
        ) {
            Ok(t) => t.conversation is None,
            Err(_) => false,
        },
        forall|id: MessageId|
            match #[trigger] drafted_in(c, id, contacts, now) {
                Ok(t) => t.conversation == Some(id) && (t.recipients.contains(key) <==> exists|i: int|
                    0 <= i < contacts.len() && (#[trigger] contacts[i]).keys.contains(key)),
                Err(_) => true,
            },
{
    let f = contact_keys();
    crate::seqs::lemma_gathered_contains(contacts, f, key);
    if exists|i: int| 0 <= i < contacts.len() && f(#[trigger] contacts[i]).contains(key) {
        let i = choose|i: int| 0 <= i < contacts.len() && f(#[trigger] contacts[i]).contains(key);
        assert(contacts[i].keys.contains(key));
    }
    if exists|i: int| 0 <= i < contacts.len() && (#[trigger] contacts[i]).keys.contains(key) {
        let i = choose|i: int| 0 <= i < contacts.len() && (#[trigger] contacts[i]).keys.contains(key);
        assert(f(contacts[i]).contains(key));
    }
}

/// Adding this user's devices to a draft changes nothing but whom it is for:
/// everyone addressed stays, in order, and whoever is added is a recognized
/// device that is not this one and was not addressed. Each device added is
/// delivered to by its own key, at the relays its record resolves to.
pub proof fn law_only_own_devices_join(
    c: ClientView,
    d: DraftView,
    contacts: Seq<ContactView>,
)
    ensures
        to_seal(c, d) == (DraftView { recipients: to_seal(c, d).recipients, ..d }),
        d.recipients.is_prefix_of(to_seal(c, d).recipients),
        contacts.is_prefix_of(destinations(c, d, contacts)),
        destinations(c, d, contacts).len() - contacts.len() == to_seal(c, d).recipients.len()
            - d.recipients.len(),
        forall|k: int|
            d.recipients.len() <= k < to_seal(c, d).recipients.len() ==> {
                let key = #[trigger] to_seal(c, d).recipients[k];
                let to = destinations(c, d, contacts)[contacts.len() + (k - d.recipients.len())];
                &&& key != c.device
                &&& !d.recipients.contains(key)
                &&& to.keys == seq![key]
                &&& exists|i: int|
                    0 <= i < c.devices.len() && (#[trigger] c.devices[i]).0 == key && to.relays
                        == mailboxes(effective(c, key, Some(c.devices[i].1)))
            },
{
    let j = joining(c.device, d.recipients, c.devices);
    lemma_joining_members(c.device, d.recipients, c.devices);
    assert forall|k: int| d.recipients.len() <= k < to_seal(c, d).recipients.len() implies {
        let key = #[trigger] to_seal(c, d).recipients[k];
        let to = destinations(c, d, contacts)[contacts.len() + (k - d.recipients.len())];
        &&& key != c.device
        &&& !d.recipients.contains(key)
        &&& to.keys == seq![key]
        &&& exists|i: int|
            0 <= i < c.devices.len() && (#[trigger] c.devices[i]).0 == key && to.relays
                == mailboxes(effective(c, key, Some(c.devices[i].1)))
    } by {
        let e = j[k - d.recipients.len()];
        assert(c.devices.contains(e));
        let i = choose|i: int| 0 <= i < c.devices.len() && c.devices[i] == e;
        assert(c.devices[i].0 == e.0);
    }
}

proof fn lemma_joining_members(
    device: PublicKey,
    recipients: Seq<PublicKey>,
    devices: Seq<(PublicKey, RecordView)>,
)
    ensures
        forall|k: int|
            0 <= k < joining(device, recipients, devices).len() ==> {
                let e = #[trigger] joining(device, recipients, devices)[k];
                e.0 != device && !recipients.contains(e.0) && devices.contains(e)
            },
    decreases devices.len(),
{
    if devices.len() > 0 {
        let d = devices.drop_last();
        lemma_joining_members(device, recipients, d);
        let rest = joining(device, recipients, d);
        let all = joining(device, recipients, devices);
        assert forall|k: int| 0 <= k < all.len() implies {
            let e = #[trigger] all[k];
            e.0 != device && !recipients.contains(e.0) && devices.contains(e)
        } by {
            if k < rest.len() {
                assert(all[k] == rest[k]);
                let i = choose|i: int| 0 <= i < d.len() && d[i] == rest[k];
                assert(devices[i] == all[k]);
            } else {
                let key = devices.last().0;
                let both = recipients + rest.map_values(device_key());
                if recipients.contains(key) {
                    let i = choose|i: int| 0 <= i < recipients.len() && recipients[i] == key;
                    assert(both[i] == key);
                }
                assert(devices[devices.len() - 1] == all[k]);
            }
        }
    }
}

/// What staging hands to delivery: the message as it was sealed; every relay
/// of everyone it is delivered to, once; and every key of theirs with the
/// relays that host it.
pub proof fn law_staged_names_everyone(
    e: EnvelopeView,
    blobs: usize,
    contacts: Seq<ContactView>,
    relay: Seq<char>,
    key: PublicKey,
    relays: Seq<Seq<char>>,
)
    ensures
        ({
            let v = staged(e, blobs, contacts);
            &&& v.id == e.id
            &&& v.seq == e.seq
            &&& v.recipients == e.recipients
            &&& v.blobs == blobs
            &&& e.conversation is Some ==> v.conversation == e.conversation->0
            &&& e.conversation is None ==> v.conversation == e.id
            &&& v.relays.no_duplicates()
            &&& v.relays.contains(relay) <==> exists|i: int|
                0 <= i < contacts.len() && (#[trigger] contacts[i]).relays.contains(relay)
            &&& v.hosted.contains((key, relays)) <==> exists|i: int|
                0 <= i < contacts.len() && (#[trigger] contacts[i]).keys.contains(key)
                    && contacts[i].relays == relays
        }),
{
    let v = staged(e, blobs, contacts);
    let f = contact_relays();
    let all = gathered(contacts, f);
    law_owed_relays_distinct(all);
    crate::seqs::lemma_gathered_contains(contacts, f, relay);
    assert(v.relays.to_set().contains(relay) == all.to_set().contains(relay));
    if all.contains(relay) {
        let i = choose|i: int| 0 <= i < contacts.len() && f(#[trigger] contacts[i]).contains(relay);
        assert(contacts[i].relays.contains(relay));
    }
    if exists|i: int| 0 <= i < contacts.len() && (#[trigger] contacts[i]).relays.contains(relay) {
        let i = choose|i: int|
            0 <= i < contacts.len() && (#[trigger] contacts[i]).relays.contains(relay);
        assert(f(contacts[i]).contains(relay));
    }
    let h = hosted_by();
    let pair = (key, relays);
    crate::seqs::lemma_gathered_contains(contacts, h, pair);
    if v.hosted.contains(pair) {
        let i = choose|i: int| 0 <= i < contacts.len() && h(#[trigger] contacts[i]).contains(pair);
        let list = h(contacts[i]);
        let k = choose|k: int| 0 <= k < list.len() && list[k] == pair;
        assert(contacts[i].keys[k] == key);
        assert(contacts[i].keys.contains(key) && contacts[i].relays == relays);
    }
    if exists|i: int|
        0 <= i < contacts.len() && (#[trigger] contacts[i]).keys.contains(key) && contacts[i].relays
            == relays {
        let i = choose|i: int|
            0 <= i < contacts.len() && (#[trigger] contacts[i]).keys.contains(key)
                && contacts[i].relays == relays;
        let k = choose|k: int| 0 <= k < contacts[i].keys.len() && contacts[i].keys[k] == key;
        assert(h(contacts[i])[k] == pair);
    }
}

/// Staging stores the message and owes it to every relay of everyone it goes
/// to, as of now; what other messages owe stays as it was, and nothing else
/// changes but the participant index.
pub proof fn law_staging_only_adds(
    c: ClientView,
    e: EnvelopeView,
    graph: GraphView,
    contacts: Seq<ContactView>,
    now: u64,
    o: OutboxView,
)
    ensures
        ({
            let d = after_staging(c, e, graph, contacts, now);
            let thread = match e.conversation {
                Some(id) => id,
                None => e.id,
            };
            let owed = o.message == e.id && exists|i: int|
                0 <= i < contacts.len() && (#[trigger] contacts[i]).relays.contains(o.relay);
            &&& crate::outbox::stored_envelope(d, thread, e.id) == Some(e)
            &&& d == (ClientView {
                conversations: d.conversations,
                index: d.index,
                outbox: d.outbox,
                ..c
            })
            &&& d.outbox.contains(o) <==> if owed {
                o.conversation == thread && o.created_ms == now
            } else {
                c.outbox.contains(o)
            }
        }),
{
    crate::store::law_remembered_is_found(c, e, graph, now);
    let relays = owed_relays(contacts);
    law_staged_names_everyone(e, 0, contacts, o.relay, e.sender, relays);
    lemma_debts(remembered(c, e, graph, now).outbox, e.id, thread_of(e), now, relays, o);
}

proof fn lemma_debts(
    outbox: Seq<OutboxView>,
    message: MessageId,
    conversation: MessageId,
    now: u64,
    relays: Seq<Seq<char>>,
    o: OutboxView,
)
    ensures
        with_debts(outbox, message, conversation, now, relays).contains(o) <==> if o.message
            == message && relays.contains(o.relay) {
            o.conversation == conversation && o.created_ms == now
        } else {
            outbox.contains(o)
        },
    decreases relays.len(),
{
    if relays.len() > 0 {
        let d = relays.drop_last();
        lemma_debts(outbox, message, conversation, now, d, o);
        let before = with_debts(outbox, message, conversation, now, d);
        let x = OutboxView { message, relay: relays.last(), conversation, created_ms: now };
        let rest = cleared(before, message, relays.last());
        crate::seqs::lemma_filter_contains(
            before,
            crate::outbox::not_owed_by(message, relays.last()),
            o,
        );
        crate::order::lemma_placed_contains(rest, x, crate::outbox::by_age(), o);
        assert(relays =~= d.push(relays.last()));
        if d.contains(o.relay) {
            let k = choose|k: int| 0 <= k < d.len() && d[k] == o.relay;
            assert(relays[k] == o.relay);
        }
        if relays.contains(o.relay) {
            let k = choose|k: int| 0 <= k < relays.len() && relays[k] == o.relay;
            if k < d.len() {
                assert(d[k] == o.relay);
            }
        }
        assert(relays[relays.len() - 1] == relays.last());
    }
}

/// Who is dialed directly: a recipient other than this device, as itself, for
/// as long as the evidence warrants; and everyone worth a dial who can be
/// dialed is.
pub proof fn law_targets_are_the_recipients(
    c: ClientView,
    table: Map<PublicKey, Reach>,
    now: u64,
    timeout: Duration,
    recipients: Seq<PublicKey>,
    refused: Seq<RefusalView>,
)
    ensures
        ({
            let s = targets(c, table, now, timeout, recipients, refused);
            &&& forall|k: int|
                0 <= k < s.len() ==> {
                    let t = #[trigger] s[k];
                    &&& recipients.contains(t.peer.key)
                    &&& t.peer.key != c.device
                    &&& budget(known(table, t.peer.key), now, timeout) == Some(t.budget)
                    &&& t.peer.relays.len() > 0
                }
            &&& forall|i: int|
                0 <= i < recipients.len() && #[trigger] recipients[i] != c.device && budget(
                    known(table, recipients[i]),
                    now,
                    timeout,
                ) is Some && dialable(
                    c,
                    recipients[i],
                    trusted_record(c, recipients[i]),
                    refused,
                ) is Ok ==> exists|k: int|
                    0 <= k < s.len() && (#[trigger] s[k]).peer.key == recipients[i]
        }),
{
    let f = target(c, table, now, timeout, refused);
    let s = recipients.filter_map(f);
    assert forall|k: int| 0 <= k < s.len() implies {
        let t = #[trigger] s[k];
        &&& recipients.contains(t.peer.key)
        &&& t.peer.key != c.device
        &&& budget(known(table, t.peer.key), now, timeout) == Some(t.budget)
        &&& t.peer.relays.len() > 0
    } by {
        let i = crate::seqs::lemma_filter_map_source(recipients, f, k);
        let key = recipients[i];
        crate::relays::law_dialed_over_every_url(
            c,
            key,
            trusted_record(c, key),
            refused,
            Seq::empty(),
        );
    }
    assert forall|i: int|
        0 <= i < recipients.len() && #[trigger] recipients[i] != c.device && budget(
            known(table, recipients[i]),
            now,
            timeout,
        ) is Some && dialable(c, recipients[i], trusted_record(c, recipients[i]), refused) is Ok implies exists|
        k: int,
    | 0 <= k < s.len() && (#[trigger] s[k]).peer.key == recipients[i] by {
        let key = recipients[i];
        crate::seqs::lemma_filter_map_has(recipients, f, i);
        let k = choose|k: int| 0 <= k < s.len() && s[k] == f(key)->0;
        crate::relays::law_dialed_over_every_url(
            c,
            key,
            trusted_record(c, key),
            refused,
            Seq::empty(),
        );
        assert(s[k].peer.key == key);
    }
}

/// Whoever stored the message is an acker, and nobody else is.
pub proof fn law_ackers_are_those_who_stored(outcomes: Seq<(PublicKey, DirectOutcome)>, key: PublicKey)
    ensures
        takers(outcomes).contains(key) <==> outcomes.contains((key, DirectOutcome::Stored)),
{
    let f = taker();
    let s = outcomes.filter_map(f);
    vstd::seq_lib::seq_to_set_is_finite(s);
    lemma_list_exists::<PublicKey>(s.to_set());
    assert(takers(outcomes).to_set().contains(key) == s.to_set().contains(key));
    if s.contains(key) {
        let k = choose|k: int| 0 <= k < s.len() && s[k] == key;
        let i = crate::seqs::lemma_filter_map_source(outcomes, f, k);
        assert(outcomes[i] == (key, DirectOutcome::Stored));
    }
    if outcomes.contains((key, DirectOutcome::Stored)) {
        let i = choose|i: int|
            0 <= i < outcomes.len() && outcomes[i] == (key, DirectOutcome::Stored);
        crate::seqs::lemma_filter_map_has(outcomes, f, i);
    }
}

/// What a push teaches about a peer: a store is a sighting and ends a
/// cooldown, an answer is a sighting, a failure begins a cooldown. Whoever was
/// not tried is judged as before.
pub proof fn law_each_push_is_evidence(
    table: Map<PublicKey, Reach>,
    outcomes: Seq<(PublicKey, DirectOutcome)>,
    now: u64,
    key: PublicKey,
)
    ensures
        (forall|i: int| 0 <= i < outcomes.len() ==> (#[trigger] outcomes[i]).0 != key) ==> known(
            noted_all(table, outcomes, now),
            key,
        ) == known(table, key),
        forall|i: int|
            0 <= i < outcomes.len() && (#[trigger] outcomes[i]).0 == key && (forall|j: int|
                0 <= j < outcomes.len() && j != i ==> (#[trigger] outcomes[j]).0 != key) ==> {
                let before = known(table, key);
                let after = known(noted_all(table, outcomes, now), key);
                match outcomes[i].1 {
                    DirectOutcome::Stored => after.seen_ms == now && after.failed_ms == 0,
                    DirectOutcome::NotHeld => after.seen_ms == now && after.failed_ms
                        == before.failed_ms,
                    DirectOutcome::Failed => after.seen_ms == before.seen_ms && after.failed_ms
                        == now,
                }
            },
    decreases outcomes.len(),
{
    if outcomes.len() > 0 {
        let d = outcomes.drop_last();
        law_each_push_is_evidence(table, d, now, key);
        if forall|i: int| 0 <= i < outcomes.len() ==> (#[trigger] outcomes[i]).0 != key {
            assert forall|i: int| 0 <= i < d.len() implies (#[trigger] d[i]).0 != key by {
                assert(d[i] == outcomes[i]);
            }
            assert(outcomes[outcomes.len() - 1].0 != key);
        }
        assert forall|i: int|
            0 <= i < outcomes.len() && (#[trigger] outcomes[i]).0 == key && (forall|j: int|
                0 <= j < outcomes.len() && j != i ==> (#[trigger] outcomes[j]).0 != key) implies {
            let before = known(table, key);
            let after = known(noted_all(table, outcomes, now), key);
            match outcomes[i].1 {
                DirectOutcome::Stored => after.seen_ms == now && after.failed_ms == 0,
                DirectOutcome::NotHeld => after.seen_ms == now && after.failed_ms
                    == before.failed_ms,
                DirectOutcome::Failed => after.seen_ms == before.seen_ms && after.failed_ms == now,
            }
        } by {
            assert forall|j: int| 0 <= j < d.len() && j != i implies (#[trigger] d[j]).0 != key by {
                assert(d[j] == outcomes[j]);
            }
            if i < d.len() {
                assert(d[i] == outcomes[i]);
                assert(outcomes[outcomes.len() - 1].0 != key);
            }
        }
    }
}

/// Direct delivery discharges a relay exactly where the message has no blobs,
/// the relay hosts a recipient, and every recipient it hosts acked.
pub proof fn law_discharged_exactly_if_all_acked(
    v: StagedView,
    direct: Seq<PublicKey>,
    relay: Seq<char>,
)
    ensures
        discharged(v, direct)(relay) <==> {
            &&& v.blobs == 0
            &&& exists|i: int| 0 <= i < v.hosted.len() && (#[trigger] v.hosted[i]).1.contains(relay)
            &&& forall|i: int|
                0 <= i < v.hosted.len() && (#[trigger] v.hosted[i]).1.contains(relay)
                    ==> direct.contains(v.hosted[i].0)
        },
        deposits_left(v, direct).contains(relay) <==> v.relays.contains(relay)
            && !discharged(v, direct)(relay),
{
    crate::seqs::lemma_filter_contains(v.relays, undischarged(v, direct), relay);
    if exists|i: int| 0 <= i < v.hosted.len() && (#[trigger] v.hosted[i]).1.contains(relay) {
        let i = choose|i: int| 0 <= i < v.hosted.len() && (#[trigger] v.hosted[i]).1.contains(relay);
        assert(hosted_at(relay)(v.hosted[i]));
    }
    if !some(v.hosted, unacked_at(relay, direct)) {
        assert forall|i: int|
            0 <= i < v.hosted.len() && (#[trigger] v.hosted[i]).1.contains(relay) implies direct.contains(
            v.hosted[i].0,
        ) by {
            assert(!unacked_at(relay, direct)(v.hosted[i]));
        }
    }
}

/// After the direct path, a debt is gone exactly where it is this message's to
/// a relay it is owed at and direct delivery discharged; the ackers are among
/// those who confirmed it, and nothing but ledger and confirmations changes.
pub proof fn law_direct_settles_only_discharged(
    c: ClientView,
    v: StagedView,
    direct: Seq<PublicKey>,
    o: OutboxView,
    key: PublicKey,
)
    ensures
        ({
            let d = after_direct(c, v, direct);
            &&& d == (ClientView { outbox: d.outbox, acks: d.acks, ..c })
            &&& d.outbox.contains(o) <==> c.outbox.contains(o) && !(o.message == v.id
                && v.relays.contains(o.relay) && discharged(v, direct)(o.relay))
            &&& crate::outbox::confirmed(d, v.id).contains(key) <==> crate::outbox::confirmed(
                c,
                v.id,
            ).contains(key) || direct.contains(key)
        }),
{
    crate::store::law_acks_only_grow(c, v.id, direct, key);
    let gone = v.relays.filter(discharged(v, direct));
    lemma_cleared_all(acked(c, v.id, direct).outbox, v.id, gone, o);
    crate::seqs::lemma_filter_contains(v.relays, discharged(v, direct), o.relay);
}

proof fn lemma_cleared_all(
    outbox: Seq<OutboxView>,
    message: MessageId,
    relays: Seq<Seq<char>>,
    o: OutboxView,
)
    ensures
        cleared_all(outbox, message, relays).contains(o) <==> outbox.contains(o) && !(o.message
            == message && relays.contains(o.relay)),
    decreases relays.len(),
{
    if relays.len() > 0 {
        let d = relays.drop_last();
        lemma_cleared_all(outbox, message, d, o);
        crate::seqs::lemma_filter_contains(
            cleared_all(outbox, message, d),
            crate::outbox::not_owed_by(message, relays.last()),
            o,
        );
        if d.contains(o.relay) {
            let k = choose|k: int| 0 <= k < d.len() && d[k] == o.relay;
            assert(relays[k] == o.relay);
        }
        if relays.contains(o.relay) {
            let k = choose|k: int| 0 <= k < relays.len() && relays[k] == o.relay;
            if k < d.len() {
                assert(d[k] == o.relay);
            }
        }
        assert(relays[relays.len() - 1] == relays.last());
    }
}

/// A deposit that a relay took settles the debt to that relay, and no other
/// debt; one that failed stays owed. A delivery came to nothing exactly where
/// there was a relay, each of them failed, and nobody took it directly.
pub proof fn law_taken_deposits_settle(
    v: StagedView,
    direct: Seq<PublicKey>,
    outcomes: Seq<(Seq<char>, Option<Seq<char>>)>,
    outbox: Seq<OutboxView>,
    o: OutboxView,
)
    ensures
        cleared_all(outbox, v.id, outcomes.filter_map(taken_by())).contains(o) <==> outbox.contains(o)
            && !(o.message == v.id && outcomes.contains((o.relay, None))),
        failures(outcomes).len() <= outcomes.len(),
        (forall|i: int| 0 <= i < outcomes.len() ==> (#[trigger] outcomes[i]).1 is None) <==> failures(
            outcomes,
        ).len() == 0,
        (forall|i: int| 0 <= i < outcomes.len() ==> (#[trigger] outcomes[i]).1 is Some) <==> failures(
            outcomes,
        ).len() == outcomes.len(),
        all_pending(v, direct, outcomes) ==> v.relays.len() > 0 && direct.len() == 0,
        direct.len() == 0 && v.relays.len() > 0 && outcomes.len() == v.relays.len() && (forall|i: int|
            0 <= i < outcomes.len() ==> (#[trigger] outcomes[i]).1 is Some) ==> all_pending(
            v,
            direct,
            outcomes,
        ),
        direct.len() == 0 && outcomes.len() <= v.relays.len() && (exists|i: int|
            0 <= i < outcomes.len() && (#[trigger] outcomes[i]).1 is None) ==> !all_pending(
            v,
            direct,
            outcomes,
        ),
{
    let f = taken_by();
    let g = untaken();
    let taken = outcomes.filter_map(f);
    lemma_cleared_all(outbox, v.id, taken, o);
    if taken.contains(o.relay) {
        let k = choose|k: int| 0 <= k < taken.len() && taken[k] == o.relay;
        let i = crate::seqs::lemma_filter_map_source(outcomes, f, k);
        assert(outcomes[i] == (o.relay, None::<Seq<char>>));
    }
    if outcomes.contains((o.relay, None)) {
        let i = choose|i: int| 0 <= i < outcomes.len() && outcomes[i] == (o.relay, None::<Seq<char>>);
        crate::seqs::lemma_filter_map_has(outcomes, f, i);
    }
    let p = |x: (Seq<char>, Option<Seq<char>>)| x.1 is Some;
    crate::seqs::lemma_filter_map_len(outcomes, g, p);
    lemma_filter(outcomes, p);
    if forall|i: int| 0 <= i < outcomes.len() ==> (#[trigger] outcomes[i]).1 is None {
        crate::seqs::lemma_filter_none(outcomes, p);
    } else {
        let i = choose|i: int| 0 <= i < outcomes.len() && (#[trigger] outcomes[i]).1 is Some;
        assert(p(outcomes[i]));
        assert(outcomes.filter(p).contains(outcomes[i]));
    }
    if forall|i: int| 0 <= i < outcomes.len() ==> (#[trigger] outcomes[i]).1 is Some {
        crate::seqs::lemma_filter_all(outcomes, p);
    } else {
        let i = choose|i: int| 0 <= i < outcomes.len() && (#[trigger] outcomes[i]).1 is None;
        crate::recv::lemma_filter_short(outcomes, p, i);
    }
}

/// A reply is sealed for each member by their own key, at the relays they
/// resolve to; a member is said to have no route exactly where they resolve to
/// none.
pub proof fn law_reply_reaches_members(c: ClientView, x: ConversationView, key: PublicKey)
    ensures
        member_contact(c)(key).keys == seq![key],
        member_contact(c)(key).relays == mailboxes(effective(c, key, trusted_record(c, key))),
        ascending_list::<PublicKey>(members(x)).filter(unroutable(c)).contains(key) <==> {
            &&& members(x).contains(key)
            &&& key != c.device
            &&& !is_excluded(c, key)
            &&& effective(c, key, trusted_record(c, key)).len() == 0
        },
{
    let all = ascending_list::<PublicKey>(members(x));
    vstd::seq_lib::seq_to_set_is_finite(
        gathered(x.envelopes.filter(carries(x)), participants_fn()),
    );
    lemma_list_exists::<PublicKey>(members(x));
    assert(members(x).contains(key) == all.to_set().contains(key));
    crate::seqs::lemma_filter_contains(all, unroutable(c), key);
}

/// A message that begins a conversation names none and no parent, and comes
/// before every other in it.
pub proof fn law_genesis_comes_first(recipients: Seq<PublicKey>, now: u64, key: PublicKey)
    ensures
        ({
            let d = genesis(recipients, now);
            &&& d.conversation is None
            &&& d.parents.len() == 0
            &&& d.seq == 0
            &&& d.logical == 0
            &&& d.timestamp_ms == now
            &&& d.recipients.contains(key) <==> recipients.contains(key)
        }),
{
}

/// A reply goes to every member but this device, save for those disavowed; each
/// at the relays that resolve for their key. Who is disavowed is named as left
/// out, and who has no relay as unknown.
pub proof fn law_reply_reaches_whom_it_may(c: ClientView, x: ConversationView, key: PublicKey)
    ensures
        ({
            let v = reply_of(c, x);
            let at = ContactView {
                keys: seq![key],
                relays: mailboxes(effective(c, key, trusted_record(c, key))),
            };
            let member = members(x).contains(key) && key != c.device;
            &&& member && !is_excluded(c, key) ==> v.contacts.contains(at)
            &&& v.contacts.contains(at) ==> member && !is_excluded(c, key)
            &&& v.disavowed.contains(key) <==> member && is_excluded(c, key)
            &&& v.unknown.contains(key) <==> member && !is_excluded(c, key) && at.relays.len() == 0
        }),
{
    let all = ascending_list::<PublicKey>(members(x));
    let at = ContactView {
        keys: seq![key],
        relays: mailboxes(effective(c, key, trusted_record(c, key))),
    };
    vstd::seq_lib::seq_to_set_is_finite(
        gathered(x.envelopes.filter(carries(x)), participants_fn()),
    );
    crate::order::lemma_list_exists::<PublicKey>(members(x));
    assert(all.to_set().contains(key) == members(x).contains(key));
    crate::seqs::lemma_filter_contains(all, replies_to(c), key);
    crate::seqs::lemma_filter_contains(all, left_out(c), key);
    crate::seqs::lemma_filter_contains(all, unroutable(c), key);
    let f = member_contact(c);
    let to = all.filter(replies_to(c));
    let list = to.map_values(f);
    if to.contains(key) {
        let k = choose|k: int| 0 <= k < to.len() && to[k] == key;
        assert(list[k] == f(key));
        assert(f(key) == at);
    }
    if list.contains(at) {
        let k = choose|k: int| 0 <= k < list.len() && list[k] == at;
        assert(f(to[k]).keys[0] == to[k]);
        assert(at.keys[0] == key);
        assert(to.contains(to[k]));
    }
}

/// A receipt accounts for every relay and every deposit: a relay was skipped or
/// a deposit is owed to it, and a deposit tried was taken or is pending.
pub proof fn law_receipt_accounts_for_all(
    v: StagedView,
    direct: Seq<PublicKey>,
    outcomes: Seq<(Seq<char>, Option<Seq<char>>)>,
)
    ensures
        ({
            let r = receipt_of(v, direct, outcomes);
            &&& r.id == v.id
            &&& r.conversation == v.conversation
            &&& r.seq == v.seq
            &&& r.blobs == v.blobs
            &&& r.direct == direct.len()
            &&& r.relays == v.relays.len()
            &&& r.skipped + deposits_left(v, direct).len() == r.relays
            &&& r.pending + outcomes.filter(
                |o: (Seq<char>, Option<Seq<char>>)| o.1 is None,
            ).len() == outcomes.len()
        }),
{
    crate::outbox::lemma_filter_parts(v.relays, discharged(v, direct), undischarged(v, direct));
    let taken = |o: (Seq<char>, Option<Seq<char>>)| o.1 is None;
    let failed = |o: (Seq<char>, Option<Seq<char>>)| o.1 is Some;
    crate::seqs::lemma_filter_map_len(outcomes, untaken(), failed);
    crate::outbox::lemma_filter_parts(outcomes, failed, taken);
}

/// A deposit that was taken settles its debt and no other; nothing else
/// changes.
pub proof fn law_deposits_settle_their_debts(
    c: ClientView,
    id: MessageId,
    outcomes: Seq<(Seq<char>, Option<Seq<char>>)>,
    v: StagedView,
    o: OutboxView,
)
    requires
        v.id == id,
    ensures
        ({
            let d = after_deposits(c, id, outcomes);
            &&& d == (ClientView { outbox: d.outbox, ..c })
            &&& d.outbox.contains(o) <==> c.outbox.contains(o) && !(o.message == id
                && outcomes.contains((o.relay, None)))
        }),
{
    law_taken_deposits_settle(v, Seq::empty(), outcomes, c.outbox, o);
}

} // verus!
