//! The who-is query plane: whom to ask about a key, what an answer is worth,
//! and the rate limits of asking unprompted. Answers are advisory: they are
//! learned with provenance, and no contact is ever written from here.
use vstd::prelude::*;

use crate::client::{entry_with, filed, find_filed, find_listing, law_filing, own, refile, refiled, trusted_record, Client, ClientView, LearnedRecord, LearnedView};
use crate::history::{contributed, known_key, members};
use crate::ids::{MessageId, PublicKey};
use crate::names::petname;
use crate::order::{ascending_list, copies, holds, lemma_list_is, lists, set_of, Duplicate};
use crate::outbox::{conversation_is, relay_of};
use crate::record::{ContactRecord, RecordView, RelayEntry, RelayView, SignedAttestation, SignedView};
use crate::recv::{Received, ReceivedView};
use crate::relays::{admitted, bare, bare_peer, dialable, effective, let_through, mailboxes, Peer, PeerView, Refusal, RefusalView};
use crate::seqs::{first, lemma_filter_map_step, lemma_filter_step, lemma_map_step, lemma_take_all, some};
use crate::store::thread_of;
use crate::time::{least, Duration};
use crate::trust::as_list;

verus! {

/// The longest a who-is dial is waited for: the edge's own deadline only
/// tightens it.
pub fn who_is_timeout(connect_timeout: Duration) -> (r: Duration)
    ensures
        r.length() == least(connect_timeout.length(), 5_000_000_000),
{
    connect_timeout.min(Duration::from_secs(5))
}

// ---- rate limits ----

/// The auto-query rate limit: interest in a subject within a conversation is
/// broadcast at most once per run.
#[derive(Debug)]
pub struct AskedOnce {
    pairs: Vec<(PublicKey, MessageId)>,
}

impl AskedOnce {
    /// The pairs asked about.
    pub closed spec fn set(&self) -> Set<(PublicKey, MessageId)> {
        self.pairs@.to_set()
    }

    pub fn new() -> (r: Self)
        ensures
            r.set() == Set::<(PublicKey, MessageId)>::empty(),
    {
        let pairs: Vec<(PublicKey, MessageId)> = Vec::new();
        assert(pairs@.to_set() =~= Set::<(PublicKey, MessageId)>::empty());
        AskedOnce { pairs }
    }

    pub fn is_empty(&self) -> (r: bool)
        ensures
            r == (self.set() == Set::<(PublicKey, MessageId)>::empty()),
    {
        proof {
            if self.pairs@.len() > 0 {
                assert(self.set().contains(self.pairs@[0]));
            } else {
                assert(self.set() =~= Set::<(PublicKey, MessageId)>::empty());
            }
        }
        self.pairs.len() == 0
    }

    /// True exactly once per pair: the license to broadcast.
    pub fn first(&mut self, subject: PublicKey, conversation: MessageId) -> (r: bool)
        ensures
            r == !old(self).set().contains((subject, conversation)),
            final(self).set() == old(self).set().insert((subject, conversation)),
    {
        let ghost s = self.pairs@;
        let ghost pair = (subject, conversation);
        let mut i: usize = 0;
        while i < self.pairs.len()
            invariant
                i <= self.pairs.len(),
                s == self.pairs@,
                pair == (subject, conversation),
                forall|k: int| 0 <= k < i ==> #[trigger] s[k] != pair,
            decreases self.pairs.len() - i,
        {
            if self.pairs[i].0 == subject && self.pairs[i].1 == conversation {
                assert(s[i as int] == pair);
                assert(s.to_set().insert(pair) =~= s.to_set());
                return false;
            }
            i += 1;
        }
        self.pairs.push((subject, conversation));
        proof {
            assert(self.pairs@ =~= s.push(pair));
            s.lemma_push_to_set_commute(pair);
        }
        true
    }
}

/// One subject-refresh ask per subject per this while healthy: a day.
pub const REFRESH_INTERVAL_MS: u64 = 24 * 60 * 60 * 1000;

/// The eager floor while the outbox owes the subject's relays: five minutes.
pub const REFRESH_SICK_FLOOR_MS: u64 = 5 * 60 * 1000;

impl Duplicate for u64 {
    fn duplicate(&self) -> (r: Self) {
        *self
    }
}

/// When each subject was last asked about themself.
#[derive(Debug)]
pub struct RefreshLedger {
    pub rows: Vec<(PublicKey, u64)>,
}

/// When a subject was last asked.
pub open spec fn last_asked(rows: Seq<(PublicKey, u64)>, subject: PublicKey) -> Option<u64> {
    match first(rows, filed(subject)) {
        Some(e) => Some(e.1),
        None => None,
    }
}

/// Whether a subject is to be asked: never asked, or longer ago than the
/// interval, which is the eager floor while deposits are owed.
pub open spec fn is_due(last: Option<u64>, now: u64, sick: bool) -> bool {
    match last {
        None => true,
        Some(at) => now >= at + if sick {
            REFRESH_SICK_FLOOR_MS
        } else {
            REFRESH_INTERVAL_MS
        },
    }
}

impl RefreshLedger {
    pub fn new() -> (r: Self)
        ensures
            r.rows.deep_view() == Seq::<(PublicKey, u64)>::empty(),
    {
        let rows: Vec<(PublicKey, u64)> = Vec::new();
        assert(rows.deep_view() =~= Seq::<(PublicKey, u64)>::empty());
        RefreshLedger { rows }
    }

    /// Test and note: `true` means this caller asks now, and the clock
    /// restarts; `false`, asked recently enough.
    pub fn due(&mut self, subject: &PublicKey, now: u64, sick: bool) -> (r: bool)
        ensures
            r == is_due(last_asked(old(self).rows.deep_view(), *subject), now, sick),
            final(self).rows.deep_view() == if r {
                refiled(old(self).rows.deep_view(), *subject, now)
            } else {
                old(self).rows.deep_view()
            },
    {
        let interval: u64 = if sick {
            REFRESH_SICK_FLOOR_MS
        } else {
            REFRESH_INTERVAL_MS
        };
        match find_filed(&self.rows, subject) {
            Some(i) => {
                assert(self.rows.deep_view()[i as int] == self.rows@[i as int].deep_view());
                if now.saturating_sub(self.rows[i].1) < interval {
                    return false;
                }
            },
            None => {},
        }
        refile(&mut self.rows, *subject, now);
        true
    }
}

/// After an ask is granted, no other is until the interval is over.
pub proof fn law_asks_are_spaced(rows: Seq<(PublicKey, u64)>, subject: PublicKey, now: u64, later: u64, sick: bool)
    ensures
        is_due(last_asked(refiled(rows, subject, now), subject), later, sick) <==> later >= now + if sick {
            REFRESH_SICK_FLOOR_MS
        } else {
            REFRESH_INTERVAL_MS
        },
{
    law_filing(rows, subject, now, subject);
}

// ---- answers ----

/// A claim the answering key itself signed about the queried subject.
pub open spec fn is_endorsement(responder: PublicKey, subject: PublicKey) -> spec_fn(SignedView) -> bool {
    |s: SignedView|
        s.attestation.attester == responder && s.attestation.subject == subject && s.verified
}

/// Keeps only the responder's own claims about the subject: relaying others'
/// would be second-hand gossip.
pub fn valid_endorsements(
    responder: PublicKey,
    subject: PublicKey,
    endorsements: &Vec<SignedAttestation>,
) -> (r: Vec<SignedAttestation>)
    ensures
        r.deep_view() == endorsements.deep_view().filter(is_endorsement(responder, subject)),
{
    let ghost s = endorsements.deep_view();
    let ghost p = is_endorsement(responder, subject);
    let mut out: Vec<SignedAttestation> = Vec::new();
    proof {
        reveal(Seq::filter);
        assert(out.deep_view() =~= s.take(0).filter(p));
    }
    for i in 0..endorsements.len()
        invariant
            s == endorsements.deep_view(),
            p == is_endorsement(responder, subject),
            out.deep_view() == s.take(i as int).filter(p),
    {
        proof {
            lemma_filter_step(s, p, i as int);
        }
        let signed: &SignedAttestation = &endorsements[i];
        if signed.attestation.attester == responder && signed.attestation.subject == subject
            && signed.verified {
            let ghost before = out.deep_view();
            out.push(signed.duplicate());
            assert(out.deep_view() =~= before.push(s[i as int]));
        }
    }
    proof {
        lemma_take_all(s);
    }
    out
}

/// Another answer than this responder's about this subject.
pub open spec fn other_answer(subject: PublicKey, responder: PublicKey) -> spec_fn(
    (PublicKey, LearnedView),
) -> bool {
    |e: (PublicKey, LearnedView)| !(e.0 == subject && e.1.responder == responder)
}

/// The learned store with an answer, in place of the responder's earlier one
/// about the subject.
pub open spec fn with_learned(c: ClientView, subject: PublicKey, answer: LearnedView) -> ClientView {
    ClientView {
        learned: c.learned.filter(other_answer(subject, answer.responder)).push((subject, answer)),
        ..c
    }
}

impl Client {
    /// Stores an answer, with who served it and when.
    pub fn save_learned(&mut self, subject: PublicKey, answer: LearnedRecord)
        ensures
            final(self).deep_view() == with_learned(
                old(self).deep_view(),
                subject,
                answer.deep_view(),
            ),
    {
        let ghost s = self.learned.deep_view();
        let ghost p = other_answer(subject, answer.responder);
        let ghost v = answer.deep_view();
        let mut out: Vec<(PublicKey, LearnedRecord)> = Vec::new();
        proof {
            reveal(Seq::filter);
            assert(out.deep_view() =~= s.take(0).filter(p));
        }
        for i in 0..self.learned.len()
            invariant
                s == self.learned.deep_view(),
                p == other_answer(subject, answer.responder),
                out.deep_view() == s.take(i as int).filter(p),
        {
            proof {
                lemma_filter_step(s, p, i as int);
            }
            if !(self.learned[i].0 == subject && self.learned[i].1.responder == answer.responder) {
                let ghost before = out.deep_view();
                out.push((self.learned[i].0, self.learned[i].1.duplicate()));
                assert(out.deep_view() =~= before.push(s[i as int]));
            }
        }
        proof {
            lemma_take_all(s);
        }
        let ghost before = out.deep_view();
        out.push((subject, answer));
        assert(out.deep_view() =~= before.push((subject, v)));
        self.learned = out;
    }
}

/// A peer's answer to a who-is.
#[derive(Debug)]
pub enum WhoIsReply {
    /// Not reached, or not asked to completion.
    Unreachable,
    Known { record: ContactRecord, endorsements: Vec<SignedAttestation> },
    /// Not held, declined, or an answer outside the protocol.
    Nothing,
}

pub enum ReplyView {
    Unreachable,
    Known(RecordView, Seq<SignedView>),
    Nothing,
}

impl DeepView for WhoIsReply {
    type V = ReplyView;

    open spec fn deep_view(&self) -> ReplyView {
        match *self {
            WhoIsReply::Unreachable => ReplyView::Unreachable,
            WhoIsReply::Known { record, endorsements } => ReplyView::Known(
                record.deep_view(),
                endorsements.deep_view(),
            ),
            WhoIsReply::Nothing => ReplyView::Nothing,
        }
    }
}

/// The answer in a reply: its record must name the subject, and only the
/// responder's own claims are kept.
pub open spec fn answer_in(subject: PublicKey, responder: PublicKey, reply: ReplyView, now: u64) -> Option<
    LearnedView,
> {
    match reply {
        ReplyView::Known(record, endorsements) => if record.keys.contains(subject) {
            Some(
                LearnedView {
                    responder,
                    record,
                    endorsements: endorsements.filter(is_endorsement(responder, subject)),
                    received_ms: now,
                },
            )
        } else {
            None
        },
        _ => None,
    }
}

fn judge(subject: PublicKey, responder: PublicKey, reply: &WhoIsReply, now: u64) -> (r: Option<
    LearnedRecord,
>)
    ensures
        r.deep_view() == answer_in(subject, responder, reply.deep_view(), now),
{
    match reply {
        WhoIsReply::Known { record, endorsements } => {
            if record.lists(&subject) {
                Some(
                    LearnedRecord {
                        responder,
                        record: record.duplicate(),
                        endorsements: valid_endorsements(responder, subject, endorsements),
                        received_ms: now,
                    },
                )
            } else {
                None
            }
        },
        _ => None,
    }
}

// ---- asking ----

/// Somebody to ask.
#[derive(Debug)]
pub struct AskTarget {
    /// What this client calls them.
    pub petname: String,
    pub peer: Peer,
}

pub struct AskView {
    pub petname: Seq<char>,
    pub peer: PeerView,
}

impl DeepView for AskTarget {
    type V = AskView;

    open spec fn deep_view(&self) -> AskView {
        AskView { petname: self.petname@, peer: self.peer.deep_view() }
    }
}

/// Every key a who-is goes to: the contacts' first keys, then the recognized
/// devices.
pub open spec fn responders(c: ClientView) -> Seq<PublicKey> {
    c.contacts.filter_map(crate::persons::entry_stem()) + c.devices.map_values(
        crate::send::device_key(),
    )
}

/// A responder that can be dialed, and is not this device.
pub open spec fn ask_target(c: ClientView, refused: Seq<RefusalView>) -> spec_fn(PublicKey) -> Option<
    AskView,
> {
    |key: PublicKey|
        if key == c.device {
            None
        } else {
            match dialable(c, key, trusted_record(c, key), refused) {
                Ok(peer) => Some(AskView { petname: petname(c, key), peer }),
                Err(_) => None,
            }
        }
}

impl Client {
    /// Whom the manual query asks.
    pub fn who_is_responders(&self) -> (r: Vec<PublicKey>)
        ensures
            r.deep_view() == responders(self.deep_view()),
    {
        let ghost s = self.contacts.deep_view();
        let ghost f = crate::persons::entry_stem();
        let mut out: Vec<PublicKey> = Vec::new();
        assert(out.deep_view() =~= s.take(0).filter_map(f));
        for i in 0..self.contacts.len()
            invariant
                s == self.contacts.deep_view(),
                f == crate::persons::entry_stem(),
                out.deep_view() == s.take(i as int).filter_map(f),
        {
            proof {
                lemma_filter_map_step(s, f, i as int);
            }
            match self.contacts[i].1.first_key() {
                Some(key) => {
                    let ghost before = out.deep_view();
                    out.push(key);
                    assert(out.deep_view() =~= before.push(key));
                },
                None => {},
            }
        }
        let ghost base = s.filter_map(f);
        let ghost t = self.devices.deep_view();
        let ghost g = crate::send::device_key();
        proof {
            lemma_take_all(s);
            assert(out.deep_view() =~= base + t.take(0).map_values(g));
        }
        for i in 0..self.devices.len()
            invariant
                t == self.devices.deep_view(),
                g == crate::send::device_key(),
                out.deep_view() == base + t.take(i as int).map_values(g),
        {
            proof {
                lemma_map_step(t, g, i as int);
            }
            let ghost before = out.deep_view();
            out.push(self.devices[i].0);
            assert(out.deep_view() =~= before.push(t[i as int].0));
            assert(out.deep_view() =~= base + t.take(i + 1).map_values(g));
        }
        proof {
            lemma_take_all(t);
        }
        out
    }

    /// The responders that can be asked: undialable ones are skipped and never
    /// counted.
    pub fn ask_targets(&self, list: &Vec<PublicKey>, refused: &Vec<Refusal>) -> (r: Vec<AskTarget>)
        ensures
            r.deep_view() == list.deep_view().filter_map(
                ask_target(self.deep_view(), refused.deep_view()),
            ),
    {
        let ghost c = self.deep_view();
        let ghost s = list.deep_view();
        let ghost f = ask_target(c, refused.deep_view());
        let mut out: Vec<AskTarget> = Vec::new();
        assert(out.deep_view() =~= s.take(0).filter_map(f));
        for i in 0..list.len()
            invariant
                c == self.deep_view(),
                s == list.deep_view(),
                f == ask_target(c, refused.deep_view()),
                out.deep_view() == s.take(i as int).filter_map(f),
        {
            let key: PublicKey = list[i];
            proof {
                lemma_filter_map_step(s, f, i as int);
                assert(s[i as int] == key);
            }
            if !(key == self.device) {
                let record: Option<ContactRecord> = self.trusted_record_for(&key);
                let route: Result<Peer, crate::error::Error> = match &record {
                    Some(known) => self.peer_addr_for(key, Some(known), refused),
                    None => self.peer_addr_for(key, None, refused),
                };
                match route {
                    Ok(peer) => {
                        let item: AskTarget = AskTarget { petname: self.petname_of(&key), peer };
                        let ghost before = out.deep_view();
                        let ghost v = item.deep_view();
                        out.push(item);
                        assert(out.deep_view() =~= before.push(v));
                    },
                    Err(_) => {},
                }
            }
        }
        proof {
            lemma_take_all(s);
        }
        out
    }
}

/// One validated answer, already stored as learned.
#[derive(Debug)]
pub struct WhoIsAnswer {
    pub responder: PublicKey,
    /// What this client calls the responder.
    pub responder_petname: String,
    pub record: ContactRecord,
    /// The responder's own validated claims about the subject.
    pub endorsements: Vec<SignedAttestation>,
}

pub struct AnswerView {
    pub responder: PublicKey,
    pub responder_petname: Seq<char>,
    pub record: RecordView,
    pub endorsements: Seq<SignedView>,
}

impl DeepView for WhoIsAnswer {
    type V = AnswerView;

    open spec fn deep_view(&self) -> AnswerView {
        AnswerView {
            responder: self.responder,
            responder_petname: self.responder_petname@,
            record: self.record.deep_view(),
            endorsements: self.endorsements.deep_view(),
        }
    }
}

/// What a who-is query accomplished, with the honest denominator.
#[derive(Debug)]
pub struct WhoIsOutcome {
    pub answers: Vec<WhoIsAnswer>,
    /// Dialable responders queried.
    pub asked: usize,
    /// Of those, how many could not be reached or asked to completion.
    pub unreachable: usize,
}

/// What the replies to a query come to.
pub struct OutcomeView {
    pub client: ClientView,
    pub answers: Seq<AnswerView>,
    pub unreachable: nat,
}

/// One more reply.
pub open spec fn heard(v: OutcomeView, subject: PublicKey, target: AskView, reply: ReplyView, now: u64) -> OutcomeView {
    match answer_in(subject, target.peer.key, reply, now) {
        Some(a) => OutcomeView {
            client: with_learned(v.client, subject, a),
            answers: v.answers.push(
                AnswerView {
                    responder: a.responder,
                    responder_petname: target.petname,
                    record: a.record,
                    endorsements: a.endorsements,
                },
            ),
            ..v
        },
        None => if reply is Unreachable {
            OutcomeView { unreachable: v.unreachable + 1, ..v }
        } else {
            v
        },
    }
}

/// The replies, in the order of those asked.
pub open spec fn heard_all(
    c: ClientView,
    subject: PublicKey,
    targets: Seq<AskView>,
    replies: Seq<ReplyView>,
    now: u64,
    n: nat,
) -> OutcomeView
    decreases n,
{
    if n == 0 {
        OutcomeView { client: c, answers: Seq::empty(), unreachable: 0 }
    } else {
        let k = (n - 1) as nat;
        heard(
            heard_all(c, subject, targets, replies, now, k),
            subject,
            targets[k as int],
            replies[k as int],
            now,
        )
    }
}

impl Client {
    /// Settles a query: answers are validated like scanned records and stored
    /// as learned; the contacts are never touched.
    pub fn settle_who_is(
        &mut self,
        subject: PublicKey,
        targets: &Vec<AskTarget>,
        replies: &Vec<WhoIsReply>,
        now: u64,
    ) -> (r: WhoIsOutcome)
        requires
            targets.len() == replies.len(),
        ensures
            ({
                let v = heard_all(
                    old(self).deep_view(),
                    subject,
                    targets.deep_view(),
                    replies.deep_view(),
                    now,
                    targets.len() as nat,
                );
                &&& final(self).deep_view() == v.client
                &&& r.answers.deep_view() == v.answers
                &&& r.asked == targets.len()
                &&& r.unreachable == v.unreachable
            }),
    {
        let ghost c = self.deep_view();
        let ghost s = targets.deep_view();
        let ghost t = replies.deep_view();
        let mut answers: Vec<WhoIsAnswer> = Vec::new();
        let mut unreachable: usize = 0;
        assert(answers.deep_view() =~= Seq::<AnswerView>::empty());
        for i in 0..targets.len()
            invariant
                targets.len() == replies.len(),
                s == targets.deep_view(),
                t == replies.deep_view(),
                unreachable <= i,
                self.deep_view() == heard_all(c, subject, s, t, now, i as nat).client,
                answers.deep_view() == heard_all(c, subject, s, t, now, i as nat).answers,
                unreachable == heard_all(c, subject, s, t, now, i as nat).unreachable,
        {
            proof {
                assert(s[i as int] == targets@[i as int].deep_view());
                assert(t[i as int] == replies@[i as int].deep_view());
            }
            let responder: PublicKey = targets[i].peer.key;
            match judge(subject, responder, &replies[i], now) {
                Some(answer) => {
                    let item: WhoIsAnswer = WhoIsAnswer {
                        responder,
                        responder_petname: targets[i].petname.clone(),
                        record: answer.record.duplicate(),
                        endorsements: copies(&answer.endorsements),
                    };
                    let ghost before = answers.deep_view();
                    let ghost v = item.deep_view();
                    answers.push(item);
                    assert(answers.deep_view() =~= before.push(v));
                    self.save_learned(subject, answer);
                },
                None => match &replies[i] {
                    WhoIsReply::Unreachable => {
                        unreachable += 1;
                    },
                    _ => {},
                },
            }
        }
        WhoIsOutcome { answers, asked: targets.len(), unreachable }
    }

    /// The one-connection core of every refresh: an answer the subject served
    /// about themself is learned. `true` where a fresh record landed.
    pub fn refresh_on(&mut self, subject: PublicKey, reply: &WhoIsReply, now: u64) -> (r: bool)
        ensures
            match answer_in(subject, subject, reply.deep_view(), now) {
                Some(a) => r && final(self).deep_view() == with_learned(
                    old(self).deep_view(),
                    subject,
                    a,
                ),
                None => !r && final(self).deep_view() == old(self).deep_view(),
            },
    {
        match judge(subject, subject, reply, now) {
            Some(answer) => {
                self.save_learned(subject, answer);
                true
            },
            None => false,
        }
    }
}

// ---- the scoped auto-query ----

pub open spec fn thread() -> spec_fn(ReceivedView) -> MessageId {
    |m: ReceivedView| thread_of(m.envelope)
}

/// The conversations arrivals touched, ascending.
pub open spec fn touched(received: Seq<ReceivedView>) -> Seq<MessageId> {
    ascending_list::<MessageId>(received.map_values(thread()).to_set())
}

pub fn touched_conversations(received: &Vec<Received>) -> (r: Vec<MessageId>)
    ensures
        r.deep_view() == touched(received.deep_view()),
{
    let ghost s = received.deep_view();
    let ghost f = thread();
    let mut all: Vec<MessageId> = Vec::new();
    assert(all.deep_view() =~= s.take(0).map_values(f));
    for i in 0..received.len()
        invariant
            s == received.deep_view(),
            f == thread(),
            all.deep_view() == s.take(i as int).map_values(f),
    {
        proof {
            lemma_map_step(s, f, i as int);
        }
        let id: MessageId = match received[i].envelope.conversation {
            Some(c) => c,
            None => received[i].envelope.id,
        };
        let ghost before = all.deep_view();
        all.push(id);
        assert(all.deep_view() =~= before.push(id));
    }
    let out: Vec<MessageId> = set_of(&all);
    proof {
        lemma_take_all(s);
        lemma_list_is::<MessageId>(out.deep_view(), s.map_values(f).to_set());
    }
    out
}

/// A member nothing is known of, not asked about here before.
pub open spec fn is_unknown(c: ClientView, asked: Set<(PublicKey, MessageId)>, conversation: MessageId) -> spec_fn(
    PublicKey,
) -> bool {
    |k: PublicKey|
        k != c.device && !known_key(c, k) && crate::client::learned_about(c, k).len() == 0
            && !asked.contains((k, conversation))
}

pub open spec fn not_me(c: ClientView) -> spec_fn(PublicKey) -> bool {
    |k: PublicKey| k != c.device
}

/// Whom to ask about whom, within one conversation.
#[derive(Debug)]
pub struct AutoAsk {
    pub responders: Vec<PublicKey>,
    pub subjects: Vec<PublicKey>,
}

/// Pairs with those of some subjects in a conversation.
pub open spec fn with_pairs(
    asked: Set<(PublicKey, MessageId)>,
    subjects: Seq<PublicKey>,
    conversation: MessageId,
) -> Set<(PublicKey, MessageId)> {
    asked.union(
        Set::new(|p: (PublicKey, MessageId)| p.1 == conversation && subjects.contains(p.0)),
    )
}

/// Whom the auto-query asks in a conversation, and about whom; nobody where no
/// contact contributed.
pub open spec fn auto_asked(
    c: ClientView,
    asked: Set<(PublicKey, MessageId)>,
    conversation: MessageId,
) -> Option<(Seq<PublicKey>, Seq<PublicKey>)> {
    match first(c.conversations, conversation_is(conversation)) {
        Some(x) => if contributed(c, x.envelopes) {
            let all = ascending_list::<PublicKey>(members(x));
            Some((all.filter(not_me(c)), all.filter(is_unknown(c, asked, conversation))))
        } else {
            None
        },
        None => None,
    }
}

impl Client {
    /// The scoped auto-query's plan for a conversation: its unknown members,
    /// each once per run, asked of its own participants, who know them to be
    /// members anyway. Nothing where no contact contributed: a fabricated
    /// group cannot make this client broadcast.
    pub fn auto_ask(&self, asked: &mut AskedOnce, conversation: MessageId) -> (r: Option<AutoAsk>)
        ensures
            match auto_asked(self.deep_view(), old(asked).set(), conversation) {
                Some((responders, subjects)) => {
                    &&& r is Some
                    &&& r->0.responders.deep_view() == responders
                    &&& r->0.subjects.deep_view() == subjects
                    &&& final(asked).set() == with_pairs(old(asked).set(), subjects, conversation)
                },
                None => r is None && final(asked).set() == old(asked).set(),
            },
    {
        match self.has_contributing_contact(conversation) {
            Ok(true) => {},
            _ => {
                return None;
            },
        }
        let all: Vec<PublicKey> = match self.membership(conversation) {
            Ok(keys) => keys,
            Err(_) => {
                return None;
            },
        };
        let ghost c = self.deep_view();
        let ghost s = all.deep_view();
        let ghost begun = asked.set();
        let ghost p = not_me(c);
        let ghost q = is_unknown(c, begun, conversation);
        proof {
            let x = first(c.conversations, conversation_is(conversation))->0;
            lemma_list_is::<PublicKey>(s, members(x));
        }
        let mut responders: Vec<PublicKey> = Vec::new();
        let mut subjects: Vec<PublicKey> = Vec::new();
        proof {
            reveal(Seq::filter);
            assert(responders.deep_view() =~= s.take(0).filter(p));
            assert(subjects.deep_view() =~= s.take(0).filter(q));
            assert(asked.set() =~= with_pairs(begun, subjects.deep_view(), conversation));
        }
        for i in 0..all.len()
            invariant
                c == self.deep_view(),
                s == all.deep_view(),
                crate::order::ascending::<PublicKey>(s),
                p == not_me(c),
                q == is_unknown(c, begun, conversation),
                responders.deep_view() == s.take(i as int).filter(p),
                subjects.deep_view() == s.take(i as int).filter(q),
                asked.set() == with_pairs(begun, subjects.deep_view(), conversation),
        {
            let key: PublicKey = all[i];
            proof {
                lemma_filter_step(s, p, i as int);
                lemma_filter_step(s, q, i as int);
                assert(s[i as int] == key);
                lemma_not_earlier(s, q, i as int);
            }
            if !(key == self.device) {
                let ghost before = responders.deep_view();
                responders.push(key);
                assert(responders.deep_view() =~= before.push(key));
                let answers: Vec<LearnedRecord> = self.learned(&key);
                assert(answers.deep_view().len() == answers.len());
                if !self.knows(&key) && answers.len() == 0 {
                    let ghost held = asked.set();
                    let fresh: bool = asked.first(key, conversation);
                    assert(fresh == !begun.contains((key, conversation)));
                    if fresh {
                        let ghost list = subjects.deep_view();
                        subjects.push(key);
                        proof {
                            assert(subjects.deep_view() =~= list.push(key));
                            lemma_pair_added(begun, list, key, conversation);
                        }
                    } else {
                        assert(held.insert((key, conversation)) =~= held);
                    }
                }
            }
        }
        proof {
            lemma_take_all(s);
        }
        Some(AutoAsk { responders, subjects })
    }
}

proof fn lemma_pair_added(
    asked: Set<(PublicKey, MessageId)>,
    list: Seq<PublicKey>,
    key: PublicKey,
    conversation: MessageId,
)
    ensures
        with_pairs(asked, list.push(key), conversation) == with_pairs(
            asked,
            list,
            conversation,
        ).insert((key, conversation)),
{
    let more = list.push(key);
    let a = with_pairs(asked, more, conversation);
    let b = with_pairs(asked, list, conversation).insert((key, conversation));
    assert(more[list.len() as int] == key);
    assert forall|p: (PublicKey, MessageId)| #[trigger] a.contains(p) <==> b.contains(p) by {
        if more.contains(p.0) && p.0 != key {
            let k = choose|k: int| 0 <= k < more.len() && more[k] == p.0;
            assert(list[k] == p.0);
        }
        if list.contains(p.0) {
            let k = choose|k: int| 0 <= k < list.len() && list[k] == p.0;
            assert(more[k] == p.0);
        }
    }
    assert(a =~= b);
}

/// An ascending list names nobody twice.
proof fn lemma_not_earlier(s: Seq<PublicKey>, q: spec_fn(PublicKey) -> bool, i: int)
    requires
        0 <= i < s.len(),
        crate::order::ascending::<PublicKey>(s),
    ensures
        !s.take(i).filter(q).contains(s[i]),
{
    let t = s.take(i).filter(q);
    crate::seqs::lemma_filter(s.take(i), q);
    if t.contains(s[i]) {
        let k = choose|k: int| 0 <= k < t.len() && t[k] == s[i];
        assert(s.take(i).contains(t[k]));
        let j = choose|j: int| 0 <= j < s.take(i).len() && s.take(i)[j] == t[k];
        assert(s[j] == s[i]);
        <PublicKey as crate::order::Ranked>::order_laws(s[i], s[i], s[i]);
    }
}

// ---- refreshing ----

pub open spec fn sender() -> spec_fn(ReceivedView) -> PublicKey {
    |m: ReceivedView| m.envelope.sender
}

pub open spec fn is_contact(c: ClientView) -> spec_fn(PublicKey) -> bool {
    |k: PublicKey| !own(c).contains(k) && entry_with(c, k) is Some
}

/// The senders a refresh is due for: contacts, none of this user's own
/// devices, ascending.
pub open spec fn refreshable(c: ClientView, received: Seq<ReceivedView>) -> Seq<PublicKey> {
    ascending_list::<PublicKey>(received.map_values(sender()).to_set()).filter(is_contact(c))
}

/// The mailboxes the outbox owes, ascending.
pub open spec fn owed_mailboxes(c: ClientView) -> Seq<Seq<char>> {
    ascending_list::<String>(c.outbox.map_values(relay_of()).to_set())
}

/// The routes to a subject: the bare key, then what its records resolve to,
/// each where the transport does not refuse it.
pub open spec fn routes_to(
    c: ClientView,
    subject: PublicKey,
    stored: Option<RecordView>,
    refused: Seq<RefusalView>,
) -> Seq<PeerView> {
    as_list(admitted(refused, bare(subject)).ok()) + as_list(
        dialable(c, subject, stored, refused).ok(),
    )
}

pub open spec fn owes_entry(owed: Seq<Seq<char>>) -> spec_fn(RelayView) -> bool {
    |r: RelayView| owed.contains(r.mailbox)
}

/// Deposits are owed to a relay the subject resolves to.
pub open spec fn is_sick(c: ClientView, subject: PublicKey, stored: RecordView, owed: Seq<Seq<char>>) -> bool {
    some(effective(c, subject, Some(stored)), owes_entry(owed))
}

/// A refresh to make.
#[derive(Debug)]
pub struct RefreshPlan {
    /// Messages are owed: a fresh record is to be followed by a flush.
    pub sick: bool,
    pub routes: Vec<Peer>,
}

/// A subject's refresh: whether messages are owed, and the routes; nothing for
/// somebody who is no contact or was asked recently enough.
pub open spec fn refresh_of(
    c: ClientView,
    rows: Seq<(PublicKey, u64)>,
    subject: PublicKey,
    owed: Seq<Seq<char>>,
    refused: Seq<RefusalView>,
    now: u64,
) -> Option<(bool, Seq<PeerView>)> {
    match entry_with(c, subject) {
        None => None,
        Some(e) => {
            let sick = is_sick(c, subject, e.1, owed);
            if is_due(last_asked(rows, subject), now, sick) {
                Some((sick, routes_to(c, subject, Some(e.1), refused)))
            } else {
                None
            }
        },
    }
}

impl Client {
    /// The senders to refresh after arrivals.
    pub fn refresh_senders(&self, received: &Vec<Received>) -> (r: Vec<PublicKey>)
        ensures
            r.deep_view() == refreshable(self.deep_view(), received.deep_view()),
    {
        let ghost c = self.deep_view();
        let ghost s = received.deep_view();
        let ghost f = sender();
        let mut all: Vec<PublicKey> = Vec::new();
        assert(all.deep_view() =~= s.take(0).map_values(f));
        for i in 0..received.len()
            invariant
                s == received.deep_view(),
                f == sender(),
                all.deep_view() == s.take(i as int).map_values(f),
        {
            proof {
                lemma_map_step(s, f, i as int);
            }
            let ghost before = all.deep_view();
            all.push(received[i].envelope.sender);
            assert(all.deep_view() =~= before.push(s[i as int].envelope.sender));
        }
        let list: Vec<PublicKey> = set_of(&all);
        proof {
            lemma_take_all(s);
            lemma_list_is::<PublicKey>(list.deep_view(), s.map_values(f).to_set());
        }
        let ghost t = list.deep_view();
        let ghost p = is_contact(c);
        let mut out: Vec<PublicKey> = Vec::new();
        proof {
            reveal(Seq::filter);
            assert(out.deep_view() =~= t.take(0).filter(p));
        }
        for i in 0..list.len()
            invariant
                c == self.deep_view(),
                t == list.deep_view(),
                p == is_contact(c),
                out.deep_view() == t.take(i as int).filter(p),
        {
            proof {
                lemma_filter_step(t, p, i as int);
                assert(t[i as int] == list@[i as int]);
            }
            if !self.is_own(&list[i]) && find_listing(&self.contacts, &list[i]).is_some() {
                let ghost before = out.deep_view();
                out.push(list[i]);
                assert(out.deep_view() =~= before.push(t[i as int]));
            }
        }
        proof {
            lemma_take_all(t);
        }
        out
    }

    /// The mailboxes deposits are owed to, ascending.
    pub fn owed_relays(&self) -> (r: Vec<String>)
        ensures
            r.deep_view() == owed_mailboxes(self.deep_view()),
    {
        let ghost s = self.outbox.deep_view();
        let ghost f = relay_of();
        let mut all: Vec<String> = Vec::new();
        assert(all.deep_view() =~= s.take(0).map_values(f));
        for i in 0..self.outbox.len()
            invariant
                s == self.outbox.deep_view(),
                f == relay_of(),
                all.deep_view() == s.take(i as int).map_values(f),
        {
            proof {
                lemma_map_step(s, f, i as int);
            }
            let ghost before = all.deep_view();
            all.push(self.outbox[i].relay.clone());
            assert(all.deep_view() =~= before.push(s[i as int].relay));
        }
        let out: Vec<String> = set_of(&all);
        proof {
            lemma_take_all(s);
            lemma_list_is::<String>(out.deep_view(), s.map_values(f).to_set());
        }
        out
    }

    fn routes(&self, subject: PublicKey, stored: Option<&ContactRecord>, refused: &Vec<Refusal>) -> (r:
        Vec<Peer>)
        ensures
            r.deep_view() == routes_to(
                self.deep_view(),
                subject,
                crate::relays::record_model(stored),
                refused.deep_view(),
            ),
    {
        let mut out: Vec<Peer> = Vec::new();
        assert(out.deep_view() =~= Seq::<PeerView>::empty());
        match let_through(bare_peer(subject), refused) {
            Ok(peer) => {
                push_peer(&mut out, peer);
            },
            Err(_) => {},
        }
        match self.peer_addr_for(subject, stored, refused) {
            Ok(peer) => {
                push_peer(&mut out, peer);
            },
            Err(_) => {},
        }
        assert(out.deep_view() =~= routes_to(
            self.deep_view(),
            subject,
            crate::relays::record_model(stored),
            refused.deep_view(),
        ));
        out
    }

    /// One subject's refresh, rate-limited: `None` for somebody who is no
    /// contact, and where they were asked recently enough. The only party ever
    /// asked is the subject, about themself.
    pub fn refresh_plan(
        &self,
        ledger: &mut RefreshLedger,
        subject: PublicKey,
        owed: &Vec<String>,
        refused: &Vec<Refusal>,
        now: u64,
    ) -> (r: Option<RefreshPlan>)
        ensures
            match refresh_of(
                self.deep_view(),
                old(ledger).rows.deep_view(),
                subject,
                owed.deep_view(),
                refused.deep_view(),
                now,
            ) {
                Some((sick, routes)) => {
                    &&& r is Some
                    &&& r->0.sick == sick
                    &&& r->0.routes.deep_view() == routes
                    &&& final(ledger).rows.deep_view() == refiled(
                        old(ledger).rows.deep_view(),
                        subject,
                        now,
                    )
                },
                None => r is None && final(ledger).rows.deep_view() == old(ledger).rows.deep_view(),
            },
    {
        let at: usize = match find_listing(&self.contacts, &subject) {
            Some(i) => i,
            None => {
                return None;
            },
        };
        let record: &ContactRecord = &self.contacts[at].1;
        assert(self.contacts.deep_view()[at as int] == self.contacts@[at as int].deep_view());
        let relays: Vec<RelayEntry> = self.effective_relays(subject, Some(record));
        let ghost s = relays.deep_view();
        let ghost p = owes_entry(owed.deep_view());
        let mut sick: bool = false;
        let mut i: usize = 0;
        while i < relays.len()
            invariant
                i <= relays.len(),
                s == relays.deep_view(),
                p == owes_entry(owed.deep_view()),
                sick <==> exists|k: int| 0 <= k < i && p(#[trigger] s[k]),
            decreases relays.len() - i,
        {
            assert(s[i as int] == relays@[i as int].deep_view());
            if holds(owed, &relays[i].mailbox) {
                assert(p(s[i as int]));
                sick = true;
            }
            i += 1;
        }
        if !ledger.due(&subject, now, sick) {
            return None;
        }
        Some(RefreshPlan { sick, routes: self.routes(subject, Some(record), refused) })
    }

    /// The routes a deliberate ask of somebody about themself tries.
    pub fn ask_routes(&self, subject: PublicKey, refused: &Vec<Refusal>) -> (r: Vec<Peer>)
        ensures
            r.deep_view() == routes_to(self.deep_view(), subject, None, refused.deep_view()),
    {
        self.routes(subject, None, refused)
    }

    /// What a deliberate ask produced: `reply` is theirs where a route reached
    /// them, and final then.
    pub fn ask_subject(&mut self, subject: PublicKey, reply: Option<&WhoIsReply>, now: u64) -> (r:
        SubjectAsk)
        ensures
            match reply {
                None => r == SubjectAsk::Unreachable && final(self).deep_view() == old(
                    self,
                ).deep_view(),
                Some(w) => match answer_in(subject, subject, w.deep_view(), now) {
                    Some(a) => r == SubjectAsk::Answered && final(self).deep_view()
                        == with_learned(old(self).deep_view(), subject, a),
                    None => r == SubjectAsk::Nothing && final(self).deep_view() == old(
                        self,
                    ).deep_view(),
                },
            },
    {
        match reply {
            None => SubjectAsk::Unreachable,
            Some(w) => {
                if self.refresh_on(subject, w, now) {
                    SubjectAsk::Answered
                } else {
                    SubjectAsk::Nothing
                }
            },
        }
    }
}

fn push_peer(out: &mut Vec<Peer>, peer: Peer)
    ensures
        final(out).deep_view() == old(out).deep_view().push(peer.deep_view()),
{
    let ghost before = out.deep_view();
    let ghost v = peer.deep_view();
    out.push(peer);
    assert(out.deep_view() =~= before.push(v));
}

// ---- asking over the routes ----

/// The walk over the routes to a subject: the first that connects is final.
#[derive(Debug)]
pub struct RouteWalk {
    pub routes: Vec<Peer>,
    /// How many have been dialed.
    pub dialed: usize,
}

pub struct RouteWalkView {
    pub routes: Seq<PeerView>,
    pub dialed: int,
}

impl DeepView for RouteWalk {
    type V = RouteWalkView;

    open spec fn deep_view(&self) -> RouteWalkView {
        RouteWalkView { routes: self.routes.deep_view(), dialed: self.dialed as int }
    }
}

/// What to do next to reach a subject.
#[derive(Debug)]
pub enum RouteStep {
    /// Dial this route.
    Dial(Peer),
    /// The route dialed last connected: ask over it, and over no other.
    Ask,
    /// No route connects.
    Unreachable,
}

pub enum RouteStepView {
    Dial(PeerView),
    Ask,
    Unreachable,
}

impl DeepView for RouteStep {
    type V = RouteStepView;

    open spec fn deep_view(&self) -> RouteStepView {
        match *self {
            RouteStep::Dial(peer) => RouteStepView::Dial(peer.deep_view()),
            RouteStep::Ask => RouteStepView::Ask,
            RouteStep::Unreachable => RouteStepView::Unreachable,
        }
    }
}

/// The step after a route connected or did not; before the first none has.
pub open spec fn route_step(v: RouteWalkView, connected: bool) -> (RouteWalkView, RouteStepView) {
    if connected {
        (v, RouteStepView::Ask)
    } else if 0 <= v.dialed < v.routes.len() {
        (
            RouteWalkView { dialed: v.dialed + 1, ..v },
            RouteStepView::Dial(v.routes[v.dialed]),
        )
    } else {
        (v, RouteStepView::Unreachable)
    }
}

impl RouteWalk {
    pub fn new(routes: Vec<Peer>) -> (r: Self)
        ensures
            r.deep_view() == (RouteWalkView { routes: routes.deep_view(), dialed: 0 }),
    {
        RouteWalk { routes, dialed: 0 }
    }

    /// What to do next, given whether the route dialed last connected.
    pub fn next(&mut self, connected: bool) -> (r: RouteStep)
        ensures
            (final(self).deep_view(), r.deep_view()) == route_step(
                old(self).deep_view(),
                connected,
            ),
    {
        assert(self.routes.deep_view().len() == self.routes.len());
        if connected {
            RouteStep::Ask
        } else if self.dialed < self.routes.len() {
            let peer: Peer = self.routes[self.dialed].duplicate();
            assert(self.routes.deep_view()[self.dialed as int] == peer.deep_view());
            self.dialed = self.dialed + 1;
            RouteStep::Dial(peer)
        } else {
            RouteStep::Unreachable
        }
    }
}

/// The route a walk ends on, given which connect.
pub open spec fn reached_over(v: RouteWalkView, connects: spec_fn(PeerView) -> bool) -> Option<PeerView>
    decreases v.routes.len() - v.dialed,
{
    if !(0 <= v.dialed < v.routes.len()) {
        None
    } else {
        match route_step(v, false) {
            (more, RouteStepView::Dial(peer)) => if connects(peer) {
                Some(peer)
            } else {
                reached_over(more, connects)
            },
            _ => None,
        }
    }
}

/// What a deliberate subject-ask produced.
#[derive(Debug, Clone, Copy, PartialEq, Eq, Structural)]
pub enum SubjectAsk {
    /// A fresh record landed.
    Answered,
    /// They were reached and served nothing.
    Nothing,
    /// No route reached them.
    Unreachable,
}

// ---- laws ----

/// A subject is asked over the first route that connects, and is unreachable
/// only where none does.
pub proof fn law_first_route_that_connects(
    routes: Seq<PeerView>,
    connects: spec_fn(PeerView) -> bool,
    from: int,
)
    requires
        0 <= from <= routes.len(),
    ensures
        reached_over(RouteWalkView { routes, dialed: from }, connects) == first(
            routes.skip(from),
            connects,
        ),
    decreases routes.len() - from,
{
    let rest = routes.skip(from);
    if from < routes.len() {
        law_first_route_that_connects(routes, connects, from + 1);
        let one = seq![routes[from]];
        assert(rest =~= one + routes.skip(from + 1));
        crate::seqs::lemma_first_add(one, routes.skip(from + 1), connects);
        assert(one.drop_last() =~= Seq::<PeerView>::empty());
        assert(one.last() == routes[from]);
        assert(first(one.drop_last(), connects) is None);
    }
}

/// Nobody the transport refuses is asked or counted as asked.
pub proof fn law_refused_are_not_asked(
    c: ClientView,
    list: Seq<PublicKey>,
    refused: Seq<RefusalView>,
    i: int,
    j: int,
)
    requires
        0 <= i < list.filter_map(ask_target(c, refused)).len(),
        0 <= j < refused.len(),
    ensures
        list.filter_map(ask_target(c, refused))[i].peer != refused[j].peer,
{
    let f = ask_target(c, refused);
    let s = list.filter_map(f);
    assert(s.contains(s[i]));
    list.lemma_filter_map_contains(f, s[i]);
    let key = choose|key: PublicKey| #[trigger] list.contains(key) && f(key) == Some(s[i]);
    crate::relays::law_refused_is_not_dialable(c, key, trusted_record(c, key), refused, j);
}

/// Whatever is answered, nothing but the learned store changes, and every
/// answer names the subject and carries only its responder's verified claims
/// about them.
pub proof fn law_answers_are_advisory(
    c: ClientView,
    subject: PublicKey,
    targets: Seq<AskView>,
    replies: Seq<ReplyView>,
    now: u64,
    n: nat,
)
    ensures
        heard_all(c, subject, targets, replies, now, n).client == (ClientView {
            learned: heard_all(c, subject, targets, replies, now, n).client.learned,
            ..c
        }),
        forall|i: int|
            0 <= i < heard_all(c, subject, targets, replies, now, n).answers.len() ==> sound(
                #[trigger] heard_all(c, subject, targets, replies, now, n).answers[i],
                subject,
            ),
    decreases n,
{
    if n > 0 {
        let k = (n - 1) as nat;
        law_answers_are_advisory(c, subject, targets, replies, now, k);
        let before = heard_all(c, subject, targets, replies, now, k);
        let after = heard_all(c, subject, targets, replies, now, n);
        match replies[k as int] {
            ReplyView::Known(_, endorsements) => {
                crate::seqs::lemma_filter(
                    endorsements,
                    is_endorsement(targets[k as int].peer.key, subject),
                );
            },
            _ => {},
        }
        assert forall|i: int| 0 <= i < after.answers.len() implies sound(#[trigger] after.answers[i], subject) by {
            if i < before.answers.len() {
                assert(after.answers[i] == before.answers[i]);
            }
        }
    }
}

/// An answer that names the subject, with none but its responder's verified
/// claims about them.
pub open spec fn sound(a: AnswerView, subject: PublicKey) -> bool {
    &&& a.record.keys.contains(subject)
    &&& forall|j: int|
        0 <= j < a.endorsements.len() ==> is_endorsement(a.responder, subject)(
            #[trigger] a.endorsements[j],
        )
}

/// The same question is never broadcast twice: what an auto-query asked about,
/// the next leaves alone.
pub proof fn law_auto_ask_once(
    c: ClientView,
    asked: Set<(PublicKey, MessageId)>,
    conversation: MessageId,
    all: Seq<PublicKey>,
)
    ensures
        all.filter(
            is_unknown(
                c,
                with_pairs(
                    asked,
                    all.filter(is_unknown(c, asked, conversation)),
                    conversation,
                ),
                conversation,
            ),
        ).len() == 0,
{
    let subjects = all.filter(is_unknown(c, asked, conversation));
    let q = is_unknown(c, with_pairs(asked, subjects, conversation), conversation);
    crate::seqs::lemma_filter(all, is_unknown(c, asked, conversation));
    crate::seqs::lemma_filter(all, q);
    let again = all.filter(q);
    if again.len() > 0 {
        let k = again[0];
        assert(q(k));
        assert(all.contains(k));
        let i = choose|i: int| 0 <= i < all.len() && all[i] == k;
        assert(is_unknown(c, asked, conversation)(all[i]));
        assert(subjects.contains(all[i]));
        assert(with_pairs(asked, subjects, conversation).contains((k, conversation)));
    }
}

/// A subject is asked again after a day, or after five minutes while messages
/// are owed to it; one never asked is asked at once.
pub proof fn law_due_after_the_interval(last: Option<u64>, now: u64, sick: bool)
    ensures
        last is None ==> is_due(last, now, sick),
        last is Some && sick ==> (is_due(last, now, sick) <==> now - last->0 >= 300_000),
        last is Some && !sick ==> (is_due(last, now, sick) <==> now - last->0 >= 86_400_000),
{
}

/// Of the claims in an answer, those are kept that the answering key itself
/// verifiably signed about the subject, all of them and no other.
pub proof fn law_only_own_claims_are_kept(
    responder: PublicKey,
    subject: PublicKey,
    claims: Seq<SignedView>,
    s: SignedView,
)
    ensures
        claims.filter(is_endorsement(responder, subject)).contains(s) <==> claims.contains(s)
            && s.verified && s.attestation.attester == responder && s.attestation.subject == subject,
{
    crate::seqs::lemma_filter_contains(claims, is_endorsement(responder, subject), s);
}

/// A reply is an answer exactly where it holds a record that lists the
/// subject; it is then learned as it came, as of now, as this responder's.
pub proof fn law_what_an_answer_is(
    subject: PublicKey,
    responder: PublicKey,
    reply: ReplyView,
    now: u64,
    s: SignedView,
)
    ensures
        match answer_in(subject, responder, reply, now) {
            Some(a) => match reply {
                ReplyView::Known(record, claims) => {
                    &&& record.keys.contains(subject)
                    &&& a.record == record
                    &&& a.responder == responder
                    &&& a.received_ms == now
                    &&& a.endorsements.contains(s) <==> claims.contains(s) && s.verified
                        && s.attestation.attester == responder && s.attestation.subject == subject
                },
                _ => false,
            },
            None => match reply {
                ReplyView::Known(record, _) => !record.keys.contains(subject),
                _ => true,
            },
        },
{
    match reply {
        ReplyView::Known(_, claims) => {
            law_only_own_claims_are_kept(responder, subject, claims, s);
        },
        _ => {},
    }
}

/// A learned answer takes the place of the same responder's earlier one about
/// the subject; every other answer, and everything else, stays.
pub proof fn law_learning_replaces_one_answer(
    c: ClientView,
    subject: PublicKey,
    answer: LearnedView,
    e: (PublicKey, LearnedView),
)
    ensures
        with_learned(c, subject, answer) == (ClientView {
            learned: with_learned(c, subject, answer).learned,
            ..c
        }),
        with_learned(c, subject, answer).learned.contains(e) <==> e == (subject, answer) || (
        c.learned.contains(e) && !(e.0 == subject && e.1.responder == answer.responder)),
{
    let p = other_answer(subject, answer.responder);
    crate::seqs::lemma_filter_contains(c.learned, p, e);
    let rest = c.learned.filter(p);
    let s = rest.push((subject, answer));
    assert(s[s.len() - 1] == (subject, answer));
    if rest.contains(e) {
        let k = choose|k: int| 0 <= k < rest.len() && rest[k] == e;
        assert(s[k] == e);
    }
    if s.contains(e) {
        let k = choose|k: int| 0 <= k < s.len() && s[k] == e;
        if k < rest.len() {
            assert(rest[k] == e);
        }
    }
}

/// A reply that is an answer about a subject: a record that lists it.
pub open spec fn is_answer(subject: PublicKey, reply: ReplyView) -> bool {
    match reply {
        ReplyView::Known(record, _) => record.keys.contains(subject),
        _ => false,
    }
}

/// Each reply that is an answer is among the answers of a query, as that of
/// the one asked.
pub proof fn law_every_answer_is_reported(
    c: ClientView,
    subject: PublicKey,
    targets: Seq<AskView>,
    replies: Seq<ReplyView>,
    now: u64,
    n: nat,
    i: int,
)
    requires
        0 <= i < n,
        is_answer(subject, replies[i]),
    ensures
        answered_by(
            heard_all(c, subject, targets, replies, now, n).answers,
            targets[i],
            replies[i],
        ),
    decreases n,
{
    let m = (n - 1) as nat;
    let w = heard_all(c, subject, targets, replies, now, m);
    let v = heard_all(c, subject, targets, replies, now, n);
    if i < m {
        law_every_answer_is_reported(c, subject, targets, replies, now, m, i);
        let k = choose|k: int|
            0 <= k < w.answers.len() && answers_as(#[trigger] w.answers[k], targets[i], replies[i]);
        assert(v.answers[k] == w.answers[k]);
    } else {
        let k = v.answers.len() - 1;
        assert(answers_as(v.answers[k], targets[i], replies[i]));
    }
}

/// How many of the first replies have a property.
pub open spec fn tally(replies: Seq<ReplyView>, p: spec_fn(ReplyView) -> bool, n: nat) -> nat
    decreases n,
{
    if n == 0 {
        0
    } else {
        tally(replies, p, (n - 1) as nat) + if p(replies[n - 1]) {
            1nat
        } else {
            0nat
        }
    }
}

/// A query has as many answers as replies that are one, and counts as
/// unreachable exactly those who were not reached.
pub proof fn law_outcome_counts_replies(
    c: ClientView,
    subject: PublicKey,
    targets: Seq<AskView>,
    replies: Seq<ReplyView>,
    now: u64,
    n: nat,
)
    ensures
        heard_all(c, subject, targets, replies, now, n).answers.len() == tally(
            replies,
            |r: ReplyView| is_answer(subject, r),
            n,
        ),
        heard_all(c, subject, targets, replies, now, n).unreachable == tally(
            replies,
            |r: ReplyView| r is Unreachable,
            n,
        ),
    decreases n,
{
    if n > 0 {
        law_outcome_counts_replies(c, subject, targets, replies, now, (n - 1) as nat);
    }
}

/// An answer says what a reply does, as the one asked.
pub open spec fn answers_as(a: AnswerView, target: AskView, reply: ReplyView) -> bool {
    &&& a.responder == target.peer.key
    &&& a.responder_petname == target.petname
    &&& match reply {
        ReplyView::Known(record, _) => a.record == record,
        _ => false,
    }
}

/// A reply is among the answers.
pub open spec fn answered_by(answers: Seq<AnswerView>, target: AskView, reply: ReplyView) -> bool {
    exists|k: int| 0 <= k < answers.len() && answers_as(#[trigger] answers[k], target, reply)
}

/// A query goes to each contact by its record's first key, and to each
/// recognized device; to nobody else.
pub proof fn law_who_is_asked(c: ClientView, key: PublicKey)
    ensures
        responders(c).contains(key) <==> {
            ||| exists|i: int|
                0 <= i < c.contacts.len() && (#[trigger] c.contacts[i]).1.keys.len() > 0
                    && c.contacts[i].1.keys[0] == key
            ||| exists|i: int| 0 <= i < c.devices.len() && (#[trigger] c.devices[i]).0 == key
        },
{
    let f = crate::persons::entry_stem();
    let a = c.contacts.filter_map(f);
    let b = c.devices.map_values(crate::send::device_key());
    let s = responders(c);
    if s.contains(key) {
        let k = choose|k: int| 0 <= k < s.len() && s[k] == key;
        if k < a.len() {
            assert(a[k] == key);
            let i = crate::seqs::lemma_filter_map_source(c.contacts, f, k);
            assert(c.contacts[i].1.keys[0] == key);
        } else {
            assert(c.devices[k - a.len()].0 == key);
        }
    }
    if exists|i: int|
        0 <= i < c.contacts.len() && (#[trigger] c.contacts[i]).1.keys.len() > 0
            && c.contacts[i].1.keys[0] == key {
        let i = choose|i: int|
            0 <= i < c.contacts.len() && (#[trigger] c.contacts[i]).1.keys.len() > 0
                && c.contacts[i].1.keys[0] == key;
        crate::seqs::lemma_filter_map_has(c.contacts, f, i);
        let k = choose|k: int| 0 <= k < a.len() && a[k] == key;
        assert(s[k] == key);
    }
    if exists|i: int| 0 <= i < c.devices.len() && (#[trigger] c.devices[i]).0 == key {
        let i = choose|i: int| 0 <= i < c.devices.len() && (#[trigger] c.devices[i]).0 == key;
        assert(b[i] == key);
        assert(s[a.len() + i] == key);
    }
}

/// Whoever is asked is asked as itself, under the name this client has for it,
/// and is not this device; whoever of the list can be dialed is asked.
pub proof fn law_asked_as_themselves(
    c: ClientView,
    list: Seq<PublicKey>,
    refused: Seq<RefusalView>,
)
    ensures
        ({
            let s = list.filter_map(ask_target(c, refused));
            &&& forall|k: int|
                0 <= k < s.len() ==> {
                    let t = #[trigger] s[k];
                    &&& list.contains(t.peer.key)
                    &&& t.peer.key != c.device
                    &&& t.petname == petname(c, t.peer.key)
                }
            &&& forall|i: int|
                0 <= i < list.len() && #[trigger] list[i] != c.device && dialable(
                    c,
                    list[i],
                    trusted_record(c, list[i]),
                    refused,
                ) is Ok ==> exists|k: int| 0 <= k < s.len() && (#[trigger] s[k]).peer.key == list[i]
        }),
{
    let f = ask_target(c, refused);
    let s = list.filter_map(f);
    assert forall|k: int| 0 <= k < s.len() implies {
        let t = #[trigger] s[k];
        &&& list.contains(t.peer.key)
        &&& t.peer.key != c.device
        &&& t.petname == petname(c, t.peer.key)
    } by {
        let i = crate::seqs::lemma_filter_map_source(list, f, k);
        let key = list[i];
        crate::relays::law_dialed_over_every_url(
            c,
            key,
            trusted_record(c, key),
            refused,
            Seq::empty(),
        );
    }
    assert forall|i: int|
        0 <= i < list.len() && #[trigger] list[i] != c.device && dialable(
            c,
            list[i],
            trusted_record(c, list[i]),
            refused,
        ) is Ok implies exists|k: int| 0 <= k < s.len() && (#[trigger] s[k]).peer.key == list[i] by {
        let key = list[i];
        crate::seqs::lemma_filter_map_has(list, f, i);
        let k = choose|k: int| 0 <= k < s.len() && s[k] == f(key)->0;
        crate::relays::law_dialed_over_every_url(
            c,
            key,
            trusted_record(c, key),
            refused,
            Seq::empty(),
        );
        assert(s[k].peer.key == key);
    }
}

/// The conversations arrivals touched are those they name, or begin.
pub proof fn law_touched(received: Seq<ReceivedView>, id: MessageId)
    ensures
        touched(received).contains(id) <==> exists|i: int| 0 <= i < received.len() && match (
        #[trigger] received[i]).envelope.conversation {
            Some(x) => x == id,
            None => received[i].envelope.id == id,
        },
{
    let s = received.map_values(thread());
    vstd::seq_lib::seq_to_set_is_finite(s);
    crate::order::lemma_list_exists::<MessageId>(s.to_set());
    assert(touched(received).to_set().contains(id) == s.to_set().contains(id));
    if s.contains(id) {
        let i = choose|i: int| 0 <= i < s.len() && s[i] == id;
        assert(thread_of(received[i].envelope) == id);
    }
    if exists|i: int| 0 <= i < received.len() && match (
    #[trigger] received[i]).envelope.conversation {
        Some(x) => x == id,
        None => received[i].envelope.id == id,
    } {
        let i = choose|i: int| 0 <= i < received.len() && match (
        #[trigger] received[i]).envelope.conversation {
            Some(x) => x == id,
            None => received[i].envelope.id == id,
        };
        assert(s[i] == id);
    }
}

/// Within a conversation, this client asks about each member it neither is,
/// trusts, has learned of nor has asked about here, and asks every other
/// member.
pub proof fn law_unknown_members(
    c: ClientView,
    asked: Set<(PublicKey, MessageId)>,
    conversation: MessageId,
    all: Seq<PublicKey>,
    key: PublicKey,
)
    ensures
        all.filter(is_unknown(c, asked, conversation)).contains(key) <==> {
            &&& all.contains(key)
            &&& !crate::history::is_trusted_author(c, key)
            &&& forall|e: LearnedView| !(#[trigger] c.learned.contains((key, e)))
            &&& !asked.contains((key, conversation))
        },
        all.filter(not_me(c)).contains(key) <==> all.contains(key) && key != c.device,
{
    crate::seqs::lemma_filter_contains(all, is_unknown(c, asked, conversation), key);
    crate::seqs::lemma_filter_contains(all, not_me(c), key);
    crate::client::law_own_keys(c, key);
    crate::client::law_entry_by_key(c, key);
    let s = crate::client::learned_about(c, key);
    if s.len() > 0 {
        assert(s.contains(s[0]));
        crate::client::law_learned_about(c, key, s[0]);
        assert(c.learned.contains((key, s[0])));
    } else {
        assert forall|e: LearnedView| !(#[trigger] c.learned.contains((key, e))) by {
            crate::client::law_learned_about(c, key, e);
        }
    }
}

/// A sender is refreshed exactly where it is a contact's key and none of this
/// user's own.
pub proof fn law_refreshed_senders(c: ClientView, received: Seq<ReceivedView>, key: PublicKey)
    ensures
        refreshable(c, received).contains(key) <==> {
            &&& exists|i: int| 0 <= i < received.len() && (#[trigger] received[i]).envelope.sender == key
            &&& exists|i: int|
                0 <= i < c.contacts.len() && (#[trigger] c.contacts[i]).1.keys.contains(key)
            &&& key != c.device
            &&& forall|i: int| 0 <= i < c.devices.len() ==> (#[trigger] c.devices[i]).0 != key
        },
{
    let s = received.map_values(sender());
    let all = ascending_list::<PublicKey>(s.to_set());
    vstd::seq_lib::seq_to_set_is_finite(s);
    crate::order::lemma_list_exists::<PublicKey>(s.to_set());
    crate::seqs::lemma_filter_contains(all, is_contact(c), key);
    crate::client::law_own_keys(c, key);
    crate::client::law_entry_by_key(c, key);
    assert(all.to_set().contains(key) == s.to_set().contains(key));
    if s.contains(key) {
        let i = choose|i: int| 0 <= i < s.len() && s[i] == key;
        assert(received[i].envelope.sender == key);
    }
    if exists|i: int| 0 <= i < received.len() && (#[trigger] received[i]).envelope.sender == key {
        let i = choose|i: int|
            0 <= i < received.len() && (#[trigger] received[i]).envelope.sender == key;
        assert(s[i] == key);
    }
}

/// The mailboxes owed are those of the ledger's entries; a subject is sick
/// exactly where one of them is a relay it resolves to.
pub proof fn law_sick_if_owed(
    c: ClientView,
    subject: PublicKey,
    stored: RecordView,
    owed: Seq<Seq<char>>,
    relay: Seq<char>,
)
    ensures
        owed_mailboxes(c).contains(relay) <==> exists|i: int|
            0 <= i < c.outbox.len() && (#[trigger] c.outbox[i]).relay == relay,
        is_sick(c, subject, stored, owed) <==> exists|i: int|
            0 <= i < effective(c, subject, Some(stored)).len() && owed.contains(
                (#[trigger] effective(c, subject, Some(stored))[i]).mailbox,
            ),
{
    let s = c.outbox.map_values(relay_of());
    vstd::seq_lib::seq_to_set_is_finite(s);
    crate::order::lemma_list_exists::<String>(s.to_set());
    assert(owed_mailboxes(c).to_set().contains(relay) == s.to_set().contains(relay));
    if s.contains(relay) {
        let i = choose|i: int| 0 <= i < s.len() && s[i] == relay;
        assert(c.outbox[i].relay == relay);
    }
    if exists|i: int| 0 <= i < c.outbox.len() && (#[trigger] c.outbox[i]).relay == relay {
        let i = choose|i: int| 0 <= i < c.outbox.len() && (#[trigger] c.outbox[i]).relay == relay;
        assert(s[i] == relay);
    }
    let e = effective(c, subject, Some(stored));
    let p = owes_entry(owed);
    if is_sick(c, subject, stored, owed) {
        let i = choose|i: int| 0 <= i < e.len() && p(#[trigger] e[i]);
        assert(owed.contains(e[i].mailbox));
    }
    if exists|i: int| 0 <= i < e.len() && owed.contains((#[trigger] e[i]).mailbox) {
        let i = choose|i: int| 0 <= i < e.len() && owed.contains((#[trigger] e[i]).mailbox);
        assert(p(e[i]));
    }
}

/// A subject is reached only as itself: by its bare key first, then over what
/// its records resolve to; each way there is and the transport allows.
pub proof fn law_routes_lead_to_the_subject(
    c: ClientView,
    subject: PublicKey,
    stored: Option<RecordView>,
    refused: Seq<RefusalView>,
)
    ensures
        forall|k: int|
            0 <= k < routes_to(c, subject, stored, refused).len() ==> (#[trigger] routes_to(
                c,
                subject,
                stored,
                refused,
            )[k]).key == subject,
        (forall|j: int|
            0 <= j < refused.len() ==> (#[trigger] refused[j]).peer != (PeerView {
                key: subject,
                relays: Seq::empty(),
            })) ==> routes_to(c, subject, stored, refused).len() > 0 && routes_to(
            c,
            subject,
            stored,
            refused,
        )[0].relays.len() == 0,
        dialable(c, subject, stored, refused) is Ok ==> routes_to(c, subject, stored, refused).len()
            > 0 && routes_to(c, subject, stored, refused).last() == dialable(
            c,
            subject,
            stored,
            refused,
        )->Ok_0,
{
    let b = bare(subject);
    crate::relays::law_dialed_over_every_url(c, subject, stored, refused, Seq::empty());
    crate::seqs::lemma_first(refused, crate::relays::refuses(b));
    match first(refused, crate::relays::refuses(b)) {
        Some(x) => {
            let j = choose|j: int| 0 <= j < refused.len() && refused[j] == x;
            assert(refused[j].peer == b);
        },
        None => {},
    }
}

/// The routes are dialed in turn, each once; one that connects is asked, and
/// nobody is reached only once all have been dialed.
pub proof fn law_routes_are_dialed_in_turn(v: RouteWalkView, connected: bool)
    requires
        0 <= v.dialed <= v.routes.len(),
    ensures
        ({
            let (w, step) = route_step(v, connected);
            &&& w.routes == v.routes
            &&& step is Ask <==> connected
            &&& match step {
                RouteStepView::Dial(peer) => !connected && v.dialed < v.routes.len() && peer
                    == v.routes[v.dialed] && w.dialed == v.dialed + 1,
                RouteStepView::Unreachable => !connected && v.dialed == v.routes.len() && w == v,
                RouteStepView::Ask => w == v,
            }
        }),
{
}

/// The auto-query asks every member but this device about each member that
/// nothing is known of and that was not asked about before; and nobody where no
/// trusted key spoke in the conversation.
pub proof fn law_auto_query_is_scoped(
    c: ClientView,
    asked: Set<(PublicKey, MessageId)>,
    conversation: MessageId,
    at: int,
    key: PublicKey,
)
    requires
        0 <= at < c.conversations.len(),
        c.conversations[at].id == conversation,
        forall|j: int| 0 <= j < at ==> (#[trigger] c.conversations[j]).id != conversation,
    ensures
        ({
            let x = c.conversations[at];
            match auto_asked(c, asked, conversation) {
                Some((responders, subjects)) => {
                    &&& exists|i: int|
                        0 <= i < x.envelopes.len() && crate::history::is_trusted_author(
                            c,
                            (#[trigger] x.envelopes[i]).sender,
                        )
                    &&& responders.contains(key) <==> members(x).contains(key) && key != c.device
                    &&& subjects.contains(key) <==> {
                        &&& members(x).contains(key)
                        &&& !crate::history::is_trusted_author(c, key)
                        &&& forall|e: LearnedView| !(#[trigger] c.learned.contains((key, e)))
                        &&& !asked.contains((key, conversation))
                    }
                },
                None => forall|i: int|
                    0 <= i < x.envelopes.len() ==> !crate::history::is_trusted_author(
                        c,
                        (#[trigger] x.envelopes[i]).sender,
                    ),
            }
        }),
{
    let x = c.conversations[at];
    crate::seqs::lemma_first_is(c.conversations, conversation_is(conversation), at);
    crate::history::law_contributed_by_whom(c, x.envelopes);
    let all = ascending_list::<PublicKey>(members(x));
    vstd::seq_lib::seq_to_set_is_finite(
        crate::seqs::gathered(
            x.envelopes.filter(crate::history::carries(x)),
            crate::history::participants_fn(),
        ),
    );
    crate::order::lemma_list_exists::<PublicKey>(members(x));
    assert(members(x).contains(key) == all.to_set().contains(key));
    law_unknown_members(c, asked, conversation, all, key);
}

/// A contact is refreshed exactly where they were not asked recently enough,
/// over the routes that lead to them; nobody else ever is.
pub proof fn law_only_contacts_are_refreshed(
    c: ClientView,
    rows: Seq<(PublicKey, u64)>,
    subject: PublicKey,
    owed: Seq<Seq<char>>,
    refused: Seq<RefusalView>,
    now: u64,
)
    ensures
        match (refresh_of(c, rows, subject, owed, refused, now), entry_with(c, subject)) {
            (Some((sick, routes)), Some(e)) => {
                &&& sick == is_sick(c, subject, e.1, owed)
                &&& is_due(last_asked(rows, subject), now, sick)
                &&& routes == routes_to(c, subject, Some(e.1), refused)
            },
            (Some(_), None) => false,
            (None, Some(e)) => !is_due(
                last_asked(rows, subject),
                now,
                is_sick(c, subject, e.1, owed),
            ),
            (None, None) => true,
        },
{
}

} // verus!
