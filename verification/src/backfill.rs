//! Peer sync, the fetching side: healing a partially known conversation from
//! a peer, backward to the genesis and then forward, and making history from
//! before a pairing readable. A peer is trusted no more than a relay.
use vstd::prelude::*;

use crate::client::{trusted_record, Client, ClientView};
use crate::error::{Error, ErrorView};
use crate::history::{frontier, missing_ancestors, Envelope, EnvelopeView};
use crate::ids::{MessageId, PublicKey};
use crate::order::{ascending, ascending_list, copies, holds, lemma_list_exists, lemma_list_is, set_insert, set_of, Duplicate};
use crate::outbox::{conversation_is, envelope_is, find_conversation, stored_envelope};
use crate::record::RecordView;
use crate::recv::{Received, ReceivedView};
use crate::relays::{dialable, Peer, PeerView, Refusal, RefusalView};
use crate::seqs::{first, lemma_filter, lemma_filter_map_step, lemma_filter_step, lemma_take_all, lemma_take_step};
use crate::store::{remembered, stored, thread_of, Graph, GraphView};

verus! {

/// One budget bounds a whole walk: a hostile peer could feed an endless fake
/// chain.
pub const MAX_SYNC_FETCH: usize = 10_000;

/// The messages a conversation refers to and lacks, ascending.
pub open spec fn missing(c: ClientView, conversation: MessageId) -> Seq<MessageId> {
    match first(c.conversations, conversation_is(conversation)) {
        Some(x) => ascending_list::<MessageId>(frontier(x.envelopes)),
        None => Seq::empty(),
    }
}

impl Client {
    /// The messages a conversation refers to and lacks: none where it is
    /// closed under ancestors, or nothing of it is stored.
    pub fn missing_in(&self, conversation: MessageId) -> (r: Vec<MessageId>)
        ensures
            r.deep_view() == missing(self.deep_view(), conversation),
    {
        match find_conversation(&self.conversations, &conversation) {
            Some(i) => {
                let out: Vec<MessageId> = missing_ancestors(&self.conversations[i].envelopes);
                proof {
                    lemma_list_is::<MessageId>(
                        out.deep_view(),
                        frontier(self.conversations@[i as int].envelopes.deep_view()),
                    );
                }
                out
            },
            None => {
                let none: Vec<MessageId> = Vec::new();
                assert(none.deep_view() =~= Seq::<MessageId>::empty());
                none
            },
        }
    }
}

// ---- fetching one ----

/// A fetched message is taken: it is the one asked for, in a format this
/// client reads, verified, and of the conversation being synced.
pub open spec fn is_wanted(e: EnvelopeView, id: MessageId, conversation: MessageId) -> bool {
    e.id == id && e.supported && e.verified && thread_of(e) == conversation
}

impl Client {
    /// Validates and stores a message a peer served. `true` where it is
    /// stored.
    pub fn accept_fetched(
        &mut self,
        id: MessageId,
        conversation: MessageId,
        envelope: Envelope,
        graph: Graph,
        now: u64,
    ) -> (r: bool)
        ensures
            r == is_wanted(envelope.deep_view(), id, conversation),
            final(self).deep_view() == after_fetch(
                old(self).deep_view(),
                envelope.deep_view(),
                id,
                conversation,
                graph.deep_view(),
                now,
            ),
    {
        let home: MessageId = match envelope.conversation {
            Some(c) => c,
            None => envelope.id,
        };
        if !(envelope.id == id) || !envelope.supported || !envelope.verified || !(home
            == conversation) {
            return false;
        }
        self.remember(envelope, graph, now);
        true
    }

    /// The peer to backfill from, by its key alone.
    pub fn backfill_peer(&self, peer: PublicKey, refused: &Vec<Refusal>) -> (r: Result<Peer, Error>)
        ensures
            match trusted_record(self.deep_view(), peer) {
                None => r is Err && r->Err_0.deep_view() == ErrorView::NotAContact(
                    "no stored record for that key"@,
                ),
                Some(record) => match dialable(
                    self.deep_view(),
                    peer,
                    Some(record),
                    refused.deep_view(),
                ) {
                    Ok(p) => r is Ok && r->Ok_0.deep_view() == p,
                    Err(e) => r is Err && r->Err_0.deep_view() == e,
                },
            },
    {
        match self.trusted_record_for(&peer) {
            Some(record) => self.peer_addr_for(peer, Some(&record), refused),
            None => Err(Error::NotAContact("no stored record for that key".to_owned())),
        }
    }
}

// ---- the backward pass ----

/// The walk back to the genesis: round by round, the messages referred to and
/// lacking.
#[derive(Debug)]
pub struct Backward {
    pub conversation: MessageId,
    pub budget: usize,
    pub fetched: usize,
    /// This round's messages.
    pub round: Vec<MessageId>,
    /// How many of them have been asked for.
    pub at: usize,
    /// The round brought something.
    pub progressed: bool,
}

pub struct BackwardView {
    pub conversation: MessageId,
    pub budget: usize,
    pub fetched: usize,
    pub round: Seq<MessageId>,
    pub at: int,
    pub progressed: bool,
}

impl DeepView for Backward {
    type V = BackwardView;

    open spec fn deep_view(&self) -> BackwardView {
        BackwardView {
            conversation: self.conversation,
            budget: self.budget,
            fetched: self.fetched,
            round: self.round.deep_view(),
            at: self.at as int,
            progressed: self.progressed,
        }
    }
}

/// The walk in a round with something left to ask: a new one where the last is
/// over and brought something. `None` where the walk is over.
pub open spec fn in_round(v: BackwardView, c: ClientView) -> Option<BackwardView> {
    if v.at < v.round.len() {
        Some(v)
    } else if !v.progressed || missing(c, v.conversation).len() == 0 {
        None
    } else {
        Some(
            BackwardView {
                round: missing(c, v.conversation),
                at: 0,
                progressed: false,
                ..v
            },
        )
    }
}

/// What the walk asks for next.
pub open spec fn backward_next(v: BackwardView, c: ClientView) -> Option<MessageId> {
    match in_round(v, c) {
        Some(w) => if w.fetched >= w.budget {
            None
        } else {
            Some(w.round[w.at])
        },
        None => None,
    }
}

/// A walk back before it has asked for anything.
pub open spec fn backward_begun(conversation: MessageId, budget: usize) -> BackwardView {
    BackwardView {
        conversation,
        budget,
        fetched: 0,
        round: Seq::empty(),
        at: 0,
        progressed: true,
    }
}

/// The walk back once the message asked for was stored or was not.
pub open spec fn backward_noted(v: BackwardView, stored_one: bool) -> BackwardView {
    BackwardView {
        at: v.at + 1,
        fetched: if stored_one {
            (v.fetched + 1) as usize
        } else {
            v.fetched
        },
        progressed: v.progressed || stored_one,
        ..v
    }
}

impl Backward {
    pub open spec fn valid(&self) -> bool {
        self.at <= self.round.len()
    }

    pub fn new(conversation: MessageId, budget: usize) -> (r: Self)
        ensures
            r.valid(),
            r.deep_view() == backward_begun(conversation, budget),
    {
        let round: Vec<MessageId> = Vec::new();
        assert(round.deep_view() =~= Seq::<MessageId>::empty());
        Backward { conversation, budget, fetched: 0, round, at: 0, progressed: true }
    }

    /// The next message to fetch; `None` where the stored slice is closed, the
    /// peer brings nothing more, or the budget is spent.
    pub fn next(&mut self, client: &Client) -> (r: Option<MessageId>)
        requires
            old(self).valid(),
        ensures
            final(self).valid(),
            r == backward_next(old(self).deep_view(), client.deep_view()),
            match in_round(old(self).deep_view(), client.deep_view()) {
                Some(w) => final(self).deep_view() == w && final(self).at < final(self).round.len(),
                None => final(self).deep_view() == old(self).deep_view(),
            },
    {
        assert(self.round.deep_view().len() == self.round.len());
        if self.at >= self.round.len() {
            if !self.progressed {
                return None;
            }
            let round: Vec<MessageId> = client.missing_in(self.conversation);
            assert(round.deep_view().len() == round.len());
            if round.len() == 0 {
                return None;
            }
            self.round = round;
            self.at = 0;
            self.progressed = false;
        }
        if self.fetched >= self.budget {
            return None;
        }
        assert(self.round.deep_view()[self.at as int] == self.round@[self.at as int]);
        Some(self.round[self.at])
    }

    /// Takes into account whether the message just asked for was stored.
    pub fn note(&mut self, stored_one: bool)
        requires
            old(self).valid(),
            old(self).at < old(self).round.len(),
            old(self).fetched < old(self).budget,
        ensures
            final(self).valid(),
            final(self).deep_view() == backward_noted(old(self).deep_view(), stored_one),
    {
        self.at += 1;
        if stored_one {
            self.fetched += 1;
            self.progressed = true;
        }
    }
}

/// A hostile peer cannot stretch a walk: nothing is asked for beyond the
/// budget, and a round that brought nothing is the last.
pub proof fn law_backward_is_bounded(v: BackwardView, c: ClientView)
    ensures
        v.fetched >= v.budget ==> backward_next(v, c) is None,
        v.at >= v.round.len() && !v.progressed ==> backward_next(v, c) is None,
{
}

/// Nothing is asked for but messages the conversation refers to and lacks.
pub proof fn law_backward_asks_for_missing(v: BackwardView, c: ClientView)
    requires
        v.at >= v.round.len(),
        backward_next(v, c) is Some,
    ensures
        missing(c, v.conversation).contains(backward_next(v, c)->0),
{
    assert(missing(c, v.conversation)[0] == backward_next(v, c)->0);
}

// ---- the forward pass ----

/// The walk forward: whose children to ask for, and which of them to fetch.
#[derive(Debug)]
pub struct Forward {
    pub budget: usize,
    pub fetched: usize,
    /// The messages held, ascending.
    pub stored: Vec<MessageId>,
    /// This round's messages, and how many have been asked about.
    pub query: Vec<MessageId>,
    pub asked: usize,
    /// The children named last, and how many have been dealt with.
    pub children: Vec<MessageId>,
    pub dealt: usize,
    /// What this round brought.
    pub learned: Vec<MessageId>,
}

pub struct ForwardView {
    pub budget: usize,
    pub fetched: usize,
    pub stored: Set<MessageId>,
    pub query: Seq<MessageId>,
    pub asked: int,
    pub children: Seq<MessageId>,
    pub dealt: int,
    pub learned: Seq<MessageId>,
}

impl DeepView for Forward {
    type V = ForwardView;

    open spec fn deep_view(&self) -> ForwardView {
        ForwardView {
            budget: self.budget,
            fetched: self.fetched,
            stored: self.stored.deep_view().to_set(),
            query: self.query.deep_view(),
            asked: self.asked as int,
            children: self.children.deep_view(),
            dealt: self.dealt as int,
            learned: self.learned.deep_view(),
        }
    }
}

/// What the walk forward does next.
#[derive(Debug, Clone, Copy)]
pub enum ForwardStep {
    /// Ask for the children of a message.
    Successors(MessageId),
    /// Fetch a message.
    Fetch(MessageId),
    Done,
}

/// The place of the first child from `at` on that is not held.
pub open spec fn next_child(children: Seq<MessageId>, stored: Set<MessageId>, at: int) -> int
    decreases children.len() - at,
{
    if at >= children.len() || !stored.contains(children[at]) {
        at
    } else {
        next_child(children, stored, at + 1)
    }
}

/// The walk past the children already held.
pub open spec fn past_held(v: ForwardView) -> ForwardView {
    ForwardView { dealt: next_child(v.children, v.stored, v.dealt), ..v }
}

/// The next step, and the walk ready for its outcome. The first round asks
/// about every message held, a later one about what the last brought.
pub open spec fn forward_next(v: ForwardView) -> (ForwardView, ForwardStep) {
    if v.dealt < v.children.len() && v.fetched >= v.budget {
        (v, ForwardStep::Done)
    } else {
        let w = past_held(v);
        if w.dealt < w.children.len() {
            (w, ForwardStep::Fetch(w.children[w.dealt]))
        } else if w.asked < w.query.len() {
            (w, ForwardStep::Successors(w.query[w.asked]))
        } else if w.learned.len() == 0 {
            (w, ForwardStep::Done)
        } else {
            (
                ForwardView { query: w.learned, asked: 0, learned: Seq::empty(), ..w },
                ForwardStep::Successors(w.learned[0]),
            )
        }
    }
}

/// A walk forward before it has asked about anything.
pub open spec fn forward_begun(held: Set<MessageId>, budget: usize) -> ForwardView {
    ForwardView {
        budget,
        fetched: 0,
        stored: held,
        query: ascending_list::<MessageId>(held),
        asked: 0,
        children: Seq::empty(),
        dealt: 0,
        learned: Seq::empty(),
    }
}

/// The walk forward once the children of the message asked about are named.
pub open spec fn children_named(v: ForwardView, ids: Seq<MessageId>) -> ForwardView {
    ForwardView { children: ids, dealt: 0, asked: v.asked + 1, ..v }
}

/// The walk forward once the child fetched was stored or was not.
pub open spec fn child_fetched(v: ForwardView, stored_one: bool) -> ForwardView {
    let child = v.children[v.dealt];
    if stored_one {
        ForwardView {
            dealt: v.dealt + 1,
            fetched: (v.fetched + 1) as usize,
            stored: v.stored.insert(child),
            learned: v.learned.push(child),
            ..v
        }
    } else {
        ForwardView { dealt: v.dealt + 1, ..v }
    }
}

impl Forward {
    pub open spec fn valid(&self) -> bool {
        self.asked <= self.query.len() && self.dealt <= self.children.len()
            && ascending::<MessageId>(self.stored.deep_view())
    }

    /// Begins a walk over the messages a conversation holds.
    pub fn new(held: &Vec<MessageId>, budget: usize) -> (r: Self)
        ensures
            r.valid(),
            r.deep_view() == forward_begun(held.deep_view().to_set(), budget),
    {
        let all: Vec<MessageId> = set_of(held);
        let query: Vec<MessageId> = copies(&all);
        let children: Vec<MessageId> = Vec::new();
        let learned: Vec<MessageId> = Vec::new();
        proof {
            lemma_list_is::<MessageId>(all.deep_view(), held.deep_view().to_set());
            assert(children.deep_view() =~= Seq::<MessageId>::empty());
            assert(learned.deep_view() =~= Seq::<MessageId>::empty());
        }
        Forward { budget, fetched: 0, stored: all, query, asked: 0, children, dealt: 0, learned }
    }

    pub fn next(&mut self) -> (r: ForwardStep)
        requires
            old(self).valid(),
        ensures
            final(self).valid(),
            (final(self).deep_view(), r) == forward_next(old(self).deep_view()),
    {
        let ghost v = self.deep_view();
        assert(v.children.len() == self.children.len());
        assert(v.query.len() == self.query.len());
        assert(v.learned.len() == self.learned.len());
        if self.dealt < self.children.len() && self.fetched >= self.budget {
            return ForwardStep::Done;
        }
        let mut at: usize = self.dealt;
        while at < self.children.len() && holds(&self.stored, &self.children[at])
            invariant
                self.dealt <= at <= self.children.len(),
                v == self.deep_view(),
                v.children.len() == self.children.len(),
                next_child(v.children, v.stored, v.dealt) == next_child(
                    v.children,
                    v.stored,
                    at as int,
                ),
            decreases self.children.len() - at,
        {
            assert(v.children[at as int] == self.children@[at as int]);
            at += 1;
        }
        proof {
            if at < self.children.len() {
                assert(v.children[at as int] == self.children@[at as int]);
            }
            assert(next_child(v.children, v.stored, at as int) == at);
        }
        self.dealt = at;
        if self.dealt < self.children.len() {
            return ForwardStep::Fetch(self.children[self.dealt]);
        }
        if self.asked < self.query.len() {
            assert(v.query[self.asked as int] == self.query@[self.asked as int]);
            return ForwardStep::Successors(self.query[self.asked]);
        }
        if self.learned.len() == 0 {
            return ForwardStep::Done;
        }
        assert(v.learned[0] == self.learned@[0]);
        let round: Vec<MessageId> = copies(&self.learned);
        let head: MessageId = self.learned[0];
        let learned: Vec<MessageId> = Vec::new();
        assert(learned.deep_view() =~= Seq::<MessageId>::empty());
        self.query = round;
        self.learned = learned;
        self.asked = 0;
        assert(self.query.len() == self.query.deep_view().len());
        ForwardStep::Successors(head)
    }

    /// The children a peer named of the message just asked about.
    pub fn note_successors(&mut self, ids: Vec<MessageId>)
        requires
            old(self).valid(),
            old(self).asked < old(self).query.len(),
        ensures
            final(self).valid(),
            final(self).deep_view() == children_named(old(self).deep_view(), ids.deep_view()),
    {
        self.children = ids;
        self.dealt = 0;
        self.asked += 1;
    }

    /// Takes into account whether the child just fetched was stored.
    pub fn note_fetched(&mut self, stored_one: bool)
        requires
            old(self).valid(),
            old(self).dealt < old(self).children.len(),
            old(self).fetched < old(self).budget,
        ensures
            final(self).valid(),
            final(self).deep_view() == child_fetched(old(self).deep_view(), stored_one),
    {
        let child: MessageId = self.children[self.dealt];
        assert(self.children.deep_view()[self.dealt as int] == child);
        self.dealt += 1;
        if stored_one {
            self.fetched += 1;
            set_insert(&mut self.stored, child);
            let ghost before = self.learned.deep_view();
            self.learned.push(child);
            assert(self.learned.deep_view() =~= before.push(child));
        }
    }
}

/// The forward walk never fetches beyond its budget, nor a message already
/// held.
pub proof fn law_forward_is_bounded(v: ForwardView, id: MessageId)
    requires
        0 <= v.dealt <= v.children.len(),
        forward_next(v).1 == ForwardStep::Fetch(id),
    ensures
        v.fetched < v.budget,
        !v.stored.contains(id),
{
    lemma_next_child(v.children, v.stored, v.dealt);
}

proof fn lemma_next_child(children: Seq<MessageId>, stored: Set<MessageId>, at: int)
    requires
        0 <= at <= children.len(),
    ensures
        at <= next_child(children, stored, at) <= children.len(),
        next_child(children, stored, at) < children.len() ==> !stored.contains(
            children[next_child(children, stored, at)],
        ),
    decreases children.len() - at,
{
    if at < children.len() && stored.contains(children[at]) {
        lemma_next_child(children, stored, at + 1);
    }
}

// ---- after a drain ----

pub open spec fn not_from(device: PublicKey) -> spec_fn(ReceivedView) -> bool {
    |m: ReceivedView| m.envelope.sender != device
}

pub open spec fn in_thread(conversation: MessageId) -> spec_fn(ReceivedView) -> bool {
    |m: ReceivedView| thread_of(m.envelope) == conversation
}

/// Whom to heal a conversation from: the first other sender heard in it, where
/// it lacks ancestors.
pub open spec fn heal_from(c: ClientView, received: Seq<ReceivedView>) -> spec_fn(MessageId) -> Option<
    (MessageId, PublicKey),
> {
    |conversation: MessageId|
        match first(received.filter(not_from(c.device)), in_thread(conversation)) {
            Some(m) => if missing(c, conversation).len() > 0 {
                Some((conversation, m.envelope.sender))
            } else {
                None
            },
            None => None,
        }
}

/// The conversations to heal after a drain, ascending, each with whom to heal
/// it from.
pub open spec fn to_heal(c: ClientView, received: Seq<ReceivedView>) -> Seq<(MessageId, PublicKey)> {
    crate::who_is::touched(received).filter_map(heal_from(c, received))
}

impl Client {
    fn first_sender(&self, received: &Vec<Received>, conversation: MessageId) -> (r: Option<PublicKey>)
        ensures
            r == match first(
                received.deep_view().filter(not_from(self.deep_view().device)),
                in_thread(conversation),
            ) {
                Some(m) => Some(m.envelope.sender),
                None => None,
            },
    {
        let ghost s = received.deep_view();
        let ghost p = not_from(self.device);
        let ghost q = in_thread(conversation);
        let mut i: usize = 0;
        proof {
            reveal(Seq::filter);
            assert(s.take(0).filter(p) =~= Seq::<ReceivedView>::empty());
        }
        while i < received.len()
            invariant
                i <= received.len(),
                s == received.deep_view(),
                p == not_from(self.device),
                q == in_thread(conversation),
                first(s.take(i as int).filter(p), q) is None,
            decreases received.len() - i,
        {
            proof {
                lemma_filter_step(s, p, i as int);
                assert(s[i as int] == received@[i as int].deep_view());
                let held = s.take(i as int).filter(p);
                assert(held.push(s[i as int]).drop_last() =~= held);
            }
            let home: MessageId = match received[i].envelope.conversation {
                Some(c) => c,
                None => received[i].envelope.id,
            };
            if !(received[i].envelope.sender == self.device) && home == conversation {
                proof {
                    lemma_filter_first(s, p, q, i + 1);
                }
                return Some(received[i].envelope.sender);
            }
            i += 1;
        }
        proof {
            lemma_take_all(s);
        }
        None
    }

    /// The conversations to heal after a drain: each left with missing
    /// ancestors, from the sender most likely to hold them.
    pub fn sync_targets(&self, received: &Vec<Received>) -> (r: Vec<(MessageId, PublicKey)>)
        ensures
            r.deep_view() == to_heal(self.deep_view(), received.deep_view()),
    {
        let list: Vec<MessageId> = crate::who_is::touched_conversations(received);
        let ghost c = self.deep_view();
        let ghost s = list.deep_view();
        let ghost f = heal_from(c, received.deep_view());
        let mut out: Vec<(MessageId, PublicKey)> = Vec::new();
        assert(out.deep_view() =~= s.take(0).filter_map(f));
        for i in 0..list.len()
            invariant
                c == self.deep_view(),
                s == list.deep_view(),
                f == heal_from(c, received.deep_view()),
                out.deep_view() == s.take(i as int).filter_map(f),
        {
            let conversation: MessageId = list[i];
            proof {
                lemma_filter_map_step(s, f, i as int);
                assert(s[i as int] == conversation);
            }
            match self.first_sender(received, conversation) {
                Some(sender) => {
                    let lacking: Vec<MessageId> = self.missing_in(conversation);
                    assert(lacking.deep_view().len() == lacking.len());
                    if lacking.len() > 0 {
                        let ghost before = out.deep_view();
                        out.push((conversation, sender));
                        assert(out.deep_view() =~= before.push((conversation, sender)));
                    }
                },
                None => {},
            }
        }
        proof {
            lemma_take_all(s);
        }
        out
    }
}

proof fn lemma_filter_first(
    s: Seq<ReceivedView>,
    p: spec_fn(ReceivedView) -> bool,
    q: spec_fn(ReceivedView) -> bool,
    n: int,
)
    requires
        0 <= n <= s.len(),
        first(s.take(n).filter(p), q) is Some,
    ensures
        first(s.filter(p), q) == first(s.take(n).filter(p), q),
    decreases s.len() - n,
{
    if n < s.len() {
        lemma_filter_step(s, p, n);
        let held = s.take(n).filter(p);
        assert(held.push(s[n]).drop_last() =~= held);
        lemma_filter_first(s, p, q, n + 1);
    } else {
        lemma_take_all(s);
    }
}

// ---- re-wrapping ----

/// A message without a key wrap for this device, by its id.
pub open spec fn sealed_off(device: PublicKey) -> spec_fn(EnvelopeView) -> Option<MessageId> {
    |e: EnvelopeView|
        if e.wraps.contains(device) {
            None
        } else {
            Some(e.id)
        }
}

/// The messages of a conversation this device holds and cannot open,
/// ascending.
pub open spec fn unopenable(c: ClientView, conversation: MessageId) -> Seq<MessageId> {
    match first(c.conversations, conversation_is(conversation)) {
        Some(x) => ascending_list::<MessageId>(
            x.envelopes.filter_map(sealed_off(c.device)).to_set(),
        ),
        None => Seq::empty(),
    }
}

/// A list in pieces of a length, the last one maybe shorter.
pub open spec fn in_chunks(ids: Seq<MessageId>, limit: usize) -> Seq<Seq<MessageId>>
    decreases ids.len(),
{
    if limit == 0 || ids.len() == 0 {
        Seq::empty()
    } else if ids.len() <= limit {
        seq![ids]
    } else {
        seq![ids.take(limit as int)] + in_chunks(ids.skip(limit as int), limit)
    }
}

/// A message with a wrap for this device, opened.
pub open spec fn rewrapped(e: EnvelopeView, device: PublicKey, body: Seq<u8>) -> EnvelopeView {
    EnvelopeView { wraps: e.wraps.push(device), body: Ok(body), ..e }
}

/// The client with a held message opened under a wrap for this device.
pub open spec fn wrap_stored(
    c: ClientView,
    conversation: MessageId,
    held: EnvelopeView,
    body: Seq<u8>,
    graph: GraphView,
    now: u64,
) -> ClientView {
    stored(c, conversation, rewrapped(held, c.device, body), graph, now)
}

pub open spec fn other_than(id: MessageId) -> spec_fn(MessageId) -> bool {
    |m: MessageId| m != id
}

impl Client {
    /// The messages of a conversation this device cannot open for want of a
    /// key wrap.
    pub fn unopenable_in(&self, conversation: MessageId) -> (r: Vec<MessageId>)
        ensures
            r.deep_view() == unopenable(self.deep_view(), conversation),
    {
        let at: usize = match find_conversation(&self.conversations, &conversation) {
            Some(i) => i,
            None => {
                let none: Vec<MessageId> = Vec::new();
                assert(none.deep_view() =~= Seq::<MessageId>::empty());
                return none;
            },
        };
        let envelopes: &Vec<Envelope> = &self.conversations[at].envelopes;
        let ghost s = envelopes.deep_view();
        let ghost f = sealed_off(self.device);
        let mut all: Vec<MessageId> = Vec::new();
        assert(all.deep_view() =~= s.take(0).filter_map(f));
        for i in 0..envelopes.len()
            invariant
                s == envelopes.deep_view(),
                f == sealed_off(self.device),
                all.deep_view() == s.take(i as int).filter_map(f),
        {
            proof {
                lemma_filter_map_step(s, f, i as int);
            }
            if !holds(&envelopes[i].wraps, &self.device) {
                let ghost before = all.deep_view();
                all.push(envelopes[i].id);
                assert(all.deep_view() =~= before.push(s[i as int].id));
            }
        }
        let out: Vec<MessageId> = set_of(&all);
        proof {
            lemma_take_all(s);
            lemma_list_is::<MessageId>(out.deep_view(), s.filter_map(f).to_set());
        }
        out
    }

    /// Takes a wrap a paired device sealed: the message must still be wanted,
    /// the wrap for this device, and the body open under it. The message's id
    /// does not move. `true` where it became readable.
    pub fn accept_wrap(
        &mut self,
        conversation: MessageId,
        id: MessageId,
        recipient: PublicKey,
        opened: Option<Vec<u8>>,
        graph: Graph,
        pending: &mut Vec<MessageId>,
        now: u64,
    ) -> (r: bool)
        ensures
            ({
                let c = old(self).deep_view();
                let held = match first(c.conversations, conversation_is(conversation)) {
                    Some(x) => first(x.envelopes, envelope_is(id)),
                    None => None,
                };
                if old(pending).deep_view().contains(id) && recipient == c.device && opened is Some
                    && held is Some {
                    &&& r
                    &&& final(self).deep_view() == wrap_stored(
                        c,
                        conversation,
                        held->0,
                        opened.deep_view()->0,
                        graph.deep_view(),
                        now,
                    )
                    &&& final(pending).deep_view() == old(pending).deep_view().filter(
                        other_than(id),
                    )
                } else {
                    &&& !r
                    &&& final(self).deep_view() == c
                    &&& final(pending).deep_view() == old(pending).deep_view()
                }
            }),
    {
        if !holds(pending, &id) || !(recipient == self.device) {
            return false;
        }
        let body: Vec<u8> = match opened {
            Some(b) => b,
            None => {
                return false;
            },
        };
        let mut envelope: Envelope = match self.load_envelope(conversation, id) {
            Some(e) => e.duplicate(),
            None => {
                return false;
            },
        };
        let ghost e = envelope.deep_view();
        let ghost held = envelope.wraps.deep_view();
        envelope.wraps.push(self.device);
        assert(envelope.wraps.deep_view() =~= held.push(self.device));
        assert(body.deep_view() =~= body@);
        envelope.body = Ok(body);
        self.store_envelope(conversation, envelope, graph, now);
        let ghost s = pending.deep_view();
        let ghost p = other_than(id);
        let mut rest: Vec<MessageId> = Vec::new();
        proof {
            reveal(Seq::filter);
            assert(rest.deep_view() =~= s.take(0).filter(p));
        }
        for i in 0..pending.len()
            invariant
                s == pending.deep_view(),
                p == other_than(id),
                rest.deep_view() == s.take(i as int).filter(p),
        {
            proof {
                lemma_filter_step(s, p, i as int);
                assert(s[i as int] == pending@[i as int]);
            }
            if !(pending[i] == id) {
                let ghost before = rest.deep_view();
                rest.push(pending[i]);
                assert(rest.deep_view() =~= before.push(s[i as int]));
            }
        }
        proof {
            lemma_take_all(s);
        }
        *pending = rest;
        true
    }
}

/// The devices that can be dialed for wraps.
pub open spec fn wrap_sources(c: ClientView, refused: Seq<RefusalView>) -> Seq<PeerView> {
    c.devices.filter_map(device_route(c, refused))
}

/// A device that can be dialed for wraps.
pub open spec fn device_route(c: ClientView, refused: Seq<RefusalView>) -> spec_fn(
    (PublicKey, RecordView),
) -> Option<PeerView> {
    |e: (PublicKey, RecordView)| dialable(c, e.0, Some(e.1), refused).ok()
}

impl Client {
    /// The paired devices to ask for wraps, in order: those that can be
    /// dialed.
    pub fn rewrap_peers(&self, refused: &Vec<Refusal>) -> (r: Vec<Peer>)
        ensures
            r.deep_view() == wrap_sources(self.deep_view(), refused.deep_view()),
    {
        let ghost c = self.deep_view();
        let ghost s = c.devices;
        let ghost f = device_route(c, refused.deep_view());
        let mut out: Vec<Peer> = Vec::new();
        assert(out.deep_view() =~= s.take(0).filter_map(f));
        for i in 0..self.devices.len()
            invariant
                c == self.deep_view(),
                s == c.devices,
                f == device_route(c, refused.deep_view()),
                out.deep_view() == s.take(i as int).filter_map(f),
        {
            proof {
                lemma_filter_map_step(s, f, i as int);
                assert(s[i as int] == self.devices@[i as int].deep_view());
            }
            match self.peer_addr_for(self.devices[i].0, Some(&self.devices[i].1), refused) {
                Ok(peer) => {
                    let ghost before = out.deep_view();
                    let ghost v = peer.deep_view();
                    out.push(peer);
                    assert(out.deep_view() =~= before.push(v));
                },
                Err(_) => {},
            }
        }
        proof {
            lemma_take_all(s);
        }
        out
    }

    /// The conversations to re-wrap after a drain: those it touched, where
    /// there is a paired device at all.
    pub fn rewrap_targets(&self, received: &Vec<Received>) -> (r: Vec<MessageId>)
        ensures
            r.deep_view() == to_rewrap(self.deep_view(), received.deep_view()),
    {
        assert(self.devices.deep_view().len() == self.devices.len());
        if self.devices.len() == 0 {
            let none: Vec<MessageId> = Vec::new();
            assert(none.deep_view() =~= Seq::<MessageId>::empty());
            return none;
        }
        crate::who_is::touched_conversations(received)
    }
}

// ---- the re-wrap walk ----

/// The walk over the paired devices for the key wraps of one conversation.
#[derive(Debug)]
pub struct Rewrap {
    pub conversation: MessageId,
    /// The messages still to be made readable.
    pub pending: Vec<MessageId>,
    /// The devices to ask, and how many have been dialed.
    pub peers: Vec<Peer>,
    pub dialed: usize,
    /// The requests for the device at hand, and how many were answered.
    pub asks: Vec<Vec<MessageId>>,
    pub answered: usize,
    /// How many messages became readable.
    pub healed: usize,
}

pub struct RewrapView {
    pub conversation: MessageId,
    pub pending: Seq<MessageId>,
    pub peers: Seq<PeerView>,
    pub dialed: int,
    pub asks: Seq<Seq<MessageId>>,
    pub answered: int,
    pub healed: int,
}

impl DeepView for Rewrap {
    type V = RewrapView;

    open spec fn deep_view(&self) -> RewrapView {
        RewrapView {
            conversation: self.conversation,
            pending: self.pending.deep_view(),
            peers: self.peers.deep_view(),
            dialed: self.dialed as int,
            asks: self.asks.deep_view(),
            answered: self.answered as int,
            healed: self.healed as int,
        }
    }
}

/// What to do next for a conversation's key wraps.
#[derive(Debug)]
pub enum RewrapStep {
    /// Dial this device.
    Dial(Peer),
    /// Ask the device at hand for the wraps of these messages.
    Ask(Vec<MessageId>),
    /// No device or no message is left: how many became readable.
    Done(usize),
}

pub enum RewrapStepView {
    Dial(PeerView),
    Ask(Seq<MessageId>),
    Done(int),
}

impl DeepView for RewrapStep {
    type V = RewrapStepView;

    open spec fn deep_view(&self) -> RewrapStepView {
        match *self {
            RewrapStep::Dial(peer) => RewrapStepView::Dial(peer.deep_view()),
            RewrapStep::Ask(ids) => RewrapStepView::Ask(ids.deep_view()),
            RewrapStep::Done(healed) => RewrapStepView::Done(healed as int),
        }
    }
}

/// The device at hand is asked to the end; then the next is dialed, while a
/// message is still wanted.
pub open spec fn rewrap_next(v: RewrapView) -> RewrapStepView {
    if v.answered < v.asks.len() {
        RewrapStepView::Ask(v.asks[v.answered])
    } else if v.pending.len() > 0 && v.dialed < v.peers.len() {
        RewrapStepView::Dial(v.peers[v.dialed])
    } else {
        RewrapStepView::Done(v.healed)
    }
}

/// A walk for key wraps before any device is dialed.
pub open spec fn rewrap_begun(
    c: ClientView,
    conversation: MessageId,
    refused: Seq<RefusalView>,
) -> RewrapView {
    RewrapView {
        conversation,
        pending: unopenable(c, conversation),
        peers: c.devices.filter_map(device_route(c, refused)),
        dialed: 0,
        asks: Seq::empty(),
        answered: 0,
        healed: 0,
    }
}

/// The walk once a device was dialed: one that connected is asked for all that
/// is still wanted.
pub open spec fn rewrap_dialed(v: RewrapView, connected: bool, limit: usize) -> RewrapView {
    RewrapView {
        dialed: v.dialed + 1,
        asks: if connected {
            in_chunks(v.pending, limit)
        } else {
            Seq::empty()
        },
        answered: 0,
        ..v
    }
}

/// The walk once a request was answered or was not.
pub open spec fn rewrap_answered(v: RewrapView, served: bool) -> RewrapView {
    RewrapView {
        answered: if served {
            v.answered + 1
        } else {
            v.asks.len() as int
        },
        ..v
    }
}

/// The walk once a message became readable.
pub open spec fn rewrap_healed(v: RewrapView, id: MessageId) -> RewrapView {
    RewrapView { pending: v.pending.filter(other_than(id)), healed: v.healed + 1, ..v }
}

impl Rewrap {
    /// Nothing is counted twice: what became readable is no longer wanted.
    pub open spec fn valid(&self) -> bool {
        &&& self.dialed <= self.peers.len()
        &&& self.answered <= self.asks.len()
        &&& self.healed + self.pending.len() <= usize::MAX
    }

    pub fn new(client: &Client, conversation: MessageId, refused: &Vec<Refusal>) -> (r: Self)
        ensures
            r.valid(),
            r.deep_view() == rewrap_begun(client.deep_view(), conversation, refused.deep_view()),
    {
        let asks: Vec<Vec<MessageId>> = Vec::new();
        assert(asks.deep_view() =~= Seq::<Seq<MessageId>>::empty());
        Rewrap {
            conversation,
            pending: client.unopenable_in(conversation),
            peers: client.rewrap_peers(refused),
            dialed: 0,
            asks,
            answered: 0,
            healed: 0,
        }
    }

    pub fn next(&self) -> (r: RewrapStep)
        requires
            self.valid(),
        ensures
            r.deep_view() == rewrap_next(self.deep_view()),
    {
        proof {
            assert(self.asks.deep_view().len() == self.asks.len());
            assert(self.pending.deep_view().len() == self.pending.len());
            assert(self.peers.deep_view().len() == self.peers.len());
        }
        if self.answered < self.asks.len() {
            let ids: Vec<MessageId> = copies(&self.asks[self.answered]);
            assert(self.asks.deep_view()[self.answered as int] == ids.deep_view());
            RewrapStep::Ask(ids)
        } else if self.pending.len() > 0 && self.dialed < self.peers.len() {
            let copy: Peer = self.peers[self.dialed].duplicate();
            assert(self.peers.deep_view()[self.dialed as int] == copy.deep_view());
            RewrapStep::Dial(copy)
        } else {
            RewrapStep::Done(self.healed)
        }
    }

    /// The device was dialed. One that answers is asked for all that is still
    /// wanted, at most `limit` ids at a time; one that does not is skipped.
    pub fn note_dialed(&mut self, connected: bool, limit: usize)
        requires
            old(self).valid(),
            old(self).dialed < old(self).peers.len(),
        ensures
            final(self).valid(),
            final(self).deep_view() == rewrap_dialed(old(self).deep_view(), connected, limit),
    {
        self.dialed = self.dialed + 1;
        self.answered = 0;
        if connected {
            self.asks = chunks(&self.pending, limit);
        } else {
            self.asks = Vec::new();
            assert(self.asks.deep_view() =~= Seq::<Seq<MessageId>>::empty());
        }
    }

    /// The device answered a request, or declined or failed: then nothing more
    /// is asked of it.
    pub fn note_answer(&mut self, served: bool)
        requires
            old(self).valid(),
            old(self).answered < old(self).asks.len(),
        ensures
            final(self).valid(),
            final(self).deep_view() == rewrap_answered(old(self).deep_view(), served),
    {
        assert(self.asks.deep_view().len() == self.asks.len());
        self.answered = if served {
            self.answered + 1
        } else {
            self.asks.len()
        };
    }

    /// Whether a wrap of an answer would be taken.
    pub fn wants(&self, client: &Client, id: MessageId, recipient: PublicKey, opens: bool) -> (r: bool)
        ensures
            r == takes_wrap(client.deep_view(), self.deep_view(), id, recipient, opens),
    {
        holds(&self.pending, &id) && recipient == client.device && opens && client.load_envelope(
            self.conversation,
            id,
        ).is_some()
    }

    /// Takes one wrap of an answer; `true` where its message became readable.
    pub fn take(
        &mut self,
        client: &mut Client,
        id: MessageId,
        recipient: PublicKey,
        opened: Option<Vec<u8>>,
        graph: Graph,
        now: u64,
    ) -> (r: bool)
        requires
            old(self).valid(),
        ensures
            final(self).valid(),
            r == takes_wrap(
                old(client).deep_view(),
                old(self).deep_view(),
                id,
                recipient,
                opened is Some,
            ),
            final(client).deep_view() == if r {
                wrap_stored(
                    old(client).deep_view(),
                    old(self).deep_view().conversation,
                    stored_envelope(
                        old(client).deep_view(),
                        old(self).deep_view().conversation,
                        id,
                    )->0,
                    opened.deep_view()->0,
                    graph.deep_view(),
                    now,
                )
            } else {
                old(client).deep_view()
            },
            final(self).deep_view() == if r {
                rewrap_healed(old(self).deep_view(), id)
            } else {
                old(self).deep_view()
            },
    {
        let ghost s = self.pending.deep_view();
        assert(s.len() == self.pending.len());
        let mut pending: Vec<MessageId> = copies(&self.pending);
        let taken: bool = client.accept_wrap(
            self.conversation,
            id,
            recipient,
            opened,
            graph,
            &mut pending,
            now,
        );
        if taken {
            proof {
                lemma_filter_drops(s, id);
                assert(pending.deep_view().len() == pending.len());
            }
            self.pending = pending;
            self.healed = self.healed + 1;
        }
        taken
    }
}

/// A wrap is taken: its message is still wanted and held, the wrap is for this
/// device, and the body opens under it.
pub open spec fn takes_wrap(
    c: ClientView,
    v: RewrapView,
    id: MessageId,
    recipient: PublicKey,
    opens: bool,
) -> bool {
    v.pending.contains(id) && recipient == c.device && opens && stored_envelope(
        c,
        v.conversation,
        id,
    ) is Some
}

proof fn lemma_filter_drops(s: Seq<MessageId>, id: MessageId)
    requires
        s.contains(id),
    ensures
        s.filter(other_than(id)).len() < s.len(),
    decreases s.len(),
{
    reveal(Seq::filter);
    let d = s.drop_last();
    lemma_filter(d, other_than(id));
    if s.last() != id {
        let k = choose|k: int| 0 <= k < s.len() && s[k] == id;
        assert(d[k] == id);
        lemma_filter_drops(d, id);
    }
}

/// A walk ends with every device dialed or every message readable, and no
/// device is dialed twice.
pub proof fn law_rewrap_ends(v: RewrapView)
    requires
        0 <= v.dialed <= v.peers.len(),
        0 <= v.answered <= v.asks.len(),
    ensures
        rewrap_next(v) is Done <==> v.answered == v.asks.len() && (v.pending.len() == 0 || v.dialed
            == v.peers.len()),
        rewrap_next(v) is Dial ==> rewrap_next(v) == RewrapStepView::Dial(v.peers[v.dialed]),
{
}

/// Splits a list into requests of at most `limit` ids.
pub fn chunks(ids: &Vec<MessageId>, limit: usize) -> (r: Vec<Vec<MessageId>>)
    ensures
        r.deep_view() == in_chunks(ids.deep_view(), limit),
{
    let ghost s = ids.deep_view();
    let mut out: Vec<Vec<MessageId>> = Vec::new();
    assert(out.deep_view() =~= Seq::<Seq<MessageId>>::empty());
    if limit == 0 {
        return out;
    }
    let mut from: usize = 0;
    proof {
        assert(s.skip(0) =~= s);
        assert(out.deep_view() + in_chunks(s.skip(0), limit) =~= in_chunks(s, limit));
    }
    while from < ids.len()
        invariant
            limit > 0,
            from <= ids.len(),
            s == ids.deep_view(),
            out.deep_view() + in_chunks(s.skip(from as int), limit) == in_chunks(s, limit),
        decreases ids.len() - from,
    {
        let left: usize = ids.len() - from;
        let n: usize = if left <= limit {
            left
        } else {
            limit
        };
        let ghost rest = s.skip(from as int);
        let mut piece: Vec<MessageId> = Vec::new();
        assert(piece.deep_view() =~= rest.take(0));
        for j in 0..n
            invariant
                n <= left,
                left == ids.len() - from,
                s == ids.deep_view(),
                rest == s.skip(from as int),
                piece.deep_view() == rest.take(j as int),
        {
            proof {
                lemma_take_step(rest, j as int);
                assert(rest[j as int] == ids@[from + j]);
            }
            let ghost before = piece.deep_view();
            piece.push(ids[from + j]);
            assert(piece.deep_view() =~= before.push(rest[j as int]));
        }
        let ghost before = out.deep_view();
        let ghost v = piece.deep_view();
        out.push(piece);
        proof {
            assert(out.deep_view() =~= before.push(v));
            assert(rest.skip(n as int) =~= s.skip(from + n));
            if left <= limit {
                assert(rest.take(n as int) =~= rest);
                assert(in_chunks(rest.skip(n as int), limit) =~= Seq::<Seq<MessageId>>::empty());
                assert(before.push(v) + in_chunks(rest.skip(n as int), limit) =~= before + seq![v]);
            } else {
                assert(before.push(v) + in_chunks(rest.skip(n as int), limit) =~= before + (seq![v]
                    + in_chunks(rest.skip(n as int), limit)));
            }
        }
        from += n;
    }
    proof {
        assert(in_chunks(s.skip(from as int), limit) =~= Seq::<Seq<MessageId>>::empty());
        assert(out.deep_view() + Seq::<Seq<MessageId>>::empty() =~= out.deep_view());
    }
    out
}

/// Every id asked for is in exactly one request, in order, and no request is
/// over the limit.
pub proof fn law_chunks_cover(ids: Seq<MessageId>, limit: usize)
    requires
        limit > 0,
    ensures
        in_chunks(ids, limit).flatten() == ids,
        forall|k: int|
            0 <= k < in_chunks(ids, limit).len() ==> (#[trigger] in_chunks(ids, limit)[k]).len()
                <= limit,
    decreases ids.len(),
{
    let all = in_chunks(ids, limit);
    if ids.len() == 0 {
        assert(all =~= Seq::<Seq<MessageId>>::empty());
        assert(all.flatten() =~= ids);
    } else if ids.len() <= limit {
        assert(all.drop_first() =~= Seq::<Seq<MessageId>>::empty());
        assert(all.first() == ids);
        assert(all.drop_first().flatten() =~= Seq::<MessageId>::empty());
        assert(all.flatten() =~= ids);
    } else {
        let rest = ids.skip(limit as int);
        law_chunks_cover(rest, limit);
        assert(all.first() == ids.take(limit as int));
        assert(all.drop_first() =~= in_chunks(rest, limit));
        assert(ids.take(limit as int) + rest =~= ids);
        assert forall|k: int| 0 <= k < all.len() implies (#[trigger] all[k]).len() <= limit by {
            if k > 0 {
                assert(all[k] == in_chunks(rest, limit)[k - 1]);
            }
        }
    }
}

/// A wrap changes nothing but what a message opens with: id, core and place
/// stay.
pub proof fn law_rewrap_keeps_the_core(e: EnvelopeView, device: PublicKey, body: Seq<u8>)
    ensures
        rewrapped(e, device, body).id == e.id,
        thread_of(rewrapped(e, device, body)) == thread_of(e),
        rewrapped(e, device, body).parents == e.parents,
        rewrapped(e, device, body).recipients == e.recipients,
        rewrapped(e, device, body).sender == e.sender,
        rewrapped(e, device, body).wraps.contains(device),
{
    let w = rewrapped(e, device, body).wraps;
    assert(w[w.len() - 1] == device);
}

// ---- whole walks ----

/// A walk forward against a peer, and whose children it has asked for.
pub struct ForwardRun {
    pub walk: ForwardView,
    pub asked: Set<MessageId>,
    pub done: bool,
}

/// The first steps of a walk forward, against a peer that names some children
/// of each message and serves some messages.
pub open spec fn forward_run(
    v: ForwardView,
    names: spec_fn(MessageId) -> Seq<MessageId>,
    serves: spec_fn(MessageId) -> bool,
    steps: nat,
) -> ForwardRun
    decreases steps,
{
    if steps == 0 {
        ForwardRun { walk: v, asked: Set::empty(), done: false }
    } else {
        let r = forward_run(v, names, serves, (steps - 1) as nat);
        if r.done {
            r
        } else {
            match forward_next(r.walk) {
                (w, ForwardStep::Done) => ForwardRun { walk: w, done: true, ..r },
                (w, ForwardStep::Successors(id)) => ForwardRun {
                    walk: children_named(w, names(id)),
                    asked: r.asked.insert(id),
                    done: false,
                },
                (w, ForwardStep::Fetch(id)) => ForwardRun {
                    walk: child_fetched(w, serves(id)),
                    ..r
                },
            }
        }
    }
}

/// A message is still to be asked about.
spec fn to_ask(v: ForwardView, m: MessageId) -> bool {
    (exists|k: int| v.asked <= k < v.query.len() && #[trigger] v.query[k] == m)
        || v.learned.contains(m)
}

/// A child is still to be dealt with.
spec fn to_deal(v: ForwardView, m: MessageId) -> bool {
    exists|k: int| v.dealt <= k < v.children.len() && #[trigger] v.children[k] == m
}

/// What a walk forward keeps true.
spec fn forward_sound(
    held: Set<MessageId>,
    budget: usize,
    names: spec_fn(MessageId) -> Seq<MessageId>,
    serves: spec_fn(MessageId) -> bool,
    v: ForwardView,
    asked: Set<MessageId>,
) -> bool {
    &&& 0 <= v.asked <= v.query.len()
    &&& 0 <= v.dealt <= v.children.len()
    &&& v.budget == budget
    &&& v.fetched <= budget
    &&& v.stored.finite()
    &&& v.stored.len() == held.len() + v.fetched
    &&& forall|m: MessageId| #[trigger] held.contains(m) ==> v.stored.contains(m)
    &&& forall|m: MessageId| #[trigger]
        v.stored.contains(m) ==> (held.contains(m) || serves(m)) && (asked.contains(m) || to_ask(v, m))
    &&& forall|m: MessageId, k: MessageId|
        asked.contains(m) && #[trigger] names(m).contains(k) && serves(k) ==> v.stored.contains(k)
            || to_deal(v, k)
}

proof fn lemma_forward_next_sound(
    held: Set<MessageId>,
    budget: usize,
    names: spec_fn(MessageId) -> Seq<MessageId>,
    serves: spec_fn(MessageId) -> bool,
    v: ForwardView,
    asked: Set<MessageId>,
)
    requires
        forward_sound(held, budget, names, serves, v, asked),
    ensures
        ({
            let (w, step) = forward_next(v);
            &&& forward_sound(held, budget, names, serves, w, asked)
            &&& w.fetched == v.fetched
            &&& w.stored == v.stored
            &&& match step {
                ForwardStep::Done => v.fetched >= budget || (w.asked == w.query.len()
                    && w.learned.len() == 0 && w.dealt == w.children.len()),
                ForwardStep::Successors(id) => w.asked < w.query.len() && w.query[w.asked] == id
                    && w.dealt == w.children.len(),
                ForwardStep::Fetch(id) => w.dealt < w.children.len() && w.children[w.dealt] == id
                    && !w.stored.contains(id) && w.fetched < budget,
            }
        }),
{
    lemma_next_child(v.children, v.stored, v.dealt);
    lemma_skipped_are_held(v.children, v.stored, v.dealt);
    let w = past_held(v);
    if !(v.dealt < v.children.len() && v.fetched >= v.budget) {
        assert forall|m: MessageId, k: MessageId|
            asked.contains(m) && #[trigger] names(m).contains(k) && serves(k) implies w.stored.contains(
            k,
        ) || to_deal(w, k) by {
            if !v.stored.contains(k) {
                let i = choose|i: int| v.dealt <= i < v.children.len() && #[trigger] v.children[i] == k;
                assert(i >= w.dealt);
                assert(w.children[i] == k);
            }
        }
        assert forall|m: MessageId| #[trigger] w.stored.contains(m) implies (held.contains(m)
            || serves(m)) && (asked.contains(m) || to_ask(w, m)) by {
            assert(v.stored.contains(m));
            if !asked.contains(m) {
                if !v.learned.contains(m) {
                    let k = choose|k: int| v.asked <= k < v.query.len() && #[trigger] v.query[k] == m;
                    assert(w.query[k] == m);
                }
            }
        }
        assert(forward_sound(held, budget, names, serves, w, asked));
        if w.dealt >= w.children.len() && w.asked >= w.query.len() && w.learned.len() > 0 {
            let u = ForwardView { query: w.learned, asked: 0, learned: Seq::empty(), ..w };
            assert forall|m: MessageId| #[trigger] u.stored.contains(m) implies (held.contains(m)
                || serves(m)) && (asked.contains(m) || to_ask(u, m)) by {
                assert(w.stored.contains(m));
                if !asked.contains(m) {
                    assert(w.learned.contains(m));
                    let k = choose|k: int| 0 <= k < w.learned.len() && w.learned[k] == m;
                    assert(u.query[k] == m);
                }
            }
            assert forall|m: MessageId, k: MessageId|
                asked.contains(m) && #[trigger] names(m).contains(k) && serves(k) implies u.stored.contains(
                k,
            ) || to_deal(u, k) by {
                assert(w.stored.contains(k) || to_deal(w, k));
            }
        }
    }
}

proof fn lemma_skipped_are_held(children: Seq<MessageId>, stored: Set<MessageId>, at: int)
    requires
        0 <= at <= children.len(),
    ensures
        at <= next_child(children, stored, at) <= children.len(),
        forall|i: int|
            at <= i < next_child(children, stored, at) ==> stored.contains(#[trigger] children[i]),
    decreases children.len() - at,
{
    if at < children.len() && stored.contains(children[at]) {
        lemma_skipped_are_held(children, stored, at + 1);
    }
}

#[verifier::spinoff_prover]
proof fn lemma_forward_run_sound(
    held: Set<MessageId>,
    budget: usize,
    names: spec_fn(MessageId) -> Seq<MessageId>,
    serves: spec_fn(MessageId) -> bool,
    steps: nat,
)
    requires
        held.finite(),
    ensures
        ({
            let r = forward_run(forward_begun(held, budget), names, serves, steps);
            &&& forward_sound(held, budget, names, serves, r.walk, r.asked)
            &&& r.done && r.walk.fetched < budget ==> r.walk.asked == r.walk.query.len()
                && r.walk.learned.len() == 0 && r.walk.dealt == r.walk.children.len()
        }),
    decreases steps,
{
    let v = forward_begun(held, budget);
    if steps == 0 {
        lemma_list_exists::<MessageId>(held);
        assert forall|m: MessageId| #[trigger] held.contains(m) implies to_ask(v, m) by {
            assert(v.query.to_set().contains(m));
            let k = choose|k: int| 0 <= k < v.query.len() && v.query[k] == m;
            assert(v.query[k] == m);
        }
    } else {
        let before = (steps - 1) as nat;
        lemma_forward_run_sound(held, budget, names, serves, before);
        let r = forward_run(v, names, serves, before);
        if !r.done {
            lemma_forward_next_sound(held, budget, names, serves, r.walk, r.asked);
            let (w, step) = forward_next(r.walk);
            let after = forward_run(v, names, serves, steps);
            match step {
                ForwardStep::Done => {},
                ForwardStep::Successors(id) => {
                    let u = children_named(w, names(id));
                    let asked = r.asked.insert(id);
                    assert forall|m: MessageId| #[trigger] u.stored.contains(m) implies (held.contains(
                        m,
                    ) || serves(m)) && (asked.contains(m) || to_ask(u, m)) by {
                        assert(w.stored.contains(m));
                        if !asked.contains(m) && !w.learned.contains(m) {
                            let k = choose|k: int|
                                w.asked <= k < w.query.len() && #[trigger] w.query[k] == m;
                            assert(k != w.asked);
                            assert(u.query[k] == m);
                        }
                    }
                    assert forall|m: MessageId, k: MessageId|
                        asked.contains(m) && #[trigger] names(m).contains(k) && serves(k) implies u.stored.contains(
                        k,
                    ) || to_deal(u, k) by {
                        if m == id {
                            let ids = names(id);
                            let i = choose|i: int| 0 <= i < ids.len() && ids[i] == k;
                            assert(u.children[i] == k);
                        } else {
                            assert(w.stored.contains(k) || to_deal(w, k));
                        }
                    }
                },
                ForwardStep::Fetch(id) => {
                    let u = child_fetched(w, serves(id));
                    assert forall|m: MessageId| #[trigger] u.stored.contains(m) implies (held.contains(
                        m,
                    ) || serves(m)) && (r.asked.contains(m) || to_ask(u, m)) by {
                        if w.stored.contains(m) {
                            if !r.asked.contains(m) {
                                if w.learned.contains(m) {
                                    let k = choose|k: int|
                                        0 <= k < w.learned.len() && w.learned[k] == m;
                                    assert(u.learned[k] == m);
                                } else {
                                    let k = choose|k: int|
                                        w.asked <= k < w.query.len() && #[trigger] w.query[k] == m;
                                    assert(u.query[k] == m);
                                }
                            }
                        } else {
                            assert(u.learned[u.learned.len() - 1] == m);
                        }
                    }
                    assert forall|m: MessageId, k: MessageId|
                        r.asked.contains(m) && #[trigger] names(m).contains(k) && serves(k) implies u.stored.contains(
                        k,
                    ) || to_deal(u, k) by {
                        if !w.stored.contains(k) {
                            let i = choose|i: int|
                                w.dealt <= i < w.children.len() && #[trigger] w.children[i] == k;
                            if i > w.dealt {
                                assert(u.children[i] == k);
                            }
                        }
                    }
                },
            }
        }
    }
}

/// A walk forward leaves nothing out: it ends with budget left only once the
/// children of every message it began with and of every message it stored have
/// been asked for. Then every child of a stored message that the peer named
/// and serves is stored too, nothing else was stored, and each message stored
/// is counted once.
pub proof fn law_forward_leaves_nothing_out(
    held: Set<MessageId>,
    budget: usize,
    names: spec_fn(MessageId) -> Seq<MessageId>,
    serves: spec_fn(MessageId) -> bool,
    steps: nat,
)
    requires
        held.finite(),
    ensures
        ({
            let r = forward_run(forward_begun(held, budget), names, serves, steps);
            &&& forall|m: MessageId| #[trigger] held.contains(m) ==> r.walk.stored.contains(m)
            &&& forall|m: MessageId| #[trigger]
                r.walk.stored.contains(m) ==> held.contains(m) || serves(m)
            &&& r.walk.fetched <= budget
            &&& r.walk.stored.len() == held.len() + r.walk.fetched
            &&& r.done && r.walk.fetched < budget ==> {
                &&& forall|m: MessageId| #[trigger] r.walk.stored.contains(m) ==> r.asked.contains(m)
                &&& forall|m: MessageId, k: MessageId|
                    r.walk.stored.contains(m) && #[trigger] names(m).contains(k) && serves(k)
                        ==> r.walk.stored.contains(k)
            }
        }),
{
    lemma_forward_run_sound(held, budget, names, serves, steps);
    let r = forward_run(forward_begun(held, budget), names, serves, steps);
    if r.done && r.walk.fetched < budget {
        assert forall|m: MessageId| #[trigger] r.walk.stored.contains(m) implies r.asked.contains(m) by {
            assert(!to_ask(r.walk, m));
        }
        assert forall|m: MessageId, k: MessageId|
            r.walk.stored.contains(m) && #[trigger] names(m).contains(k) && serves(k) implies r.walk.stored.contains(
            k,
        ) by {
            assert(r.asked.contains(m));
            assert(!to_deal(r.walk, k));
        }
    }
}

/// Every descendant of a held message is held when a walk forward ends with
/// budget left, against a peer that serves all it names.
pub proof fn law_forward_reaches_descendants(
    held: Set<MessageId>,
    budget: usize,
    names: spec_fn(MessageId) -> Seq<MessageId>,
    serves: spec_fn(MessageId) -> bool,
    steps: nat,
    line: Seq<MessageId>,
)
    requires
        held.finite(),
        line.len() > 0,
        held.contains(line[0]),
        forall|i: int|
            0 <= i < line.len() - 1 ==> names(#[trigger] line[i]).contains(line[i + 1]) && serves(
                line[i + 1],
            ),
    ensures
        ({
            let r = forward_run(forward_begun(held, budget), names, serves, steps);
            r.done && r.walk.fetched < budget ==> r.walk.stored.contains(line.last())
        }),
    decreases line.len(),
{
    law_forward_leaves_nothing_out(held, budget, names, serves, steps);
    if line.len() > 1 {
        let d = line.drop_last();
        assert forall|i: int| 0 <= i < d.len() - 1 implies names(#[trigger] d[i]).contains(d[i + 1])
            && serves(d[i + 1]) by {
            assert(d[i] == line[i] && d[i + 1] == line[i + 1]);
        }
        law_forward_reaches_descendants(held, budget, names, serves, steps, d);
        let i = line.len() - 2;
        assert(names(line[i]).contains(line[i + 1]));
        assert(d.last() == line[i]);
    }
}

/// A walk forward ends: each of its steps fetches a message, or leaves fewer
/// messages to ask about, or fewer children to deal with.
pub proof fn law_forward_ends(v: ForwardView, ids: Seq<MessageId>, stored_one: bool)
    requires
        0 <= v.asked <= v.query.len(),
        0 <= v.dealt <= v.children.len(),
    ensures
        ({
            let (w, step) = forward_next(v);
            let left = |x: ForwardView| x.query.len() - x.asked + x.learned.len();
            match step {
                ForwardStep::Done => true,
                ForwardStep::Successors(_) => {
                    let u = children_named(w, ids);
                    u.fetched == v.fetched && left(u) < left(v)
                },
                ForwardStep::Fetch(_) => {
                    let u = child_fetched(w, stored_one);
                    if stored_one {
                        v.fetched < v.budget && u.fetched == v.fetched + 1
                    } else {
                        u.fetched == v.fetched && left(u) == left(v) && u.children == v.children
                            && u.dealt > v.dealt
                    }
                },
            }
        }),
{
    lemma_next_child(v.children, v.stored, v.dealt);
    lemma_skipped_are_held(v.children, v.stored, v.dealt);
}

/// A walk back against a peer, with the client it fills.
pub struct BackwardRun {
    pub walk: BackwardView,
    pub client: ClientView,
    pub done: bool,
}

/// What a peer gives for a message is taken.
pub open spec fn given(
    gives: spec_fn(MessageId) -> Option<(EnvelopeView, GraphView)>,
    conversation: MessageId,
    m: MessageId,
) -> bool {
    match gives(m) {
        Some((e, _)) => e.id == m && e.supported && e.verified && match e.conversation {
            Some(x) => x == conversation,
            None => e.id == conversation,
        },
        None => false,
    }
}

/// The first steps of a walk back, against a peer that gives something for
/// some messages.
pub open spec fn backward_run(
    c: ClientView,
    conversation: MessageId,
    budget: usize,
    gives: spec_fn(MessageId) -> Option<(EnvelopeView, GraphView)>,
    now: u64,
    steps: nat,
) -> BackwardRun
    decreases steps,
{
    if steps == 0 {
        BackwardRun { walk: backward_begun(conversation, budget), client: c, done: false }
    } else {
        let r = backward_run(c, conversation, budget, gives, now, (steps - 1) as nat);
        if r.done {
            r
        } else {
            match backward_next(r.walk, r.client) {
                None => BackwardRun { done: true, ..r },
                Some(id) => {
                    let w = in_round(r.walk, r.client)->0;
                    match gives(id) {
                        Some((e, graph)) => if is_wanted(e, id, conversation) {
                            BackwardRun {
                                walk: backward_noted(w, true),
                                client: remembered(r.client, e, graph, now),
                                done: false,
                            }
                        } else {
                            BackwardRun { walk: backward_noted(w, false), ..r }
                        },
                        None => BackwardRun { walk: backward_noted(w, false), ..r },
                    }
                },
            }
        }
    }
}

/// What a walk back keeps true: a round that has brought nothing yet is over
/// all that is missing, and nothing asked for in it was given.
spec fn backward_sound(
    r: BackwardRun,
    conversation: MessageId,
    budget: usize,
    gives: spec_fn(MessageId) -> Option<(EnvelopeView, GraphView)>,
) -> bool {
    &&& r.walk.conversation == conversation
    &&& r.walk.budget == budget
    &&& r.walk.fetched <= budget
    &&& 0 <= r.walk.at <= r.walk.round.len()
    &&& !r.walk.progressed ==> {
        &&& r.walk.round == missing(r.client, conversation)
        &&& forall|k: int|
            0 <= k < r.walk.at ==> !given(gives, conversation, #[trigger] r.walk.round[k])
    }
    &&& r.done && r.walk.fetched < budget ==> in_round(r.walk, r.client) is None
}

/// A walk back stops short only of what the peer does not give: it ends with
/// budget left only once nothing is missing of the conversation that the peer
/// would give and this device take.
pub proof fn law_backward_leaves_nothing_out(
    c: ClientView,
    conversation: MessageId,
    budget: usize,
    gives: spec_fn(MessageId) -> Option<(EnvelopeView, GraphView)>,
    now: u64,
    steps: nat,
    m: MessageId,
)
    ensures
        ({
            let r = backward_run(c, conversation, budget, gives, now, steps);
            &&& r.walk.fetched <= budget
            &&& r.done && r.walk.fetched < budget && missing(r.client, conversation).contains(m)
                ==> !given(gives, conversation, m)
        }),
{
    lemma_backward_run_sound(c, conversation, budget, gives, now, steps);
    let r = backward_run(c, conversation, budget, gives, now, steps);
    if r.done && r.walk.fetched < budget && missing(r.client, conversation).contains(m) {
        let k = choose|k: int|
            0 <= k < missing(r.client, conversation).len() && missing(r.client, conversation)[k]
                == m;
        assert(r.walk.round[k] == m);
    }
}

proof fn lemma_backward_run_sound(
    c: ClientView,
    conversation: MessageId,
    budget: usize,
    gives: spec_fn(MessageId) -> Option<(EnvelopeView, GraphView)>,
    now: u64,
    steps: nat,
)
    ensures
        backward_sound(
            backward_run(c, conversation, budget, gives, now, steps),
            conversation,
            budget,
            gives,
        ),
    decreases steps,
{
    if steps > 0 {
        let before = (steps - 1) as nat;
        lemma_backward_run_sound(c, conversation, budget, gives, now, before);
        let r = backward_run(c, conversation, budget, gives, now, before);
        let after = backward_run(c, conversation, budget, gives, now, steps);
        if !r.done {
            match backward_next(r.walk, r.client) {
                None => {},
                Some(id) => {
                    let w = in_round(r.walk, r.client)->0;
                    assert(id == w.round[w.at]);
                    if !after.walk.progressed {
                        assert(!given(gives, conversation, id));
                        assert forall|k: int| 0 <= k < after.walk.at implies !given(
                            gives,
                            conversation,
                            #[trigger] after.walk.round[k],
                        ) by {
                            if k < w.at {
                                assert(w.round[k] == r.walk.round[k]);
                            }
                        }
                    }
                },
            }
        }
    }
}

/// A fetched message is taken exactly where it is the one asked for, this
/// client reads its format, it verifies, and it is of the conversation.
pub proof fn law_only_what_was_asked_for(e: EnvelopeView, id: MessageId, conversation: MessageId)
    ensures
        is_wanted(e, id, conversation) <==> {
            &&& e.id == id
            &&& e.supported
            &&& e.verified
            &&& e.conversation is Some ==> e.conversation->0 == conversation
            &&& e.conversation is None ==> e.id == conversation
        },
{
}

/// What is missing of a stored conversation is each parent its messages name
/// and none of them is; nothing is missing of one that is not stored.
pub proof fn law_missing(c: ClientView, at: int, m: MessageId)
    ensures
        0 <= at < c.conversations.len() && (forall|j: int|
            0 <= j < at ==> (#[trigger] c.conversations[j]).id != c.conversations[at].id) ==> (missing(
            c,
            c.conversations[at].id,
        ).contains(m) <==> {
            let s = c.conversations[at].envelopes;
            &&& exists|j: int| 0 <= j < s.len() && (#[trigger] s[j]).parents.contains(m)
            &&& forall|j: int| 0 <= j < s.len() ==> (#[trigger] s[j]).id != m
        }),
{
    if 0 <= at < c.conversations.len() && (forall|j: int|
        0 <= j < at ==> (#[trigger] c.conversations[j]).id != c.conversations[at].id) {
        let x = c.conversations[at];
        assert forall|j: int| 0 <= j < at implies !conversation_is(x.id)(
            #[trigger] c.conversations[j],
        ) by {}
        crate::seqs::lemma_first_is(c.conversations, conversation_is(x.id), at);
        crate::history::law_missing_is_named_and_not_held(x.envelopes, m);
        let f = frontier(x.envelopes);
        lemma_frontier_finite(x.envelopes);
        lemma_list_exists::<MessageId>(f);
        assert(missing(c, x.id).to_set().contains(m) == f.contains(m));
    }
}

proof fn lemma_frontier_finite(envelopes: Seq<EnvelopeView>)
    ensures
        frontier(envelopes).finite(),
{
    let f = |e: EnvelopeView| e.parents;
    let all = crate::seqs::gathered(envelopes, f);
    vstd::seq_lib::seq_to_set_is_finite(all);
    assert forall|m: MessageId| #[trigger] frontier(envelopes).contains(m) implies all.to_set().contains(
        m,
    ) by {
        let j = choose|j: int|
            0 <= j < envelopes.len() && #[trigger] envelopes[j].parents.contains(m);
        assert(f(envelopes[j]).contains(m));
        crate::seqs::lemma_gathered_contains(envelopes, f, m);
    }
    assert(frontier(envelopes).subset_of(all.to_set()));
    vstd::set_lib::lemma_len_subset(frontier(envelopes), all.to_set());
}

/// After a drain, a conversation is healed exactly where it lacks ancestors
/// and somebody other than this device was heard in it; and from the first
/// such sender.
pub proof fn law_heals_from_who_was_heard(
    c: ClientView,
    received: Seq<ReceivedView>,
    conversation: MessageId,
    i: int,
)
    requires
        0 <= i < received.len(),
        received[i].envelope.sender != c.device,
        thread_of(received[i].envelope) == conversation,
        forall|j: int|
            0 <= j < i ==> (#[trigger] received[j]).envelope.sender == c.device || thread_of(
                received[j].envelope,
            ) != conversation,
    ensures
        heal_from(c, received)(conversation) == if missing(c, conversation).len() > 0 {
            Some((conversation, received[i].envelope.sender))
        } else {
            None
        },
{
    let p = not_from(c.device);
    let q = in_thread(conversation);
    lemma_first_both(received, p, q, i);
}

proof fn lemma_first_both<V>(s: Seq<V>, p: spec_fn(V) -> bool, q: spec_fn(V) -> bool, i: int)
    requires
        0 <= i < s.len(),
        p(s[i]),
        q(s[i]),
        forall|j: int| 0 <= j < i ==> !(p(#[trigger] s[j]) && q(s[j])),
    ensures
        first(s.filter(p), q) == Some(s[i]),
    decreases s.len(),
{
    reveal(Seq::filter);
    let d = s.drop_last();
    let f = d.filter(p);
    if i < d.len() {
        assert(d[i] == s[i]);
        assert forall|j: int| 0 <= j < i implies !(p(#[trigger] d[j]) && q(d[j])) by {
            assert(d[j] == s[j]);
        }
        lemma_first_both(d, p, q, i);
        if p(s.last()) {
            assert(s.filter(p) == f.push(s.last()));
            assert(f.push(s.last()).drop_last() =~= f);
        }
    } else {
        crate::seqs::lemma_first(f, q);
        crate::seqs::lemma_filter(d, p);
        match first(f, q) {
            Some(v) => {
                let k = choose|k: int| 0 <= k < f.len() && f[k] == v;
                assert(p(f[k]));
                assert(d.contains(f[k]));
                let j = choose|j: int| 0 <= j < d.len() && d[j] == f[k];
                assert(s[j] == d[j]);
            },
            None => {},
        }
        assert(s.filter(p) == f.push(s.last()));
        assert(f.push(s.last()).drop_last() =~= f);
    }
}

/// A message is to be made readable exactly where it is stored in the
/// conversation without a key wrap for this device.
pub proof fn law_unopenable(c: ClientView, at: int, m: MessageId)
    requires
        0 <= at < c.conversations.len(),
        forall|j: int|
            0 <= j < at ==> (#[trigger] c.conversations[j]).id != c.conversations[at].id,
    ensures
        unopenable(c, c.conversations[at].id).contains(m) <==> exists|i: int|
            0 <= i < c.conversations[at].envelopes.len() && (
            #[trigger] c.conversations[at].envelopes[i]).id == m
                && !c.conversations[at].envelopes[i].wraps.contains(c.device),
{
    let x = c.conversations[at];
    assert forall|j: int| 0 <= j < at implies !conversation_is(x.id)(#[trigger] c.conversations[j]) by {}
    crate::seqs::lemma_first_is(c.conversations, conversation_is(x.id), at);
    let f = sealed_off(c.device);
    let s = x.envelopes.filter_map(f);
    vstd::seq_lib::seq_to_set_is_finite(s);
    lemma_list_exists::<MessageId>(s.to_set());
    assert(unopenable(c, x.id).to_set().contains(m) == s.to_set().contains(m));
    if s.contains(m) {
        let k = choose|k: int| 0 <= k < s.len() && s[k] == m;
        let i = crate::seqs::lemma_filter_map_source(x.envelopes, f, k);
        assert(x.envelopes[i].id == m);
    }
    if exists|i: int|
        0 <= i < x.envelopes.len() && (#[trigger] x.envelopes[i]).id == m
            && !x.envelopes[i].wraps.contains(c.device) {
        let i = choose|i: int|
            0 <= i < x.envelopes.len() && (#[trigger] x.envelopes[i]).id == m
                && !x.envelopes[i].wraps.contains(c.device);
        crate::seqs::lemma_filter_map_has(x.envelopes, f, i);
    }
}

/// A device that connects is asked for every message still wanted, each once,
/// no more than the limit at a time; one that does not is asked for nothing. A
/// wrap that is taken makes its message, and no other, no longer wanted, and
/// counts once. A device that declines is not asked again.
pub proof fn law_rewrap_asks_for_all_wanted(v: RewrapView, limit: usize, id: MessageId, m: MessageId)
    requires
        limit > 0,
    ensures
        rewrap_dialed(v, true, limit).asks.flatten() == v.pending,
        forall|k: int|
            0 <= k < rewrap_dialed(v, true, limit).asks.len() ==> (#[trigger] rewrap_dialed(
                v,
                true,
                limit,
            ).asks[k]).len() <= limit,
        rewrap_dialed(v, false, limit).asks.len() == 0,
        forall|on: bool| (#[trigger] rewrap_dialed(v, on, limit)).pending == v.pending
            && rewrap_dialed(v, on, limit).healed == v.healed && rewrap_dialed(v, on, limit).dialed
            == v.dialed + 1 && rewrap_dialed(v, on, limit).answered == 0 && rewrap_dialed(
            v,
            on,
            limit,
        ).peers == v.peers,
        rewrap_answered(v, true).answered == v.answered + 1,
        rewrap_answered(v, false).answered == v.asks.len(),
        forall|on: bool| (#[trigger] rewrap_answered(v, on)).pending == v.pending && rewrap_answered(
            v,
            on,
        ).healed == v.healed && rewrap_answered(v, on).asks == v.asks && rewrap_answered(
            v,
            on,
        ).dialed == v.dialed,
        rewrap_healed(v, id).pending.contains(m) <==> v.pending.contains(m) && m != id,
        rewrap_healed(v, id).healed == v.healed + 1,
        rewrap_healed(v, id) == (RewrapView {
            pending: rewrap_healed(v, id).pending,
            healed: rewrap_healed(v, id).healed,
            ..v
        }),
{
    law_chunks_cover(v.pending, limit);
    crate::seqs::lemma_filter_contains(v.pending, other_than(id), m);
}

/// Each paired device that can be dialed is asked, in order, and no other.
pub proof fn law_rewrap_dials_own_devices(
    c: ClientView,
    conversation: MessageId,
    refused: Seq<RefusalView>,
    k: int,
)
    requires
        0 <= k < rewrap_begun(c, conversation, refused).peers.len(),
    ensures
        exists|i: int|
            0 <= i < c.devices.len() && (#[trigger] c.devices[i]).0 == rewrap_begun(
                c,
                conversation,
                refused,
            ).peers[k].key,
        rewrap_begun(c, conversation, refused).pending == unopenable(c, conversation),
        rewrap_begun(c, conversation, refused).dialed == 0,
        rewrap_begun(c, conversation, refused).healed == 0,
{
    let f = device_route(c, refused);
    let i = crate::seqs::lemma_filter_map_source(c.devices, f, k);
    let e = c.devices[i];
    crate::relays::law_dialed_over_every_url(c, e.0, Some(e.1), refused, Seq::empty());
    assert(c.devices[i].0 == rewrap_begun(c, conversation, refused).peers[k].key);
}

/// A wrap is taken exactly where its message is still wanted and held, the wrap
/// is for this device, and the body opens under it.
pub proof fn law_wraps_taken(
    c: ClientView,
    v: RewrapView,
    id: MessageId,
    recipient: PublicKey,
    opens: bool,
)
    ensures
        takes_wrap(c, v, id, recipient, opens) <==> {
            &&& v.pending.contains(id)
            &&& recipient == c.device
            &&& opens
            &&& stored_envelope(c, v.conversation, id) is Some
        },
{
}

/// A message opened under a wrap is found where it was, with the body it opens
/// to and otherwise as it was; nothing but the conversations changes.
pub proof fn law_wrap_makes_it_readable(
    c: ClientView,
    conversation: MessageId,
    held: EnvelopeView,
    body: Seq<u8>,
    graph: GraphView,
    now: u64,
)
    ensures
        ({
            let d = wrap_stored(c, conversation, held, body, graph, now);
            &&& d == (ClientView { conversations: d.conversations, ..c })
            &&& match stored_envelope(d, conversation, held.id) {
                Some(e) => {
                    &&& e.body == Ok::<Seq<u8>, Seq<char>>(body)
                    &&& e.wraps.contains(c.device)
                    &&& e == (EnvelopeView { body: e.body, wraps: e.wraps, ..held })
                },
                None => false,
            }
        }),
{
    let e = rewrapped(held, c.device, body);
    let d = wrap_stored(c, conversation, held, body, graph, now);
    crate::store::law_stored_conversation(c, conversation, e, graph, now);
    let x = first(d.conversations, conversation_is(conversation))->0;
    let p = envelope_is(held.id);
    crate::seqs::lemma_first(x.envelopes, p);
    let k = choose|k: int| 0 <= k < x.envelopes.len() && x.envelopes[k] == e;
    assert(p(x.envelopes[k]));
    assert(e.wraps[held.wraps.len() as int] == c.device);
}

/// Every recognized device that can be dialed is asked for wraps.
pub proof fn law_every_device_is_asked(c: ClientView, refused: Seq<RefusalView>, i: int)
    requires
        0 <= i < c.devices.len(),
        crate::relays::dialable(c, c.devices[i].0, Some(c.devices[i].1), refused) is Ok,
    ensures
        wrap_sources(c, refused).contains(
            crate::relays::dialable(c, c.devices[i].0, Some(c.devices[i].1), refused)->Ok_0,
        ),
{
    crate::seqs::lemma_filter_map_has(c.devices, device_route(c, refused), i);
}

/// What is healed after a drain: each conversation heard in by somebody else
/// that lacks ancestors, from the first such sender; and no other.
pub proof fn law_healed_after_a_drain(
    c: ClientView,
    received: Seq<ReceivedView>,
    conversation: MessageId,
    from: PublicKey,
)
    ensures
        to_heal(c, received).contains((conversation, from)) <==> missing(c, conversation).len() > 0
            && exists|i: int|
            0 <= i < received.len() && (#[trigger] received[i]).envelope.sender == from && from
                != c.device && thread_of(received[i].envelope) == conversation && forall|j: int|
                0 <= j < i ==> (#[trigger] received[j]).envelope.sender == c.device || thread_of(
                    received[j].envelope,
                ) != conversation,
{
    let list = crate::who_is::touched(received);
    let f = heal_from(c, received);
    let out = list.filter_map(f);
    if out.contains((conversation, from)) {
        let k = choose|k: int| 0 <= k < out.len() && out[k] == (conversation, from);
        let l = crate::seqs::lemma_filter_map_source(list, f, k);
        assert(list[l] == conversation);
        let heard = received.filter(not_from(c.device));
        crate::seqs::lemma_first(heard, in_thread(conversation));
        let m = first(heard, in_thread(conversation))->0;
        crate::seqs::lemma_filter_contains(received, not_from(c.device), m);
        let both = |m: ReceivedView|
            m.envelope.sender != c.device && thread_of(m.envelope) == conversation;
        let w = choose|w: int| 0 <= w < received.len() && received[w] == m;
        assert(both(received[w]));
        let i = crate::client::lemma_least(received, both);
        assert forall|j: int| 0 <= j < i implies (#[trigger] received[j]).envelope.sender == c.device
            || thread_of(received[j].envelope) != conversation by {
            assert(!both(received[j]));
        }
        law_heals_from_who_was_heard(c, received, conversation, i);
        assert(received[i].envelope.sender == from);
    }
    if missing(c, conversation).len() > 0 && exists|i: int|
        0 <= i < received.len() && (#[trigger] received[i]).envelope.sender == from && from
            != c.device && thread_of(received[i].envelope) == conversation && forall|j: int|
            0 <= j < i ==> (#[trigger] received[j]).envelope.sender == c.device || thread_of(
                received[j].envelope,
            ) != conversation {
        let i = choose|i: int|
            0 <= i < received.len() && (#[trigger] received[i]).envelope.sender == from && from
                != c.device && thread_of(received[i].envelope) == conversation && forall|j: int|
                0 <= j < i ==> (#[trigger] received[j]).envelope.sender == c.device || thread_of(
                    received[j].envelope,
                ) != conversation;
        law_heals_from_who_was_heard(c, received, conversation, i);
        crate::who_is::law_touched(received, conversation);
        let l = choose|l: int| 0 <= l < list.len() && list[l] == conversation;
        crate::seqs::lemma_filter_map_has(list, f, l);
    }
}

/// The conversations to ask wraps for after a drain: those it touched, where
/// there is another device to ask.
pub open spec fn to_rewrap(c: ClientView, received: Seq<ReceivedView>) -> Seq<MessageId> {
    if c.devices.len() == 0 {
        Seq::empty()
    } else {
        crate::who_is::touched(received)
    }
}

/// After a drain wraps are asked for in every conversation it touched, where
/// this user has another device.
pub proof fn law_wraps_asked_where_touched(
    c: ClientView,
    received: Seq<ReceivedView>,
    conversation: MessageId,
)
    ensures
        to_rewrap(c, received).contains(conversation) <==> c.devices.len() > 0 && exists|i: int|
            0 <= i < received.len() && thread_of((#[trigger] received[i]).envelope) == conversation,
{
    crate::who_is::law_touched(received, conversation);
    if exists|i: int|
        0 <= i < received.len() && thread_of((#[trigger] received[i]).envelope) == conversation {
        let i = choose|i: int|
            0 <= i < received.len() && thread_of((#[trigger] received[i]).envelope) == conversation;
        assert(match received[i].envelope.conversation {
            Some(x) => x == conversation,
            None => received[i].envelope.id == conversation,
        });
    }
}

/// The client once a fetched message is kept, where it is the one wanted.
pub open spec fn after_fetch(
    c: ClientView,
    e: EnvelopeView,
    id: MessageId,
    conversation: MessageId,
    graph: GraphView,
    now: u64,
) -> ClientView {
    if is_wanted(e, id, conversation) {
        remembered(c, e, graph, now)
    } else {
        c
    }
}

/// A fetched message that was wanted is found in its conversation afterwards;
/// any other leaves everything as it was.
pub proof fn law_fetched_is_kept(
    c: ClientView,
    e: EnvelopeView,
    id: MessageId,
    conversation: MessageId,
    graph: GraphView,
    now: u64,
)
    ensures
        is_wanted(e, id, conversation) ==> stored_envelope(
            after_fetch(c, e, id, conversation, graph, now),
            thread_of(e),
            e.id,
        ) == Some(e),
        !is_wanted(e, id, conversation) ==> after_fetch(c, e, id, conversation, graph, now) == c,
{
    crate::store::law_remembered_is_found(c, e, graph, now);
}

} // verus!
