//! Storing messages: envelopes under their conversations, the index from
//! participant sets to conversations, and confirmations. Stored is verified:
//! nothing unverified reaches these.
use vstd::prelude::*;

use crate::client::{Client, ClientView};
use crate::history::{participants, participants_of, Conversation, ConversationView, Dag, DagView, Envelope, EnvelopeView};
use crate::ids::{MessageId, PublicKey};
use crate::order::{ascending, ascending_list, copies, copy_option, lemma_first_placed, lemma_list_is, placed, set_insert, set_of, Duplicate, Ranked};
use crate::outbox::{acks_for, confirmed, conversation_is, find_conversation};
use crate::seqs::{first, lemma_filter, lemma_filter_step, lemma_first, lemma_first_filter, lemma_first_found, lemma_first_step, lemma_take_all};

verus! {

impl Duplicate for Dag {
    fn duplicate(&self) -> (r: Self) {
        Dag {
            heads: copies(&self.heads),
            order: copies(&self.order),
            crossed: copies(&self.crossed),
            next_seq: self.next_seq,
            next_logical: self.next_logical,
        }
    }
}

impl Duplicate for Conversation {
    fn duplicate(&self) -> (r: Self) {
        Conversation {
            id: self.id,
            envelopes: copies(&self.envelopes),
            dag: copy_option(&self.dag),
            fault: self.fault.clone(),
            first_seen_ms: self.first_seen_ms,
        }
    }
}

/// What the graph of a conversation became: it, or why there is none.
#[derive(Debug)]
pub struct Graph {
    pub dag: Option<Dag>,
    pub fault: String,
}

pub struct GraphView {
    pub dag: Option<DagView>,
    pub fault: Seq<char>,
}

impl DeepView for Graph {
    type V = GraphView;

    open spec fn deep_view(&self) -> GraphView {
        GraphView { dag: self.dag.deep_view(), fault: self.fault@ }
    }
}

// ---- the participant-set index ----

/// The set of everyone a message addresses or is from, ascending.
pub open spec fn participant_set(e: EnvelopeView) -> Seq<PublicKey> {
    ascending_list::<PublicKey>(participants(e).to_set())
}

pub open spec fn set_is(set: Seq<PublicKey>) -> spec_fn((Seq<PublicKey>, MessageId)) -> bool {
    |e: (Seq<PublicKey>, MessageId)| e.0 == set
}

pub open spec fn set_is_not(set: Seq<PublicKey>) -> spec_fn((Seq<PublicKey>, MessageId)) -> bool {
    |e: (Seq<PublicKey>, MessageId)| e.0 != set
}

/// The conversation a participant set maps to.
pub open spec fn mapped(c: ClientView, set: Seq<PublicKey>) -> Option<MessageId> {
    match first(c.index, set_is(set)) {
        Some(e) => Some(e.1),
        None => None,
    }
}

/// The index with a set mapped: the latest writer wins.
pub open spec fn with_mapping(c: ClientView, set: Seq<PublicKey>, conversation: MessageId) -> ClientView {
    ClientView { index: c.index.filter(set_is_not(set)).push((set, conversation)), ..c }
}

fn same_keys(a: &Vec<PublicKey>, b: &Vec<PublicKey>) -> (r: bool)
    ensures
        r == (a.deep_view() == b.deep_view()),
{
    if a.len() != b.len() {
        assert(a.deep_view().len() != b.deep_view().len());
        return false;
    }
    let mut i: usize = 0;
    while i < a.len()
        invariant
            a.len() == b.len(),
            i <= a.len(),
            forall|k: int| 0 <= k < i ==> a.deep_view()[k] == b.deep_view()[k],
        decreases a.len() - i,
    {
        assert(a.deep_view()[i as int] == a@[i as int]);
        assert(b.deep_view()[i as int] == b@[i as int]);
        if !(a[i] == b[i]) {
            return false;
        }
        i += 1;
    }
    assert(a.deep_view() =~= b.deep_view());
    true
}

impl Client {
    /// The conversation a participant set maps to, if any. The set is listed
    /// ascending.
    pub fn conversation_for(&self, set: &Vec<PublicKey>) -> (r: Option<MessageId>)
        ensures
            r == mapped(self.deep_view(), set.deep_view()),
    {
        let ghost s = self.index.deep_view();
        let ghost p = set_is(set.deep_view());
        let mut i: usize = 0;
        while i < self.index.len()
            invariant
                i <= self.index.len(),
                s == self.index.deep_view(),
                p == set_is(set.deep_view()),
                first(s.take(i as int), p) is None,
            decreases self.index.len() - i,
        {
            proof {
                lemma_first_step(s, p, i as int);
            }
            if same_keys(&self.index[i].0, set) {
                proof {
                    lemma_first_found(s, p, i + 1);
                }
                return Some(self.index[i].1);
            }
            i += 1;
        }
        proof {
            lemma_take_all(s);
        }
        None
    }

    /// Maps a participant set to a conversation.
    pub fn record_conversation(&mut self, set: Vec<PublicKey>, conversation: MessageId)
        ensures
            final(self).deep_view() == with_mapping(
                old(self).deep_view(),
                set.deep_view(),
                conversation,
            ),
    {
        let ghost s = self.index.deep_view();
        let ghost p = set_is_not(set.deep_view());
        let mut out: Vec<(Vec<PublicKey>, MessageId)> = Vec::new();
        proof {
            reveal(Seq::filter);
            assert(out.deep_view() =~= s.take(0).filter(p));
        }
        for i in 0..self.index.len()
            invariant
                s == self.index.deep_view(),
                p == set_is_not(set.deep_view()),
                out.deep_view() == s.take(i as int).filter(p),
        {
            proof {
                lemma_filter_step(s, p, i as int);
            }
            if !same_keys(&self.index[i].0, &set) {
                let ghost before = out.deep_view();
                out.push((copies(&self.index[i].0), self.index[i].1));
                assert(out.deep_view() =~= before.push(s[i as int]));
            }
        }
        proof {
            lemma_take_all(s);
        }
        let ghost before = out.deep_view();
        let ghost key = set.deep_view();
        out.push((set, conversation));
        assert(out.deep_view() =~= before.push((key, conversation)));
        self.index = out;
    }
}

/// A set maps to what was recorded of it last, and no other set's mapping is
/// touched.
pub proof fn law_latest_mapping_wins(
    c: ClientView,
    set: Seq<PublicKey>,
    conversation: MessageId,
    other: Seq<PublicKey>,
)
    ensures
        mapped(with_mapping(c, set, conversation), set) == Some(conversation),
        other != set ==> mapped(with_mapping(c, set, conversation), other) == mapped(c, other),
{
    let base = c.index.filter(set_is_not(set));
    lemma_filter(c.index, set_is_not(set));
    lemma_first(base, set_is(set));
    assert(base.push((set, conversation)).drop_last() =~= base);
    match first(base, set_is(set)) {
        Some(v) => {
            let k = choose|k: int| 0 <= k < base.len() && base[k] == v;
            assert(set_is_not(set)(base[k]));
        },
        None => {},
    }
    if other != set {
        lemma_other_mapping(c.index, set, other);
    }
}

proof fn lemma_other_mapping(
    s: Seq<(Seq<PublicKey>, MessageId)>,
    set: Seq<PublicKey>,
    other: Seq<PublicKey>,
)
    requires
        other != set,
    ensures
        first(s.filter(set_is_not(set)), set_is(other)) == first(s, set_is(other)),
    decreases s.len(),
{
    reveal(Seq::filter);
    if s.len() > 0 {
        let d = s.drop_last();
        lemma_other_mapping(d, set, other);
        if s.last().0 != set {
            assert(d.filter(set_is_not(set)).push(s.last()).drop_last() =~= d.filter(
                set_is_not(set),
            ));
        }
    }
}

// ---- envelopes ----

pub open spec fn other_envelope(id: MessageId) -> spec_fn(EnvelopeView) -> bool {
    |e: EnvelopeView| e.id != id
}

pub open spec fn other_conversation(id: MessageId) -> spec_fn(ConversationView) -> bool {
    |x: ConversationView| x.id != id
}

pub open spec fn by_conversation() -> spec_fn(ConversationView, ConversationView) -> bool {
    |a: ConversationView, b: ConversationView| MessageId::below(a.id, b.id)
}

/// A conversation with a message stored in it. The first store is stamped by
/// our clock, once: a marker that is there stays, whatever it says.
pub open spec fn with_envelope(
    held: Option<ConversationView>,
    conversation: MessageId,
    e: EnvelopeView,
    graph: GraphView,
    now: u64,
) -> ConversationView {
    match held {
        Some(x) => ConversationView {
            id: conversation,
            envelopes: x.envelopes.filter(other_envelope(e.id)).push(e),
            dag: graph.dag,
            fault: graph.fault,
            first_seen_ms: if x.first_seen_ms is None {
                Some(now)
            } else {
                x.first_seen_ms
            },
        },
        None => ConversationView {
            id: conversation,
            envelopes: seq![e],
            dag: graph.dag,
            fault: graph.fault,
            first_seen_ms: Some(now),
        },
    }
}

/// The store with a message in a conversation.
pub open spec fn stored(
    c: ClientView,
    conversation: MessageId,
    e: EnvelopeView,
    graph: GraphView,
    now: u64,
) -> ClientView {
    ClientView {
        conversations: placed(
            c.conversations.filter(other_conversation(conversation)),
            with_envelope(
                first(c.conversations, conversation_is(conversation)),
                conversation,
                e,
                graph,
                now,
            ),
            by_conversation(),
        ),
        ..c
    }
}

/// The conversation a message belongs to: the one it names, or the one it
/// begins.
pub open spec fn thread_of(e: EnvelopeView) -> MessageId {
    match e.conversation {
        Some(id) => id,
        None => e.id,
    }
}

/// A message remembered: stored, and its participant set mapped to its
/// conversation.
pub open spec fn remembered(c: ClientView, e: EnvelopeView, graph: GraphView, now: u64) -> ClientView {
    with_mapping(stored(c, thread_of(e), e, graph, now), participant_set(e), thread_of(e))
}

fn place_conversation(list: &mut Vec<Conversation>, x: Conversation)
    ensures
        final(list).deep_view() == placed(old(list).deep_view(), x.deep_view(), by_conversation()),
{
    let ghost s = list.deep_view();
    let ghost o = x.deep_view();
    let mut k: usize = list.len();
    while k > 0 && x.id.before(&list[k - 1].id)
        invariant
            k <= list.len(),
            s == list.deep_view(),
            o == x.deep_view(),
            forall|j: int| k <= j < s.len() ==> by_conversation()(o, #[trigger] s[j]),
        decreases k,
    {
        k -= 1;
    }
    let ghost held = list@;
    list.insert(k, x);
    proof {
        assert(list@ == held.insert(k as int, x));
        assert(list.deep_view() =~= s.insert(k as int, o));
        if k > 0 {
            assert(s[k - 1] == held[k - 1].deep_view());
        }
        crate::order::lemma_placed_at(s, o, by_conversation(), k as int);
    }
}

fn others_in(envelopes: &Vec<Envelope>, id: &MessageId) -> (r: Vec<Envelope>)
    ensures
        r.deep_view() == envelopes.deep_view().filter(other_envelope(*id)),
{
    let ghost s = envelopes.deep_view();
    let ghost p = other_envelope(*id);
    let mut out: Vec<Envelope> = Vec::new();
    proof {
        reveal(Seq::filter);
        assert(out.deep_view() =~= s.take(0).filter(p));
    }
    for i in 0..envelopes.len()
        invariant
            s == envelopes.deep_view(),
            p == other_envelope(*id),
            out.deep_view() == s.take(i as int).filter(p),
    {
        proof {
            lemma_filter_step(s, p, i as int);
        }
        if !(envelopes[i].id == *id) {
            let ghost before = out.deep_view();
            out.push(envelopes[i].duplicate());
            assert(out.deep_view() =~= before.push(s[i as int]));
        }
    }
    proof {
        lemma_take_all(s);
    }
    out
}

impl Client {
    fn other_conversations(&self, id: &MessageId) -> (r: Vec<Conversation>)
        ensures
            r.deep_view() == self.deep_view().conversations.filter(other_conversation(*id)),
    {
        let ghost s = self.conversations.deep_view();
        let ghost p = other_conversation(*id);
        let mut out: Vec<Conversation> = Vec::new();
        proof {
            reveal(Seq::filter);
            assert(out.deep_view() =~= s.take(0).filter(p));
        }
        for i in 0..self.conversations.len()
            invariant
                s == self.conversations.deep_view(),
                p == other_conversation(*id),
                out.deep_view() == s.take(i as int).filter(p),
        {
            proof {
                lemma_filter_step(s, p, i as int);
            }
            if !(self.conversations[i].id == *id) {
                let ghost before = out.deep_view();
                out.push(self.conversations[i].duplicate());
                assert(out.deep_view() =~= before.push(s[i as int]));
            }
        }
        proof {
            lemma_take_all(s);
        }
        out
    }

    /// Stores a message under its conversation, with the graph the
    /// conversation then has. Storing it again changes nothing but its place.
    pub fn store_envelope(&mut self, conversation: MessageId, envelope: Envelope, graph: Graph, now: u64)
        ensures
            final(self).deep_view() == stored(
                old(self).deep_view(),
                conversation,
                envelope.deep_view(),
                graph.deep_view(),
                now,
            ),
    {
        let ghost e = envelope.deep_view();
        let x: Conversation = match find_conversation(&self.conversations, &conversation) {
            Some(i) => {
                let held: &Conversation = &self.conversations[i];
                let mut envelopes: Vec<Envelope> = others_in(&held.envelopes, &envelope.id);
                let ghost before = envelopes.deep_view();
                envelopes.push(envelope);
                assert(envelopes.deep_view() =~= before.push(e));
                let first_seen_ms: Option<u64> = match held.first_seen_ms {
                    Some(at) => Some(at),
                    None => Some(now),
                };
                Conversation {
                    id: conversation,
                    envelopes,
                    dag: graph.dag,
                    fault: graph.fault,
                    first_seen_ms,
                }
            },
            None => {
                let mut envelopes: Vec<Envelope> = Vec::new();
                envelopes.push(envelope);
                assert(envelopes.deep_view() =~= seq![e]);
                Conversation {
                    id: conversation,
                    envelopes,
                    dag: graph.dag,
                    fault: graph.fault,
                    first_seen_ms: Some(now),
                }
            },
        };
        let mut list: Vec<Conversation> = self.other_conversations(&conversation);
        place_conversation(&mut list, x);
        self.conversations = list;
    }

    /// Persists a verified message and its participant mapping, so that a
    /// later send to the same people threads into its conversation.
    pub fn remember(&mut self, envelope: Envelope, graph: Graph, now: u64)
        ensures
            final(self).deep_view() == remembered(
                old(self).deep_view(),
                envelope.deep_view(),
                graph.deep_view(),
                now,
            ),
    {
        let conversation: MessageId = match envelope.conversation {
            Some(id) => id,
            None => envelope.id,
        };
        let everyone: Vec<PublicKey> = participants_of(&envelope);
        let set: Vec<PublicKey> = set_of(&everyone);
        proof {
            lemma_list_is::<PublicKey>(set.deep_view(), participants(envelope.deep_view()).to_set());
        }
        self.store_envelope(conversation, envelope, graph, now);
        self.record_conversation(set, conversation);
    }
}

/// A remembered message is found again, and a send to its participants
/// threads into its conversation.
pub proof fn law_remembered_is_found(c: ClientView, e: EnvelopeView, graph: GraphView, now: u64)
    ensures
        crate::outbox::stored_envelope(remembered(c, e, graph, now), thread_of(e), e.id) == Some(e),
        mapped(remembered(c, e, graph, now), participant_set(e)) == Some(thread_of(e)),
{
    let id = thread_of(e);
    let held = first(c.conversations, conversation_is(id));
    let x = with_envelope(held, id, e, graph, now);
    let others = c.conversations.filter(other_conversation(id));
    lemma_filter(c.conversations, other_conversation(id));
    lemma_only_one(others, x, id);
    law_latest_mapping_wins(stored(c, id, e, graph, now), participant_set(e), id, Seq::empty());
    let p = crate::outbox::envelope_is(e.id);
    match held {
        Some(h) => {
            let rest = h.envelopes.filter(other_envelope(e.id));
            lemma_filter(h.envelopes, other_envelope(e.id));
            lemma_first(rest, p);
            match first(rest, p) {
                Some(v) => {
                    let k = choose|k: int| 0 <= k < rest.len() && rest[k] == v;
                    assert(other_envelope(e.id)(rest[k]));
                },
                None => {},
            }
            assert(rest.push(e).drop_last() =~= rest);
            assert(first(rest.push(e), p) == Some(e));
        },
        None => {
            assert(seq![e].drop_last() =~= Seq::<EnvelopeView>::empty());
            assert(first(seq![e].drop_last(), p) is None);
            assert(first(seq![e], p) == Some(e));
        },
    }
}

/// Storing a message leaves every other message where it was, and every other
/// conversation as it was.
pub proof fn law_storing_keeps_the_rest(
    c: ClientView,
    conversation: MessageId,
    e: EnvelopeView,
    graph: GraphView,
    now: u64,
    other: MessageId,
    m: MessageId,
)
    requires
        other != conversation || m != e.id,
    ensures
        crate::outbox::stored_envelope(stored(c, conversation, e, graph, now), other, m)
            == crate::outbox::stored_envelope(c, other, m),
        other != conversation ==> first(
            stored(c, conversation, e, graph, now).conversations,
            conversation_is(other),
        ) == first(c.conversations, conversation_is(other)),
{
    let held = first(c.conversations, conversation_is(conversation));
    let x = with_envelope(held, conversation, e, graph, now);
    let q = other_conversation(conversation);
    let others = c.conversations.filter(q);
    lemma_filter(c.conversations, q);
    if other != conversation {
        lemma_first_filter(c.conversations, q, conversation_is(other));
        lemma_first_placed(others, x, by_conversation(), conversation_is(other));
    } else {
        lemma_only_one(others, x, conversation);
        let p = crate::outbox::envelope_is(m);
        match held {
            Some(h) => {
                let rest = h.envelopes.filter(other_envelope(e.id));
                lemma_first_filter(h.envelopes, other_envelope(e.id), p);
                assert(rest.push(e).drop_last() =~= rest);
                assert(first(rest.push(e), p) == first(rest, p));
            },
            None => {
                assert(seq![e].drop_last() =~= Seq::<EnvelopeView>::empty());
                assert(first(seq![e].drop_last(), p) is None);
                assert(first(seq![e], p) is None);
            },
        }
    }
}

/// Storing a message gives its conversation the graph handed in and holds the
/// message in it; the conversation's first arrival is stamped once and never
/// again. Nothing but the store of messages changes.
pub proof fn law_stored_conversation(
    c: ClientView,
    conversation: MessageId,
    e: EnvelopeView,
    graph: GraphView,
    now: u64,
)
    ensures
        stored(c, conversation, e, graph, now) == (ClientView {
            conversations: stored(c, conversation, e, graph, now).conversations,
            ..c
        }),
        match first(
            stored(c, conversation, e, graph, now).conversations,
            conversation_is(conversation),
        ) {
            Some(x) => {
                &&& x.id == conversation
                &&& x.dag == graph.dag
                &&& x.fault == graph.fault
                &&& x.envelopes.contains(e)
                &&& forall|f: EnvelopeView| #[trigger]
                    x.envelopes.contains(f) && f.id == e.id ==> f == e
                &&& x.first_seen_ms == match first(
                    c.conversations,
                    conversation_is(conversation),
                ) {
                    Some(h) => match h.first_seen_ms {
                        Some(at) => Some(at),
                        None => Some(now),
                    },
                    None => Some(now),
                }
            },
            None => false,
        },
{
    let held = first(c.conversations, conversation_is(conversation));
    let x = with_envelope(held, conversation, e, graph, now);
    let q = other_conversation(conversation);
    let others = c.conversations.filter(q);
    lemma_filter(c.conversations, q);
    lemma_only_one(others, x, conversation);
    assert(x.envelopes[x.envelopes.len() - 1] == e);
    assert forall|f: EnvelopeView| #[trigger] x.envelopes.contains(f) && f.id == e.id implies f == e by {
        match held {
            Some(h) => {
                let rest = h.envelopes.filter(other_envelope(e.id));
                lemma_filter(h.envelopes, other_envelope(e.id));
                let k = choose|k: int| 0 <= k < x.envelopes.len() && x.envelopes[k] == f;
                if k < rest.len() {
                    assert(other_envelope(e.id)(rest[k]));
                }
            },
            None => {},
        }
    }
}

/// Remembering a message leaves every other message as it was, and changes
/// nothing but the store and the participant index.
pub proof fn law_remembering_keeps_the_rest(
    c: ClientView,
    e: EnvelopeView,
    graph: GraphView,
    now: u64,
    other: MessageId,
    m: MessageId,
)
    requires
        other != thread_of(e) || m != e.id,
    ensures
        crate::outbox::stored_envelope(remembered(c, e, graph, now), other, m)
            == crate::outbox::stored_envelope(c, other, m),
        remembered(c, e, graph, now) == (ClientView {
            conversations: remembered(c, e, graph, now).conversations,
            index: remembered(c, e, graph, now).index,
            ..c
        }),
{
    law_storing_keeps_the_rest(c, thread_of(e), e, graph, now, other, m);
}

/// A message that names a conversation is kept in it, one that names none
/// begins its own; and it is mapped under everyone it is from or for.
pub proof fn law_message_keeps_its_place(e: EnvelopeView, key: PublicKey)
    ensures
        e.conversation is Some ==> thread_of(e) == e.conversation->0,
        e.conversation is None ==> thread_of(e) == e.id,
        participant_set(e).contains(key) <==> key == e.sender || e.recipients.contains(key),
{
    let set = participants(e).to_set();
    vstd::seq_lib::seq_to_set_is_finite(participants(e));
    crate::order::lemma_list_exists::<PublicKey>(set);
    assert(crate::order::lists::<PublicKey>(participant_set(e), set));
    assert(participant_set(e).to_set().contains(key) == set.contains(key));
    let p = e.recipients.push(e.sender);
    if e.recipients.contains(key) {
        let k = choose|k: int| 0 <= k < e.recipients.len() && e.recipients[k] == key;
        assert(p[k] == key);
    }
    assert(p[p.len() - 1] == e.sender);
    if participants(e).contains(key) {
        let k = choose|k: int| 0 <= k < participants(e).len() && participants(e)[k] == key;
        if k < e.recipients.len() {
            assert(e.recipients[k] == key);
        }
    }
}

/// Placed among others, a conversation is the one found under its id.
proof fn lemma_only_one(others: Seq<ConversationView>, x: ConversationView, id: MessageId)
    requires
        x.id == id,
        forall|i: int| 0 <= i < others.len() ==> other_conversation(id)(#[trigger] others[i]),
    ensures
        first(placed(others, x, by_conversation()), conversation_is(id)) == Some(x),
    decreases others.len(),
{
    let p = conversation_is(id);
    let after = placed(others, x, by_conversation());
    if others.len() > 0 && by_conversation()(x, others.last()) {
        let d = others.drop_last();
        assert forall|i: int| 0 <= i < d.len() implies other_conversation(id)(#[trigger] d[i]) by {
            assert(d[i] == others[i]);
        }
        lemma_only_one(d, x, id);
        assert(after.drop_last() =~= placed(d, x, by_conversation()));
    } else {
        lemma_first(others, p);
        match first(others, p) {
            Some(v) => {
                let k = choose|k: int| 0 <= k < others.len() && others[k] == v;
                assert(other_conversation(id)(others[k]));
            },
            None => {},
        }
        assert(after.drop_last() =~= others);
    }
}

// ---- confirmations ----

pub open spec fn other_acks(message: MessageId) -> spec_fn((MessageId, Seq<PublicKey>)) -> bool {
    |e: (MessageId, Seq<PublicKey>)| e.0 != message
}

/// The confirmations with a message's grown by some keys: a union, never a
/// replacement; nothing where there is nothing to add.
pub open spec fn acked(c: ClientView, message: MessageId, keys: Seq<PublicKey>) -> ClientView {
    if keys.len() == 0 {
        c
    } else {
        ClientView {
            acks: c.acks.filter(other_acks(message)).push(
                (
                    message,
                    ascending_list::<PublicKey>(confirmed(c, message).to_set() + keys.to_set()),
                ),
            ),
            ..c
        }
    }
}

impl Client {
    /// Records the devices that confirmed a durable store of a message.
    pub fn add_acks(&mut self, message: MessageId, keys: &Vec<PublicKey>)
        ensures
            final(self).deep_view() == acked(old(self).deep_view(), message, keys.deep_view()),
    {
        if keys.len() == 0 {
            return;
        }
        let ghost c = self.deep_view();
        let held: Vec<PublicKey> = self.acks_of(&message);
        let mut all: Vec<PublicKey> = set_of(&held);
        let ghost base = confirmed(c, message).to_set();
        let ghost t = keys.deep_view();
        assert(all.deep_view().to_set() =~= base + t.take(0).to_set());
        for i in 0..keys.len()
            invariant
                t == keys.deep_view(),
                ascending::<PublicKey>(all.deep_view()),
                all.deep_view().to_set() == base + t.take(i as int).to_set(),
        {
            set_insert(&mut all, keys[i]);
            proof {
                crate::order::lemma_take_set(t, i as int);
                assert(all.deep_view().to_set() =~= base + t.take(i + 1).to_set());
            }
        }
        proof {
            lemma_take_all(t);
            lemma_list_is::<PublicKey>(all.deep_view(), base + t.to_set());
        }
        let ghost s = self.acks.deep_view();
        let ghost p = other_acks(message);
        let mut out: Vec<(MessageId, Vec<PublicKey>)> = Vec::new();
        proof {
            reveal(Seq::filter);
            assert(out.deep_view() =~= s.take(0).filter(p));
        }
        for i in 0..self.acks.len()
            invariant
                s == self.acks.deep_view(),
                p == other_acks(message),
                out.deep_view() == s.take(i as int).filter(p),
        {
            proof {
                lemma_filter_step(s, p, i as int);
            }
            if !(self.acks[i].0 == message) {
                let ghost before = out.deep_view();
                out.push((self.acks[i].0, copies(&self.acks[i].1)));
                assert(out.deep_view() =~= before.push(s[i as int]));
            }
        }
        proof {
            lemma_take_all(s);
        }
        let ghost before = out.deep_view();
        let ghost list = all.deep_view();
        out.push((message, all));
        assert(out.deep_view() =~= before.push((message, list)));
        self.acks = out;
    }
}

/// A confirmation once recorded stays: later ones only add to it.
pub proof fn law_acks_only_grow(c: ClientView, message: MessageId, keys: Seq<PublicKey>, k: PublicKey)
    ensures
        confirmed(acked(c, message, keys), message).contains(k) <==> (confirmed(
            c,
            message,
        ).contains(k) || keys.contains(k)),
{
    if keys.len() > 0 {
        let set = confirmed(c, message).to_set() + keys.to_set();
        let list = ascending_list::<PublicKey>(set);
        vstd::seq_lib::seq_to_set_is_finite(confirmed(c, message));
        vstd::seq_lib::seq_to_set_is_finite(keys);
        crate::order::lemma_list_exists::<PublicKey>(set);
        assert(crate::order::lists::<PublicKey>(list, set));
        let rest = c.acks.filter(other_acks(message));
        lemma_filter(c.acks, other_acks(message));
        lemma_first(rest, acks_for(message));
        match first(rest, acks_for(message)) {
            Some(v) => {
                let j = choose|j: int| 0 <= j < rest.len() && rest[j] == v;
                assert(other_acks(message)(rest[j]));
            },
            None => {},
        }
        assert(rest.push((message, list)).drop_last() =~= rest);
        assert(list.to_set().contains(k) == set.contains(k));
    }
}

} // verus!
