//! The conversation read-side: membership as a lens on the graph's heads,
//! conversation listings with the contributing-contact verdict, rendered
//! history with confirmations and membership deltas, and the inbox triage.
use vstd::prelude::*;

use crate::client::{device_with, entry_with, find_filed, find_listing, own, Client, ClientView, OutboxEntry};
use crate::error::{Error, ErrorView};
use crate::hex;
use crate::hex::hex_text;
use crate::ids::{BlobHash, MessageId, PublicKey};
use crate::names::{short_form, short_hex};
use crate::order::{ascending, ascending_list, copies, holds, in_order, law_sorted_in_order, law_sorted_permutes, lemma_list_exists, lemma_list_is, lemma_sorted_contains, lists, set_difference, set_insert, set_of, sort_stably, sorted, weak_order, Duplicate};
use crate::outbox::{confirmed, envelope_is, find_conversation, find_envelope_in, lemma_some_push, of_message, conversation_is};
use crate::record::claimed_name;
use crate::relays::oldest;
use crate::seqs::{first, gathered, lemma_filter, lemma_filter_map_step, lemma_filter_step, lemma_first, lemma_gathered_step, lemma_take_all, lemma_take_step, some};
use crate::text::concat;

verus! {

/// What the client reads of a stored envelope: the signed core, and what only
/// cryptography can tell of it.
#[derive(Debug)]
pub struct Envelope {
    pub id: MessageId,
    /// The conversation the core names; `None` for a genesis.
    pub conversation: Option<MessageId>,
    pub parents: Vec<MessageId>,
    pub recipients: Vec<PublicKey>,
    pub sender: PublicKey,
    pub seq: u64,
    pub logical: u64,
    /// The sender's wall-clock hint: display only.
    pub timestamp_ms: u64,
    pub blob_refs: Vec<BlobHash>,
    /// Whose key wraps the envelope carries.
    pub wraps: Vec<PublicKey>,
    /// The format version is one this client reads.
    pub supported: bool,
    /// Id and sender signature verify.
    pub verified: bool,
    /// The opened body, or why this device cannot open it.
    pub body: Result<Vec<u8>, String>,
}

pub struct EnvelopeView {
    pub id: MessageId,
    pub conversation: Option<MessageId>,
    pub parents: Seq<MessageId>,
    pub recipients: Seq<PublicKey>,
    pub sender: PublicKey,
    pub seq: u64,
    pub logical: u64,
    pub timestamp_ms: u64,
    pub blob_refs: Seq<BlobHash>,
    pub wraps: Seq<PublicKey>,
    pub supported: bool,
    pub verified: bool,
    pub body: Result<Seq<u8>, Seq<char>>,
}

/// A body's model: its bytes, or why it does not open.
pub open spec fn body_view(body: Result<Vec<u8>, String>) -> Result<Seq<u8>, Seq<char>> {
    match body {
        Ok(bytes) => Ok(bytes@),
        Err(why) => Err(why@),
    }
}

fn copy_body(body: &Result<Vec<u8>, String>) -> (r: Result<Vec<u8>, String>)
    ensures
        body_view(r) == body_view(*body),
{
    match body {
        Ok(bytes) => {
            let copy: Vec<u8> = copies(bytes);
            assert(copy.deep_view() =~= copy@);
            assert(bytes.deep_view() =~= bytes@);
            Ok(copy)
        },
        Err(why) => Err(why.clone()),
    }
}

impl DeepView for Envelope {
    type V = EnvelopeView;

    open spec fn deep_view(&self) -> EnvelopeView {
        EnvelopeView {
            id: self.id,
            conversation: self.conversation,
            parents: self.parents.deep_view(),
            recipients: self.recipients.deep_view(),
            sender: self.sender,
            seq: self.seq,
            logical: self.logical,
            timestamp_ms: self.timestamp_ms,
            blob_refs: self.blob_refs.deep_view(),
            wraps: self.wraps.deep_view(),
            supported: self.supported,
            verified: self.verified,
            body: body_view(self.body),
        }
    }
}

/// What the message graph of a conversation says, where it can be built.
#[derive(Debug)]
pub struct Dag {
    pub heads: Vec<MessageId>,
    /// The linearized order.
    pub order: Vec<MessageId>,
    /// Messages that crossed in flight with the one before them.
    pub crossed: Vec<MessageId>,
    /// This device's next sequence number.
    pub next_seq: u64,
    pub next_logical: u64,
}

pub struct DagView {
    pub heads: Seq<MessageId>,
    pub order: Seq<MessageId>,
    pub crossed: Seq<MessageId>,
    pub next_seq: u64,
    pub next_logical: u64,
}

impl DeepView for Dag {
    type V = DagView;

    open spec fn deep_view(&self) -> DagView {
        DagView {
            heads: self.heads.deep_view(),
            order: self.order.deep_view(),
            crossed: self.crossed.deep_view(),
            next_seq: self.next_seq,
            next_logical: self.next_logical,
        }
    }
}

/// A stored conversation.
#[derive(Debug)]
pub struct Conversation {
    pub id: MessageId,
    pub envelopes: Vec<Envelope>,
    /// The graph over the envelopes; `None` where it cannot be built.
    pub dag: Option<Dag>,
    /// Why the graph cannot be built over the stored genesis.
    pub fault: String,
    /// What the marker of this device's first store here says; `None` where
    /// there is no marker yet. One that cannot be read says 0.
    pub first_seen_ms: Option<u64>,
}

pub struct ConversationView {
    pub id: MessageId,
    pub envelopes: Seq<EnvelopeView>,
    pub dag: Option<DagView>,
    pub fault: Seq<char>,
    pub first_seen_ms: Option<u64>,
}

impl DeepView for Conversation {
    type V = ConversationView;

    open spec fn deep_view(&self) -> ConversationView {
        ConversationView {
            id: self.id,
            envelopes: self.envelopes.deep_view(),
            dag: self.dag.deep_view(),
            fault: self.fault@,
            first_seen_ms: self.first_seen_ms,
        }
    }
}

impl Duplicate for u8 {
    fn duplicate(&self) -> (r: Self) {
        *self
    }
}

impl<T: Duplicate> Duplicate for Vec<T> {
    fn duplicate(&self) -> (r: Self) {
        copies(self)
    }
}

impl Duplicate for Envelope {
    fn duplicate(&self) -> (r: Self) {
        Envelope {
            id: self.id,
            conversation: self.conversation,
            parents: copies(&self.parents),
            recipients: copies(&self.recipients),
            sender: self.sender,
            seq: self.seq,
            logical: self.logical,
            timestamp_ms: self.timestamp_ms,
            blob_refs: copies(&self.blob_refs),
            wraps: copies(&self.wraps),
            supported: self.supported,
            verified: self.verified,
            body: copy_body(&self.body),
        }
    }
}

// ---- the graph ----

/// A genesis names no conversation.
pub open spec fn is_genesis() -> spec_fn(EnvelopeView) -> bool {
    |e: EnvelopeView| e.conversation is None
}

/// "conversation ... has no genesis on disk"
pub open spec fn no_genesis(conversation: MessageId) -> ErrorView {
    ErrorView::Conversation(
        "conversation "@ + hex_text(conversation.0@) + " has no genesis on disk"@,
    )
}

/// The graph of a stored conversation, or why there is none.
pub open spec fn dag_of(x: ConversationView) -> Result<DagView, ErrorView> {
    if !some(x.envelopes, is_genesis()) {
        Err(no_genesis(x.id))
    } else {
        match x.dag {
            Some(d) => Ok(d),
            None => Err(ErrorView::Conversation("stored genesis invalid: "@ + x.fault)),
        }
    }
}

/// The place of the first genesis; the number of envelopes where there is
/// none.
pub open spec fn genesis_at(s: Seq<EnvelopeView>) -> int
    decreases s.len(),
{
    if s.len() == 0 {
        0
    } else if genesis_at(s.drop_last()) < s.len() - 1 || is_genesis()(s.last()) {
        genesis_at(s.drop_last())
    } else {
        s.len() as int
    }
}

/// The order in which envelopes enter the graph: the genesis, then the rest,
/// the last one in the place the genesis left.
pub open spec fn entry_order(n: int, genesis: int) -> Seq<usize> {
    seq![genesis as usize] + Seq::new(
        (n - 1) as nat,
        |i: int|
            if i == genesis {
                (n - 1) as usize
            } else {
                i as usize
            },
    )
}

fn missing_genesis(conversation: MessageId) -> (r: Error)
    ensures
        r.deep_view() == no_genesis(conversation),
{
    let id: String = hex::encode(conversation.0.as_slice());
    Error::Conversation(crate::error::around("conversation ", id.as_str(), " has no genesis on disk"))
}

fn find_genesis(envelopes: &Vec<Envelope>) -> (r: Option<usize>)
    ensures
        match r {
            Some(i) => i < envelopes.len() && i == genesis_at(envelopes.deep_view()) && some(
                envelopes.deep_view(),
                is_genesis(),
            ),
            None => !some(envelopes.deep_view(), is_genesis()),
        },
{
    let ghost s = envelopes.deep_view();
    let mut i: usize = 0;
    while i < envelopes.len()
        invariant
            i <= envelopes.len(),
            s == envelopes.deep_view(),
            genesis_at(s.take(i as int)) == i,
            forall|k: int| 0 <= k < i ==> !is_genesis()(#[trigger] s[k]),
        decreases envelopes.len() - i,
    {
        proof {
            lemma_take_step(s, i as int);
        }
        if envelopes[i].conversation.is_none() {
            proof {
                assert(is_genesis()(s[i as int]));
                lemma_genesis_found(s, i + 1);
            }
            return Some(i);
        }
        i += 1;
    }
    None
}

proof fn lemma_genesis_found(s: Seq<EnvelopeView>, n: int)
    requires
        0 < n <= s.len(),
        genesis_at(s.take(n)) < n,
    ensures
        genesis_at(s) == genesis_at(s.take(n)),
    decreases s.len() - n,
{
    if n < s.len() {
        lemma_take_step(s, n);
        lemma_genesis_found(s, n + 1);
    } else {
        lemma_take_all(s);
    }
}

/// The order in which stored envelopes are to enter the graph. Only a missing
/// genesis is unrecoverable: there is no root to build on.
pub fn build_dag(envelopes: &Vec<Envelope>, conversation: MessageId) -> (r: Result<
    Vec<usize>,
    Error,
>)
    ensures
        match r {
            Ok(order) => some(envelopes.deep_view(), is_genesis()) && order@ == entry_order(
                envelopes.len() as int,
                genesis_at(envelopes.deep_view()),
            ),
            Err(e) => !some(envelopes.deep_view(), is_genesis()) && e.deep_view() == no_genesis(
                conversation,
            ),
        },
{
    let at: usize = match find_genesis(envelopes) {
        Some(i) => i,
        None => {
            return Err(missing_genesis(conversation));
        },
    };
    let mut order: Vec<usize> = Vec::new();
    order.push(at);
    let n: usize = envelopes.len();
    let mut i: usize = 0;
    let ghost whole = entry_order(n as int, at as int);
    assert(order@ =~= whole.take(1));
    while i < n - 1
        invariant
            i <= n - 1,
            at < n,
            whole == entry_order(n as int, at as int),
            order@ == whole.take(i + 1),
        decreases n - i,
    {
        let next: usize = if i == at {
            n - 1
        } else {
            i
        };
        order.push(next);
        assert(whole[i + 1] == next);
        assert(order@ =~= whole.take(i + 2));
        i += 1;
    }
    assert(whole.take(n as int) =~= whole);
    Ok(order)
}

impl Conversation {
    /// The graph over the stored envelopes.
    pub fn graph(&self) -> (r: Result<&Dag, Error>)
        ensures
            match dag_of(self.deep_view()) {
                Ok(d) => r is Ok && r->Ok_0.deep_view() == d,
                Err(e) => r is Err && r->Err_0.deep_view() == e,
            },
    {
        if find_genesis(&self.envelopes).is_none() {
            return Err(missing_genesis(self.id));
        }
        match &self.dag {
            Some(d) => Ok(d),
            None => Err(Error::Conversation(concat("stored genesis invalid: ", self.fault.as_str()))),
        }
    }
}

// ---- membership ----

/// One message's participant set: recipients and sender.
pub open spec fn participants(e: EnvelopeView) -> Seq<PublicKey> {
    e.recipients.push(e.sender)
}

pub open spec fn participants_fn() -> spec_fn(EnvelopeView) -> Seq<PublicKey> {
    |e: EnvelopeView| participants(e)
}

pub fn participants_of(envelope: &Envelope) -> (r: Vec<PublicKey>)
    ensures
        r.deep_view() == participants(envelope.deep_view()),
{
    let mut out: Vec<PublicKey> = copies(&envelope.recipients);
    let ghost before = out.deep_view();
    out.push(envelope.sender);
    assert(out.deep_view() =~= before.push(envelope.sender));
    out
}

/// Everyone any of the messages addresses or is from.
pub open spec fn everyone(s: Seq<EnvelopeView>) -> Set<PublicKey> {
    gathered(s, participants_fn()).to_set()
}

/// Adds a message's participants to a set.
fn add_participants(keys: &mut Vec<PublicKey>, envelope: &Envelope)
    requires
        ascending::<PublicKey>(old(keys).deep_view()),
    ensures
        ascending::<PublicKey>(final(keys).deep_view()),
        final(keys).deep_view().to_set() == old(keys).deep_view().to_set() + participants(
            envelope.deep_view(),
        ).to_set(),
{
    let more: Vec<PublicKey> = participants_of(envelope);
    let ghost s = more.deep_view();
    let ghost base = keys.deep_view().to_set();
    assert(keys.deep_view().to_set() =~= base + s.take(0).to_set());
    for i in 0..more.len()
        invariant
            s == more.deep_view(),
            ascending::<PublicKey>(keys.deep_view()),
            keys.deep_view().to_set() == base + s.take(i as int).to_set(),
    {
        set_insert(keys, more[i]);
        proof {
            crate::order::lemma_take_set(s, i as int);
            assert(keys.deep_view().to_set() =~= base + s.take(i + 1).to_set());
        }
    }
    proof {
        lemma_take_all(s);
    }
}

proof fn lemma_everyone_push(s: Seq<EnvelopeView>, e: EnvelopeView)
    ensures
        everyone(s.push(e)) == everyone(s) + participants(e).to_set(),
{
    assert(s.push(e).drop_last() =~= s);
    vstd::seq_lib::seq_to_set_distributes_over_add(gathered(s, participants_fn()), participants(e));
    assert(everyone(s.push(e)) =~= everyone(s) + participants(e).to_set());
}

/// The messages that carry the current membership: the heads, or every one
/// where the graph cannot be built.
pub open spec fn carries(x: ConversationView) -> spec_fn(EnvelopeView) -> bool {
    |e: EnvelopeView|
        match dag_of(x) {
            Ok(d) => d.heads.contains(e.id),
            Err(_) => true,
        }
}

/// A conversation's current membership: the union over the heads of each
/// head's recipients and sender.
pub open spec fn members(x: ConversationView) -> Set<PublicKey> {
    everyone(x.envelopes.filter(carries(x)))
}

impl Conversation {
    /// The current membership, ascending.
    pub fn membership_of(&self) -> (r: Vec<PublicKey>)
        ensures
            lists::<PublicKey>(r.deep_view(), members(self.deep_view())),
    {
        let ghost x = self.deep_view();
        let ghost s = x.envelopes;
        let ghost p = carries(x);
        let mut keys: Vec<PublicKey> = Vec::new();
        proof {
            reveal(Seq::filter);
            assert(keys.deep_view() =~= Seq::<PublicKey>::empty());
            assert(s.take(0).filter(p) =~= Seq::<EnvelopeView>::empty());
            assert(keys.deep_view().to_set() =~= everyone(s.take(0).filter(p)));
        }
        let heads: Option<&Dag> = match self.graph() {
            Ok(d) => Some(d),
            Err(_) => None,
        };
        for i in 0..self.envelopes.len()
            invariant
                x == self.deep_view(),
                s == x.envelopes,
                p == carries(x),
                match heads {
                    Some(d) => dag_of(x) == Ok::<DagView, ErrorView>(d.deep_view()),
                    None => dag_of(x) is Err,
                },
                ascending::<PublicKey>(keys.deep_view()),
                keys.deep_view().to_set() == everyone(s.take(i as int).filter(p)),
        {
            proof {
                lemma_filter_step(s, p, i as int);
            }
            let counts: bool = match heads {
                Some(d) => holds(&d.heads, &self.envelopes[i].id),
                None => true,
            };
            if counts {
                add_participants(&mut keys, &self.envelopes[i]);
                proof {
                    lemma_everyone_push(s.take(i as int).filter(p), s[i as int]);
                }
            }
        }
        proof {
            lemma_take_all(s);
        }
        keys
    }
}

/// The stored messages a message names as parents.
pub open spec fn held_parents(e: EnvelopeView, all: Seq<EnvelopeView>) -> Seq<EnvelopeView> {
    e.parents.filter_map(|p: MessageId| first(all, envelope_is(p)))
}

/// Who joined and who left with a message, against its stored parents: nobody
/// for the genesis and where no parent is held.
pub open spec fn delta(e: EnvelopeView, all: Seq<EnvelopeView>) -> (
    Seq<PublicKey>,
    Seq<PublicKey>,
) {
    let parents = held_parents(e, all);
    let now = participants(e).to_set();
    let before = everyone(parents);
    if parents.len() == 0 {
        (Seq::empty(), Seq::empty())
    } else {
        (
            ascending_list::<PublicKey>(now.difference(before)),
            ascending_list::<PublicKey>(before.difference(now)),
        )
    }
}

/// A message's membership delta against its parents: `(joined, left)`.
pub fn membership_delta(envelope: &Envelope, all: &Vec<Envelope>) -> (r: (
    Vec<PublicKey>,
    Vec<PublicKey>,
))
    ensures
        r.deep_view() == delta(envelope.deep_view(), all.deep_view()),
{
    let ghost e = envelope.deep_view();
    let ghost t = all.deep_view();
    let ghost f = |p: MessageId| first(t, envelope_is(p));
    let ghost s = e.parents;
    let mut before: Vec<PublicKey> = Vec::new();
    let mut found: usize = 0;
    proof {
        assert(before.deep_view() =~= Seq::<PublicKey>::empty());
        assert(s.take(0).filter_map(f) =~= Seq::<EnvelopeView>::empty());
        assert(before.deep_view().to_set() =~= everyone(s.take(0).filter_map(f)));
    }
    for i in 0..envelope.parents.len()
        invariant
            e == envelope.deep_view(),
            t == all.deep_view(),
            f == (|p: MessageId| first(t, envelope_is(p))),
            s == e.parents,
            found == s.take(i as int).filter_map(f).len(),
            found <= i,
            ascending::<PublicKey>(before.deep_view()),
            before.deep_view().to_set() == everyone(s.take(i as int).filter_map(f)),
    {
        proof {
            lemma_filter_map_step(s, f, i as int);
        }
        match find_envelope_in(all, &envelope.parents[i]) {
            Some(k) => {
                add_participants(&mut before, &all[k]);
                found += 1;
                proof {
                    lemma_everyone_push(s.take(i as int).filter_map(f), t[k as int]);
                }
            },
            None => {},
        }
    }
    proof {
        lemma_take_all(s);
        assert(held_parents(e, t) == s.filter_map(f));
    }
    if found == 0 {
        let joined: Vec<PublicKey> = Vec::new();
        let left: Vec<PublicKey> = Vec::new();
        assert(joined.deep_view() =~= Seq::<PublicKey>::empty());
        assert(left.deep_view() =~= Seq::<PublicKey>::empty());
        return (joined, left);
    }
    let listed: Vec<PublicKey> = participants_of(envelope);
    let now: Vec<PublicKey> = set_of(&listed);
    let joined: Vec<PublicKey> = set_difference(&now, &before);
    let left: Vec<PublicKey> = set_difference(&before, &now);
    proof {
        lemma_list_is::<PublicKey>(
            joined.deep_view(),
            participants(e).to_set().difference(everyone(held_parents(e, t))),
        );
        lemma_list_is::<PublicKey>(
            left.deep_view(),
            everyone(held_parents(e, t)).difference(participants(e).to_set()),
        );
    }
    (joined, left)
}

// ---- the frontier and the children ----

pub open spec fn envelopes_of() -> spec_fn(ConversationView) -> Seq<EnvelopeView> {
    |x: ConversationView| x.envelopes
}

pub open spec fn child_of(parent: MessageId) -> spec_fn(EnvelopeView) -> Option<MessageId> {
    |e: EnvelopeView|
        if e.parents.contains(parent) {
            Some(e.id)
        } else {
            None
        }
}

/// Ids of held messages that name `parent` among their parents.
pub open spec fn children(c: ClientView, parent: MessageId) -> Set<MessageId> {
    gathered(c.conversations, envelopes_of()).filter_map(child_of(parent)).to_set()
}

/// Parents that messages of a conversation name and that are not held.
pub open spec fn frontier(envelopes: Seq<EnvelopeView>) -> Set<MessageId> {
    Set::new(
        |m: MessageId|
            first(envelopes, envelope_is(m)) is None && exists|j: int|
                0 <= j < envelopes.len() && #[trigger] envelopes[j].parents.contains(m),
    )
}

spec fn frontier_upto(envelopes: Seq<EnvelopeView>, n: int) -> Set<MessageId> {
    Set::new(
        |m: MessageId|
            first(envelopes, envelope_is(m)) is None && exists|j: int|
                0 <= j < n && j < envelopes.len() && #[trigger] envelopes[j].parents.contains(m),
    )
}

/// Referenced parents that are not held, ascending: what a backfill fetches
/// next. Empty where the stored slice is closed under ancestors.
pub fn missing_ancestors(envelopes: &Vec<Envelope>) -> (r: Vec<MessageId>)
    ensures
        lists::<MessageId>(r.deep_view(), frontier(envelopes.deep_view())),
{
    let ghost s = envelopes.deep_view();
    let mut out: Vec<MessageId> = Vec::new();
    proof {
        assert(out.deep_view() =~= Seq::<MessageId>::empty());
        assert(out.deep_view().to_set() =~= frontier_upto(s, 0));
    }
    for i in 0..envelopes.len()
        invariant
            s == envelopes.deep_view(),
            ascending::<MessageId>(out.deep_view()),
            out.deep_view().to_set() == frontier_upto(s, i as int),
    {
        let ghost t = s[i as int].parents;
        let ghost base = frontier_upto(s, i as int);
        let ghost absent = Set::new(|m: MessageId| first(s, envelope_is(m)) is None);
        assert(out.deep_view().to_set() =~= base + t.take(0).to_set().intersect(absent));
        let n: usize = envelopes[i].parents.len();
        for j in 0..n
            invariant
                i < envelopes.len(),
                n == envelopes[i as int].parents.len(),
                s == envelopes.deep_view(),
                t == s[i as int].parents,
                absent == Set::new(|m: MessageId| first(s, envelope_is(m)) is None),
                ascending::<MessageId>(out.deep_view()),
                out.deep_view().to_set() == base + t.take(j as int).to_set().intersect(absent),
        {
            let parent: MessageId = envelopes[i].parents[j];
            proof {
                crate::order::lemma_take_set(t, j as int);
                assert(t[j as int] == parent);
            }
            if find_envelope_in(envelopes, &parent).is_none() {
                set_insert(&mut out, parent);
            }
            assert(out.deep_view().to_set() =~= base + t.take(j + 1).to_set().intersect(absent));
        }
        proof {
            lemma_take_all(t);
            let now = frontier_upto(s, i + 1);
            assert forall|m: MessageId| #[trigger] now.contains(m) <==> base.contains(m) || (t.to_set().contains(m) && absent.contains(m)) by {
                if now.contains(m) {
                    let j = choose|j: int|
                        0 <= j < i + 1 && j < s.len() && #[trigger] s[j].parents.contains(m);
                    if j < i {
                        assert(s[j].parents.contains(m));
                    }
                }
                if base.contains(m) {
                    let j = choose|j: int|
                        0 <= j < i && j < s.len() && #[trigger] s[j].parents.contains(m);
                    assert(s[j].parents.contains(m));
                }
                if t.to_set().contains(m) {
                    assert(s[i as int].parents.contains(m));
                }
            }
            assert(out.deep_view().to_set() =~= now);
        }
    }
    proof {
        assert(frontier_upto(s, s.len() as int) =~= frontier(s));
    }
    out
}

/// A filter over two runs is the two filters.
pub proof fn lemma_filter_map_add<A, B>(a: Seq<A>, b: Seq<A>, f: spec_fn(A) -> Option<B>)
    ensures
        (a + b).filter_map(f) == a.filter_map(f) + b.filter_map(f),
    decreases b.len(),
{
    if b.len() == 0 {
        assert(a + b =~= a);
        assert(b.filter_map(f) =~= Seq::<B>::empty());
        assert(a.filter_map(f) + b.filter_map(f) =~= a.filter_map(f));
    } else {
        let d = b.drop_last();
        lemma_filter_map_add(a, d, f);
        let whole = a + b;
        let n = whole.len() - 1;
        lemma_filter_map_step(whole, f, n);
        lemma_take_all(whole);
        assert(whole.take(n) =~= a + d);
        lemma_filter_map_step(b, f, b.len() - 1);
        lemma_take_all(b);
        assert(b.take(b.len() - 1) =~= d);
        assert(whole[n] == b.last());
        assert((a + b).filter_map(f) =~= a.filter_map(f) + b.filter_map(f));
    }
}

impl Client {
    /// Ids of held messages whose parents include `parent`, ascending.
    pub fn successors(&self, parent: MessageId) -> (r: Vec<MessageId>)
        ensures
            lists::<MessageId>(r.deep_view(), children(self.deep_view(), parent)),
    {
        let ghost s = self.conversations.deep_view();
        let ghost g = envelopes_of();
        let ghost f = child_of(parent);
        let mut out: Vec<MessageId> = Vec::new();
        proof {
            assert(out.deep_view() =~= Seq::<MessageId>::empty());
            assert(gathered(s.take(0), g).filter_map(f) =~= Seq::<MessageId>::empty());
            assert(out.deep_view().to_set() =~= gathered(s.take(0), g).filter_map(f).to_set());
        }
        for i in 0..self.conversations.len()
            invariant
                s == self.conversations.deep_view(),
                g == envelopes_of(),
                f == child_of(parent),
                ascending::<MessageId>(out.deep_view()),
                out.deep_view().to_set() == gathered(s.take(i as int), g).filter_map(f).to_set(),
        {
            let ghost base = out.deep_view().to_set();
            let envelopes: &Vec<Envelope> = &self.conversations[i].envelopes;
            let ghost t = envelopes.deep_view();
            assert(t.take(0).filter_map(f) =~= Seq::<MessageId>::empty());
            assert(out.deep_view().to_set() =~= base + t.take(0).filter_map(f).to_set());
            for j in 0..envelopes.len()
                invariant
                    t == envelopes.deep_view(),
                    f == child_of(parent),
                    ascending::<MessageId>(out.deep_view()),
                    out.deep_view().to_set() == base + t.take(j as int).filter_map(f).to_set(),
            {
                proof {
                    lemma_filter_map_step(t, f, j as int);
                }
                if holds(&envelopes[j].parents, &parent) {
                    set_insert(&mut out, envelopes[j].id);
                    proof {
                        let m = t.take(j as int).filter_map(f);
                        m.lemma_push_to_set_commute(envelopes[j as int].id);
                        assert(out.deep_view().to_set() =~= base + m.push(
                            envelopes[j as int].id,
                        ).to_set());
                    }
                }
            }
            proof {
                lemma_take_all(t);
                lemma_gathered_step(s, g, i as int);
                let a = gathered(s.take(i as int), g);
                lemma_filter_map_add(a, t, f);
                vstd::seq_lib::seq_to_set_distributes_over_add(a.filter_map(f), t.filter_map(f));
                assert(out.deep_view().to_set() =~= (a.filter_map(f) + t.filter_map(f)).to_set());
            }
        }
        proof {
            lemma_take_all(s);
        }
        out
    }
}

/// One stored message, wherever it is held.
pub open spec fn held_envelope(c: ClientView, id: MessageId) -> Option<EnvelopeView> {
    first(gathered(c.conversations, envelopes_of()), envelope_is(id))
}

impl Client {
    /// One stored message by its id alone, from the first conversation that
    /// holds it.
    pub fn find_envelope(&self, id: &MessageId) -> (r: Option<&Envelope>)
        ensures
            match r {
                Some(e) => held_envelope(self.deep_view(), *id) == Some(e.deep_view()),
                None => held_envelope(self.deep_view(), *id) is None,
            },
    {
        let ghost s = self.conversations.deep_view();
        let ghost f = envelopes_of();
        let ghost p = envelope_is(*id);
        let mut i: usize = 0;
        while i < self.conversations.len()
            invariant
                i <= self.conversations.len(),
                s == self.conversations.deep_view(),
                f == envelopes_of(),
                p == envelope_is(*id),
                first(gathered(s.take(i as int), f), p) is None,
            decreases self.conversations.len() - i,
        {
            let envelopes: &Vec<Envelope> = &self.conversations[i].envelopes;
            proof {
                lemma_gathered_step(s, f, i as int);
                crate::seqs::lemma_first_add(
                    gathered(s.take(i as int), f),
                    envelopes.deep_view(),
                    p,
                );
            }
            match find_envelope_in(envelopes, id) {
                Some(j) => {
                    proof {
                        lemma_gathered_first(s, f, p, i + 1);
                    }
                    return Some(&envelopes[j]);
                },
                None => {},
            }
            i += 1;
        }
        proof {
            lemma_take_all(s);
        }
        None
    }
}

proof fn lemma_gathered_first(
    s: Seq<ConversationView>,
    f: spec_fn(ConversationView) -> Seq<EnvelopeView>,
    p: spec_fn(EnvelopeView) -> bool,
    n: int,
)
    requires
        0 <= n <= s.len(),
        first(gathered(s.take(n), f), p) is Some,
    ensures
        first(gathered(s, f), p) == first(gathered(s.take(n), f), p),
    decreases s.len() - n,
{
    if n < s.len() {
        lemma_gathered_step(s, f, n);
        crate::seqs::lemma_first_add(gathered(s.take(n), f), f(s[n]), p);
        lemma_gathered_first(s, f, p, n + 1);
    } else {
        lemma_take_all(s);
    }
}

// ---- the contributing-contact rule ----

/// A key the client trusts: its own cluster's, or one a contact lists.
pub open spec fn known_key(c: ClientView, key: PublicKey) -> bool {
    own(c).contains(key) || entry_with(c, key) is Some
}

pub open spec fn by_known(c: ClientView) -> spec_fn(EnvelopeView) -> bool {
    |e: EnvelopeView| known_key(c, e.sender)
}

/// A key the client trusts has authored one of the messages. Presence among
/// the recipients does not count: a stranger can list anybody.
pub open spec fn contributed(c: ClientView, envelopes: Seq<EnvelopeView>) -> bool {
    some(envelopes, by_known(c))
}

impl Client {
    pub fn knows(&self, key: &PublicKey) -> (r: bool)
        ensures
            r == known_key(self.deep_view(), *key),
    {
        self.is_own(key) || find_listing(&self.contacts, key).is_some()
    }

    /// Has a key we trust authored one of these messages?
    pub fn contributed_to(&self, envelopes: &Vec<Envelope>) -> (r: bool)
        ensures
            r == contributed(self.deep_view(), envelopes.deep_view()),
    {
        let ghost s = envelopes.deep_view();
        let ghost p = by_known(self.deep_view());
        for i in 0..envelopes.len()
            invariant
                s == envelopes.deep_view(),
                p == by_known(self.deep_view()),
                forall|k: int| 0 <= k < i ==> !p(#[trigger] s[k]),
        {
            if self.knows(&envelopes[i].sender) {
                assert(p(s[i as int]));
                return true;
            }
        }
        false
    }

    /// Whether a stored conversation has a contributing contact; an error
    /// where it is not stored.
    pub fn has_contributing_contact(&self, conversation: MessageId) -> (r: Result<bool, Error>)
        ensures
            match first(self.deep_view().conversations, conversation_is(conversation)) {
                Some(x) => r is Ok && r->Ok_0 == contributed(self.deep_view(), x.envelopes),
                None => r is Err && r->Err_0.deep_view() == not_stored(),
            },
    {
        match find_conversation(&self.conversations, &conversation) {
            Some(i) => Ok(self.contributed_to(&self.conversations[i].envelopes)),
            None => Err(Error::Storage("no such conversation".to_owned())),
        }
    }
}

/// What a stranger lists never makes a conversation legitimate: only
/// authorship by a trusted key does.
pub proof fn law_presence_does_not_contribute(c: ClientView, envelopes: Seq<EnvelopeView>)
    requires
        forall|i: int| 0 <= i < envelopes.len() ==> !known_key(c, #[trigger] envelopes[i].sender),
    ensures
        !contributed(c, envelopes),
{
    assert forall|i: int| 0 <= i < envelopes.len() implies !by_known(c)(#[trigger] envelopes[i]) by {
        assert(!known_key(c, envelopes[i].sender));
    }
}

/// A trusted author's message arriving later makes the conversation
/// legitimate, whatever is stored already.
pub proof fn law_contribution_upgrades(c: ClientView, envelopes: Seq<EnvelopeView>, e: EnvelopeView)
    requires
        known_key(c, e.sender),
    ensures
        contributed(c, envelopes.push(e)),
{
    lemma_some_push(envelopes, by_known(c), e);
}

// ---- the conversation list ----

/// One stored conversation, as the edge lists it.
#[derive(Debug)]
pub struct ConversationSummary {
    pub id: MessageId,
    /// The current membership, sorted; this device among it.
    pub participants: Vec<PublicKey>,
    pub message_count: usize,
    /// Largest wall-clock hint seen: display ordering only, never trusted.
    pub last_timestamp_ms: u64,
    /// A contact, or one of our own devices, has authored a message here.
    pub known: bool,
    /// When this device first stored anything here, by its own clock.
    pub first_seen_ms: u64,
}

pub struct SummaryView {
    pub id: MessageId,
    pub participants: Seq<PublicKey>,
    pub message_count: nat,
    pub last_timestamp_ms: u64,
    pub known: bool,
    pub first_seen_ms: u64,
}

impl DeepView for ConversationSummary {
    type V = SummaryView;

    open spec fn deep_view(&self) -> SummaryView {
        SummaryView {
            id: self.id,
            participants: self.participants.deep_view(),
            message_count: self.message_count as nat,
            last_timestamp_ms: self.last_timestamp_ms,
            known: self.known,
            first_seen_ms: self.first_seen_ms,
        }
    }
}

/// The largest timestamp hint among messages.
pub open spec fn last_hint(s: Seq<EnvelopeView>) -> u64
    decreases s.len(),
{
    if s.len() == 0 {
        0
    } else if s.last().timestamp_ms > last_hint(s.drop_last()) {
        s.last().timestamp_ms
    } else {
        last_hint(s.drop_last())
    }
}

/// When a conversation was first seen; 0, the oldest, where that is unrecorded.
pub open spec fn seen_at(x: ConversationView) -> u64 {
    match x.first_seen_ms {
        Some(at) => at,
        None => 0,
    }
}

/// A conversation's line in the list; none where nothing is stored, nor for a
/// lens channel, which never reaches the inbox.
pub open spec fn summary_of(c: ClientView) -> spec_fn(ConversationView) -> Option<SummaryView> {
    |x: ConversationView|
        if x.envelopes.len() == 0 || c.lens_channels.contains(x.id) {
            None
        } else {
            Some(
                SummaryView {
                    id: x.id,
                    participants: ascending_list::<PublicKey>(members(x)),
                    message_count: x.envelopes.len(),
                    last_timestamp_ms: last_hint(x.envelopes),
                    known: contributed(c, x.envelopes),
                    first_seen_ms: seen_at(x),
                },
            )
        }
}

/// The conversation list, the latest first.
pub open spec fn listed(c: ClientView) -> Seq<SummaryView> {
    sorted(c.conversations.filter_map(summary_of(c)), by_recency())
}

/// Later hints first.
pub open spec fn by_recency() -> spec_fn(SummaryView, SummaryView) -> bool {
    |a: SummaryView, b: SummaryView| a.last_timestamp_ms > b.last_timestamp_ms
}

/// Later arrivals first, by this device's clock.
pub open spec fn by_arrival() -> spec_fn(SummaryView, SummaryView) -> bool {
    |a: SummaryView, b: SummaryView| a.first_seen_ms > b.first_seen_ms
}

fn more_recent(a: &ConversationSummary, b: &ConversationSummary) -> (r: bool)
    ensures
        r == by_recency()(a.deep_view(), b.deep_view()),
{
    a.last_timestamp_ms > b.last_timestamp_ms
}

fn arrived_later(a: &ConversationSummary, b: &ConversationSummary) -> (r: bool)
    ensures
        r == by_arrival()(a.deep_view(), b.deep_view()),
{
    a.first_seen_ms > b.first_seen_ms
}

impl Client {
    /// Every stored conversation but the lens channels, newest first by
    /// wall-clock hint.
    pub fn conversations(&self) -> (r: Vec<ConversationSummary>)
        ensures
            r.deep_view() == listed(self.deep_view()),
    {
        let ghost c = self.deep_view();
        let ghost s = c.conversations;
        let ghost f = summary_of(c);
        let mut out: Vec<ConversationSummary> = Vec::new();
        assert(out.deep_view() =~= s.take(0).filter_map(f));
        for i in 0..self.conversations.len()
            invariant
                c == self.deep_view(),
                s == c.conversations,
                f == summary_of(c),
                out.deep_view() == s.take(i as int).filter_map(f),
        {
            proof {
                lemma_filter_map_step(s, f, i as int);
            }
            let x: &Conversation = &self.conversations[i];
            if x.envelopes.len() > 0 && !holds(&self.lens_channels, &x.id) {
                let participants: Vec<PublicKey> = x.membership_of();
                proof {
                    lemma_list_is::<PublicKey>(participants.deep_view(), members(x.deep_view()));
                }
                let mut last: u64 = 0;
                let ghost t = x.envelopes.deep_view();
                for j in 0..x.envelopes.len()
                    invariant
                        t == x.envelopes.deep_view(),
                        last == last_hint(t.take(j as int)),
                {
                    proof {
                        lemma_take_step(t, j as int);
                    }
                    if x.envelopes[j].timestamp_ms > last {
                        last = x.envelopes[j].timestamp_ms;
                    }
                }
                proof {
                    lemma_take_all(t);
                }
                let ghost before = out.deep_view();
                out.push(
                    ConversationSummary {
                        id: x.id,
                        participants,
                        message_count: x.envelopes.len(),
                        last_timestamp_ms: last,
                        known: self.contributed_to(&x.envelopes),
                        first_seen_ms: match x.first_seen_ms {
                            Some(at) => at,
                            None => 0,
                        },
                    },
                );
                assert(out.deep_view() =~= before.push(f(s[i as int])->0));
            }
        }
        proof {
            lemma_take_all(s);
        }
        sort_stably(&mut out, more_recent, Ghost(by_recency()));
        out
    }
}

// ---- the inbox ----

/// A conversation list split by the contributing-contact rule.
#[derive(Debug)]
pub struct Inbox {
    /// Conversations a contact has contributed to: the main list.
    pub conversations: Vec<ConversationSummary>,
    /// Requests from senders nobody you know has vouched for by speaking,
    /// newest first, at most [`MAX_MESSAGE_REQUESTS`].
    pub requests: Vec<ConversationSummary>,
    /// Requests beyond the cap.
    pub dropped: usize,
}

/// How many pending requests the quarantine view holds.
pub const MAX_MESSAGE_REQUESTS: usize = 32;

pub open spec fn is_known() -> spec_fn(SummaryView) -> bool {
    |x: SummaryView| x.known
}

pub open spec fn is_request() -> spec_fn(SummaryView) -> bool {
    |x: SummaryView| !x.known
}

/// The pending requests, newest first by this device's clock.
pub open spec fn requests_of(s: Seq<SummaryView>) -> Seq<SummaryView> {
    sorted(s.filter(is_request()), by_arrival())
}

/// How many of the requests are shown.
pub open spec fn shown(s: Seq<SummaryView>) -> int {
    if requests_of(s).len() <= MAX_MESSAGE_REQUESTS {
        requests_of(s).len() as int
    } else {
        MAX_MESSAGE_REQUESTS as int
    }
}

/// A conversation list split: the inbox, the requests shown, and how many are
/// not.
pub struct InboxView {
    pub conversations: Seq<SummaryView>,
    pub requests: Seq<SummaryView>,
    pub dropped: int,
}

/// The split of a conversation list.
pub open spec fn triaged(s: Seq<SummaryView>) -> InboxView {
    InboxView {
        conversations: s.filter(is_known()),
        requests: requests_of(s).take(shown(s)),
        dropped: requests_of(s).len() - shown(s),
    }
}

/// Splits a conversation list into the main inbox and the bounded requests
/// queue. View-only: nothing is deleted, nothing is refused.
pub fn triage(summaries: Vec<ConversationSummary>) -> (r: Inbox)
    ensures
        r.conversations.deep_view() == triaged(summaries.deep_view()).conversations,
        r.requests.deep_view() == triaged(summaries.deep_view()).requests,
        r.dropped == triaged(summaries.deep_view()).dropped,
{
    let ghost s = summaries.deep_view();
    let ghost p = is_known();
    let ghost q = is_request();
    let mut rest: Vec<ConversationSummary> = summaries;
    let mut conversations: Vec<ConversationSummary> = Vec::new();
    let mut requests: Vec<ConversationSummary> = Vec::new();
    let n: usize = rest.len();
    proof {
        reveal(Seq::filter);
        assert(conversations.deep_view() =~= s.take(0).filter(p));
        assert(requests.deep_view() =~= s.take(0).filter(q));
        assert(rest.deep_view() =~= s.skip(0));
    }
    for i in 0..n
        invariant
            p == is_known(),
            q == is_request(),
            n == s.len(),
            rest.deep_view() == s.skip(i as int),
            conversations.deep_view() == s.take(i as int).filter(p),
            requests.deep_view() == s.take(i as int).filter(q),
    {
        proof {
            lemma_filter_step(s, p, i as int);
            lemma_filter_step(s, q, i as int);
            assert(rest.deep_view().len() == n - i);
            assert(rest.deep_view()[0] == s[i as int]);
        }
        let ghost held = rest@;
        let ghost whole = rest.deep_view();
        let next: ConversationSummary = rest.remove(0);
        proof {
            assert(rest@ == held.remove(0));
            assert(rest.deep_view() =~= whole.remove(0));
            assert(rest.deep_view() =~= s.skip(i + 1));
        }
        if next.known {
            let ghost before = conversations.deep_view();
            conversations.push(next);
            assert(conversations.deep_view() =~= before.push(s[i as int]));
        } else {
            let ghost before = requests.deep_view();
            requests.push(next);
            assert(requests.deep_view() =~= before.push(s[i as int]));
        }
    }
    proof {
        lemma_take_all(s);
    }
    sort_stably(&mut requests, arrived_later, Ghost(by_arrival()));
    let ghost queue = requests.deep_view();
    let total: usize = requests.len();
    let dropped: usize = if total > MAX_MESSAGE_REQUESTS {
        total - MAX_MESSAGE_REQUESTS
    } else {
        0
    };
    let ghost held = requests@;
    requests.truncate(MAX_MESSAGE_REQUESTS);
    proof {
        if total > MAX_MESSAGE_REQUESTS {
            assert(requests@ == held.subrange(0, MAX_MESSAGE_REQUESTS as int));
        }
        assert(requests.deep_view() =~= queue.take(shown(s)));
    }
    Inbox { conversations, requests, dropped }
}

/// The split loses nothing: every summary is in the main list, shown as a
/// request, or counted as dropped.
pub proof fn law_triage_accounts_for_all(s: Seq<SummaryView>)
    ensures
        s.filter(is_known()).len() + shown(s) + (requests_of(s).len() - shown(s)) == s.len(),
        forall|x: SummaryView| #[trigger]
            s.contains(x) ==> s.filter(is_known()).contains(x) || requests_of(s).contains(x),
{
    law_sorted_permutes(s.filter(is_request()), by_arrival());
    lemma_split_len(s);
    lemma_filter(s, is_known());
    lemma_filter(s, is_request());
    assert forall|x: SummaryView| #[trigger] s.contains(x) implies s.filter(is_known()).contains(x)
        || requests_of(s).contains(x) by {
        let k = choose|k: int| 0 <= k < s.len() && s[k] == x;
        lemma_sorted_contains(s.filter(is_request()), by_arrival(), x);
        if is_known()(s[k]) {
        } else {
            assert(is_request()(s[k]));
        }
    }
}

proof fn lemma_split_len(s: Seq<SummaryView>)
    ensures
        s.filter(is_known()).len() + s.filter(is_request()).len() == s.len(),
    decreases s.len(),
{
    reveal(Seq::filter);
    if s.len() > 0 {
        lemma_split_len(s.drop_last());
    }
}

/// The requests queue is ordered by this device's clock alone: newest first,
/// whatever the senders' timestamps say.
pub proof fn law_requests_newest_first(s: Seq<SummaryView>)
    ensures
        in_order(requests_of(s), by_arrival()),
        forall|i: int, j: int|
            0 <= i < j < requests_of(s).len() ==> (#[trigger] requests_of(s)[i]).first_seen_ms >= (
            #[trigger] requests_of(s)[j]).first_seen_ms,
{
    assert(weak_order(by_arrival()));
    law_sorted_in_order(s.filter(is_request()), by_arrival());
    let q = requests_of(s);
    assert forall|i: int, j: int| 0 <= i < j < q.len() implies (#[trigger] q[i]).first_seen_ms >= (
    #[trigger] q[j]).first_seen_ms by {
        assert(!by_arrival()(q[j], q[i]));
    }
}

// ---- labels ----

/// The label of a key the client knows: its petname, or its own device's
/// claimed name.
pub open spec fn known_label(c: ClientView) -> spec_fn(PublicKey) -> Option<Seq<char>> {
    |k: PublicKey|
        match entry_with(c, k) {
            Some(e) => Some(e.0),
            None => match device_with(c, k) {
                Some(d) => Some(
                    match claimed_name(d.1) {
                        Some(name) => name,
                        None => short_hex(k),
                    },
                ),
                None => None,
            },
        }
}

/// Display labels of keys: each person once, at their first key; unknown keys
/// stay distinct, as short hex.
pub open spec fn labels(c: ClientView, keys: Seq<PublicKey>) -> Seq<Seq<char>>
    decreases keys.len(),
{
    if keys.len() == 0 {
        Seq::empty()
    } else {
        let rest = labels(c, keys.drop_last());
        match known_label(c)(keys.last()) {
            Some(l) => if keys.drop_last().filter_map(known_label(c)).contains(l) {
                rest
            } else {
                rest.push(l)
            },
            None => rest.push(short_hex(keys.last())),
        }
    }
}

impl Client {
    fn label_of(&self, key: &PublicKey) -> (r: Option<String>)
        ensures
            r.deep_view() == known_label(self.deep_view())(*key),
    {
        match find_listing(&self.contacts, key) {
            Some(i) => Some(self.contacts[i].0.clone()),
            None => match find_filed(&self.devices, key) {
                Some(i) => match self.devices[i].1.self_claimed_name() {
                    Some(name) => Some(name),
                    None => Some(short_form(key)),
                },
                None => None,
            },
        }
    }

    /// Display labels for a participant set, deduped per person. Order
    /// follows the input; a cluster's label sits at its first key.
    pub fn participant_labels(&self, keys: &Vec<PublicKey>) -> (r: Vec<String>)
        ensures
            r.deep_view() == labels(self.deep_view(), keys.deep_view()),
    {
        let ghost c = self.deep_view();
        let ghost s = keys.deep_view();
        let ghost f = known_label(c);
        let mut out: Vec<String> = Vec::new();
        let mut seen: Vec<String> = Vec::new();
        proof {
            assert(out.deep_view() =~= labels(c, s.take(0)));
            assert(seen.deep_view() =~= s.take(0).filter_map(f));
        }
        for i in 0..keys.len()
            invariant
                c == self.deep_view(),
                s == keys.deep_view(),
                f == known_label(c),
                out.deep_view() == labels(c, s.take(i as int)),
                seen.deep_view() == s.take(i as int).filter_map(f),
        {
            proof {
                lemma_take_step(s, i as int);
                lemma_filter_map_step(s, f, i as int);
            }
            match self.label_of(&keys[i]) {
                Some(label) => {
                    let ghost before_seen = seen.deep_view();
                    if !holds(&seen, &label) {
                        let ghost before = out.deep_view();
                        out.push(label.clone());
                        assert(out.deep_view() =~= before.push(label@));
                    }
                    seen.push(label);
                    assert(seen.deep_view() =~= before_seen.push(label@));
                },
                None => {
                    let ghost before = out.deep_view();
                    out.push(short_form(&keys[i]));
                    assert(out.deep_view() =~= before.push(short_hex(s[i as int])));
                },
            }
        }
        proof {
            lemma_take_all(s);
        }
        out
    }
}

// ---- rendered history ----

/// One message out of a stored conversation, in linearized order.
#[derive(Debug)]
pub struct HistoryMessage {
    pub id: MessageId,
    pub sender: PublicKey,
    /// The sender's wall-clock hint: display only.
    pub timestamp_ms: u64,
    /// The opened body, or why this device cannot open it.
    pub body: Result<Vec<u8>, String>,
    pub blob_refs: Vec<BlobHash>,
    /// Some relay is still owed this message, past the give-up window too.
    pub pending: bool,
    /// Keys this message added to the addressed set, against its parents.
    pub joined: Vec<PublicKey>,
    /// Keys this message dropped from it.
    pub left: Vec<PublicKey>,
    /// Causally incomparable with the message rendered just above it.
    pub crossed: bool,
    /// Merges concurrent branches.
    pub merged: bool,
    /// Recipient devices that confirmed a durable store. Positive-only:
    /// absence never means "not delivered".
    pub confirmed: Vec<PublicKey>,
}

pub struct HistoryView {
    pub id: MessageId,
    pub sender: PublicKey,
    pub timestamp_ms: u64,
    pub body: Result<Seq<u8>, Seq<char>>,
    pub blob_refs: Seq<BlobHash>,
    pub pending: bool,
    pub joined: Seq<PublicKey>,
    pub left: Seq<PublicKey>,
    pub crossed: bool,
    pub merged: bool,
    pub confirmed: Seq<PublicKey>,
}

impl DeepView for HistoryMessage {
    type V = HistoryView;

    open spec fn deep_view(&self) -> HistoryView {
        HistoryView {
            id: self.id,
            sender: self.sender,
            timestamp_ms: self.timestamp_ms,
            body: body_view(self.body),
            blob_refs: self.blob_refs.deep_view(),
            pending: self.pending,
            joined: self.joined.deep_view(),
            left: self.left.deep_view(),
            crossed: self.crossed,
            merged: self.merged,
            confirmed: self.confirmed.deep_view(),
        }
    }
}

/// One message as history renders it.
pub open spec fn rendered(
    c: ClientView,
    all: Seq<EnvelopeView>,
    d: DagView,
    e: EnvelopeView,
) -> HistoryView {
    let (joined, left) = delta(e, all);
    HistoryView {
        id: e.id,
        sender: e.sender,
        timestamp_ms: e.timestamp_ms,
        body: e.body,
        blob_refs: e.blob_refs,
        pending: oldest(c.outbox, of_message(e.id)) is Some,
        joined,
        left,
        crossed: d.crossed.contains(e.id),
        merged: e.parents.len() > 1,
        confirmed: confirmed(c, e.id),
    }
}

pub open spec fn rendering(c: ClientView, all: Seq<EnvelopeView>, d: DagView) -> spec_fn(
    MessageId,
) -> Option<HistoryView> {
    |m: MessageId|
        match first(all, envelope_is(m)) {
            Some(e) => Some(rendered(c, all, d, e)),
            None => None,
        }
}

/// "no such conversation"
pub open spec fn not_stored() -> ErrorView {
    ErrorView::Storage("no such conversation"@)
}

/// A conversation's stored messages in the graph's order, or why there is
/// none.
pub open spec fn history_of(c: ClientView, id: MessageId) -> Result<Seq<HistoryView>, ErrorView> {
    match first(c.conversations, conversation_is(id)) {
        None => Err(not_stored()),
        Some(x) => match dag_of(x) {
            Err(e) => Err(e),
            Ok(d) => Ok(d.order.filter_map(rendering(c, x.envelopes, d))),
        },
    }
}

/// Since when a message is owed, over the whole ledger.
pub fn owed_since(outbox: &Vec<OutboxEntry>, m: &MessageId) -> (r: Option<u64>)
    ensures
        r == oldest(outbox.deep_view(), of_message(*m)),
{
    let ghost s = outbox.deep_view();
    let ghost p = of_message(*m);
    let mut since: Option<u64> = None;
    for i in 0..outbox.len()
        invariant
            s == outbox.deep_view(),
            p == of_message(*m),
            since == oldest(s.take(i as int), p),
    {
        proof {
            lemma_take_step(s, i as int);
        }
        if outbox[i].message == *m {
            since = match since {
                Some(t) => if outbox[i].created_ms < t {
                    Some(outbox[i].created_ms)
                } else {
                    Some(t)
                },
                None => Some(outbox[i].created_ms),
            };
        }
    }
    proof {
        lemma_take_all(s);
    }
    since
}

impl Client {
    /// Messages with an outstanding delivery: since when each is owed.
    pub fn pending_since(&self, message: &MessageId) -> (r: Option<u64>)
        ensures
            r == oldest(self.deep_view().outbox, of_message(*message)),
    {
        owed_since(&self.outbox, message)
    }

    /// One conversation's stored messages in the graph's linearized order. A
    /// body this device cannot open never fails the whole history.
    pub fn history(&self, conversation: MessageId) -> (r: Result<Vec<HistoryMessage>, Error>)
        ensures
            match history_of(self.deep_view(), conversation) {
                Ok(v) => r is Ok && r->Ok_0.deep_view() == v,
                Err(e) => r is Err && r->Err_0.deep_view() == e,
            },
    {
        let at: usize = match find_conversation(&self.conversations, &conversation) {
            Some(i) => i,
            None => {
                return Err(Error::Storage("no such conversation".to_owned()));
            },
        };
        let x: &Conversation = &self.conversations[at];
        let dag: &Dag = match x.graph() {
            Ok(d) => d,
            Err(e) => {
                return Err(e);
            },
        };
        let ghost c = self.deep_view();
        let ghost all = x.deep_view().envelopes;
        let ghost d = dag.deep_view();
        let ghost s = d.order;
        let ghost f = rendering(c, all, d);
        let mut out: Vec<HistoryMessage> = Vec::new();
        assert(out.deep_view() =~= s.take(0).filter_map(f));
        for i in 0..dag.order.len()
            invariant
                c == self.deep_view(),
                all == x.deep_view().envelopes,
                d == dag.deep_view(),
                s == d.order,
                f == rendering(c, all, d),
                out.deep_view() == s.take(i as int).filter_map(f),
        {
            proof {
                lemma_filter_map_step(s, f, i as int);
            }
            match find_envelope_in(&x.envelopes, &dag.order[i]) {
                Some(k) => {
                    let e: &Envelope = &x.envelopes[k];
                    let (joined, left): (Vec<PublicKey>, Vec<PublicKey>) = membership_delta(
                        e,
                        &x.envelopes,
                    );
                    let ghost before = out.deep_view();
                    out.push(
                        HistoryMessage {
                            id: e.id,
                            sender: e.sender,
                            timestamp_ms: e.timestamp_ms,
                            body: copy_body(&e.body),
                            blob_refs: copies(&e.blob_refs),
                            pending: self.pending_since(&e.id).is_some(),
                            joined,
                            left,
                            crossed: holds(&dag.crossed, &e.id),
                            merged: e.parents.len() > 1,
                            confirmed: self.acks_of(&e.id),
                        },
                    );
                    assert(out.deep_view() =~= before.push(f(s[i as int])->0));
                },
                None => {},
            }
        }
        proof {
            lemma_take_all(s);
        }
        Ok(out)
    }

    /// A conversation's current membership, ascending.
    pub fn membership(&self, conversation: MessageId) -> (r: Result<Vec<PublicKey>, Error>)
        ensures
            match first(self.deep_view().conversations, conversation_is(conversation)) {
                Some(x) => r is Ok && lists::<PublicKey>(r->Ok_0.deep_view(), members(x)),
                None => r is Err && r->Err_0.deep_view() == not_stored(),
            },
    {
        match find_conversation(&self.conversations, &conversation) {
            Some(i) => Ok(self.conversations[i].membership_of()),
            None => Err(Error::Storage("no such conversation".to_owned())),
        }
    }
}

// ---- laws ----

/// Nobody both joins and leaves with one message.
pub proof fn law_delta_disjoint(e: EnvelopeView, all: Seq<EnvelopeView>, key: PublicKey)
    ensures
        !(delta(e, all).0.contains(key) && delta(e, all).1.contains(key)),
{
    let parents = held_parents(e, all);
    if parents.len() > 0 {
        let now = participants(e).to_set();
        let before = everyone(parents);
        vstd::seq_lib::seq_to_set_is_finite(participants(e));
        vstd::seq_lib::seq_to_set_is_finite(gathered(parents, participants_fn()));
        lemma_list_exists::<PublicKey>(now.difference(before));
        lemma_list_exists::<PublicKey>(before.difference(now));
        assert(delta(e, all).0.contains(key) ==> delta(e, all).0.to_set().contains(key));
        assert(delta(e, all).1.contains(key) ==> delta(e, all).1.to_set().contains(key));
    }
}

/// Adding somebody is a message that addresses them: whoever a head's
/// recipients or sender name is a member.
pub proof fn law_heads_name_the_members(x: ConversationView, i: int, key: PublicKey)
    requires
        0 <= i < x.envelopes.len(),
        carries(x)(x.envelopes[i]),
        participants(x.envelopes[i]).contains(key),
    ensures
        members(x).contains(key),
{
    let s = x.envelopes.filter(carries(x));
    lemma_filter(x.envelopes, carries(x));
    let k = choose|k: int| 0 <= k < s.len() && s[k] == x.envelopes[i];
    assert(participants_fn()(s[k]).contains(key));
    crate::seqs::lemma_gathered_contains(s, participants_fn(), key);
}

/// A conversation can be read exactly where one of its messages begins it and
/// its graph could be built, and then by the graph it has.
pub proof fn law_readable_graph(x: ConversationView)
    ensures
        match dag_of(x) {
            Ok(d) => x.dag == Some(d) && exists|i: int|
                0 <= i < x.envelopes.len() && (#[trigger] x.envelopes[i]).conversation is None,
            Err(_) => x.dag is None || forall|i: int|
                0 <= i < x.envelopes.len() ==> (#[trigger] x.envelopes[i]).conversation is Some,
        },
{
    let p = is_genesis();
    if some(x.envelopes, p) {
        let i = choose|i: int| 0 <= i < x.envelopes.len() && p(#[trigger] x.envelopes[i]);
        assert(x.envelopes[i].conversation is None);
    } else {
        assert forall|i: int| 0 <= i < x.envelopes.len() implies (
        #[trigger] x.envelopes[i]).conversation is Some by {
            assert(!p(x.envelopes[i]));
        }
    }
}

/// Each message of a history is a stored message of the conversation, shown
/// with that message's own sender, stamp, body and blobs. It is pending
/// exactly where the ledger still owes it to a relay, merged where it has
/// several parents, and crossed where the graph says so.
pub proof fn law_history_shows_what_is_stored(c: ClientView, at: int, k: int)
    requires
        0 <= at < c.conversations.len(),
        forall|j: int|
            0 <= j < at ==> (#[trigger] c.conversations[j]).id != c.conversations[at].id,
        history_of(c, c.conversations[at].id) is Ok,
        0 <= k < history_of(c, c.conversations[at].id)->Ok_0.len(),
    ensures
        ({
            let x = c.conversations[at];
            let h = history_of(c, x.id)->Ok_0[k];
            exists|i: int| #[trigger]
                shows(h, x.envelopes, i) && (h.pending <==> exists|o: int|
                    0 <= o < c.outbox.len() && (#[trigger] c.outbox[o]).message == h.id) && (
                h.crossed <==> x.dag is Some && x.dag->0.crossed.contains(h.id))
        }),
{
    let x = c.conversations[at];
    lemma_history_at(c, at);
    law_readable_graph(x);
    let d = x.dag->0;
    let f = rendering(c, x.envelopes, d);
    let s = d.order.filter_map(f);
    let j = crate::seqs::lemma_filter_map_source(d.order, f, k);
    lemma_first(x.envelopes, envelope_is(d.order[j]));
    let e = first(x.envelopes, envelope_is(d.order[j]))->0;
    let i = choose|i: int| 0 <= i < x.envelopes.len() && x.envelopes[i] == e;
    assert(shows(s[k], x.envelopes, i));
    let p = of_message(e.id);
    crate::relays::law_oldest(c.outbox, p);
    if oldest(c.outbox, p) is Some {
        let o = choose|o: int|
            0 <= o < c.outbox.len() && p(#[trigger] c.outbox[o]) && c.outbox[o].created_ms
                == oldest(c.outbox, p)->0;
        assert(c.outbox[o].message == e.id);
    } else {
        assert forall|o: int| 0 <= o < c.outbox.len() implies (#[trigger] c.outbox[o]).message
            != e.id by {
            assert(!p(c.outbox[o]));
        }
    }
}

/// A line of history carries what a stored message says.
pub open spec fn shows(h: HistoryView, envelopes: Seq<EnvelopeView>, i: int) -> bool {
    &&& 0 <= i < envelopes.len()
    &&& h.id == envelopes[i].id
    &&& h.sender == envelopes[i].sender
    &&& h.timestamp_ms == envelopes[i].timestamp_ms
    &&& h.body == envelopes[i].body
    &&& h.blob_refs == envelopes[i].blob_refs
    &&& h.merged <==> envelopes[i].parents.len() > 1
}

proof fn lemma_history_at(c: ClientView, at: int)
    requires
        0 <= at < c.conversations.len(),
        forall|j: int|
            0 <= j < at ==> (#[trigger] c.conversations[j]).id != c.conversations[at].id,
    ensures
        first(c.conversations, conversation_is(c.conversations[at].id)) == Some(c.conversations[at]),
{
    let x = c.conversations[at];
    assert forall|j: int| 0 <= j < at implies !conversation_is(x.id)(#[trigger] c.conversations[j]) by {}
    crate::seqs::lemma_first_is(c.conversations, conversation_is(x.id), at);
}

/// One message stands before another in an order.
pub open spec fn in_turn(order: Seq<MessageId>, a: MessageId, b: MessageId) -> bool {
    exists|i: int, j: int|
        0 <= i < j < order.len() && #[trigger] order[i] == a && #[trigger] order[j] == b
}

/// A history leaves out no message that is stored and in the graph's order,
/// and shows them in that order; it is given exactly where the conversation is
/// stored and readable.
pub proof fn law_history_is_complete(c: ClientView, at: int, d: DagView, genesis: int)
    requires
        0 <= at < c.conversations.len(),
        forall|j: int|
            0 <= j < at ==> (#[trigger] c.conversations[j]).id != c.conversations[at].id,
        c.conversations[at].dag == Some(d),
        0 <= genesis < c.conversations[at].envelopes.len(),
        c.conversations[at].envelopes[genesis].conversation is None,
    ensures
        match history_of(c, c.conversations[at].id) {
            Ok(h) => {
                &&& forall|j: int, i: int|
                    0 <= j < d.order.len() && 0 <= i < c.conversations[at].envelopes.len()
                        && #[trigger] d.order[j] == (#[trigger] c.conversations[at].envelopes[i]).id
                        ==> exists|k: int| 0 <= k < h.len() && (#[trigger] h[k]).id == d.order[j]
                &&& forall|a: int, b: int|
                    0 <= a < b < h.len() ==> in_turn(
                        d.order,
                        (#[trigger] h[a]).id,
                        (#[trigger] h[b]).id,
                    )
                &&& h.len() <= d.order.len()
            },
            Err(_) => false,
        },
{
    let x = c.conversations[at];
    lemma_history_at(c, at);
    assert(is_genesis()(x.envelopes[genesis]));
    let f = rendering(c, x.envelopes, d);
    let h = d.order.filter_map(f);
    assert forall|j: int, i: int|
        0 <= j < d.order.len() && 0 <= i < x.envelopes.len() && #[trigger] d.order[j] == (
        #[trigger] x.envelopes[i]).id implies exists|k: int|
        0 <= k < h.len() && (#[trigger] h[k]).id == d.order[j] by {
        lemma_first(x.envelopes, envelope_is(d.order[j]));
        assert(envelope_is(d.order[j])(x.envelopes[i]));
        crate::seqs::lemma_filter_map_has(d.order, f, j);
        let k = choose|k: int| 0 <= k < h.len() && h[k] == f(d.order[j])->0;
        assert(h[k].id == d.order[j]);
    }
    assert forall|a: int, b: int| 0 <= a < b < h.len() implies in_turn(
        d.order,
        (#[trigger] h[a]).id,
        (#[trigger] h[b]).id,
    ) by {
        let (i, j) = crate::seqs::lemma_filter_map_order(d.order, f, a, b);
        lemma_first(x.envelopes, envelope_is(d.order[i]));
        lemma_first(x.envelopes, envelope_is(d.order[j]));
        assert(d.order[i] == h[a].id && d.order[j] == h[b].id);
    }
    let p = |m: MessageId| f(m) is Some;
    crate::seqs::lemma_filter_map_len(d.order, f, p);
    lemma_filter(d.order, p);
    assert(history_of(c, x.id) == Ok::<Seq<HistoryView>, ErrorView>(h));
}

/// A conversation that is not stored has no history and no members to list.
pub proof fn law_nothing_stored_is_an_error(c: ClientView, id: MessageId)
    requires
        forall|j: int| 0 <= j < c.conversations.len() ==> (#[trigger] c.conversations[j]).id != id,
    ensures
        history_of(c, id) is Err,
{
    lemma_first(c.conversations, conversation_is(id));
}

/// Somebody speaks in or is addressed by a message.
pub open spec fn takes_part(e: EnvelopeView, key: PublicKey) -> bool {
    e.sender == key || e.recipients.contains(key)
}

proof fn lemma_takes_part(e: EnvelopeView, key: PublicKey)
    ensures
        participants(e).contains(key) <==> takes_part(e, key),
{
    let p = participants(e);
    if p.contains(key) {
        let k = choose|k: int| 0 <= k < p.len() && p[k] == key;
        if k < e.recipients.len() {
            assert(e.recipients[k] == key);
        }
    }
    if e.recipients.contains(key) {
        let k = choose|k: int| 0 <= k < e.recipients.len() && e.recipients[k] == key;
        assert(p[k] == key);
    }
    assert(p[p.len() - 1] == e.sender);
}

proof fn lemma_everyone(s: Seq<EnvelopeView>, key: PublicKey)
    ensures
        everyone(s).contains(key) <==> exists|i: int|
            0 <= i < s.len() && takes_part(#[trigger] s[i], key),
{
    let f = participants_fn();
    crate::seqs::lemma_gathered_contains(s, f, key);
    if exists|i: int| 0 <= i < s.len() && f(#[trigger] s[i]).contains(key) {
        let i = choose|i: int| 0 <= i < s.len() && f(#[trigger] s[i]).contains(key);
        lemma_takes_part(s[i], key);
        assert(takes_part(s[i], key));
    }
    if exists|i: int| 0 <= i < s.len() && takes_part(#[trigger] s[i], key) {
        let i = choose|i: int| 0 <= i < s.len() && takes_part(#[trigger] s[i], key);
        lemma_takes_part(s[i], key);
        assert(f(s[i]).contains(key));
    }
}

/// The members of a conversation are those who take part in a head of its
/// graph; where the graph cannot be read, in any message of it.
pub proof fn law_members_take_part_in_a_head(x: ConversationView, key: PublicKey)
    ensures
        members(x).contains(key) <==> exists|i: int|
            0 <= i < x.envelopes.len() && takes_part(#[trigger] x.envelopes[i], key) && (dag_of(
                x,
            ) is Ok ==> dag_of(x)->Ok_0.heads.contains(x.envelopes[i].id)),
{
    let p = carries(x);
    let s = x.envelopes.filter(p);
    lemma_filter(x.envelopes, p);
    lemma_everyone(s, key);
    if members(x).contains(key) {
        let k = choose|k: int| 0 <= k < s.len() && takes_part(#[trigger] s[k], key);
        assert(p(s[k]));
        assert(x.envelopes.contains(s[k]));
        let i = choose|i: int| 0 <= i < x.envelopes.len() && x.envelopes[i] == s[k];
        assert(takes_part(x.envelopes[i], key));
    }
    if exists|i: int|
        0 <= i < x.envelopes.len() && takes_part(#[trigger] x.envelopes[i], key) && (dag_of(
            x,
        ) is Ok ==> dag_of(x)->Ok_0.heads.contains(x.envelopes[i].id)) {
        let i = choose|i: int|
            0 <= i < x.envelopes.len() && takes_part(#[trigger] x.envelopes[i], key) && (dag_of(
                x,
            ) is Ok ==> dag_of(x)->Ok_0.heads.contains(x.envelopes[i].id));
        assert(p(x.envelopes[i]));
        assert(s.contains(x.envelopes[i]));
        let k = choose|k: int| 0 <= k < s.len() && s[k] == x.envelopes[i];
        assert(takes_part(s[k], key));
    }
}

/// Somebody takes part in a stored parent of a message.
pub open spec fn took_part_before(e: EnvelopeView, all: Seq<EnvelopeView>, key: PublicKey) -> bool {
    exists|j: int|
        0 <= j < e.parents.len() && match first(all, envelope_is(#[trigger] e.parents[j])) {
            Some(p) => takes_part(p, key),
            None => false,
        }
}

/// A parent of a message is stored.
pub open spec fn has_parent(e: EnvelopeView, all: Seq<EnvelopeView>) -> bool {
    exists|j: int, i: int|
        0 <= j < e.parents.len() && 0 <= i < all.len() && #[trigger] e.parents[j] == (
        #[trigger] all[i]).id
}

/// Whoever a message addresses and no stored parent did has joined with it,
/// and whoever a stored parent addressed and it does not has left; with no
/// parent stored, nobody has done either.
pub proof fn law_joined_and_left(e: EnvelopeView, all: Seq<EnvelopeView>, key: PublicKey)
    ensures
        delta(e, all).0.contains(key) <==> has_parent(e, all) && takes_part(e, key)
            && !took_part_before(e, all, key),
        delta(e, all).1.contains(key) <==> has_parent(e, all) && !takes_part(e, key)
            && took_part_before(e, all, key),
{
    let f = |p: MessageId| first(all, envelope_is(p));
    let parents = held_parents(e, all);
    assert(parents == e.parents.filter_map(f));
    lemma_takes_part(e, key);
    lemma_everyone(parents, key);
    let now = participants(e).to_set();
    let before = everyone(parents);
    vstd::seq_lib::seq_to_set_is_finite(participants(e));
    vstd::seq_lib::seq_to_set_is_finite(gathered(parents, participants_fn()));
    crate::order::lemma_list_exists::<PublicKey>(now.difference(before));
    crate::order::lemma_list_exists::<PublicKey>(before.difference(now));
    let a = ascending_list::<PublicKey>(now.difference(before));
    let b = ascending_list::<PublicKey>(before.difference(now));
    assert(a.to_set().contains(key) == now.difference(before).contains(key));
    assert(b.to_set().contains(key) == before.difference(now).contains(key));
    if before.contains(key) {
        let k = choose|k: int| 0 <= k < parents.len() && takes_part(#[trigger] parents[k], key);
        let j = crate::seqs::lemma_filter_map_source(e.parents, f, k);
        assert(first(all, envelope_is(e.parents[j])) == Some(parents[k]));
    }
    if took_part_before(e, all, key) {
        let j = choose|j: int|
            0 <= j < e.parents.len() && match first(all, envelope_is(#[trigger] e.parents[j])) {
                Some(p) => takes_part(p, key),
                None => false,
            };
        crate::seqs::lemma_filter_map_has(e.parents, f, j);
        let k = choose|k: int| 0 <= k < parents.len() && parents[k] == f(e.parents[j])->0;
        assert(takes_part(parents[k], key));
    }
    if parents.len() > 0 {
        let j = crate::seqs::lemma_filter_map_source(e.parents, f, 0);
        lemma_first(all, envelope_is(e.parents[j]));
        let i = choose|i: int| 0 <= i < all.len() && all[i] == parents[0];
        assert(e.parents[j] == all[i].id);
    }
    if has_parent(e, all) {
        let (j, i) = choose|j: int, i: int|
            0 <= j < e.parents.len() && 0 <= i < all.len() && #[trigger] e.parents[j] == (
            #[trigger] all[i]).id;
        lemma_first(all, envelope_is(e.parents[j]));
        assert(envelope_is(e.parents[j])(all[i]));
        crate::seqs::lemma_filter_map_has(e.parents, f, j);
    }
}

/// A history line says who joined, who left and who confirmed its own message.
pub proof fn law_history_says_who_joined(
    c: ClientView,
    all: Seq<EnvelopeView>,
    d: DagView,
    e: EnvelopeView,
    key: PublicKey,
)
    ensures
        rendered(c, all, d, e).joined.contains(key) <==> has_parent(e, all) && takes_part(e, key)
            && !took_part_before(e, all, key),
        rendered(c, all, d, e).left.contains(key) <==> has_parent(e, all) && !takes_part(e, key)
            && took_part_before(e, all, key),
        rendered(c, all, d, e).confirmed == confirmed(c, e.id),
{
    law_joined_and_left(e, all, key);
}

/// A message's children are the stored messages, of any conversation, that
/// name it among their parents.
pub proof fn law_children_name_the_parent(c: ClientView, parent: MessageId, id: MessageId)
    ensures
        children(c, parent).contains(id) <==> exists|x: int, i: int|
            0 <= x < c.conversations.len() && 0 <= i < c.conversations[x].envelopes.len() && (
            #[trigger] c.conversations[x].envelopes[i]).id == id
                && c.conversations[x].envelopes[i].parents.contains(parent),
{
    let f = child_of(parent);
    let all = gathered(c.conversations, envelopes_of());
    let s = all.filter_map(f);
    if children(c, parent).contains(id) {
        let k = choose|k: int| 0 <= k < s.len() && s[k] == id;
        let j = crate::seqs::lemma_filter_map_source(all, f, k);
        assert(all.contains(all[j]));
        crate::seqs::lemma_gathered_contains(c.conversations, envelopes_of(), all[j]);
        let x = choose|x: int|
            0 <= x < c.conversations.len() && envelopes_of()(
                #[trigger] c.conversations[x],
            ).contains(all[j]);
        let list = c.conversations[x].envelopes;
        let i = choose|i: int| 0 <= i < list.len() && list[i] == all[j];
        assert(c.conversations[x].envelopes[i].id == id);
    }
    if exists|x: int, i: int|
        0 <= x < c.conversations.len() && 0 <= i < c.conversations[x].envelopes.len() && (
        #[trigger] c.conversations[x].envelopes[i]).id == id
            && c.conversations[x].envelopes[i].parents.contains(parent) {
        let (x, i) = choose|x: int, i: int|
            0 <= x < c.conversations.len() && 0 <= i < c.conversations[x].envelopes.len() && (
            #[trigger] c.conversations[x].envelopes[i]).id == id
                && c.conversations[x].envelopes[i].parents.contains(parent);
        let e = c.conversations[x].envelopes[i];
        assert(envelopes_of()(c.conversations[x]).contains(e));
        crate::seqs::lemma_gathered_contains(c.conversations, envelopes_of(), e);
        let j = choose|j: int| 0 <= j < all.len() && all[j] == e;
        crate::seqs::lemma_filter_map_has(all, f, j);
    }
}

/// What is missing of a conversation is what its messages name as parents and
/// none of them is.
pub proof fn law_missing_is_named_and_not_held(envelopes: Seq<EnvelopeView>, m: MessageId)
    ensures
        frontier(envelopes).contains(m) <==> {
            &&& exists|j: int| 0 <= j < envelopes.len() && (#[trigger] envelopes[j]).parents.contains(m)
            &&& forall|j: int| 0 <= j < envelopes.len() ==> (#[trigger] envelopes[j]).id != m
        },
{
    lemma_first(envelopes, envelope_is(m));
    match first(envelopes, envelope_is(m)) {
        Some(e) => {
            let j = choose|j: int| 0 <= j < envelopes.len() && envelopes[j] == e;
            assert(envelopes[j].id == m);
        },
        None => {
            assert forall|j: int| 0 <= j < envelopes.len() implies (#[trigger] envelopes[j]).id != m by {
                assert(!envelope_is(m)(envelopes[j]));
            }
        },
    }
}

/// A conversation is legitimate exactly where one of its messages is by this
/// device, by a recognized device, or by a key a contact lists.
pub proof fn law_contributed_by_whom(c: ClientView, envelopes: Seq<EnvelopeView>)
    ensures
        contributed(c, envelopes) <==> exists|i: int|
            0 <= i < envelopes.len() && is_trusted_author(c, (#[trigger] envelopes[i]).sender),
{
    let p = by_known(c);
    assert forall|key: PublicKey| #[trigger] known_key(c, key) <==> is_trusted_author(c, key) by {
        crate::client::law_own_keys(c, key);
        crate::client::law_entry_by_key(c, key);
    }
    if contributed(c, envelopes) {
        let i = choose|i: int| 0 <= i < envelopes.len() && p(#[trigger] envelopes[i]);
        assert(known_key(c, envelopes[i].sender));
        assert(is_trusted_author(c, envelopes[i].sender));
    }
    if exists|i: int|
        0 <= i < envelopes.len() && is_trusted_author(c, (#[trigger] envelopes[i]).sender) {
        let i = choose|i: int|
            0 <= i < envelopes.len() && is_trusted_author(c, (#[trigger] envelopes[i]).sender);
        assert(known_key(c, envelopes[i].sender));
        assert(p(envelopes[i]));
    }
}

/// A key of this user's, or one a contact lists.
pub open spec fn is_trusted_author(c: ClientView, key: PublicKey) -> bool {
    ||| key == c.device
    ||| exists|i: int| 0 <= i < c.devices.len() && (#[trigger] c.devices[i]).0 == key
    ||| exists|i: int| 0 <= i < c.contacts.len() && (#[trigger] c.contacts[i]).1.keys.contains(key)
}

/// The conversation list has one line for each stored conversation that holds
/// a message and is no lens channel, and no other line; a line says how many
/// messages are stored, the latest of their stamps, who the members are,
/// whether somebody trusted has spoken, and when it was first seen here.
pub proof fn law_list_has_every_conversation(c: ClientView, at: int)
    requires
        0 <= at < c.conversations.len(),
    ensures
        ({
            let x = c.conversations[at];
            let list = listed(c);
            x.envelopes.len() > 0 && !c.lens_channels.contains(x.id) ==> exists|k: int|
                0 <= k < list.len() && sums_up(c, #[trigger] list[k], x)
        }),
        ({
            let list = listed(c);
            forall|k: int|
                0 <= k < list.len() ==> sums_up_one(c, #[trigger] list[k])
                    && !c.lens_channels.contains(list[k].id)
        }),
{
    let f = summary_of(c);
    let s = c.conversations.filter_map(f);
    let list = listed(c);
    assert(list == sorted(s, by_recency()));
    let x = c.conversations[at];
    if x.envelopes.len() > 0 && !c.lens_channels.contains(x.id) {
        crate::seqs::lemma_filter_map_has(c.conversations, f, at);
        let y = f(x)->0;
        crate::order::lemma_sorted_contains(s, by_recency(), y);
        let k = choose|k: int| 0 <= k < list.len() && list[k] == y;
        lemma_sums_up(c, x);
        assert(sums_up(c, list[k], x));
    }
    assert forall|k: int| 0 <= k < list.len() implies sums_up_one(c, #[trigger] list[k])
        && !c.lens_channels.contains(list[k].id) by {
        assert(list.contains(list[k]));
        crate::order::lemma_sorted_contains(s, by_recency(), list[k]);
        let a = choose|a: int| 0 <= a < s.len() && s[a] == list[k];
        let j = crate::seqs::lemma_filter_map_source(c.conversations, f, a);
        lemma_sums_up(c, c.conversations[j]);
        assert(sums_up(c, list[k], c.conversations[j]));
    }
}

/// A line of the conversation list says what is stored of a conversation.
pub open spec fn sums_up(c: ClientView, s: SummaryView, x: ConversationView) -> bool {
    &&& s.id == x.id
    &&& s.message_count == x.envelopes.len()
    &&& s.participants.to_set() == members(x)
    &&& forall|i: int|
        0 <= i < x.envelopes.len() ==> (#[trigger] x.envelopes[i]).timestamp_ms
            <= s.last_timestamp_ms
    &&& exists|i: int|
        0 <= i < x.envelopes.len() && (#[trigger] x.envelopes[i]).timestamp_ms
            == s.last_timestamp_ms
    &&& s.known <==> exists|i: int|
        0 <= i < x.envelopes.len() && is_trusted_author(c, (#[trigger] x.envelopes[i]).sender)
    &&& match x.first_seen_ms {
        Some(seen) => s.first_seen_ms == seen,
        None => s.first_seen_ms == 0,
    }
}

/// A line of the conversation list is that of a stored conversation.
pub open spec fn sums_up_one(c: ClientView, s: SummaryView) -> bool {
    exists|j: int|
        0 <= j < c.conversations.len() && sums_up(c, s, #[trigger] c.conversations[j])
            && c.conversations[j].envelopes.len() > 0
}

proof fn lemma_sums_up(c: ClientView, x: ConversationView)
    requires
        summary_of(c)(x) is Some,
    ensures
        sums_up(c, summary_of(c)(x)->0, x),
{
    law_contributed_by_whom(c, x.envelopes);
    lemma_last_hint(x.envelopes);
    vstd::seq_lib::seq_to_set_is_finite(
        gathered(x.envelopes.filter(carries(x)), participants_fn()),
    );
    crate::order::lemma_list_exists::<PublicKey>(members(x));
}

proof fn lemma_last_hint(s: Seq<EnvelopeView>)
    ensures
        forall|i: int| 0 <= i < s.len() ==> (#[trigger] s[i]).timestamp_ms <= last_hint(s),
        s.len() > 0 ==> exists|i: int|
            0 <= i < s.len() && (#[trigger] s[i]).timestamp_ms == last_hint(s),
    decreases s.len(),
{
    if s.len() > 0 {
        let d = s.drop_last();
        lemma_last_hint(d);
        let n = s.len() - 1;
        assert forall|i: int| 0 <= i < s.len() implies (#[trigger] s[i]).timestamp_ms <= last_hint(
            s,
        ) by {
            if i < n {
                assert(d[i] == s[i]);
            }
        }
        if s[n].timestamp_ms == last_hint(s) {
        } else {
            assert(last_hint(s) == last_hint(d));
            if d.len() > 0 {
                let i = choose|i: int|
                    0 <= i < d.len() && (#[trigger] d[i]).timestamp_ms == last_hint(d);
                assert(s[i].timestamp_ms == last_hint(s));
            } else {
                assert(last_hint(d) == 0);
            }
        }
    }
}

/// The conversation list is newest first.
pub proof fn law_list_newest_first(c: ClientView)
    ensures
        ({
            let list = listed(c);
            forall|i: int, j: int|
                0 <= i < j < list.len() ==> (#[trigger] list[i]).last_timestamp_ms >= (
                #[trigger] list[j]).last_timestamp_ms
        }),
{
    let s = c.conversations.filter_map(summary_of(c));
    law_sorted_in_order(s, by_recency());
    let list = sorted(s, by_recency());
    assert forall|i: int, j: int| 0 <= i < j < list.len() implies (
    #[trigger] list[i]).last_timestamp_ms >= (#[trigger] list[j]).last_timestamp_ms by {
        assert(!by_recency()(list[j], list[i]));
    }
}

/// The main list holds exactly the conversations somebody trusted spoke in,
/// the requests exactly the others, the newest arrivals first, and no more of
/// them are shown than the queue holds; the rest are counted.
pub proof fn law_triage_by_who_spoke(s: Seq<SummaryView>, x: SummaryView)
    ensures
        triaged(s).conversations.contains(x) <==> s.contains(x) && x.known,
        triaged(s).requests.contains(x) ==> s.contains(x) && !x.known,
        triaged(s).dropped == 0 && s.contains(x) && !x.known ==> triaged(s).requests.contains(x),
        triaged(s).dropped >= 0,
        triaged(s).requests.len() + triaged(s).dropped == requests_of(s).len(),
        requests_of(s).contains(x) <==> s.contains(x) && !x.known,
        shown(s) <= MAX_MESSAGE_REQUESTS,
        shown(s) <= requests_of(s).len(),
        shown(s) < requests_of(s).len() ==> shown(s) == MAX_MESSAGE_REQUESTS,
        MAX_MESSAGE_REQUESTS == 32,
{
    crate::seqs::lemma_filter_contains(s, is_known(), x);
    crate::seqs::lemma_filter_contains(s, is_request(), x);
    crate::order::lemma_sorted_contains(s.filter(is_request()), by_arrival(), x);
    let all = requests_of(s);
    let some_of_them = triaged(s).requests;
    if some_of_them.contains(x) {
        let k = choose|k: int| 0 <= k < some_of_them.len() && some_of_them[k] == x;
        assert(all[k] == x);
    }
    if triaged(s).dropped == 0 {
        assert(some_of_them =~= all);
    }
}

/// What a known key is called: the petname of the contact that lists it, else
/// for one of this user's own devices the name its record claims, or the key's
/// short form.
pub proof fn law_known_labels(c: ClientView, key: PublicKey)
    ensures
        match known_label(c)(key) {
            Some(l) => {
                ||| exists|i: int|
                    0 <= i < c.contacts.len() && (#[trigger] c.contacts[i]).1.keys.contains(key)
                        && c.contacts[i].0 == l
                ||| exists|i: int|
                    0 <= i < c.devices.len() && (#[trigger] c.devices[i]).0 == key && l == match c.devices[i].1.name_claim {
                        Some((name, _)) => name,
                        None => short_hex(key),
                    }
            },
            None => {
                &&& forall|i: int|
                    0 <= i < c.contacts.len() ==> !(#[trigger] c.contacts[i]).1.keys.contains(key)
                &&& forall|i: int| 0 <= i < c.devices.len() ==> (#[trigger] c.devices[i]).0 != key
            },
        },
        (exists|i: int| 0 <= i < c.contacts.len() && (#[trigger] c.contacts[i]).1.keys.contains(key))
            ==> exists|i: int|
            0 <= i < c.contacts.len() && (#[trigger] c.contacts[i]).1.keys.contains(key)
                && known_label(c)(key) == Some(c.contacts[i].0),
{
    crate::client::law_entry_by_key(c, key);
    crate::seqs::lemma_first(c.devices, crate::client::filed(key));
    match entry_with(c, key) {
        Some(e) => {
            let i = choose|i: int|
                0 <= i < c.contacts.len() && #[trigger] c.contacts[i] == e && forall|j: int|
                    0 <= j < i ==> !(#[trigger] c.contacts[j]).1.keys.contains(key);
            assert(c.contacts[i].1.keys.contains(key));
        },
        None => match device_with(c, key) {
            Some(d) => {
                let i = choose|i: int| 0 <= i < c.devices.len() && c.devices[i] == d;
                assert(c.devices[i].0 == key);
            },
            None => {
                assert forall|i: int| 0 <= i < c.devices.len() implies (#[trigger] c.devices[i]).0
                    != key by {
                    assert(!crate::client::filed::<crate::record::RecordView>(key)(c.devices[i]));
                }
            },
        },
    }
}

/// A key goes by a label: the one it is known by, or its short form where it is
/// not known.
pub open spec fn labeled(c: ClientView, key: PublicKey, l: Seq<char>) -> bool {
    match known_label(c)(key) {
        Some(known) => known == l,
        None => short_hex(key) == l,
    }
}

/// Every key among participants is labeled, and no label is anybody else's.
pub proof fn law_everybody_is_labeled(c: ClientView, keys: Seq<PublicKey>, l: Seq<char>)
    ensures
        labels(c, keys).contains(l) <==> exists|i: int|
            0 <= i < keys.len() && labeled(c, #[trigger] keys[i], l),
    decreases keys.len(),
{
    if keys.len() > 0 {
        let d = keys.drop_last();
        let n = keys.len() - 1;
        law_everybody_is_labeled(c, d, l);
        let rest = labels(c, d);
        let f = known_label(c);
        let last = keys.last();
        assert(keys[n] == last);
        if rest.contains(l) {
            let i = choose|i: int| 0 <= i < d.len() && labeled(c, #[trigger] d[i], l);
            assert(keys[i] == d[i]);
        }
        if exists|i: int| 0 <= i < keys.len() && labeled(c, #[trigger] keys[i], l) {
            let i = choose|i: int| 0 <= i < keys.len() && labeled(c, #[trigger] keys[i], l);
            if i < n {
                assert(d[i] == keys[i]);
            }
        }
        match f(last) {
            Some(known) => {
                crate::order::lemma_push_contains(rest, known, l);
                let seen = d.filter_map(f);
                if seen.contains(known) {
                    let k = choose|k: int| 0 <= k < seen.len() && seen[k] == known;
                    let i = crate::seqs::lemma_filter_map_source(d, f, k);
                    assert(labeled(c, d[i], known));
                    law_everybody_is_labeled(c, d, known);
                }
            },
            None => {
                crate::order::lemma_push_contains(rest, short_hex(last), l);
            },
        }
    }
}

/// A person with several keys is labeled once: where all keys are known, no
/// label comes twice.
pub proof fn law_one_label_per_person(c: ClientView, keys: Seq<PublicKey>)
    requires
        forall|i: int| 0 <= i < keys.len() ==> known_label(c)(#[trigger] keys[i]) is Some,
    ensures
        labels(c, keys).no_duplicates(),
    decreases keys.len(),
{
    if keys.len() > 0 {
        let d = keys.drop_last();
        let f = known_label(c);
        assert forall|i: int| 0 <= i < d.len() implies f(#[trigger] d[i]) is Some by {
            assert(keys[i] == d[i]);
        }
        law_one_label_per_person(c, d);
        let rest = labels(c, d);
        assert(f(keys[keys.len() - 1]) is Some);
        let l = f(keys.last())->0;
        if !d.filter_map(f).contains(l) {
            law_everybody_is_labeled(c, d, l);
            if rest.contains(l) {
                let i = choose|i: int| 0 <= i < d.len() && labeled(c, #[trigger] d[i], l);
                crate::seqs::lemma_filter_map_has(d, f, i);
            }
            assert forall|a: int, b: int|
                0 <= a < rest.push(l).len() && 0 <= b < rest.push(l).len() && a != b implies rest.push(
                l,
            )[a] != rest.push(l)[b] by {
                if a < rest.len() {
                    assert(rest.contains(rest[a]));
                }
                if b < rest.len() {
                    assert(rest.contains(rest[b]));
                }
            }
        }
    }
}

/// The genesis is the first message that names no conversation.
pub proof fn law_genesis_is_the_first(s: Seq<EnvelopeView>)
    ensures
        0 <= genesis_at(s) <= s.len(),
        genesis_at(s) < s.len() ==> s[genesis_at(s)].conversation is None,
        forall|i: int| 0 <= i < genesis_at(s) ==> (#[trigger] s[i]).conversation is Some,
    decreases s.len(),
{
    if s.len() > 0 {
        let d = s.drop_last();
        law_genesis_is_the_first(d);
        assert forall|i: int| 0 <= i < genesis_at(s) implies (#[trigger] s[i]).conversation is Some by {
            if i < d.len() {
                assert(d[i] == s[i]);
            }
        }
    }
}

/// Every message enters the graph, once, and the genesis first.
pub proof fn law_all_enter_the_graph(n: int, genesis: int, i: int)
    requires
        0 <= genesis < n <= usize::MAX,
        0 <= i < n,
    ensures
        entry_order(n, genesis).len() == n,
        entry_order(n, genesis)[0] == genesis,
        entry_order(n, genesis).contains(i as usize),
        entry_order(n, genesis).no_duplicates(),
{
    let s = entry_order(n, genesis);
    if i == genesis {
        assert(s[0] == i as usize);
    } else if i == n - 1 {
        assert(s[genesis + 1] == i as usize);
    } else {
        assert(s[i + 1] == i as usize);
    }
}

/// Who takes part in a message: its sender and everybody it is for.
pub proof fn law_participants(e: EnvelopeView, key: PublicKey)
    ensures
        participants(e).contains(key) <==> e.sender == key || e.recipients.contains(key),
{
    crate::order::lemma_push_contains(e.recipients, e.sender, key);
}

} // verus!
