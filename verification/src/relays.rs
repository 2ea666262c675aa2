//! Routing: which relays reach a key right now, and what is still owed to
//! each of them. Resolution happens at read time; nothing stored is ever
//! changed by it.
use vstd::prelude::*;

use crate::client::{device_with, entry_named, entry_with, filed, find_filed, find_listing, find_named, learned_about, trusted_record, Client, ClientView, LearnedRecord, LearnedView, OutboxEntry, OutboxView};
use crate::error::{Error, ErrorView};
use crate::ids::PublicKey;
use crate::order::{copies, Duplicate};
use crate::record::{lemma_keys_view, spec_of_entry, stem, ContactRecord, RecordView, RelayEntry, RelayView};
use crate::seqs::{best, count_where, first, gathered, lemma_filter_map_step, lemma_filter_step, lemma_first, lemma_first_found, lemma_first_step, lemma_gathered_step, lemma_map_step, lemma_take_all, lemma_take_step};
use crate::text::{concat, quote, quoted, same_text};
use crate::trust::as_list;

verus! {

/// Where a relay resolution's entries came from: the winning provenance
/// class, one per resolution.
#[derive(Clone, Copy, PartialEq, Eq, Structural, Debug)]
pub enum RelaySource {
    /// A manual override: wins while it is kept.
    Override,
    /// Served by the subject over an authenticated connection.
    SubjectServed { received_ms: u64 },
    /// The record that was scanned or explicitly added or updated.
    Scanned,
    /// A contact's answer about them: third-hand.
    Hearsay { received_ms: u64 },
}

impl DeepView for RelaySource {
    type V = RelaySource;

    open spec fn deep_view(&self) -> RelaySource {
        *self
    }
}

/// One relay-resolution outcome: the winning class's entries and provenance.
#[derive(Debug)]
pub struct RelayResolution {
    pub relays: Vec<RelayEntry>,
    pub source: RelaySource,
}

pub struct ResolutionView {
    pub relays: Seq<RelayView>,
    pub source: RelaySource,
}

impl DeepView for RelayResolution {
    type V = ResolutionView;

    open spec fn deep_view(&self) -> ResolutionView {
        ResolutionView { relays: self.relays.deep_view(), source: self.source }
    }
}

/// A resolved recipient: the person's device keys and the relays hosting
/// their mailboxes.
#[derive(Debug)]
pub struct Contact {
    pub keys: Vec<PublicKey>,
    pub relays: Vec<String>,
}

pub struct ContactView {
    pub keys: Seq<PublicKey>,
    pub relays: Seq<Seq<char>>,
}

impl DeepView for Contact {
    type V = ContactView;

    open spec fn deep_view(&self) -> ContactView {
        ContactView { keys: self.keys@, relays: self.relays.deep_view() }
    }
}

/// A peer to dial by key: the key, and the relay URLs it is rendezvoused
/// through.
#[derive(Debug)]
pub struct Peer {
    pub key: PublicKey,
    pub relays: Vec<String>,
}

pub struct PeerView {
    pub key: PublicKey,
    pub relays: Seq<Seq<char>>,
}

impl DeepView for Peer {
    type V = PeerView;

    open spec fn deep_view(&self) -> PeerView {
        PeerView { key: self.key, relays: self.relays.deep_view() }
    }
}

impl Duplicate for Peer {
    fn duplicate(&self) -> (r: Self) {
        Peer { key: self.key, relays: copies(&self.relays) }
    }
}

/// A peer the transport will not dial, and why.
#[derive(Debug)]
pub struct Refusal {
    pub peer: Peer,
    pub why: Error,
}

pub struct RefusalView {
    pub peer: PeerView,
    pub why: ErrorView,
}

impl DeepView for Refusal {
    type V = RefusalView;

    open spec fn deep_view(&self) -> RefusalView {
        RefusalView { peer: self.peer.deep_view(), why: self.why.deep_view() }
    }
}

pub open spec fn refuses(peer: PeerView) -> spec_fn(RefusalView) -> bool {
    |r: RefusalView| r.peer == peer
}

/// A peer, where the transport does not refuse it.
pub open spec fn admitted(refused: Seq<RefusalView>, peer: PeerView) -> Result<PeerView, ErrorView> {
    match first(refused, refuses(peer)) {
        Some(r) => Err(r.why),
        None => Ok(peer),
    }
}

/// The person-view relay panel: provenance and per-relay debt.
#[derive(Debug)]
pub struct RelayStatus {
    pub source: RelaySource,
    pub relays: Vec<RelayHealth>,
}

/// One effective relay with what the outbox still owes it.
#[derive(Debug)]
pub struct RelayHealth {
    /// Full spec (`dial[#relay-url]`).
    pub spec: String,
    pub owed: usize,
    /// Oldest owed entry's stamp; `None` when nothing is owed.
    pub owed_since_ms: Option<u64>,
}

pub struct HealthView {
    pub spec: Seq<char>,
    pub owed: nat,
    pub owed_since_ms: Option<u64>,
}

impl DeepView for RelayHealth {
    type V = HealthView;

    open spec fn deep_view(&self) -> HealthView {
        HealthView {
            spec: self.spec@,
            owed: self.owed as nat,
            owed_since_ms: self.owed_since_ms,
        }
    }
}

pub struct StatusView {
    pub source: RelaySource,
    pub relays: Seq<HealthView>,
}

impl DeepView for RelayStatus {
    type V = StatusView;

    open spec fn deep_view(&self) -> StatusView {
        StatusView { source: self.source, relays: self.relays.deep_view() }
    }
}

// ---- resolution ----

/// A record's relays count only for its own, first, key.
pub open spec fn publishes(record: RecordView, key: PublicKey) -> bool {
    stem(record) == Some(key)
}

/// A usable answer about a key, served by the key itself or by another.
pub open spec fn answers(key: PublicKey, from_subject: bool) -> spec_fn(LearnedView) -> bool {
    |e: LearnedView|
        (e.responder == key) == from_subject && publishes(e.record, key) && e.record.relays.len() > 0
}

pub open spec fn receipt() -> spec_fn(LearnedView) -> int {
    |e: LearnedView| e.received_ms as int
}

/// The latest usable answer of a class.
pub open spec fn latest(entries: Seq<LearnedView>, key: PublicKey, from_subject: bool) -> Option<
    LearnedView,
> {
    best(entries.filter(answers(key, from_subject)), receipt())
}

/// The override set for the entry under a key, where it names a relay.
pub open spec fn override_for(c: ClientView, key: PublicKey) -> Option<Seq<RelayView>> {
    match first(c.overrides, filed(key)) {
        Some(e) => if e.1.len() > 0 {
            Some(e.1)
        } else {
            None
        },
        None => None,
    }
}

/// The stored record, where it is the key's own.
pub open spec fn own_record(stored: Option<RecordView>, key: PublicKey) -> Option<RecordView> {
    match stored {
        Some(r) => if publishes(r, key) {
            Some(r)
        } else {
            None
        },
        None => None,
    }
}

/// The relays to reach a key at. The first class with an answer wins: the
/// manual override, what the subject served, the stored record, hearsay.
pub open spec fn resolution(c: ClientView, key: PublicKey, stored: Option<RecordView>) -> Option<
    ResolutionView,
> {
    let record = own_record(stored, key);
    let entries = learned_about(c, key);
    if record is Some && override_for(c, key) is Some {
        Some(ResolutionView { relays: override_for(c, key)->0, source: RelaySource::Override })
    } else {
        match latest(entries, key, true) {
            Some(e) => Some(
                ResolutionView {
                    relays: e.record.relays,
                    source: RelaySource::SubjectServed { received_ms: e.received_ms },
                },
            ),
            None => if record is Some && record->0.relays.len() > 0 {
                Some(ResolutionView { relays: record->0.relays, source: RelaySource::Scanned })
            } else {
                match latest(entries, key, false) {
                    Some(e) => Some(
                        ResolutionView {
                            relays: e.record.relays,
                            source: RelaySource::Hearsay { received_ms: e.received_ms },
                        },
                    ),
                    None => None,
                }
            },
        }
    }
}

/// The relays a key resolves to; none where nothing names one.
pub open spec fn effective(c: ClientView, key: PublicKey, stored: Option<RecordView>) -> Seq<
    RelayView,
> {
    match resolution(c, key, stored) {
        Some(r) => r.relays,
        None => Seq::empty(),
    }
}

pub open spec fn mailbox_of() -> spec_fn(RelayView) -> Seq<char> {
    |e: RelayView| e.mailbox
}

pub open spec fn url_of() -> spec_fn(RelayView) -> Option<Seq<char>> {
    |e: RelayView| e.relay_url
}

pub open spec fn mailboxes(relays: Seq<RelayView>) -> Seq<Seq<char>> {
    relays.map_values(mailbox_of())
}

/// The model of an optional reference to a record.
pub open spec fn record_model(r: Option<&ContactRecord>) -> Option<RecordView> {
    match r {
        Some(x) => Some(x.deep_view()),
        None => None,
    }
}

fn latest_answer(entries: &Vec<LearnedRecord>, key: &PublicKey, from_subject: bool) -> (r: Option<usize>)
    ensures
        match r {
            Some(i) => i < entries.len() && latest(entries.deep_view(), *key, from_subject) == Some(
                entries.deep_view()[i as int],
            ),
            None => latest(entries.deep_view(), *key, from_subject) is None,
        },
{
    let ghost s = entries.deep_view();
    let ghost p = answers(*key, from_subject);
    let mut found: Option<usize> = None;
    let mut i: usize = 0;
    proof {
        reveal(Seq::filter);
        assert(s.take(0).filter(p) =~= Seq::<LearnedView>::empty());
    }
    while i < entries.len()
        invariant
            i <= entries.len(),
            s == entries.deep_view(),
            p == answers(*key, from_subject),
            match found {
                Some(k) => k < i && best(s.take(i as int).filter(p), receipt()) == Some(
                    s[k as int],
                ),
                None => best(s.take(i as int).filter(p), receipt()) is None,
            },
        decreases entries.len() - i,
    {
        proof {
            lemma_filter_step(s, p, i as int);
        }
        let e: &LearnedRecord = &entries[i];
        let first_is: bool = match e.record.first_key() {
            Some(k) => k == *key,
            None => false,
        };
        if (e.responder == *key) == from_subject && first_is && e.record.relays.len() > 0 {
            proof {
                let f = s.take(i as int).filter(p);
                assert(p(s[i as int]));
                assert(f.push(s[i as int]).drop_last() =~= f);
            }
            match found {
                Some(k) => {
                    if e.received_ms >= entries[k].received_ms {
                        found = Some(i);
                    }
                },
                None => {
                    found = Some(i);
                },
            }
        }
        i += 1;
    }
    proof {
        lemma_take_all(s);
    }
    found
}

/// The dial strings of relay entries.
pub fn mailbox_list(relays: &Vec<RelayEntry>) -> (r: Vec<String>)
    ensures
        r.deep_view() == mailboxes(relays.deep_view()),
{
    let ghost s = relays.deep_view();
    let mut out: Vec<String> = Vec::new();
    assert(out.deep_view() =~= s.take(0).map_values(mailbox_of()));
    for i in 0..relays.len()
        invariant
            s == relays.deep_view(),
            out.deep_view() == s.take(i as int).map_values(mailbox_of()),
    {
        proof {
            lemma_map_step(s, mailbox_of(), i as int);
        }
        let ghost before = out.deep_view();
        out.push(relays[i].mailbox.clone());
        assert(out.deep_view() =~= before.push(s[i as int].mailbox));
    }
    proof {
        lemma_take_all(s);
    }
    out
}

/// The relay URLs of relay entries that have one.
pub fn url_list(relays: &Vec<RelayEntry>) -> (r: Vec<String>)
    ensures
        r.deep_view() == relays.deep_view().filter_map(url_of()),
{
    let ghost s = relays.deep_view();
    let mut out: Vec<String> = Vec::new();
    assert(out.deep_view() =~= s.take(0).filter_map(url_of()));
    for i in 0..relays.len()
        invariant
            s == relays.deep_view(),
            out.deep_view() == s.take(i as int).filter_map(url_of()),
    {
        proof {
            lemma_filter_map_step(s, url_of(), i as int);
        }
        match &relays[i].relay_url {
            Some(url) => {
                let ghost before = out.deep_view();
                out.push(url.clone());
                assert(out.deep_view() =~= before.push(url@));
            },
            None => {},
        }
    }
    proof {
        lemma_take_all(s);
    }
    out
}

/// Who a stored record is sent to: its keys, at the relays it resolves to.
pub open spec fn recipient(c: ClientView, record: RecordView) -> ContactView {
    ContactView {
        keys: record.keys,
        relays: mailboxes(
            match stem(record) {
                Some(key) => effective(c, key, Some(record)),
                None => record.relays,
            },
        ),
    }
}

/// Whom a petname addresses, or that nobody is stored under it.
pub open spec fn addressee(c: ClientView, petname: Seq<char>) -> Result<ContactView, ErrorView> {
    match entry_named(c, petname) {
        Some(e) => Ok(recipient(c, e.1)),
        None => Err(no_contact_named(petname)),
    }
}

/// The peer behind a key, where its relays name a URL.
pub open spec fn route(c: ClientView, key: PublicKey, stored: Option<RecordView>) -> Option<
    PeerView,
> {
    let urls = effective(c, key, stored).filter_map(url_of());
    if urls.len() > 0 {
        Some(PeerView { key, relays: urls })
    } else {
        None
    }
}

/// The dialable peer behind a key: its relays name a URL, and the transport
/// does not refuse it.
pub open spec fn dialable(
    c: ClientView,
    key: PublicKey,
    stored: Option<RecordView>,
    refused: Seq<RefusalView>,
) -> Result<PeerView, ErrorView> {
    match route(c, key, stored) {
        Some(peer) => admitted(refused, peer),
        None => Err(ErrorView::NoRelayUrl),
    }
}

/// A peer dialed by its key alone: reached exactly where the path it arrived
/// on still holds.
pub open spec fn bare(key: PublicKey) -> PeerView {
    PeerView { key, relays: Seq::empty() }
}

/// Every peer a key may be dialed as: the bare key, and what it resolves to
/// alone, with a contact's record, and with a device's.
pub open spec fn ways_to(c: ClientView) -> spec_fn(PublicKey) -> Seq<PeerView> {
    |key: PublicKey|
        seq![bare(key)] + as_list(route(c, key, None)) + as_list(
            match entry_with(c, key) {
                Some(e) => route(c, key, Some(e.1)),
                None => None,
            },
        ) + as_list(
            match device_with(c, key) {
                Some(d) => route(c, key, Some(d.1)),
                None => None,
            },
        )
}

impl Client {
    /// The relays to reach a key at, with the winning class named; `None`
    /// where nothing anywhere names one.
    pub fn resolve_relays(&self, key: PublicKey, stored: Option<&ContactRecord>) -> (r: Option<
        RelayResolution,
    >)
        ensures
            r.deep_view() == resolution(self.deep_view(), key, record_model(stored)),
    {
        let own: Option<&ContactRecord> = match stored {
            Some(record) => match record.first_key() {
                Some(k) => if k == key {
                    Some(record)
                } else {
                    None
                },
                None => None,
            },
            None => None,
        };
        assert(record_model(own) == own_record(record_model(stored), key));
        if own.is_some() {
            match find_filed(&self.overrides, &key) {
                Some(i) => {
                    if self.overrides[i].1.len() > 0 {
                        return Some(
                            RelayResolution {
                                relays: copies(&self.overrides[i].1),
                                source: RelaySource::Override,
                            },
                        );
                    }
                },
                None => {},
            }
        }
        let entries: Vec<LearnedRecord> = self.learned(&key);
        match latest_answer(&entries, &key, true) {
            Some(i) => {
                return Some(
                    RelayResolution {
                        relays: copies(&entries[i].record.relays),
                        source: RelaySource::SubjectServed { received_ms: entries[i].received_ms },
                    },
                );
            },
            None => {},
        }
        match own {
            Some(record) => {
                if record.relays.len() > 0 {
                    return Some(
                        RelayResolution {
                            relays: copies(&record.relays),
                            source: RelaySource::Scanned,
                        },
                    );
                }
            },
            None => {},
        }
        match latest_answer(&entries, &key, false) {
            Some(i) => Some(
                RelayResolution {
                    relays: copies(&entries[i].record.relays),
                    source: RelaySource::Hearsay { received_ms: entries[i].received_ms },
                },
            ),
            None => None,
        }
    }

    /// The relays to reach a key at; empty where nothing names one.
    pub fn effective_relays(&self, key: PublicKey, stored: Option<&ContactRecord>) -> (r: Vec<
        RelayEntry,
    >)
        ensures
            r.deep_view() == effective(self.deep_view(), key, record_model(stored)),
    {
        match self.resolve_relays(key, stored) {
            Some(resolution) => resolution.relays,
            None => {
                let none: Vec<RelayEntry> = Vec::new();
                assert(none.deep_view() =~= Seq::<RelayView>::empty());
                none
            },
        }
    }

    /// The read-time relay resolution for a bare key, through the record the
    /// client trusts for it.
    pub fn relay_resolution(&self, key: PublicKey) -> (r: Option<RelayResolution>)
        ensures
            r.deep_view() == resolution(
                self.deep_view(),
                key,
                trusted_record(self.deep_view(), key),
            ),
    {
        let stored: Option<ContactRecord> = self.trusted_record_for(&key);
        match &stored {
            Some(record) => self.resolve_relays(key, Some(record)),
            None => self.resolve_relays(key, None),
        }
    }

    /// The relays of a key through the record the client trusts for it.
    pub fn relays_of(&self, key: PublicKey) -> (r: Vec<RelayEntry>)
        ensures
            r.deep_view() == effective(self.deep_view(), key, trusted_record(self.deep_view(), key)),
    {
        let stored: Option<ContactRecord> = self.trusted_record_for(&key);
        match &stored {
            Some(record) => self.effective_relays(key, Some(record)),
            None => self.effective_relays(key, None),
        }
    }

    /// Keys from the stored record; relays resolved at read time.
    pub fn contact_from(&self, record: &ContactRecord) -> (r: Contact)
        ensures
            r.deep_view() == recipient(self.deep_view(), record.deep_view()),
    {
        let relays: Vec<RelayEntry> = match record.first_key() {
            Some(key) => self.effective_relays(key, Some(record)),
            None => copies(&record.relays),
        };
        let keys: Vec<PublicKey> = copies(&record.keys);
        proof {
            lemma_keys_view(&keys);
            lemma_keys_view(&record.keys);
        }
        Contact { keys, relays: mailbox_list(&relays) }
    }

    /// Petname to the contact to send to. Keys come from the user-added
    /// record alone; relays resolve at read time.
    pub fn resolve_contact(&self, petname: &str) -> (r: Result<Contact, Error>)
        ensures
            match addressee(self.deep_view(), petname@) {
                Ok(v) => r is Ok && r->Ok_0.deep_view() == v,
                Err(e) => r is Err && r->Err_0.deep_view() == e,
            },
    {
        match find_named(&self.contacts, petname) {
            Some(i) => Ok(self.contact_from(&self.contacts[i].1)),
            None => Err(unknown_petname(petname)),
        }
    }

    fn route_to(&self, key: PublicKey, stored: Option<&ContactRecord>) -> (r: Option<Peer>)
        ensures
            r.deep_view() == route(self.deep_view(), key, record_model(stored)),
    {
        let entries: Vec<RelayEntry> = self.effective_relays(key, stored);
        let relays: Vec<String> = url_list(&entries);
        if relays.len() == 0 {
            None
        } else {
            Some(Peer { key, relays })
        }
    }

    /// The dialable peer for a key: the key, routed via the relay URLs its
    /// records resolve to, where the transport does not refuse it.
    pub fn peer_addr_for(
        &self,
        key: PublicKey,
        stored: Option<&ContactRecord>,
        refused: &Vec<Refusal>,
    ) -> (r: Result<Peer, Error>)
        ensures
            match dialable(self.deep_view(), key, record_model(stored), refused.deep_view()) {
                Ok(p) => r is Ok && r->Ok_0.deep_view() == p,
                Err(e) => r is Err && r->Err_0.deep_view() == e,
            },
    {
        match self.route_to(key, stored) {
            Some(peer) => let_through(peer, refused),
            None => Err(Error::NoRelayUrl),
        }
    }

    fn listed_route(&self, key: PublicKey) -> (r: Option<Peer>)
        ensures
            r.deep_view() == (match entry_with(self.deep_view(), key) {
                Some(e) => route(self.deep_view(), key, Some(e.1)),
                None => None,
            }),
    {
        match find_listing(&self.contacts, &key) {
            Some(k) => self.route_to(key, Some(&self.contacts[k].1)),
            None => None,
        }
    }

    fn paired_route(&self, key: PublicKey) -> (r: Option<Peer>)
        ensures
            r.deep_view() == (match device_with(self.deep_view(), key) {
                Some(d) => route(self.deep_view(), key, Some(d.1)),
                None => None,
            }),
    {
        match find_filed(&self.devices, &key) {
            Some(k) => self.route_to(key, Some(&self.devices[k].1)),
            None => None,
        }
    }

    fn push_ways(&self, out: &mut Vec<Peer>, key: PublicKey)
        ensures
            final(out).deep_view() == old(out).deep_view() + ways_to(self.deep_view())(key),
    {
        let ghost before = out.deep_view();
        push_some(out, Some(bare_peer(key)));
        push_some(out, self.route_to(key, None));
        push_some(out, self.listed_route(key));
        push_some(out, self.paired_route(key));
        assert(out.deep_view() =~= before + ways_to(self.deep_view())(key));
    }

    /// Every peer some keys may be dialed as: what the transport is to judge
    /// before any of them is dialed.
    pub fn ways(&self, keys: &Vec<PublicKey>) -> (r: Vec<Peer>)
        ensures
            r.deep_view() == gathered(keys.deep_view(), ways_to(self.deep_view())),
    {
        let ghost c = self.deep_view();
        let ghost s = keys.deep_view();
        let ghost f = ways_to(c);
        let mut out: Vec<Peer> = Vec::new();
        assert(out.deep_view() =~= gathered(s.take(0), f));
        for i in 0..keys.len()
            invariant
                c == self.deep_view(),
                s == keys.deep_view(),
                f == ways_to(c),
                out.deep_view() == gathered(s.take(i as int), f),
        {
            let key: PublicKey = keys[i];
            proof {
                lemma_gathered_step(s, f, i as int);
                assert(s[i as int] == key);
            }
            self.push_ways(&mut out, key);
        }
        proof {
            lemma_take_all(s);
        }
        out
    }
}

fn push_some(out: &mut Vec<Peer>, peer: Option<Peer>)
    ensures
        final(out).deep_view() == old(out).deep_view() + as_list(peer.deep_view()),
{
    let ghost before = out.deep_view();
    match peer {
        Some(p) => {
            let ghost v = p.deep_view();
            out.push(p);
            assert(out.deep_view() =~= before + seq![v]);
        },
        None => {
            assert(out.deep_view() =~= before + Seq::<PeerView>::empty());
        },
    }
}

pub(crate) fn bare_peer(key: PublicKey) -> (r: Peer)
    ensures
        r.deep_view() == bare(key),
{
    let relays: Vec<String> = Vec::new();
    assert(relays.deep_view() =~= Seq::<Seq<char>>::empty());
    Peer { key, relays }
}

fn same_peer(a: &Peer, b: &Peer) -> (r: bool)
    ensures
        r == (a.deep_view() == b.deep_view()),
{
    let ghost s = a.relays.deep_view();
    let ghost t = b.relays.deep_view();
    proof {
        assert(s.len() == a.relays.len());
        assert(t.len() == b.relays.len());
    }
    if !(a.key == b.key) || a.relays.len() != b.relays.len() {
        return false;
    }
    for i in 0..a.relays.len()
        invariant
            s == a.relays.deep_view(),
            t == b.relays.deep_view(),
            a.relays.len() == b.relays.len(),
            forall|k: int| 0 <= k < i ==> #[trigger] s[k] == t[k],
    {
        assert(s[i as int] == a.relays@[i as int]@);
        assert(t[i as int] == b.relays@[i as int]@);
        if !same_text(&a.relays[i], b.relays[i].as_str()) {
            return false;
        }
    }
    assert(s =~= t);
    true
}

/// A peer, where the transport does not refuse it.
pub(crate) fn let_through(peer: Peer, refused: &Vec<Refusal>) -> (r: Result<Peer, Error>)
    ensures
        match admitted(refused.deep_view(), peer.deep_view()) {
            Ok(p) => r is Ok && r->Ok_0.deep_view() == p,
            Err(e) => r is Err && r->Err_0.deep_view() == e,
        },
{
    let ghost s = refused.deep_view();
    let ghost p = refuses(peer.deep_view());
    for i in 0..refused.len()
        invariant
            s == refused.deep_view(),
            p == refuses(peer.deep_view()),
            first(s.take(i as int), p) is None,
    {
        proof {
            lemma_first_step(s, p, i as int);
            assert(s[i as int] == refused@[i as int].deep_view());
        }
        if same_peer(&refused[i].peer, &peer) {
            proof {
                lemma_first_found(s, p, i + 1);
            }
            return Err(refused[i].why.duplicate());
        }
    }
    proof {
        lemma_take_all(s);
    }
    Ok(peer)
}

/// "no contact named ..."
pub open spec fn no_contact_named(petname: Seq<char>) -> ErrorView {
    ErrorView::NotAContact("no contact named "@ + quoted(petname))
}

pub(crate) fn unknown_petname(petname: &str) -> (r: Error)
    ensures
        r.deep_view() == no_contact_named(petname@),
{
    let name: String = quote(petname);
    Error::NotAContact(concat("no contact named ", name.as_str()))
}

// ---- debts ----

pub open spec fn owed_to(mailbox: Seq<char>) -> spec_fn(OutboxView) -> bool {
    |e: OutboxView| e.relay == mailbox
}

/// The oldest stamp among outbox entries with a property.
pub open spec fn oldest(s: Seq<OutboxView>, p: spec_fn(OutboxView) -> bool) -> Option<u64>
    decreases s.len(),
{
    if s.len() == 0 {
        None
    } else {
        let rest = oldest(s.drop_last(), p);
        if !p(s.last()) {
            rest
        } else {
            match rest {
                Some(t) => if s.last().created_ms < t {
                    Some(s.last().created_ms)
                } else {
                    Some(t)
                },
                None => Some(s.last().created_ms),
            }
        }
    }
}

/// A relay with what the outbox owes it.
pub open spec fn health(outbox: Seq<OutboxView>) -> spec_fn(RelayView) -> HealthView {
    |e: RelayView|
        HealthView {
            spec: spec_of_entry(e),
            owed: count_where(outbox, owed_to(e.mailbox)),
            owed_since_ms: oldest(outbox, owed_to(e.mailbox)),
        }
}

/// The relay panel of an entry, or why there is none.
pub open spec fn status(c: ClientView, petname: Seq<char>) -> Result<StatusView, ErrorView> {
    match entry_named(c, petname) {
        None => Err(ErrorView::NotAContact(petname)),
        Some(e) => match stem(e.1) {
            None => Err(ErrorView::InvalidRecord("stored record has no keys"@)),
            Some(key) => match resolution(c, key, Some(e.1)) {
                None => Err(ErrorView::InvalidRecord("no relays resolve for this contact"@)),
                Some(r) => Ok(
                    StatusView { source: r.source, relays: r.relays.map_values(health(c.outbox)) },
                ),
            },
        },
    }
}

fn health_of(outbox: &Vec<OutboxEntry>, entry: &RelayEntry) -> (r: RelayHealth)
    ensures
        r.deep_view() == health(outbox.deep_view())(entry.deep_view()),
{
    let ghost s = outbox.deep_view();
    let ghost p = owed_to(entry.mailbox@);
    let mut owed: usize = 0;
    let mut since: Option<u64> = None;
    proof {
        reveal(Seq::filter);
        assert(s.take(0).filter(p) =~= Seq::<OutboxView>::empty());
    }
    for i in 0..outbox.len()
        invariant
            s == outbox.deep_view(),
            p == owed_to(entry.mailbox@),
            owed == s.take(i as int).filter(p).len(),
            owed <= i,
            since == oldest(s.take(i as int), p),
    {
        proof {
            lemma_filter_step(s, p, i as int);
            lemma_take_step(s, i as int);
        }
        if same_text(&outbox[i].relay, entry.mailbox.as_str()) {
            owed += 1;
            since = match since {
                Some(t) => if outbox[i].created_ms < t {
                    Some(outbox[i].created_ms)
                } else {
                    Some(t)
                },
                None => Some(outbox[i].created_ms),
            };
        }
    }
    proof {
        lemma_take_all(s);
    }
    RelayHealth { spec: entry.to_spec(), owed, owed_since_ms: since }
}

impl Client {
    /// The relays a send to this contact would use right now, the class they
    /// came from, and what the outbox still owes each.
    pub fn relay_status(&self, petname: &str) -> (r: Result<RelayStatus, Error>)
        ensures
            match status(self.deep_view(), petname@) {
                Ok(v) => r is Ok && r->Ok_0.deep_view() == v,
                Err(e) => r is Err && r->Err_0.deep_view() == e,
            },
    {
        let at: usize = match find_named(&self.contacts, petname) {
            Some(i) => i,
            None => {
                return Err(Error::NotAContact(petname.to_owned()));
            },
        };
        let record: &ContactRecord = &self.contacts[at].1;
        let key: PublicKey = match record.first_key() {
            Some(k) => k,
            None => {
                return Err(Error::InvalidRecord("stored record has no keys".to_owned()));
            },
        };
        let resolution: RelayResolution = match self.resolve_relays(key, Some(record)) {
            Some(r) => r,
            None => {
                return Err(Error::InvalidRecord("no relays resolve for this contact".to_owned()));
            },
        };
        let ghost s = resolution.relays.deep_view();
        let ghost f = health(self.deep_view().outbox);
        let mut relays: Vec<RelayHealth> = Vec::new();
        assert(relays.deep_view() =~= s.take(0).map_values(f));
        for i in 0..resolution.relays.len()
            invariant
                s == resolution.relays.deep_view(),
                f == health(self.deep_view().outbox),
                relays.deep_view() == s.take(i as int).map_values(f),
        {
            proof {
                lemma_map_step(s, f, i as int);
            }
            let ghost before = relays.deep_view();
            relays.push(health_of(&self.outbox, &resolution.relays[i]));
            assert(relays.deep_view() =~= before.push(f(s[i as int])));
        }
        proof {
            lemma_take_all(s);
        }
        Ok(RelayStatus { source: resolution.source, relays })
    }
}

// ---- laws ----

/// A manual override on the key's own entry wins over everything learned.
pub proof fn law_override_wins(c: ClientView, key: PublicKey, stored: RecordView)
    requires
        publishes(stored, key),
        override_for(c, key) is Some,
    ensures
        resolution(c, key, Some(stored)) == Some(
            ResolutionView { relays: override_for(c, key)->0, source: RelaySource::Override },
        ),
{
}

/// Hearsay decides only where there is no record of the key's own naming a
/// relay and no answer by the key itself.
pub proof fn law_hearsay_last(c: ClientView, key: PublicKey, stored: Option<RecordView>)
    requires
        resolution(c, key, stored) is Some,
        resolution(c, key, stored)->0.source is Hearsay,
    ensures
        own_record(stored, key) is None || own_record(stored, key)->0.relays.len() == 0,
        latest(learned_about(c, key), key, true) is None,
{
}

/// A resolution names at least one relay.
pub proof fn law_resolution_not_empty(c: ClientView, key: PublicKey, stored: Option<RecordView>)
    requires
        resolution(c, key, stored) is Some,
    ensures
        resolution(c, key, stored)->0.relays.len() > 0,
{
    let entries = learned_about(c, key);
    lemma_latest(entries, key, true);
    lemma_latest(entries, key, false);
}

/// The latest answer of a class is a usable answer of that class, and none of
/// them is later.
pub proof fn lemma_latest(entries: Seq<LearnedView>, key: PublicKey, from_subject: bool)
    ensures
        match latest(entries, key, from_subject) {
            Some(e) => answers(key, from_subject)(e) && entries.contains(e) && forall|i: int|
                0 <= i < entries.len() && answers(key, from_subject)(#[trigger] entries[i])
                    ==> entries[i].received_ms <= e.received_ms,
            None => forall|i: int|
                0 <= i < entries.len() ==> !answers(key, from_subject)(#[trigger] entries[i]),
        },
{
    let p = answers(key, from_subject);
    let f = entries.filter(p);
    crate::seqs::lemma_best(f, receipt());
    crate::seqs::lemma_filter(entries, p);
    match latest(entries, key, from_subject) {
        Some(e) => {
            let k = choose|k: int| 0 <= k < f.len() && f[k] == e;
            assert(p(f[k]));
            assert(entries.contains(f[k]));
            assert forall|i: int| 0 <= i < entries.len() && p(#[trigger] entries[i]) implies entries[i].received_ms
                <= e.received_ms by {
                assert(f.contains(entries[i]));
                let j = choose|j: int| 0 <= j < f.len() && f[j] == entries[i];
                assert(receipt()(f[j]) <= receipt()(e));
            }
        },
        None => {
            assert forall|i: int| 0 <= i < entries.len() implies !p(#[trigger] entries[i]) by {
                if p(entries[i]) {
                    assert(f.contains(entries[i]));
                }
            }
        },
    }
}

/// Relays bind to the publishing device: whatever a resolution takes from a
/// record, that record's first key is the key itself.
pub proof fn law_relays_bind_to_publisher(c: ClientView, key: PublicKey, stored: Option<RecordView>)
    requires
        resolution(c, key, stored) is Some,
    ensures
        resolution(c, key, stored)->0.source is Override || exists|record: RecordView|
            #![auto]
            publishes(record, key) && record.relays == resolution(c, key, stored)->0.relays,
{
    let entries = learned_about(c, key);
    lemma_latest(entries, key, true);
    lemma_latest(entries, key, false);
    match resolution(c, key, stored)->0.source {
        RelaySource::Override => {},
        RelaySource::SubjectServed { .. } => {
            let e = latest(entries, key, true)->0;
            assert(publishes(e.record, key) && e.record.relays == resolution(c, key, stored)->0.relays);
        },
        RelaySource::Scanned => {
            let r = own_record(stored, key)->0;
            assert(publishes(r, key) && r.relays == resolution(c, key, stored)->0.relays);
        },
        RelaySource::Hearsay { .. } => {
            let e = latest(entries, key, false)->0;
            assert(publishes(e.record, key) && e.record.relays == resolution(c, key, stored)->0.relays);
        },
    }
}

/// A peer the transport refuses is never dialable, whatever names its route.
pub proof fn law_refused_is_not_dialable(
    c: ClientView,
    key: PublicKey,
    stored: Option<RecordView>,
    refused: Seq<RefusalView>,
    i: int,
)
    requires
        0 <= i < refused.len(),
    ensures
        dialable(c, key, stored, refused) != Ok::<PeerView, ErrorView>(refused[i].peer),
{
    match route(c, key, stored) {
        Some(peer) => {
            lemma_first(refused, refuses(peer));
            if peer == refused[i].peer {
                assert(refuses(peer)(refused[i]));
            }
        },
        None => {},
    }
}

/// Whoever is dialed is among those the transport is asked about.
pub proof fn law_ways_cover_every_dial(c: ClientView, key: PublicKey, refused: Seq<RefusalView>)
    ensures
        ways_to(c)(key).contains(bare(key)),
        dialable(c, key, None, refused) is Ok ==> ways_to(c)(key).contains(
            dialable(c, key, None, refused)->Ok_0,
        ),
        dialable(c, key, trusted_record(c, key), refused) is Ok ==> ways_to(c)(key).contains(
            dialable(c, key, trusted_record(c, key), refused)->Ok_0,
        ),
        match device_with(c, key) {
            Some(d) => dialable(c, key, Some(d.1), refused) is Ok ==> ways_to(c)(key).contains(
                dialable(c, key, Some(d.1), refused)->Ok_0,
            ),
            None => true,
        },
{
    let w = ways_to(c)(key);
    let alone = as_list(route(c, key, None));
    let listed = as_list(
        match entry_with(c, key) {
            Some(e) => route(c, key, Some(e.1)),
            None => None,
        },
    );
    let paired = as_list(
        match device_with(c, key) {
            Some(d) => route(c, key, Some(d.1)),
            None => None,
        },
    );
    assert(w == seq![bare(key)] + alone + listed + paired);
    assert(w[0] == bare(key));
    if alone.len() > 0 {
        assert(w[1] == alone[0]);
    }
    if listed.len() > 0 {
        assert(w[(1 + alone.len()) as int] == listed[0]);
    }
    if paired.len() > 0 {
        assert(w[(1 + alone.len() + listed.len()) as int] == paired[0]);
    }
}

/// A message to a contact addresses every device of theirs: the keys of whom a
/// stored record is sent to are the keys the record lists, all of them, in
/// their order.
pub proof fn law_contact_has_every_key(c: ClientView, record: RecordView, key: PublicKey)
    ensures
        recipient(c, record).keys.contains(key) <==> record.keys.contains(key),
        recipient(c, record).keys.len() == record.keys.len(),
        forall|i: int|
            0 <= i < record.keys.len() ==> #[trigger] recipient(c, record).keys[i] == record.keys[i],
{
}

/// A contact is reached at every relay its first key resolves to, by the
/// relay's mailbox, in order; a record without a key at the relays it names.
pub proof fn law_contact_has_every_relay(c: ClientView, record: RecordView)
    ensures
        record.keys.len() > 0 ==> {
            let all = effective(c, record.keys[0], Some(record));
            &&& recipient(c, record).relays.len() == all.len()
            &&& forall|i: int|
                0 <= i < all.len() ==> recipient(c, record).relays[i] == (#[trigger] all[i]).mailbox
        },
        record.keys.len() == 0 ==> {
            &&& recipient(c, record).relays.len() == record.relays.len()
            &&& forall|i: int|
                0 <= i < record.relays.len() ==> recipient(c, record).relays[i] == (
                #[trigger] record.relays[i]).mailbox
        },
{
}

/// A petname addresses the first contact stored under it, with every key of
/// that contact's record; it addresses nobody exactly where nobody has it.
pub proof fn law_petname_addresses_its_contact(c: ClientView, petname: Seq<char>, i: int)
    ensures
        0 <= i < c.contacts.len() && c.contacts[i].0 == petname && (forall|j: int|
            0 <= j < i ==> (#[trigger] c.contacts[j]).0 != petname) ==> match addressee(c, petname) {
            Ok(v) => {
                &&& v.keys == c.contacts[i].1.keys
                &&& c.contacts[i].1.keys.len() > 0 ==> v.relays == mailboxes(
                    effective(c, c.contacts[i].1.keys[0], Some(c.contacts[i].1)),
                )
            },
            Err(_) => false,
        },
        (forall|j: int| 0 <= j < c.contacts.len() ==> (#[trigger] c.contacts[j]).0 != petname)
            <==> addressee(c, petname) is Err,
{
    crate::client::law_entry_by_petname(c, petname);
    if 0 <= i < c.contacts.len() && c.contacts[i].0 == petname && (forall|j: int|
        0 <= j < i ==> (#[trigger] c.contacts[j]).0 != petname) {
        assert forall|j: int| 0 <= j < i implies !crate::client::named(petname)(
            #[trigger] c.contacts[j],
        ) by {}
        crate::seqs::lemma_first_is(c.contacts, crate::client::named(petname), i);
    }
}

/// An answer about a key that names where the key is reached: its record is
/// the key's own and lists a relay.
pub open spec fn tells_of(e: LearnedView, key: PublicKey) -> bool {
    e.record.keys.len() > 0 && e.record.keys[0] == key && e.record.relays.len() > 0
}

/// A record of the key's own.
pub open spec fn is_of(stored: Option<RecordView>, key: PublicKey) -> bool {
    match stored {
        Some(r) => r.keys.len() > 0 && r.keys[0] == key,
        None => false,
    }
}

/// Where a key is reached, and on whose word: an override where one is set on
/// the key's own record, else the latest the key said itself, else the stored
/// record, else the latest anybody else said. Nothing is resolved exactly
/// where nobody names a relay.
pub proof fn law_resolution_by_class(c: ClientView, key: PublicKey, stored: Option<RecordView>)
    ensures
        match resolution(c, key, stored) {
            Some(r) => {
                &&& r.relays.len() > 0
                &&& match r.source {
                    RelaySource::Override => is_of(stored, key) && c.overrides.contains(
                        (key, r.relays),
                    ),
                    RelaySource::SubjectServed { received_ms } => {
                        &&& exists|e: LearnedView| #[trigger]
                            c.learned.contains((key, e)) && tells_of(e, key) && e.responder == key
                                && e.record.relays == r.relays && e.received_ms == received_ms
                        &&& forall|e: LearnedView| #[trigger]
                            c.learned.contains((key, e)) && tells_of(e, key) && e.responder == key
                                ==> e.received_ms <= received_ms
                    },
                    RelaySource::Scanned => {
                        &&& is_of(stored, key)
                        &&& stored->0.relays == r.relays
                        &&& forall|e: LearnedView| #[trigger]
                            c.learned.contains((key, e)) && tells_of(e, key) ==> e.responder != key
                    },
                    RelaySource::Hearsay { received_ms } => {
                        &&& is_of(stored, key) ==> stored->0.relays.len() == 0
                        &&& exists|e: LearnedView| #[trigger]
                            c.learned.contains((key, e)) && tells_of(e, key) && e.record.relays
                                == r.relays && e.received_ms == received_ms
                        &&& forall|e: LearnedView| #[trigger]
                            c.learned.contains((key, e)) && tells_of(e, key) ==> e.responder != key
                                && e.received_ms <= received_ms
                    },
                }
            },
            None => {
                &&& is_of(stored, key) ==> stored->0.relays.len() == 0
                &&& forall|e: LearnedView| #[trigger]
                    c.learned.contains((key, e)) ==> !tells_of(e, key)
            },
        },
{
    let entries = learned_about(c, key);
    lemma_latest(entries, key, true);
    lemma_latest(entries, key, false);
    assert forall|e: LearnedView| #[trigger] c.learned.contains((key, e)) && tells_of(e, key) implies {
        match latest(entries, key, e.responder == key) {
            Some(l) => e.received_ms <= l.received_ms,
            None => false,
        }
    } by {
        crate::client::law_learned_about(c, key, e);
        let i = choose|i: int| 0 <= i < entries.len() && entries[i] == e;
        assert(answers(key, e.responder == key)(entries[i]));
    }
    lemma_first(c.overrides, filed(key));
    match latest(entries, key, true) {
        Some(e) => {
            crate::client::law_learned_about(c, key, e);
            assert(c.learned.contains((key, e)) && tells_of(e, key) && e.responder == key);
        },
        None => {},
    }
    match latest(entries, key, false) {
        Some(e) => {
            crate::client::law_learned_about(c, key, e);
            assert(c.learned.contains((key, e)) && tells_of(e, key) && e.responder != key);
        },
        None => {},
    }
}

/// An override that names a relay is where its contact is reached, whatever
/// else is known.
pub proof fn law_set_override_decides(c: ClientView, key: PublicKey, stored: Option<RecordView>, i: int)
    requires
        is_of(stored, key),
        0 <= i < c.overrides.len(),
        c.overrides[i].0 == key,
        c.overrides[i].1.len() > 0,
        forall|j: int| 0 <= j < i ==> (#[trigger] c.overrides[j]).0 != key,
    ensures
        resolution(c, key, stored) == Some(
            ResolutionView { relays: c.overrides[i].1, source: RelaySource::Override },
        ),
        effective(c, key, stored) == c.overrides[i].1,
{
    assert forall|j: int| 0 <= j < i implies !filed::<Seq<RelayView>>(key)(
        #[trigger] c.overrides[j],
    ) by {}
    crate::seqs::lemma_first_is(c.overrides, filed(key), i);
}

/// A key is dialed as itself, over the relay URLs it resolves to, all of them;
/// it cannot be dialed for want of a URL exactly where it resolves to none.
pub proof fn law_dialed_over_every_url(
    c: ClientView,
    key: PublicKey,
    stored: Option<RecordView>,
    refused: Seq<RefusalView>,
    url: Seq<char>,
)
    ensures
        match dialable(c, key, stored, refused) {
            Ok(p) => {
                &&& p.key == key
                &&& p.relays.contains(url) <==> exists|i: int|
                    0 <= i < effective(c, key, stored).len() && (#[trigger] effective(
                        c,
                        key,
                        stored,
                    )[i]).relay_url == Some(url)
                &&& p.relays.len() > 0
            },
            Err(e) => {
                ||| e == ErrorView::NoRelayUrl && forall|i: int|
                    0 <= i < effective(c, key, stored).len() ==> (#[trigger] effective(
                        c,
                        key,
                        stored,
                    )[i]).relay_url is None
                ||| exists|j: int|
                    0 <= j < refused.len() && (#[trigger] refused[j]).peer.key == key
                        && refused[j].why == e
            },
        },
{
    let s = effective(c, key, stored);
    let f = url_of();
    let urls = s.filter_map(f);
    if urls.contains(url) {
        let k = choose|k: int| 0 <= k < urls.len() && urls[k] == url;
        let i = crate::seqs::lemma_filter_map_source(s, f, k);
        assert(s[i].relay_url == Some(url));
    }
    if exists|i: int| 0 <= i < s.len() && (#[trigger] s[i]).relay_url == Some(url) {
        let i = choose|i: int| 0 <= i < s.len() && (#[trigger] s[i]).relay_url == Some(url);
        crate::seqs::lemma_filter_map_has(s, f, i);
    }
    if urls.len() == 0 {
        assert forall|i: int| 0 <= i < s.len() implies (#[trigger] s[i]).relay_url is None by {
            if s[i].relay_url is Some {
                crate::seqs::lemma_filter_map_has(s, f, i);
            }
        }
    } else {
        let peer = PeerView { key, relays: urls };
        lemma_first(refused, refuses(peer));
        match first(refused, refuses(peer)) {
            Some(x) => {
                let j = choose|j: int| 0 <= j < refused.len() && refused[j] == x;
                assert(refused[j].peer.key == key);
            },
            None => {},
        }
    }
}

/// What the relay panel says of a relay: something is owed exactly where the
/// ledger has an entry for its mailbox, and since the oldest of them.
pub proof fn law_panel_shows_the_debt(c: ClientView, petname: Seq<char>, k: int)
    requires
        status(c, petname) is Ok,
        0 <= k < status(c, petname)->Ok_0.relays.len(),
    ensures
        ({
            let e = (entry_named(c, petname)->0).1;
            let all = effective(c, e.keys[0], Some(e));
            let h = status(c, petname)->Ok_0.relays[k];
            &&& status(c, petname)->Ok_0.relays.len() == all.len()
            &&& h.spec == spec_of_entry(all[k])
            &&& match h.owed_since_ms {
                Some(t) => {
                    &&& h.owed > 0
                    &&& exists|i: int|
                        0 <= i < c.outbox.len() && (#[trigger] c.outbox[i]).relay == all[k].mailbox
                            && c.outbox[i].created_ms == t
                    &&& forall|i: int|
                        0 <= i < c.outbox.len() && (#[trigger] c.outbox[i]).relay == all[k].mailbox
                            ==> t <= c.outbox[i].created_ms
                },
                None => {
                    &&& h.owed == 0
                    &&& forall|i: int|
                        0 <= i < c.outbox.len() ==> (#[trigger] c.outbox[i]).relay != all[k].mailbox
                },
            }
        }),
{
    let e = (entry_named(c, petname)->0).1;
    let all = effective(c, e.keys[0], Some(e));
    let p = owed_to(all[k].mailbox);
    law_oldest(c.outbox, p);
    crate::seqs::lemma_filter(c.outbox, p);
    match oldest(c.outbox, p) {
        Some(t) => {
            let i = choose|i: int|
                0 <= i < c.outbox.len() && p(#[trigger] c.outbox[i]) && c.outbox[i].created_ms == t;
            assert(c.outbox.filter(p).contains(c.outbox[i]));
        },
        None => {
            if c.outbox.filter(p).len() > 0 {
                let f = c.outbox.filter(p)[0];
                assert(c.outbox.contains(f));
                let i = choose|i: int| 0 <= i < c.outbox.len() && c.outbox[i] == f;
                assert(p(c.outbox[i]));
            }
            assert forall|i: int| 0 <= i < c.outbox.len() implies (#[trigger] c.outbox[i]).relay
                != all[k].mailbox by {
                assert(!p(c.outbox[i]));
            }
        },
    }
}

/// The oldest stamp with a property is one of theirs, and none is older.
pub proof fn law_oldest(s: Seq<OutboxView>, p: spec_fn(OutboxView) -> bool)
    ensures
        match oldest(s, p) {
            Some(t) => {
                &&& exists|i: int| 0 <= i < s.len() && p(#[trigger] s[i]) && s[i].created_ms == t
                &&& forall|i: int| 0 <= i < s.len() && p(#[trigger] s[i]) ==> t <= s[i].created_ms
            },
            None => forall|i: int| 0 <= i < s.len() ==> !p(#[trigger] s[i]),
        },
    decreases s.len(),
{
    if s.len() > 0 {
        let d = s.drop_last();
        law_oldest(d, p);
        let n = s.len() - 1;
        assert(s[n] == s.last());
        match oldest(d, p) {
            Some(t) => {
                let i = choose|i: int|
                    0 <= i < d.len() && p(#[trigger] d[i]) && d[i].created_ms == t;
                assert(s[i] == d[i]);
            },
            None => {},
        }
        assert forall|i: int| 0 <= i < s.len() && p(#[trigger] s[i]) implies oldest(s, p) is Some
            && oldest(s, p)->0 <= s[i].created_ms by {
            if i < n {
                assert(p(d[i]));
            }
        }
        if oldest(s, p) is Some {
            if p(s[n]) && oldest(s, p) == Some(s[n].created_ms) {
                assert(p(s[n]) && s[n].created_ms == oldest(s, p)->0);
            } else {
                let t = oldest(d, p)->0;
                let i = choose|i: int|
                    0 <= i < d.len() && p(#[trigger] d[i]) && d[i].created_ms == t;
                assert(p(s[i]) && s[i].created_ms == t);
            }
        }
    }
}

} // verus!
