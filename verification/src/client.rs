//! The client's knowledge: everything its decisions read, as plain values.
//! Edges load it from disk, hand it events, and persist what an operation
//! changed; nothing here touches a file or a socket.
use vstd::prelude::*;

use crate::history::{Conversation, ConversationView};
use crate::ids::{MessageId, PublicKey};
use crate::order::{copies, holds, lists, set_insert, Duplicate};
use crate::record::{ContactRecord, RecordView, RelayEntry, RelayView, SignedAttestation, SignedView};
use crate::seqs::{first, lemma_filter_step, lemma_first, lemma_first_found, lemma_first_is, lemma_first_step, lemma_map_step, lemma_take_all};

verus! {

/// An answer a responder served about a subject. Advisory input with
/// provenance, ranked at read time, never merged or promoted implicitly.
#[derive(Debug)]
pub struct LearnedRecord {
    pub responder: PublicKey,
    pub record: ContactRecord,
    /// The responder's own claims about the subject.
    pub endorsements: Vec<SignedAttestation>,
    /// Local receipt time: orders answers within a provenance class.
    pub received_ms: u64,
}

pub struct LearnedView {
    pub responder: PublicKey,
    pub record: RecordView,
    pub endorsements: Seq<SignedView>,
    pub received_ms: u64,
}

impl DeepView for LearnedRecord {
    type V = LearnedView;

    open spec fn deep_view(&self) -> LearnedView {
        LearnedView {
            responder: self.responder,
            record: self.record.deep_view(),
            endorsements: self.endorsements.deep_view(),
            received_ms: self.received_ms,
        }
    }
}

impl Duplicate for LearnedRecord {
    fn duplicate(&self) -> (r: Self) {
        LearnedRecord {
            responder: self.responder,
            record: self.record.duplicate(),
            endorsements: copies(&self.endorsements),
            received_ms: self.received_ms,
        }
    }
}

/// One outstanding delivery: `message` (of `conversation`) still owes `relay`
/// a deposit and any blob pushes.
#[derive(Debug)]
pub struct OutboxEntry {
    pub message: MessageId,
    pub relay: String,
    pub conversation: MessageId,
    pub created_ms: u64,
}

pub struct OutboxView {
    pub message: MessageId,
    pub relay: Seq<char>,
    pub conversation: MessageId,
    pub created_ms: u64,
}

impl DeepView for OutboxEntry {
    type V = OutboxView;

    open spec fn deep_view(&self) -> OutboxView {
        OutboxView {
            message: self.message,
            relay: self.relay@,
            conversation: self.conversation,
            created_ms: self.created_ms,
        }
    }
}

impl Duplicate for OutboxEntry {
    fn duplicate(&self) -> (r: Self) {
        OutboxEntry {
            message: self.message,
            relay: self.relay.clone(),
            conversation: self.conversation,
            created_ms: self.created_ms,
        }
    }
}

/// A person row: the local lens grouping contact entries under one label.
/// Members are the entries' first keys.
#[derive(Debug)]
pub struct PersonRow {
    pub id: u128,
    pub label: String,
    pub members: Vec<PublicKey>,
}

pub struct PersonRowView {
    pub id: u128,
    pub label: Seq<char>,
    pub members: Seq<PublicKey>,
}

impl DeepView for PersonRow {
    type V = PersonRowView;

    open spec fn deep_view(&self) -> PersonRowView {
        PersonRowView { id: self.id, label: self.label@, members: self.members@ }
    }
}

impl Duplicate for PersonRow {
    fn duplicate(&self) -> (r: Self) {
        let members: Vec<PublicKey> = copies(&self.members);
        proof {
            crate::record::lemma_keys_view(&self.members);
            crate::record::lemma_keys_view(&members);
        }
        PersonRow { id: self.id, label: self.label.clone(), members }
    }
}

impl<A: Duplicate, B: Duplicate> Duplicate for (A, B) {
    fn duplicate(&self) -> (r: Self) {
        (self.0.duplicate(), self.1.duplicate())
    }
}

/// A contact-add a sibling device offers: latest per subject.
#[derive(Debug)]
pub struct LensOffer {
    pub subject: PublicKey,
    pub author: PublicKey,
    pub petname: String,
    pub record: ContactRecord,
}

pub struct OfferView {
    pub subject: PublicKey,
    pub author: PublicKey,
    pub petname: Seq<char>,
    pub record: RecordView,
}

impl DeepView for LensOffer {
    type V = OfferView;

    open spec fn deep_view(&self) -> OfferView {
        OfferView {
            subject: self.subject,
            author: self.author,
            petname: self.petname@,
            record: self.record.deep_view(),
        }
    }
}

impl Duplicate for LensOffer {
    fn duplicate(&self) -> (r: Self) {
        LensOffer {
            subject: self.subject,
            author: self.author,
            petname: self.petname.clone(),
            record: self.record.duplicate(),
        }
    }
}

/// A label a sibling gave a person that was not adopted.
#[derive(Debug)]
pub struct Conflict {
    pub person: u128,
    pub theirs: String,
    pub author: PublicKey,
}

pub struct ConflictView {
    pub person: u128,
    pub theirs: Seq<char>,
    pub author: PublicKey,
}

impl DeepView for Conflict {
    type V = ConflictView;

    open spec fn deep_view(&self) -> ConflictView {
        ConflictView { person: self.person, theirs: self.theirs@, author: self.author }
    }
}

impl Duplicate for Conflict {
    fn duplicate(&self) -> (r: Self) {
        Conflict { person: self.person, theirs: self.theirs.clone(), author: self.author }
    }
}

/// Everything the client's decisions read.
pub struct Client {
    /// This device's key.
    pub device: PublicKey,
    /// The user-added contacts as `(petname, record)`, petname-sorted.
    pub contacts: Vec<(String, ContactRecord)>,
    /// Recognized own devices as `(device key, record)`.
    pub devices: Vec<(PublicKey, ContactRecord)>,
    /// The link vouch this device has signed for each sibling.
    pub device_vouches: Vec<(PublicKey, SignedAttestation)>,
    /// The stance issued about each subject: a name vouch or a disavowal.
    pub vouches: Vec<(PublicKey, SignedAttestation)>,
    /// The picture shared of each subject.
    pub avatar_shares: Vec<(PublicKey, SignedAttestation)>,
    /// Answers learned, with the subject each is about.
    pub learned: Vec<(PublicKey, LearnedRecord)>,
    /// Manual relay overrides by contact entry key.
    pub overrides: Vec<(PublicKey, Vec<RelayEntry>)>,
    /// Person rows, id-sorted.
    pub persons: Vec<PersonRow>,
    /// Keys the user chose to ignore, ascending.
    pub dismissed: Vec<PublicKey>,
    /// Outstanding deliveries, oldest first.
    pub outbox: Vec<OutboxEntry>,
    /// Recipient devices that confirmed a durable store, by message.
    pub acks: Vec<(MessageId, Vec<PublicKey>)>,
    /// Stored conversations, ascending by id.
    pub conversations: Vec<Conversation>,
    /// Which conversation each participant set maps to.
    pub index: Vec<(Vec<PublicKey>, MessageId)>,
    /// Contact-adds offered by siblings.
    pub offers: Vec<LensOffer>,
    /// Label conflicts surfaced from siblings.
    pub conflicts: Vec<Conflict>,
    /// Conversations known to carry lens ops.
    pub lens_channels: Vec<MessageId>,
    /// The channel this device emits lens ops into.
    pub lens_conversation: Option<MessageId>,
    /// Lens messages already dealt with.
    pub lens_applied: Vec<MessageId>,
}

pub struct ClientView {
    pub device: PublicKey,
    pub contacts: Seq<(Seq<char>, RecordView)>,
    pub devices: Seq<(PublicKey, RecordView)>,
    pub device_vouches: Seq<(PublicKey, SignedView)>,
    pub vouches: Seq<(PublicKey, SignedView)>,
    pub avatar_shares: Seq<(PublicKey, SignedView)>,
    pub learned: Seq<(PublicKey, LearnedView)>,
    pub overrides: Seq<(PublicKey, Seq<RelayView>)>,
    pub persons: Seq<PersonRowView>,
    pub dismissed: Seq<PublicKey>,
    pub outbox: Seq<OutboxView>,
    pub acks: Seq<(MessageId, Seq<PublicKey>)>,
    pub conversations: Seq<ConversationView>,
    pub index: Seq<(Seq<PublicKey>, MessageId)>,
    pub offers: Seq<OfferView>,
    pub conflicts: Seq<ConflictView>,
    pub lens_channels: Seq<MessageId>,
    pub lens_conversation: Option<MessageId>,
    pub lens_applied: Seq<MessageId>,
}

impl DeepView for Client {
    type V = ClientView;

    open spec fn deep_view(&self) -> ClientView {
        ClientView {
            device: self.device,
            contacts: self.contacts.deep_view(),
            devices: self.devices.deep_view(),
            device_vouches: self.device_vouches.deep_view(),
            vouches: self.vouches.deep_view(),
            avatar_shares: self.avatar_shares.deep_view(),
            learned: self.learned.deep_view(),
            overrides: self.overrides.deep_view(),
            persons: self.persons.deep_view(),
            dismissed: self.dismissed.deep_view(),
            outbox: self.outbox.deep_view(),
            acks: self.acks.deep_view(),
            conversations: self.conversations.deep_view(),
            index: self.index.deep_view(),
            offers: self.offers.deep_view(),
            conflicts: self.conflicts.deep_view(),
            lens_channels: self.lens_channels.deep_view(),
            lens_conversation: self.lens_conversation,
            lens_applied: self.lens_applied.deep_view(),
        }
    }
}

// ---- lookups ----

/// Entries under a petname.
pub open spec fn named(petname: Seq<char>) -> spec_fn((Seq<char>, RecordView)) -> bool {
    |e: (Seq<char>, RecordView)| e.0 == petname
}

/// Entries whose record lists a key.
pub open spec fn listing(key: PublicKey) -> spec_fn((Seq<char>, RecordView)) -> bool {
    |e: (Seq<char>, RecordView)| e.1.keys.contains(key)
}

/// Pairs filed under a key.
pub open spec fn filed<V>(key: PublicKey) -> spec_fn((PublicKey, V)) -> bool {
    |e: (PublicKey, V)| e.0 == key
}

pub open spec fn second<V>() -> spec_fn((PublicKey, V)) -> V {
    |e: (PublicKey, V)| e.1
}

/// The entry a key belongs to.
pub open spec fn entry_with(c: ClientView, key: PublicKey) -> Option<(Seq<char>, RecordView)> {
    first(c.contacts, listing(key))
}

/// The entry under a petname.
pub open spec fn entry_named(c: ClientView, petname: Seq<char>) -> Option<(Seq<char>, RecordView)> {
    first(c.contacts, named(petname))
}

/// The recognized device with a key.
pub open spec fn device_with(c: ClientView, key: PublicKey) -> Option<(PublicKey, RecordView)> {
    first(c.devices, filed(key))
}

/// This device's key cluster: itself and the recognized devices.
pub open spec fn own(c: ClientView) -> Set<PublicKey> {
    c.devices.map_values(|e: (PublicKey, RecordView)| e.0).to_set().insert(c.device)
}

pub proof fn lemma_own_finite(c: ClientView)
    ensures
        own(c).finite(),
{
    let keys = c.devices.map_values(|e: (PublicKey, RecordView)| e.0);
    vstd::seq_lib::seq_to_set_is_finite(keys);
    assert(own(c) =~= keys.to_set().insert(c.device));
}

/// The stored record of a key the client trusts: a contact's, else a
/// recognized device's.
pub open spec fn trusted_record(c: ClientView, key: PublicKey) -> Option<RecordView> {
    match entry_with(c, key) {
        Some(e) => Some(e.1),
        None => match device_with(c, key) {
            Some(d) => Some(d.1),
            None => None,
        },
    }
}

/// The answers learned about a subject, in stored order.
pub open spec fn learned_about(c: ClientView, subject: PublicKey) -> Seq<LearnedView> {
    c.learned.filter(filed(subject)).map_values(second())
}

/// The stance issued about a subject.
pub open spec fn stance(c: ClientView, subject: PublicKey) -> Option<SignedView> {
    match first(c.vouches, filed(subject)) {
        Some(e) => Some(e.1),
        None => None,
    }
}

/// The picture shared of a subject.
pub open spec fn share_of(c: ClientView, subject: PublicKey) -> Option<SignedView> {
    match first(c.avatar_shares, filed(subject)) {
        Some(e) => Some(e.1),
        None => None,
    }
}

/// The index of the first entry whose record lists the key.
pub fn find_listing(contacts: &Vec<(String, ContactRecord)>, key: &PublicKey) -> (r: Option<usize>)
    ensures
        match r {
            Some(i) => i < contacts.len() && first(contacts.deep_view(), listing(*key)) == Some(
                contacts.deep_view()[i as int],
            ),
            None => first(contacts.deep_view(), listing(*key)) is None,
        },
{
    let ghost s = contacts.deep_view();
    let mut i: usize = 0;
    while i < contacts.len()
        invariant
            s == contacts.deep_view(),
            i <= contacts.len(),
            first(s.take(i as int), listing(*key)) is None,
        decreases contacts.len() - i,
    {
        proof {
            lemma_first_step(s, listing(*key), i as int);
        }
        if contacts[i].1.lists(key) {
            proof {
                lemma_first_found(s, listing(*key), i + 1);
            }
            return Some(i);
        }
        i += 1;
    }
    proof {
        lemma_take_all(s);
    }
    None
}

/// The index of the first entry under the petname.
pub fn find_named(contacts: &Vec<(String, ContactRecord)>, petname: &str) -> (r: Option<usize>)
    ensures
        match r {
            Some(i) => i < contacts.len() && first(contacts.deep_view(), named(petname@)) == Some(
                contacts.deep_view()[i as int],
            ),
            None => first(contacts.deep_view(), named(petname@)) is None,
        },
{
    let ghost s = contacts.deep_view();
    let mut i: usize = 0;
    while i < contacts.len()
        invariant
            s == contacts.deep_view(),
            i <= contacts.len(),
            first(s.take(i as int), named(petname@)) is None,
        decreases contacts.len() - i,
    {
        proof {
            lemma_first_step(s, named(petname@), i as int);
        }
        if crate::text::same_text(&contacts[i].0, petname) {
            proof {
                lemma_first_found(s, named(petname@), i + 1);
            }
            return Some(i);
        }
        i += 1;
    }
    proof {
        lemma_take_all(s);
    }
    None
}

/// The index of the first pair filed under the key.
pub fn find_filed<T: DeepView>(pairs: &Vec<(PublicKey, T)>, key: &PublicKey) -> (r: Option<usize>)
    ensures
        match r {
            Some(i) => i < pairs.len() && first(pairs.deep_view(), filed(*key)) == Some(
                pairs.deep_view()[i as int],
            ),
            None => first(pairs.deep_view(), filed(*key)) is None,
        },
{
    let ghost s = pairs.deep_view();
    let mut i: usize = 0;
    while i < pairs.len()
        invariant
            s == pairs.deep_view(),
            i <= pairs.len(),
            first(s.take(i as int), filed(*key)) is None,
        decreases pairs.len() - i,
    {
        proof {
            lemma_first_step(s, filed(*key), i as int);
        }
        if pairs[i].0 == *key {
            proof {
                lemma_first_found(s, filed(*key), i + 1);
            }
            return Some(i);
        }
        i += 1;
    }
    proof {
        lemma_take_all(s);
    }
    None
}

/// A client that knows nothing yet.
pub open spec fn fresh_client(device: PublicKey) -> ClientView {
    ClientView {
        device,
        contacts: Seq::empty(),
        devices: Seq::empty(),
        device_vouches: Seq::empty(),
        vouches: Seq::empty(),
        avatar_shares: Seq::empty(),
        learned: Seq::empty(),
        overrides: Seq::empty(),
        persons: Seq::empty(),
        dismissed: Seq::empty(),
        outbox: Seq::empty(),
        acks: Seq::empty(),
        conversations: Seq::empty(),
        index: Seq::empty(),
        offers: Seq::empty(),
        conflicts: Seq::empty(),
        lens_channels: Seq::empty(),
        lens_conversation: None,
        lens_applied: Seq::empty(),
    }
}

impl Client {
    /// A device's client before it has stored anything.
    pub fn new(device: PublicKey) -> (r: Self)
        ensures
            r.deep_view() == fresh_client(device),
    {
        let r: Client = Client {
            device,
            contacts: Vec::new(),
            devices: Vec::new(),
            device_vouches: Vec::new(),
            vouches: Vec::new(),
            avatar_shares: Vec::new(),
            learned: Vec::new(),
            overrides: Vec::new(),
            persons: Vec::new(),
            dismissed: Vec::new(),
            outbox: Vec::new(),
            acks: Vec::new(),
            conversations: Vec::new(),
            index: Vec::new(),
            offers: Vec::new(),
            conflicts: Vec::new(),
            lens_channels: Vec::new(),
            lens_conversation: None,
            lens_applied: Vec::new(),
        };
        proof {
            let v = r.deep_view();
            assert(v.contacts =~= Seq::empty());
            assert(v.devices =~= Seq::empty());
            assert(v.device_vouches =~= Seq::empty());
            assert(v.vouches =~= Seq::empty());
            assert(v.avatar_shares =~= Seq::empty());
            assert(v.learned =~= Seq::empty());
            assert(v.overrides =~= Seq::empty());
            assert(v.persons =~= Seq::empty());
            assert(v.dismissed =~= Seq::empty());
            assert(v.outbox =~= Seq::empty());
            assert(v.acks =~= Seq::empty());
            assert(v.conversations =~= Seq::empty());
            assert(v.index =~= Seq::empty());
            assert(v.offers =~= Seq::empty());
            assert(v.conflicts =~= Seq::empty());
            assert(v.lens_channels =~= Seq::empty());
            assert(v.lens_applied =~= Seq::empty());
        }
        r
    }

    /// This device's key.
    pub fn public_key(&self) -> (r: PublicKey)
        ensures
            r == self.deep_view().device,
    {
        self.device
    }

    /// All stored contacts as `(petname, record)`.
    pub fn contacts(&self) -> (r: Vec<(String, ContactRecord)>)
        ensures
            r.deep_view() == self.deep_view().contacts,
    {
        copies(&self.contacts)
    }

    /// Recognized own devices as `(device key, record)`.
    pub fn recognized_devices(&self) -> (r: Vec<(PublicKey, ContactRecord)>)
        ensures
            r.deep_view() == self.deep_view().devices,
    {
        copies(&self.devices)
    }

    /// This device's key cluster as its own client sees it, ascending.
    pub fn own_keys(&self) -> (r: Vec<PublicKey>)
        ensures
            lists::<PublicKey>(r.deep_view(), own(self.deep_view())),
    {
        let mut keys: Vec<PublicKey> = Vec::new();
        let ghost s = self.devices.deep_view();
        let ghost f = |e: (PublicKey, RecordView)| e.0;
        assert(keys.deep_view() =~= Seq::<PublicKey>::empty());
        set_insert(&mut keys, self.device);
        assert(keys.deep_view().to_set() =~= s.take(0).map_values(f).to_set().insert(self.device));
        for i in 0..self.devices.len()
            invariant
                s == self.devices.deep_view(),
                f == (|e: (PublicKey, RecordView)| e.0),
                crate::order::ascending::<PublicKey>(keys.deep_view()),
                keys.deep_view().to_set() == s.take(i as int).map_values(f).to_set().insert(
                    self.device,
                ),
        {
            set_insert(&mut keys, self.devices[i].0);
            proof {
                lemma_map_step(s, f, i as int);
                let m = s.take(i as int).map_values(f);
                m.lemma_push_to_set_commute(f(s[i as int]));
                assert(keys.deep_view().to_set() =~= m.push(f(s[i as int])).to_set().insert(
                    self.device,
                ));
            }
        }
        proof {
            lemma_take_all(s);
        }
        keys
    }

    /// Whether a key is this device's or a recognized sibling's.
    pub fn is_own(&self, key: &PublicKey) -> (r: bool)
        ensures
            r == own(self.deep_view()).contains(*key),
    {
        let keys: Vec<PublicKey> = self.own_keys();
        let r: bool = holds(&keys, key);
        assert(keys.deep_view().to_set().contains(*key) == keys.deep_view().contains(*key));
        r
    }

    /// The answers learned about a subject.
    pub fn learned(&self, subject: &PublicKey) -> (r: Vec<LearnedRecord>)
        ensures
            r.deep_view() == learned_about(self.deep_view(), *subject),
    {
        let mut out: Vec<LearnedRecord> = Vec::new();
        let ghost s = self.learned.deep_view();
        let ghost p = filed::<LearnedView>(*subject);
        let ghost f = second::<LearnedView>();
        assert(out.deep_view() =~= s.take(0).filter(p).map_values(f)) by {
            reveal(Seq::filter);
        }
        for i in 0..self.learned.len()
            invariant
                s == self.learned.deep_view(),
                p == filed::<LearnedView>(*subject),
                f == second::<LearnedView>(),
                out.deep_view() == s.take(i as int).filter(p).map_values(f),
        {
            proof {
                lemma_filter_step(s, p, i as int);
            }
            if self.learned[i].0 == *subject {
                let ghost before = out.deep_view();
                out.push(self.learned[i].1.duplicate());
                assert(out.deep_view() =~= before.push(s[i as int].1));
                assert(out.deep_view() =~= s.take(i + 1).filter(p).map_values(f));
            }
        }
        proof {
            lemma_take_all(s);
        }
        out
    }

    /// The stored record of a key this client trusts.
    pub fn trusted_record_for(&self, key: &PublicKey) -> (r: Option<ContactRecord>)
        ensures
            r.deep_view() == trusted_record(self.deep_view(), *key),
    {
        match find_listing(&self.contacts, key) {
            Some(i) => Some(self.contacts[i].1.duplicate()),
            None => match find_filed(&self.devices, key) {
                Some(i) => Some(self.devices[i].1.duplicate()),
                None => None,
            },
        }
    }

    /// The stance issued about a subject, if any.
    pub fn vouch_for(&self, subject: &PublicKey) -> (r: Option<SignedAttestation>)
        ensures
            r.deep_view() == stance(self.deep_view(), *subject),
    {
        match find_filed(&self.vouches, subject) {
            Some(i) => Some(self.vouches[i].1.duplicate()),
            None => None,
        }
    }

    /// The picture shared of a subject, if any.
    pub fn avatar_share_for(&self, subject: &PublicKey) -> (r: Option<SignedAttestation>)
        ensures
            r.deep_view() == share_of(self.deep_view(), *subject),
    {
        match find_filed(&self.avatar_shares, subject) {
            Some(i) => Some(self.avatar_shares[i].1.duplicate()),
            None => None,
        }
    }

    /// Files the picture shared of a subject beside the stance on it: the two
    /// supersede independently.
    pub fn save_avatar_share(&mut self, subject: &PublicKey, share: &SignedAttestation)
        ensures
            final(self).deep_view() == (ClientView {
                avatar_shares: refiled(
                    old(self).deep_view().avatar_shares,
                    *subject,
                    share.deep_view(),
                ),
                ..old(self).deep_view()
            }),
    {
        refile(&mut self.avatar_shares, *subject, share.duplicate());
    }

    /// Withdraws the picture shared of a subject.
    pub fn remove_avatar_share(&mut self, subject: &PublicKey)
        ensures
            final(self).deep_view() == (ClientView {
                avatar_shares: unfiled(old(self).deep_view().avatar_shares, *subject),
                ..old(self).deep_view()
            }),
    {
        unfile(&mut self.avatar_shares, subject);
    }
}

// ---- filing ----

pub open spec fn not_filed<V>(key: PublicKey) -> spec_fn((PublicKey, V)) -> bool {
    |e: (PublicKey, V)| e.0 != key
}

/// Pairs without those filed under a key.
pub open spec fn unfiled<V>(s: Seq<(PublicKey, V)>, key: PublicKey) -> Seq<(PublicKey, V)> {
    s.filter(not_filed(key))
}

/// Pairs with one value filed under a key.
pub open spec fn refiled<V>(s: Seq<(PublicKey, V)>, key: PublicKey, value: V) -> Seq<(PublicKey, V)> {
    unfiled(s, key).push((key, value))
}

/// Drops what is filed under a key.
pub fn unfile<T: Duplicate>(pairs: &mut Vec<(PublicKey, T)>, key: &PublicKey)
    ensures
        final(pairs).deep_view() == unfiled(old(pairs).deep_view(), *key),
{
    let ghost s = pairs.deep_view();
    let ghost p = not_filed::<T::V>(*key);
    let mut out: Vec<(PublicKey, T)> = Vec::new();
    proof {
        reveal(Seq::filter);
        assert(out.deep_view() =~= s.take(0).filter(p));
    }
    for i in 0..pairs.len()
        invariant
            s == pairs.deep_view(),
            p == not_filed::<T::V>(*key),
            out.deep_view() == s.take(i as int).filter(p),
    {
        proof {
            lemma_filter_step(s, p, i as int);
        }
        if !(pairs[i].0 == *key) {
            let ghost before = out.deep_view();
            out.push((pairs[i].0, pairs[i].1.duplicate()));
            assert(out.deep_view() =~= before.push(s[i as int]));
        }
    }
    proof {
        lemma_take_all(s);
    }
    *pairs = out;
}

/// Files a value under a key, in place of what was there.
pub fn refile<T: Duplicate>(pairs: &mut Vec<(PublicKey, T)>, key: PublicKey, value: T)
    ensures
        final(pairs).deep_view() == refiled(old(pairs).deep_view(), key, value.deep_view()),
{
    unfile(pairs, &key);
    let ghost before = pairs.deep_view();
    pairs.push((key, value));
    assert(pairs.deep_view() =~= before.push((key, value.deep_view())));
}

/// What was filed last under a key is what is found there, and nothing else
/// is touched.
pub proof fn law_filing<V>(s: Seq<(PublicKey, V)>, key: PublicKey, value: V, other: PublicKey)
    ensures
        first(refiled(s, key, value), filed(key)) == Some((key, value)),
        other != key ==> first(refiled(s, key, value), filed(other)) == first(s, filed(other)),
        first(unfiled(s, key), filed(key)) is None,
{
    let base = unfiled(s, key);
    crate::seqs::lemma_filter(s, not_filed::<V>(key));
    crate::seqs::lemma_first(base, filed::<V>(key));
    assert(first(base, filed::<V>(key)) is None) by {
        match first(base, filed::<V>(key)) {
            Some(v) => {
                let k = choose|k: int| 0 <= k < base.len() && base[k] == v;
                assert(not_filed::<V>(key)(base[k]));
            },
            None => {},
        }
    }
    assert(base.push((key, value)).drop_last() =~= base);
    if other != key {
        lemma_unfiled_other(s, key, other);
    }
}

proof fn lemma_unfiled_other<V>(s: Seq<(PublicKey, V)>, key: PublicKey, other: PublicKey)
    requires
        other != key,
    ensures
        first(unfiled(s, key), filed(other)) == first(s, filed(other)),
    decreases s.len(),
{
    reveal(Seq::filter);
    if s.len() > 0 {
        let d = s.drop_last();
        lemma_unfiled_other(d, key, other);
        if s.last().0 != key {
            assert(unfiled(d, key).push(s.last()).drop_last() =~= unfiled(d, key));
        }
    }
}

/// A petname finds the first entry filed under it, and only such an entry.
pub proof fn law_entry_by_petname(c: ClientView, petname: Seq<char>)
    ensures
        match entry_named(c, petname) {
            Some(e) => e.0 == petname && exists|i: int|
                0 <= i < c.contacts.len() && #[trigger] c.contacts[i] == e && forall|j: int|
                    0 <= j < i ==> (#[trigger] c.contacts[j]).0 != petname,
            None => forall|i: int| 0 <= i < c.contacts.len() ==> (#[trigger] c.contacts[i]).0 != petname,
        },
{
    if exists|i: int| 0 <= i < c.contacts.len() && (#[trigger] c.contacts[i]).0 == petname {
        let i = lemma_least(c.contacts, |e: (Seq<char>, RecordView)| e.0 == petname);
        assert forall|j: int| 0 <= j < i implies !named(petname)(#[trigger] c.contacts[j]) by {}
        lemma_first_is(c.contacts, named(petname), i);
    } else {
        lemma_first(c.contacts, named(petname));
    }
}

/// A key finds the first entry whose record lists it, and only such an entry.
pub proof fn law_entry_by_key(c: ClientView, key: PublicKey)
    ensures
        match entry_with(c, key) {
            Some(e) => e.1.keys.contains(key) && exists|i: int|
                0 <= i < c.contacts.len() && #[trigger] c.contacts[i] == e && forall|j: int|
                    0 <= j < i ==> !(#[trigger] c.contacts[j]).1.keys.contains(key),
            None => forall|i: int|
                0 <= i < c.contacts.len() ==> !(#[trigger] c.contacts[i]).1.keys.contains(key),
        },
{
    if exists|i: int| 0 <= i < c.contacts.len() && (#[trigger] c.contacts[i]).1.keys.contains(key) {
        let i = lemma_least(c.contacts, |e: (Seq<char>, RecordView)| e.1.keys.contains(key));
        assert forall|j: int| 0 <= j < i implies !listing(key)(#[trigger] c.contacts[j]) by {}
        lemma_first_is(c.contacts, listing(key), i);
    } else {
        lemma_first(c.contacts, listing(key));
    }
}

/// The first place with a property.
pub proof fn lemma_least<V>(s: Seq<V>, p: spec_fn(V) -> bool) -> (i: int)
    requires
        exists|i: int| 0 <= i < s.len() && p(#[trigger] s[i]),
    ensures
        0 <= i < s.len(),
        p(s[i]),
        forall|j: int| 0 <= j < i ==> !p(#[trigger] s[j]),
    decreases s.len(),
{
    let d = s.drop_last();
    if exists|i: int| 0 <= i < d.len() && p(#[trigger] d[i]) {
        let i = lemma_least(d, p);
        assert(d[i] == s[i]);
        assert forall|j: int| 0 <= j < i implies !p(#[trigger] s[j]) by {
            assert(d[j] == s[j]);
        }
        i
    } else {
        let n = s.len() - 1;
        let k = choose|i: int| 0 <= i < s.len() && p(#[trigger] s[i]);
        if k < n {
            assert(p(d[k]));
        }
        assert forall|j: int| 0 <= j < n implies !p(#[trigger] s[j]) by {
            assert(!p(d[j]));
        }
        n
    }
}

/// The record trusted for a key is a contact's that lists it, and only where
/// no contact's does, a recognized device's of that key.
pub proof fn law_contacts_are_trusted_first(c: ClientView, key: PublicKey)
    ensures
        match trusted_record(c, key) {
            Some(r) => {
                ||| r.keys.contains(key) && exists|i: int|
                    0 <= i < c.contacts.len() && (#[trigger] c.contacts[i]).1 == r
                ||| (exists|i: int| 0 <= i < c.devices.len() && #[trigger] c.devices[i] == (key, r))
                    && forall|i: int|
                    0 <= i < c.contacts.len() ==> !(#[trigger] c.contacts[i]).1.keys.contains(key)
            },
            None => {
                &&& forall|i: int|
                    0 <= i < c.contacts.len() ==> !(#[trigger] c.contacts[i]).1.keys.contains(key)
                &&& forall|i: int| 0 <= i < c.devices.len() ==> (#[trigger] c.devices[i]).0 != key
            },
        },
{
    law_entry_by_key(c, key);
    lemma_first(c.devices, filed(key));
    match device_with(c, key) {
        Some(d) => {
            let i = choose|i: int| 0 <= i < c.devices.len() && c.devices[i] == d;
            assert(c.devices[i] == (key, d.1));
        },
        None => {
            assert forall|i: int| 0 <= i < c.devices.len() implies (#[trigger] c.devices[i]).0 != key by {
                assert(!filed::<RecordView>(key)(c.devices[i]));
            }
        },
    }
}

/// This user's keys are this device's and the recognized devices', and no
/// other.
pub proof fn law_own_keys(c: ClientView, key: PublicKey)
    ensures
        own(c).contains(key) <==> key == c.device || exists|i: int|
            0 <= i < c.devices.len() && (#[trigger] c.devices[i]).0 == key,
{
    let keys = c.devices.map_values(|e: (PublicKey, RecordView)| e.0);
    assert(own(c) =~= keys.to_set().insert(c.device));
    if keys.contains(key) {
        let i = choose|i: int| 0 <= i < keys.len() && keys[i] == key;
        assert(c.devices[i].0 == key);
    }
    if exists|i: int| 0 <= i < c.devices.len() && (#[trigger] c.devices[i]).0 == key {
        let i = choose|i: int| 0 <= i < c.devices.len() && (#[trigger] c.devices[i]).0 == key;
        assert(keys[i] == key);
    }
}

/// What was learned about a subject is what was filed under it, all of it.
pub proof fn law_learned_about(c: ClientView, subject: PublicKey, e: LearnedView)
    ensures
        learned_about(c, subject).contains(e) <==> c.learned.contains((subject, e)),
{
    let f = c.learned.filter(filed(subject));
    let s = learned_about(c, subject);
    crate::seqs::lemma_filter(c.learned, filed(subject));
    if s.contains(e) {
        let k = choose|k: int| 0 <= k < s.len() && s[k] == e;
        assert(filed::<LearnedView>(subject)(f[k]));
        assert(f[k] == (subject, e));
        assert(c.learned.contains(f[k]));
    }
    if c.learned.contains((subject, e)) {
        let i = choose|i: int| 0 <= i < c.learned.len() && c.learned[i] == (subject, e);
        assert(filed::<LearnedView>(subject)(c.learned[i]));
        assert(f.contains(c.learned[i]));
        let k = choose|k: int| 0 <= k < f.len() && f[k] == c.learned[i];
        assert(s[k] == e);
    }
}

} // verus!
