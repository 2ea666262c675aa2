//! What others say of a key: each friend's view of it, the pictures they
//! share, link evidence, and strangers claiming to be one's own device. Every
//! verdict is an offer's provenance, never an instruction.
use vstd::prelude::*;

use crate::client::{learned_about, own, Client, ClientView, LearnedRecord, LearnedView};
use crate::ids::{BlobHash, PublicKey};
use crate::names::{petname, voiding};
use crate::order::{ascending, copies, holds, set_insert, sort_stably, sorted, Duplicate, Ranked};
use crate::record::{is_negative, Claim, ClaimView, ContactRecord, RecordView, SignedAttestation, SignedView};
use crate::seqs::{best, first, lemma_best, lemma_filter_map_step, lemma_filter_step, lemma_take_all, some};
use crate::text::text_less;

verus! {

// ---- a friend's claims ----

/// A friend's own valid picture claim about a subject: ciphertext hash,
/// content key, revision.
pub open spec fn picture_claim(responder: PublicKey, subject: PublicKey) -> spec_fn(
    SignedView,
) -> Option<(BlobHash, [u8; 32], u64)> {
    |s: SignedView|
        match s.attestation.claim {
            ClaimView::Avatar(hash, key) => if s.verified && s.attestation.attester == responder
                && s.attestation.subject == subject {
                Some((hash, key, s.attestation.revision))
            } else {
                None
            },
            _ => None,
        }
}

pub open spec fn picture_rank() -> spec_fn((BlobHash, [u8; 32], u64)) -> int {
    |p: (BlobHash, [u8; 32], u64)| p.2 as int
}

/// The picture a friend shares of a subject: their latest claim, unless they
/// have disavowed the subject since.
pub open spec fn shared_picture(e: LearnedView, subject: PublicKey) -> Option<
    (BlobHash, [u8; 32], u64),
> {
    match best(
        e.endorsements.filter_map(picture_claim(e.responder, subject)),
        picture_rank(),
    ) {
        Some(p) => if some(e.endorsements, voiding(e.responder, subject, p.2)) {
            None
        } else {
            Some(p)
        },
        None => None,
    }
}

pub open spec fn name_vouch() -> spec_fn(SignedView) -> Option<(Seq<char>, u64)> {
    |s: SignedView|
        match s.attestation.claim {
            ClaimView::Name(n) => if s.verified {
                Some((n, s.attestation.revision))
            } else {
                None
            },
            _ => None,
        }
}

pub open spec fn vouch_rank() -> spec_fn((Seq<char>, u64)) -> int {
    |p: (Seq<char>, u64)| p.1 as int
}

/// The name a friend vouches for a subject: their latest, unless withdrawn by
/// a later disavowal.
pub open spec fn vouched_by(e: LearnedView, subject: PublicKey) -> Option<Seq<char>> {
    match best(e.endorsements.filter_map(name_vouch()), vouch_rank()) {
        Some((n, revision)) => if some(e.endorsements, voiding(e.responder, subject, revision)) {
            None
        } else {
            Some(n)
        },
        None => None,
    }
}

fn disavowed_since(
    endorsements: &Vec<SignedAttestation>,
    responder: &PublicKey,
    subject: &PublicKey,
    revision: u64,
) -> (r: bool)
    ensures
        r == some(endorsements.deep_view(), voiding(*responder, *subject, revision)),
{
    let ghost s = endorsements.deep_view();
    let ghost p = voiding(*responder, *subject, revision);
    for i in 0..endorsements.len()
        invariant
            s == endorsements.deep_view(),
            p == voiding(*responder, *subject, revision),
            forall|k: int| 0 <= k < i ==> !p(#[trigger] s[k]),
    {
        let hit: bool = match endorsements[i].verified_negative() {
            Some((attester, disavowed, at)) => attester == *responder && disavowed == *subject && at
                > revision,
            None => false,
        };
        assert(hit == p(s[i as int]));
        if hit {
            return true;
        }
    }
    false
}

/// A friend's verified, un-voided picture claim about a subject.
pub fn shared_avatar_claim(entry: &LearnedRecord, subject: PublicKey) -> (r: Option<
    (BlobHash, [u8; 32], u64),
>)
    ensures
        r == shared_picture(entry.deep_view(), subject),
{
    let ghost s = entry.endorsements.deep_view();
    let ghost f = picture_claim(entry.responder, subject);
    let mut top: Option<(BlobHash, [u8; 32], u64)> = None;
    assert(s.take(0).filter_map(f) =~= Seq::<(BlobHash, [u8; 32], u64)>::empty());
    for i in 0..entry.endorsements.len()
        invariant
            s == entry.endorsements.deep_view(),
            f == picture_claim(entry.responder, subject),
            top == best(s.take(i as int).filter_map(f), picture_rank()),
    {
        let ghost m = s.take(i as int).filter_map(f);
        proof {
            lemma_filter_map_step(s, f, i as int);
        }
        let x: &SignedAttestation = &entry.endorsements[i];
        match x.attestation.claim {
            Claim::Avatar { hash, key } => {
                if x.verified && x.attestation.attester == entry.responder && x.attestation.subject
                    == subject {
                    let found: (BlobHash, [u8; 32], u64) = (hash, key, x.attestation.revision);
                    assert(f(s[i as int]) == Some(found));
                    assert(m.push(found).drop_last() =~= m);
                    top = match top {
                        Some(t) => if found.2 >= t.2 {
                            Some(found)
                        } else {
                            Some(t)
                        },
                        None => Some(found),
                    };
                }
            },
            _ => {},
        }
    }
    proof {
        lemma_take_all(s);
    }
    match top {
        Some(p) => if disavowed_since(&entry.endorsements, &entry.responder, &subject, p.2) {
            None
        } else {
            Some(p)
        },
        None => None,
    }
}

fn vouched_name(entry: &LearnedRecord, subject: &PublicKey) -> (r: Option<String>)
    ensures
        r.deep_view() == vouched_by(entry.deep_view(), *subject),
{
    let ghost s = entry.endorsements.deep_view();
    let ghost f = name_vouch();
    let mut top: Option<(String, u64)> = None;
    assert(s.take(0).filter_map(f) =~= Seq::<(Seq<char>, u64)>::empty());
    for i in 0..entry.endorsements.len()
        invariant
            s == entry.endorsements.deep_view(),
            f == name_vouch(),
            top.deep_view() == best(s.take(i as int).filter_map(f), vouch_rank()),
    {
        let ghost m = s.take(i as int).filter_map(f);
        proof {
            lemma_filter_map_step(s, f, i as int);
        }
        let x: &SignedAttestation = &entry.endorsements[i];
        match &x.attestation.claim {
            Claim::Name(n) => {
                if x.verified {
                    let revision: u64 = x.attestation.revision;
                    assert(f(s[i as int]) == Some((n@, revision)));
                    assert(m.push((n@, revision)).drop_last() =~= m);
                    let keep: bool = match &top {
                        Some(t) => revision < t.1,
                        None => false,
                    };
                    if !keep {
                        top = Some((n.clone(), revision));
                    }
                }
            },
            _ => {},
        }
    }
    proof {
        lemma_take_all(s);
    }
    match top {
        Some((n, revision)) => if disavowed_since(
            &entry.endorsements,
            &entry.responder,
            subject,
            revision,
        ) {
            None
        } else {
            Some(n)
        },
        None => None,
    }
}

/// One responder's view of a subject: the record they hold and the name they
/// vouch.
#[derive(Debug)]
pub struct FriendView {
    /// My petname for the responder; short hex when no longer a contact.
    pub petname: String,
    pub responder: PublicKey,
    /// The subject's record as this friend holds it.
    pub record: ContactRecord,
    /// The name this friend vouches for the subject, if any.
    pub vouched_name: Option<String>,
    /// Whether this friend shares a picture of the subject.
    pub shares_avatar: bool,
    pub received_ms: u64,
}

pub struct FriendModel {
    pub petname: Seq<char>,
    pub responder: PublicKey,
    pub record: RecordView,
    pub vouched_name: Option<Seq<char>>,
    pub shares_avatar: bool,
    pub received_ms: u64,
}

impl DeepView for FriendView {
    type V = FriendModel;

    open spec fn deep_view(&self) -> FriendModel {
        FriendModel {
            petname: self.petname@,
            responder: self.responder,
            record: self.record.deep_view(),
            vouched_name: self.vouched_name.deep_view(),
            shares_avatar: self.shares_avatar,
            received_ms: self.received_ms,
        }
    }
}

/// A friend's view, from an answer somebody else served about the subject.
pub open spec fn friend_of(c: ClientView, subject: PublicKey) -> spec_fn(LearnedView) -> Option<
    FriendModel,
> {
    |e: LearnedView|
        if e.responder == subject {
            None
        } else {
            Some(
                FriendModel {
                    petname: petname(c, e.responder),
                    responder: e.responder,
                    record: e.record,
                    vouched_name: vouched_by(e, subject),
                    shares_avatar: shared_picture(e, subject) is Some,
                    received_ms: e.received_ms,
                },
            )
        }
}

/// What each friend shows of a subject.
pub open spec fn friends(c: ClientView, subject: PublicKey) -> Seq<FriendModel> {
    learned_about(c, subject).filter_map(friend_of(c, subject))
}

impl Client {
    /// Each responder's view of a subject. Answers the subject served itself
    /// are left out: they are its own claim, not a friend's lens.
    pub fn friend_views(&self, subject: PublicKey) -> (r: Vec<FriendView>)
        ensures
            r.deep_view() == friends(self.deep_view(), subject),
    {
        let ghost c = self.deep_view();
        let entries: Vec<LearnedRecord> = self.learned(&subject);
        let ghost s = entries.deep_view();
        let ghost f = friend_of(c, subject);
        let mut out: Vec<FriendView> = Vec::new();
        assert(out.deep_view() =~= s.take(0).filter_map(f));
        for i in 0..entries.len()
            invariant
                c == self.deep_view(),
                s == entries.deep_view(),
                f == friend_of(c, subject),
                out.deep_view() == s.take(i as int).filter_map(f),
        {
            proof {
                lemma_filter_map_step(s, f, i as int);
            }
            let e: &LearnedRecord = &entries[i];
            if !(e.responder == subject) {
                let ghost before = out.deep_view();
                let shares: bool = shared_avatar_claim(e, subject).is_some();
                out.push(
                    FriendView {
                        petname: self.petname_of(&e.responder),
                        responder: e.responder,
                        record: e.record.duplicate(),
                        vouched_name: vouched_name(e, &subject),
                        shares_avatar: shares,
                        received_ms: e.received_ms,
                    },
                );
                assert(out.deep_view() =~= before.push(f(s[i as int])->0));
            }
        }
        proof {
            lemma_take_all(s);
        }
        out
    }
}

// ---- strangers claiming to be one's own device ----

/// A verified self-attested link from the subject to one of our keys.
pub open spec fn link_to_own(c: ClientView, subject: PublicKey) -> spec_fn(SignedView) -> bool {
    |s: SignedView|
        match s.attestation.claim {
            ClaimView::SamePersonAs(linked) => s.verified && own(c).contains(linked)
                && s.attestation.attester == subject && s.attestation.subject == subject,
            _ => false,
        }
}

/// The key a link claim links to.
pub open spec fn linked_key(s: SignedView) -> PublicKey {
    match s.attestation.claim {
        ClaimView::SamePersonAs(linked) => linked,
        _ => s.attestation.subject,
    }
}

/// A link the subject has not itself voided by a later disavowal of the
/// linked key.
pub open spec fn stands(c: ClientView, subject: PublicKey, all: Seq<SignedView>) -> spec_fn(
    SignedView,
) -> bool {
    |s: SignedView|
        link_to_own(c, subject)(s) && !some(
            all,
            voiding(subject, linked_key(s), s.attestation.revision),
        )
}

/// The answer's record claims that the subject is one of our devices.
pub open spec fn claims_us(c: ClientView, subject: PublicKey) -> spec_fn(LearnedView) -> bool {
    |e: LearnedView|
        some(e.record.attestations, stands(c, subject, e.record.attestations))
}

pub open spec fn receipt_rank() -> spec_fn(LearnedView) -> int {
    |e: LearnedView| e.received_ms as int
}

/// The latest learned record in which a stranger claims to be our device.
pub open spec fn pair_back(c: ClientView, subject: PublicKey) -> Option<RecordView> {
    if own(c).contains(subject) {
        None
    } else {
        match best(learned_about(c, subject).filter(claims_us(c, subject)), receipt_rank()) {
            Some(e) => Some(e.record),
            None => None,
        }
    }
}

impl Client {
    fn record_claims_us(&self, entry: &LearnedRecord, subject: &PublicKey) -> (r: bool)
        ensures
            r == claims_us(self.deep_view(), *subject)(entry.deep_view()),
    {
        let ghost c = self.deep_view();
        let all: &Vec<SignedAttestation> = &entry.record.attestations;
        let ghost s = all.deep_view();
        let ghost p = stands(c, *subject, s);
        for i in 0..all.len()
            invariant
                c == self.deep_view(),
                s == all.deep_view(),
                all.deep_view() == entry.deep_view().record.attestations,
                p == stands(c, *subject, s),
                forall|k: int| 0 <= k < i ==> !p(#[trigger] s[k]),
        {
            let x: &SignedAttestation = &all[i];
            let hit: bool = match x.attestation.claim {
                Claim::SamePersonAs(linked) => x.verified && self.is_own(&linked)
                    && x.attestation.attester == *subject && x.attestation.subject == *subject
                    && !disavowed_since(all, subject, &linked, x.attestation.revision),
                _ => false,
            };
            assert(hit == p(s[i as int]));
            if hit {
                return true;
            }
        }
        false
    }

    /// A stranger's learned record claiming to be one of our devices: the
    /// freshest one carrying a verified self-attested link to an own key that
    /// the subject has not itself voided.
    pub fn claims_to_be_my_device(&self, subject: PublicKey) -> (r: Option<ContactRecord>)
        ensures
            r.deep_view() == pair_back(self.deep_view(), subject),
    {
        let ghost c = self.deep_view();
        if self.is_own(&subject) {
            return None;
        }
        let entries: Vec<LearnedRecord> = self.learned(&subject);
        let ghost s = entries.deep_view();
        let ghost p = claims_us(c, subject);
        let mut found: Option<usize> = None;
        proof {
            reveal(Seq::filter);
            assert(s.take(0).filter(p) =~= Seq::<LearnedView>::empty());
        }
        for i in 0..entries.len()
            invariant
                c == self.deep_view(),
                s == entries.deep_view(),
                p == claims_us(c, subject),
                match found {
                    Some(k) => k < i && best(s.take(i as int).filter(p), receipt_rank()) == Some(
                        s[k as int],
                    ),
                    None => best(s.take(i as int).filter(p), receipt_rank()) is None,
                },
        {
            proof {
                lemma_filter_step(s, p, i as int);
            }
            if self.record_claims_us(&entries[i], &subject) {
                proof {
                    let f = s.take(i as int).filter(p);
                    assert(f.push(s[i as int]).drop_last() =~= f);
                }
                let later: bool = match found {
                    Some(k) => entries[i].received_ms >= entries[k].received_ms,
                    None => true,
                };
                if later {
                    found = Some(i);
                }
            }
        }
        proof {
            lemma_take_all(s);
        }
        match found {
            Some(k) => Some(entries[k].record.duplicate()),
            None => None,
        }
    }
}

// ---- link evidence ----

/// How strongly the evidence links a key to a contact.
#[derive(Clone, Copy, PartialEq, Eq, Structural, Debug)]
pub enum LinkTier {
    /// Nothing links them.
    Unlinked,
    /// A key we trust vouches the link.
    VouchedFromTrust,
    /// Both sides confirm it.
    MutuallyConfirmed,
}

impl DeepView for LinkTier {
    type V = LinkTier;

    open spec fn deep_view(&self) -> LinkTier {
        *self
    }
}

pub open spec fn tier_rank(t: LinkTier) -> int {
    match t {
        LinkTier::Unlinked => 0,
        LinkTier::VouchedFromTrust => 1,
        LinkTier::MutuallyConfirmed => 2,
    }
}

impl LinkTier {
    pub fn rank(&self) -> (r: u8)
        ensures
            r == tier_rank(*self),
    {
        match self {
            LinkTier::Unlinked => 0,
            LinkTier::VouchedFromTrust => 1,
            LinkTier::MutuallyConfirmed => 2,
        }
    }
}

/// One contact's verified link evidence for an unknown key.
#[derive(Debug)]
pub struct DeviceEvidence {
    /// Whose device the evidence says it is.
    pub petname: String,
    pub tier: LinkTier,
}

pub struct EvidenceView {
    pub petname: Seq<char>,
    pub tier: LinkTier,
}

impl DeepView for DeviceEvidence {
    type V = EvidenceView;

    open spec fn deep_view(&self) -> EvidenceView {
        EvidenceView { petname: self.petname@, tier: self.tier }
    }
}

/// The evidence of one contact, where there is any.
pub open spec fn evidence_at(c: ClientView, tiers: Seq<LinkTier>) -> spec_fn(int) -> Option<
    EvidenceView,
> {
    |i: int|
        if tiers[i] is Unlinked {
            None
        } else {
            Some(EvidenceView { petname: c.contacts[i].0, tier: tiers[i] })
        }
}

/// Stronger evidence first, then the alphabet.
pub open spec fn by_strength() -> spec_fn(EvidenceView, EvidenceView) -> bool {
    |a: EvidenceView, b: EvidenceView|
        tier_rank(a.tier) > tier_rank(b.tier) || (tier_rank(a.tier) == tier_rank(b.tier)
            && text_less(a.petname, b.petname))
}

fn stronger(a: &DeviceEvidence, b: &DeviceEvidence) -> (r: bool)
    ensures
        r == by_strength()(a.deep_view(), b.deep_view()),
{
    let x: u8 = a.tier.rank();
    let y: u8 = b.tier.rank();
    x > y || (x == y && a.petname.before(&b.petname))
}

pub open spec fn indices(n: nat) -> Seq<int> {
    Seq::new(n, |i: int| i)
}

/// The evidence of all contacts, strongest first.
pub open spec fn evidence_of(c: ClientView, tiers: Seq<LinkTier>) -> Seq<EvidenceView> {
    sorted(indices(tiers.len()).filter_map(evidence_at(c, tiers)), by_strength())
}

impl Client {
    /// Link evidence for a key, per contact: `tiers` says how strongly what
    /// is held about the key (`held_attestations`) links it to each contact's
    /// keys. Strongest first; several contacts claiming the same key all
    /// surface.
    pub fn device_evidence(&self, tiers: &Vec<LinkTier>) -> (r: Vec<DeviceEvidence>)
        requires
            tiers.len() == self.deep_view().contacts.len(),
        ensures
            r.deep_view() == evidence_of(self.deep_view(), tiers@),
    {
        let ghost c = self.deep_view();
        let ghost s = indices(tiers@.len());
        let ghost f = evidence_at(c, tiers@);
        let mut out: Vec<DeviceEvidence> = Vec::new();
        assert(out.deep_view() =~= s.take(0).filter_map(f));
        for i in 0..tiers.len()
            invariant
                c == self.deep_view(),
                s == indices(tiers@.len()),
                f == evidence_at(c, tiers@),
                tiers.len() == c.contacts.len(),
                out.deep_view() == s.take(i as int).filter_map(f),
        {
            proof {
                lemma_filter_map_step(s, f, i as int);
            }
            match tiers[i] {
                LinkTier::Unlinked => {},
                tier => {
                    let ghost before = out.deep_view();
                    out.push(DeviceEvidence { petname: self.contacts[i].0.clone(), tier });
                    assert(out.deep_view() =~= before.push(f(s[i as int])->0));
                },
            }
        }
        proof {
            lemma_take_all(s);
        }
        sort_stably(&mut out, stronger, Ghost(by_strength()));
        out
    }

    /// Ignore an unknown key: local presentation policy, idempotent.
    pub fn dismiss(&mut self, key: PublicKey)
        requires
            ascending::<PublicKey>(old(self).deep_view().dismissed),
        ensures
            ascending::<PublicKey>(final(self).deep_view().dismissed),
            final(self).deep_view().dismissed.to_set() == old(
                self,
            ).deep_view().dismissed.to_set().insert(key),
            final(self).deep_view() == (ClientView {
                dismissed: final(self).deep_view().dismissed,
                ..old(self).deep_view()
            }),
    {
        set_insert(&mut self.dismissed, key);
    }

    pub fn dismissed(&self) -> (r: Vec<PublicKey>)
        ensures
            r.deep_view() == self.deep_view().dismissed,
    {
        copies(&self.dismissed)
    }
}

// ---- laws ----

/// A withdrawn vouch stays withdrawn: a friend's disavowal of the subject at
/// a higher revision than every name they vouch leaves them vouching none.
pub proof fn law_withdrawn_vouch_stays_withdrawn(e: LearnedView, subject: PublicKey, k: int)
    requires
        0 <= k < e.endorsements.len(),
        is_negative(e.endorsements[k]),
        e.endorsements[k].attestation.attester == e.responder,
        e.endorsements[k].attestation.subject == subject,
        forall|i: int|
            0 <= i < e.endorsements.len() && (#[trigger] e.endorsements[i]).attestation.claim is Name
                ==> e.endorsements[i].attestation.revision
                < e.endorsements[k].attestation.revision,
    ensures
        vouched_by(e, subject) is None,
{
    let m = e.endorsements.filter_map(name_vouch());
    lemma_best(m, vouch_rank());
    match best(m, vouch_rank()) {
        Some((n, revision)) => {
            assert(m.contains((n, revision)));
            e.endorsements.lemma_filter_map_contains(name_vouch(), (n, revision));
            let i = choose|i: int|
                0 <= i < e.endorsements.len() && name_vouch()(#[trigger] e.endorsements[i]) == Some(
                    (n, revision),
                );
            assert(e.endorsements[i].attestation.claim is Name);
            assert(voiding(e.responder, subject, revision)(e.endorsements[k]));
        },
        None => {},
    }
}

/// Our own keys never claim to be our device: there is nothing to pair back.
pub proof fn law_own_keys_need_no_pairing(c: ClientView, subject: PublicKey)
    requires
        own(c).contains(subject),
    ensures
        pair_back(c, subject) is None,
{
}

/// The friend disavowed the subject above a revision.
pub open spec fn disavowed_above(e: LearnedView, subject: PublicKey, revision: u64) -> bool {
    exists|i: int|
        0 <= i < e.endorsements.len() && (#[trigger] e.endorsements[i]).verified
            && e.endorsements[i].attestation.claim is Negative
            && e.endorsements[i].attestation.attester == e.responder
            && e.endorsements[i].attestation.subject == subject
            && e.endorsements[i].attestation.revision > revision
}

proof fn lemma_voiding(e: LearnedView, subject: PublicKey, revision: u64)
    ensures
        some(e.endorsements, voiding(e.responder, subject, revision)) <==> disavowed_above(
            e,
            subject,
            revision,
        ),
{
    let p = voiding(e.responder, subject, revision);
    if some(e.endorsements, p) {
        let i = choose|i: int| 0 <= i < e.endorsements.len() && p(#[trigger] e.endorsements[i]);
        assert(e.endorsements[i].verified);
    }
    if disavowed_above(e, subject, revision) {
        let i = choose|i: int|
            0 <= i < e.endorsements.len() && (#[trigger] e.endorsements[i]).verified
                && e.endorsements[i].attestation.claim is Negative
                && e.endorsements[i].attestation.attester == e.responder
                && e.endorsements[i].attestation.subject == subject
                && e.endorsements[i].attestation.revision > revision;
        assert(p(e.endorsements[i]));
    }
}

/// A friend's own verified picture of the subject.
pub open spec fn is_picture(e: LearnedView, subject: PublicKey, s: SignedView) -> bool {
    s.verified && s.attestation.claim is Avatar && s.attestation.attester == e.responder
        && s.attestation.subject == subject
}

/// The picture a friend shares is one they signed themselves about the
/// subject, none of theirs is later, and they did not disavow the subject
/// since. Where they share none, they disavowed the subject after every
/// picture they signed.
pub proof fn law_shared_picture_is_the_latest(e: LearnedView, subject: PublicKey)
    ensures
        match shared_picture(e, subject) {
            Some((hash, key, revision)) => {
                &&& exists|i: int|
                    0 <= i < e.endorsements.len() && is_picture(
                        e,
                        subject,
                        #[trigger] e.endorsements[i],
                    ) && e.endorsements[i].attestation.claim == ClaimView::Avatar(hash, key)
                        && e.endorsements[i].attestation.revision == revision
                &&& forall|i: int|
                    0 <= i < e.endorsements.len() && is_picture(
                        e,
                        subject,
                        #[trigger] e.endorsements[i],
                    ) ==> e.endorsements[i].attestation.revision <= revision
                &&& !disavowed_above(e, subject, revision)
            },
            None => forall|i: int|
                0 <= i < e.endorsements.len() && is_picture(e, subject, #[trigger] e.endorsements[i])
                    ==> disavowed_above(e, subject, e.endorsements[i].attestation.revision),
        },
{
    let f = picture_claim(e.responder, subject);
    let list = e.endorsements.filter_map(f);
    lemma_best(list, picture_rank());
    assert forall|i: int|
        0 <= i < e.endorsements.len() && is_picture(
            e,
            subject,
            #[trigger] e.endorsements[i],
        ) implies best(list, picture_rank()) is Some && e.endorsements[i].attestation.revision <= (
    best(list, picture_rank())->0).2 by {
        crate::seqs::lemma_filter_map_has(e.endorsements, f, i);
        let p = f(e.endorsements[i])->0;
        let k = choose|k: int| 0 <= k < list.len() && list[k] == p;
        assert(picture_rank()(list[k]) <= picture_rank()(best(list, picture_rank())->0));
    }
    match best(list, picture_rank()) {
        Some(p) => {
            lemma_voiding(e, subject, p.2);
            let k = choose|k: int| 0 <= k < list.len() && list[k] == p;
            let i = crate::seqs::lemma_filter_map_source(e.endorsements, f, k);
            assert(is_picture(e, subject, e.endorsements[i]));
        },
        None => {},
    }
}

/// The name a friend vouches is a verified one of theirs, none is later, and
/// they did not disavow the subject since. Where they vouch none, they
/// disavowed the subject after every name they vouched.
pub proof fn law_vouched_name_is_the_latest(e: LearnedView, subject: PublicKey)
    ensures
        match vouched_by(e, subject) {
            Some(name) => exists|i: int|
                0 <= i < e.endorsements.len() && (#[trigger] e.endorsements[i]).verified
                    && e.endorsements[i].attestation.claim == ClaimView::Name(name)
                    && !disavowed_above(e, subject, e.endorsements[i].attestation.revision) && forall|
                    j: int,
                |
                    0 <= j < e.endorsements.len() && (#[trigger] e.endorsements[j]).verified
                        && e.endorsements[j].attestation.claim is Name
                        ==> e.endorsements[j].attestation.revision
                        <= e.endorsements[i].attestation.revision,
            None => forall|i: int|
                0 <= i < e.endorsements.len() && (#[trigger] e.endorsements[i]).verified
                    && e.endorsements[i].attestation.claim is Name ==> disavowed_above(
                    e,
                    subject,
                    e.endorsements[i].attestation.revision,
                ),
        },
{
    let f = name_vouch();
    let list = e.endorsements.filter_map(f);
    lemma_best(list, vouch_rank());
    assert forall|i: int|
        0 <= i < e.endorsements.len() && (#[trigger] e.endorsements[i]).verified
            && e.endorsements[i].attestation.claim is Name implies best(list, vouch_rank()) is Some
        && e.endorsements[i].attestation.revision <= (best(list, vouch_rank())->0).1 by {
        crate::seqs::lemma_filter_map_has(e.endorsements, f, i);
        let p = f(e.endorsements[i])->0;
        let k = choose|k: int| 0 <= k < list.len() && list[k] == p;
        assert(vouch_rank()(list[k]) <= vouch_rank()(best(list, vouch_rank())->0));
    }
    match best(list, vouch_rank()) {
        Some(p) => {
            lemma_voiding(e, subject, p.1);
            let k = choose|k: int| 0 <= k < list.len() && list[k] == p;
            let i = crate::seqs::lemma_filter_map_source(e.endorsements, f, k);
            assert(e.endorsements[i].verified);
            assert(e.endorsements[i].attestation.claim == ClaimView::Name(p.0));
        },
        None => {},
    }
}

/// Every answer about the subject that somebody else gave is shown, and
/// nothing else: who gave it and what they are called here, the record and the
/// time as they came, the name they vouch and whether they share a picture.
pub proof fn law_every_friend_is_shown(c: ClientView, subject: PublicKey, m: FriendModel)
    ensures
        friends(c, subject).contains(m) <==> exists|e: LearnedView| #[trigger]
            c.learned.contains((subject, e)) && e.responder != subject && m.responder == e.responder
                && m.petname == petname(c, e.responder) && m.record == e.record && m.received_ms
                == e.received_ms && m.vouched_name == vouched_by(e, subject) && m.shares_avatar
                == (shared_picture(e, subject) is Some),
{
    let all = learned_about(c, subject);
    let f = friend_of(c, subject);
    let list = all.filter_map(f);
    if list.contains(m) {
        let k = choose|k: int| 0 <= k < list.len() && list[k] == m;
        let i = crate::seqs::lemma_filter_map_source(all, f, k);
        let e = all[i];
        assert(all.contains(e));
        crate::client::law_learned_about(c, subject, e);
        assert(c.learned.contains((subject, e)));
    }
    if exists|e: LearnedView| #[trigger]
        c.learned.contains((subject, e)) && e.responder != subject && m.responder == e.responder
            && m.petname == petname(c, e.responder) && m.record == e.record && m.received_ms
            == e.received_ms && m.vouched_name == vouched_by(e, subject) && m.shares_avatar == (
        shared_picture(e, subject) is Some) {
        let e = choose|e: LearnedView| #[trigger]
            c.learned.contains((subject, e)) && e.responder != subject && m.responder == e.responder
                && m.petname == petname(c, e.responder) && m.record == e.record && m.received_ms
                == e.received_ms && m.vouched_name == vouched_by(e, subject) && m.shares_avatar == (
            shared_picture(e, subject) is Some);
        crate::client::law_learned_about(c, subject, e);
        let i = choose|i: int| 0 <= i < all.len() && all[i] == e;
        crate::seqs::lemma_filter_map_has(all, f, i);
        assert(f(all[i]) == Some(m));
    }
}

/// The subject's record says, in the subject's own verified words and not
/// taken back since, that it is one with a key of ours.
pub open spec fn says_it_is_ours(c: ClientView, subject: PublicKey, e: LearnedView) -> bool {
    exists|i: int, linked: PublicKey|
        0 <= i < e.record.attestations.len() && #[trigger] own(c).contains(linked) && (
        #[trigger] e.record.attestations[i]).verified && e.record.attestations[i].attestation.claim
            == ClaimView::SamePersonAs(linked)
            && e.record.attestations[i].attestation.attester == subject
            && e.record.attestations[i].attestation.subject == subject && !taken_back(
            e,
            subject,
            linked,
            e.record.attestations[i].attestation.revision,
        )
}

/// The subject disavows a key in its own record, above a revision.
pub open spec fn taken_back(
    e: LearnedView,
    subject: PublicKey,
    linked: PublicKey,
    revision: u64,
) -> bool {
    exists|j: int|
        0 <= j < e.record.attestations.len() && (#[trigger] e.record.attestations[j]).verified
            && e.record.attestations[j].attestation.claim is Negative
            && e.record.attestations[j].attestation.attester == subject
            && e.record.attestations[j].attestation.subject == linked
            && e.record.attestations[j].attestation.revision > revision
}

proof fn lemma_taken_back(e: LearnedView, subject: PublicKey, linked: PublicKey, revision: u64)
    ensures
        some(e.record.attestations, voiding(subject, linked, revision)) <==> taken_back(
            e,
            subject,
            linked,
            revision,
        ),
{
    let all = e.record.attestations;
    let p = voiding(subject, linked, revision);
    if some(all, p) {
        let j = choose|j: int| 0 <= j < all.len() && p(#[trigger] all[j]);
        assert(e.record.attestations[j].verified);
    }
    if taken_back(e, subject, linked, revision) {
        let j = choose|j: int|
            0 <= j < e.record.attestations.len() && (#[trigger] e.record.attestations[j]).verified
                && e.record.attestations[j].attestation.claim is Negative
                && e.record.attestations[j].attestation.attester == subject
                && e.record.attestations[j].attestation.subject == linked
                && e.record.attestations[j].attestation.revision > revision;
        assert(p(all[j]));
    }
}

proof fn lemma_claims_us(c: ClientView, subject: PublicKey, e: LearnedView)
    ensures
        claims_us(c, subject)(e) <==> says_it_is_ours(c, subject, e),
{
    let all = e.record.attestations;
    let p = stands(c, subject, all);
    if some(all, p) {
        let i = choose|i: int| 0 <= i < all.len() && p(#[trigger] all[i]);
        let linked = linked_key(all[i]);
        lemma_taken_back(e, subject, linked, all[i].attestation.revision);
        assert(own(c).contains(linked));
        assert(e.record.attestations[i].verified);
    }
    if says_it_is_ours(c, subject, e) {
        let (i, linked) = choose|i: int, linked: PublicKey|
            0 <= i < e.record.attestations.len() && #[trigger] own(c).contains(linked) && (
            #[trigger] e.record.attestations[i]).verified
                && e.record.attestations[i].attestation.claim == ClaimView::SamePersonAs(linked)
                && e.record.attestations[i].attestation.attester == subject
                && e.record.attestations[i].attestation.subject == subject && !taken_back(
                e,
                subject,
                linked,
                e.record.attestations[i].attestation.revision,
            );
        lemma_taken_back(e, subject, linked, all[i].attestation.revision);
        assert(p(all[i]));
    }
}

/// A stranger is offered for pairing exactly where an answer about them holds
/// their own standing word that they are one of our devices, and with the
/// record of the latest such answer.
pub proof fn law_paired_back_on_own_word(c: ClientView, subject: PublicKey)
    ensures
        match pair_back(c, subject) {
            Some(record) => !own(c).contains(subject) && exists|e: LearnedView| #[trigger]
                c.learned.contains((subject, e)) && e.record == record && says_it_is_ours(
                    c,
                    subject,
                    e,
                ) && forall|o: LearnedView| #[trigger]
                    c.learned.contains((subject, o)) && says_it_is_ours(c, subject, o)
                        ==> o.received_ms <= e.received_ms,
            None => own(c).contains(subject) || forall|e: LearnedView| #[trigger]
                c.learned.contains((subject, e)) ==> !says_it_is_ours(c, subject, e),
        },
{
    let all = learned_about(c, subject);
    let p = claims_us(c, subject);
    let list = all.filter(p);
    lemma_best(list, receipt_rank());
    assert forall|o: LearnedView| #[trigger]
        c.learned.contains((subject, o)) && says_it_is_ours(c, subject, o) implies list.contains(
        o,
    ) by {
        crate::client::law_learned_about(c, subject, o);
        lemma_claims_us(c, subject, o);
        crate::seqs::lemma_filter_contains(all, p, o);
    }
    match best(list, receipt_rank()) {
        Some(e) => {
            crate::seqs::lemma_filter_contains(all, p, e);
            crate::client::law_learned_about(c, subject, e);
            lemma_claims_us(c, subject, e);
            assert forall|o: LearnedView| #[trigger]
                c.learned.contains((subject, o)) && says_it_is_ours(
                    c,
                    subject,
                    o,
                ) implies o.received_ms <= e.received_ms by {
                let k = choose|k: int| 0 <= k < list.len() && list[k] == o;
                assert(receipt_rank()(list[k]) <= receipt_rank()(e));
            }
            assert(c.learned.contains((subject, e)));
        },
        None => {
            assert forall|e: LearnedView| #[trigger]
                c.learned.contains((subject, e)) implies !says_it_is_ours(c, subject, e) by {
                if says_it_is_ours(c, subject, e) {
                    assert(list.contains(e));
                }
            }
        },
    }
}

/// Every contact the evidence links to the key is listed, with its petname and
/// how strongly; nobody else is.
pub proof fn law_all_evidence_is_listed(c: ClientView, tiers: Seq<LinkTier>, v: EvidenceView)
    requires
        tiers.len() == c.contacts.len(),
    ensures
        evidence_of(c, tiers).contains(v) <==> exists|i: int|
            0 <= i < tiers.len() && #[trigger] tiers[i] == v.tier && c.contacts[i].0 == v.petname
                && !(v.tier is Unlinked),
{
    let all = indices(tiers.len());
    let f = evidence_at(c, tiers);
    let list = all.filter_map(f);
    crate::order::lemma_sorted_contains(list, by_strength(), v);
    if list.contains(v) {
        let k = choose|k: int| 0 <= k < list.len() && list[k] == v;
        let i = crate::seqs::lemma_filter_map_source(all, f, k);
        assert(tiers[all[i]] == v.tier);
    }
    if exists|i: int|
        0 <= i < tiers.len() && #[trigger] tiers[i] == v.tier && c.contacts[i].0 == v.petname && !(
        v.tier is Unlinked) {
        let i = choose|i: int|
            0 <= i < tiers.len() && #[trigger] tiers[i] == v.tier && c.contacts[i].0 == v.petname
                && !(v.tier is Unlinked);
        crate::seqs::lemma_filter_map_has(all, f, i);
        assert(f(all[i]) == Some(v));
    }
}

/// What both sides confirm is listed before what a trusted key vouches, and
/// what is equally strong by the alphabet.
pub proof fn law_strongest_evidence_first(c: ClientView, tiers: Seq<LinkTier>, i: int, j: int)
    requires
        0 <= i < j < evidence_of(c, tiers).len(),
    ensures
        ({
            let a = evidence_of(c, tiers)[i];
            let b = evidence_of(c, tiers)[j];
            &&& b.tier is MutuallyConfirmed ==> a.tier is MutuallyConfirmed
            &&& a.tier is Unlinked ==> b.tier is Unlinked
            &&& a.tier == b.tier ==> a.petname == b.petname || text_less(a.petname, b.petname)
        }),
{
    let before = by_strength();
    assert forall|a: EvidenceView, b: EvidenceView| #[trigger] before(a, b) implies !before(
        b,
        a,
    ) by {
        String::order_laws(a.petname, b.petname, a.petname);
    }
    assert forall|a: EvidenceView, b: EvidenceView, d: EvidenceView|
        !(#[trigger] before(a, b)) && !(#[trigger] before(b, d)) implies !before(a, d) by {
        String::order_laws(a.petname, b.petname, d.petname);
        String::order_laws(d.petname, b.petname, a.petname);
        String::order_laws(b.petname, d.petname, a.petname);
        String::order_laws(a.petname, d.petname, b.petname);
        String::order_laws(d.petname, a.petname, b.petname);
    }
    crate::order::law_sorted_in_order(indices(tiers.len()).filter_map(evidence_at(c, tiers)), before);
    let s = evidence_of(c, tiers);
    assert(!before(s[j], s[i]));
    String::order_laws(s[i].petname, s[j].petname, s[i].petname);
}

} // verus!
