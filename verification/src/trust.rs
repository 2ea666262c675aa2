//! Trust: vouches, repudiation and link evidence. All of it is this client's
//! own belief; what others say warns, and only the person's own word or ours
//! excludes.
use vstd::prelude::*;

use crate::client::{second, device_with, entry_named, find_filed, find_named, learned_about, own, refile, refiled, share_of, stance, unfile, unfiled, Client, ClientView, LearnedRecord, LearnedView, LensOffer, OfferView};
use crate::error::{Error, ErrorView};
use crate::history::{known_label, labels};
use crate::ids::PublicKey;
use crate::names::{petname, short_hex};
use crate::order::{copies, holds, lists, Duplicate};
use crate::record::{is_negative, stem, Attestation, AttestationView, Claim, ClaimView, ContactRecord, RecordView, SignedAttestation, SignedView};
use crate::relays::{no_contact_named, unknown_petname};
use crate::seqs::{first, gathered, lemma_filter, lemma_filter_map_step, lemma_filter_step, lemma_first_found, lemma_first_step, lemma_gathered_step, lemma_map_step, lemma_take_all, lemma_take_step, some};

verus! {

// ---- everything held about a key ----

/// What one learned answer attests: its record's attestations, then the
/// responder's endorsements.
pub open spec fn attested() -> spec_fn(LearnedView) -> Seq<SignedView> {
    |e: LearnedView| e.record.attestations + e.endorsements
}

/// What was learned about a key attests.
pub open spec fn attested_about(c: ClientView) -> spec_fn(PublicKey) -> Seq<SignedView> {
    |k: PublicKey| gathered(learned_about(c, k), attested())
}

/// What an entry holds: the answers about its keys, then its own record.
pub open spec fn attested_by_entry(c: ClientView) -> spec_fn((Seq<char>, RecordView)) -> Seq<SignedView> {
    |e: (Seq<char>, RecordView)| gathered(e.1.keys, attested_about(c)) + e.1.attestations
}

pub open spec fn negative_stance() -> spec_fn((PublicKey, SignedView)) -> Option<SignedView> {
    |e: (PublicKey, SignedView)|
        if e.1.attestation.claim is Negative {
            Some(e.1)
        } else {
            None
        }
}

/// Every disavowal this device has issued.
pub open spec fn negatives(c: ClientView) -> Seq<SignedView> {
    c.vouches.filter_map(negative_stance()) + c.avatar_shares.filter_map(negative_stance())
}

pub open spec fn as_list<V>(o: Option<V>) -> Seq<V> {
    match o {
        Some(v) => seq![v],
        None => Seq::empty(),
    }
}

/// Every attestation held that could bear on a key.
pub open spec fn held(c: ClientView, key: PublicKey) -> Seq<SignedView> {
    as_list(stance(c, key)) + negatives(c) + attested_about(c)(key) + gathered(
        c.contacts,
        attested_by_entry(c),
    )
}

/// Appends copies of the elements of one vector to another.
pub fn append_copies<T: Duplicate>(out: &mut Vec<T>, more: &Vec<T>)
    ensures
        final(out).deep_view() == old(out).deep_view() + more.deep_view(),
{
    let mut extra: Vec<T> = copies(more);
    let ghost a = out.deep_view();
    let ghost b = extra.deep_view();
    let ghost held_a = out@;
    let ghost held_b = extra@;
    out.append(&mut extra);
    assert(out@ == held_a + held_b);
    assert(out.deep_view() =~= a + b);
}

impl Client {
    /// Every disavowal this device has issued.
    pub fn issued_negatives(&self) -> (r: Vec<SignedAttestation>)
        ensures
            r.deep_view() == negatives(self.deep_view()),
    {
        let mut out: Vec<SignedAttestation> = negative_stances(&self.vouches);
        let more: Vec<SignedAttestation> = negative_stances(&self.avatar_shares);
        append_copies(&mut out, &more);
        out
    }

    /// What was learned about a key attests.
    /// Every picture shared: what a startup re-push keeps alive.
    pub fn issued_avatar_shares(&self) -> (r: Vec<SignedAttestation>)
        ensures
            r.deep_view() == self.deep_view().avatar_shares.map_values(second()),
    {
        let ghost s = self.avatar_shares.deep_view();
        let ghost f = second::<SignedView>();
        let mut out: Vec<SignedAttestation> = Vec::new();
        assert(out.deep_view() =~= s.take(0).map_values(f));
        for i in 0..self.avatar_shares.len()
            invariant
                s == self.avatar_shares.deep_view(),
                f == second::<SignedView>(),
                out.deep_view() == s.take(i as int).map_values(f),
        {
            proof {
                crate::seqs::lemma_map_step(s, f, i as int);
            }
            let ghost before = out.deep_view();
            out.push(self.avatar_shares[i].1.duplicate());
            assert(out.deep_view() =~= before.push(s[i as int].1));
        }
        proof {
            lemma_take_all(s);
        }
        out
    }

    fn learned_attestations(&self, key: &PublicKey) -> (r: Vec<SignedAttestation>)
        ensures
            r.deep_view() == attested_about(self.deep_view())(*key),
    {
        let entries: Vec<LearnedRecord> = self.learned(key);
        let ghost s = entries.deep_view();
        let ghost f = attested();
        let mut out: Vec<SignedAttestation> = Vec::new();
        assert(out.deep_view() =~= gathered(s.take(0), f));
        for i in 0..entries.len()
            invariant
                s == entries.deep_view(),
                f == attested(),
                out.deep_view() == gathered(s.take(i as int), f),
        {
            proof {
                lemma_gathered_step(s, f, i as int);
            }
            let ghost before = out.deep_view();
            append_copies(&mut out, &entries[i].record.attestations);
            append_copies(&mut out, &entries[i].endorsements);
            assert(out.deep_view() =~= before + f(s[i as int]));
        }
        proof {
            lemma_take_all(s);
        }
        out
    }

    /// Every attestation this client holds that could bear on `key`: its own
    /// stances, stored contact records, and what was learned about the key
    /// and about each contact's keys.
    pub fn held_attestations(&self, key: PublicKey) -> (r: Vec<SignedAttestation>)
        ensures
            r.deep_view() == held(self.deep_view(), key),
    {
        let ghost c = self.deep_view();
        let mut out: Vec<SignedAttestation> = Vec::new();
        match self.vouch_for(&key) {
            Some(v) => {
                out.push(v);
            },
            None => {},
        }
        assert(out.deep_view() =~= as_list(stance(c, key)));
        let mine: Vec<SignedAttestation> = self.issued_negatives();
        append_copies(&mut out, &mine);
        let about: Vec<SignedAttestation> = self.learned_attestations(&key);
        append_copies(&mut out, &about);
        let ghost base = out.deep_view();
        let ghost s = c.contacts;
        let ghost f = attested_by_entry(c);
        assert(out.deep_view() =~= base + gathered(s.take(0), f));
        for i in 0..self.contacts.len()
            invariant
                c == self.deep_view(),
                s == c.contacts,
                f == attested_by_entry(c),
                out.deep_view() == base + gathered(s.take(i as int), f),
        {
            proof {
                lemma_gathered_step(s, f, i as int);
            }
            let ghost before = out.deep_view();
            let record: &ContactRecord = &self.contacts[i].1;
            let ghost ks = record.deep_view().keys;
            let ghost g = attested_about(c);
            assert(out.deep_view() =~= before + gathered(ks.take(0), g));
            for j in 0..record.keys.len()
                invariant
                    c == self.deep_view(),
                    ks == record.deep_view().keys,
                    g == attested_about(c),
                    out.deep_view() == before + gathered(ks.take(j as int), g),
            {
                proof {
                    lemma_gathered_step(ks, g, j as int);
                }
                let ghost mid = out.deep_view();
                let more: Vec<SignedAttestation> = self.learned_attestations(&record.keys[j]);
                append_copies(&mut out, &more);
                assert(out.deep_view() =~= before + gathered(ks.take(j + 1), g));
            }
            proof {
                lemma_take_all(ks);
            }
            append_copies(&mut out, &record.attestations);
            assert(out.deep_view() =~= before + f(s[i as int]));
            assert(out.deep_view() =~= base + gathered(s.take(i + 1), f));
        }
        proof {
            lemma_take_all(s);
        }
        out
    }
}

fn negative_stances(pairs: &Vec<(PublicKey, SignedAttestation)>) -> (r: Vec<SignedAttestation>)
    ensures
        r.deep_view() == pairs.deep_view().filter_map(negative_stance()),
{
    let ghost s = pairs.deep_view();
    let ghost f = negative_stance();
    let mut out: Vec<SignedAttestation> = Vec::new();
    assert(out.deep_view() =~= s.take(0).filter_map(f));
    for i in 0..pairs.len()
        invariant
            s == pairs.deep_view(),
            f == negative_stance(),
            out.deep_view() == s.take(i as int).filter_map(f),
    {
        proof {
            lemma_filter_map_step(s, f, i as int);
        }
        let negative: bool = match pairs[i].1.attestation.claim {
            Claim::Negative => true,
            _ => false,
        };
        if negative {
            let ghost before = out.deep_view();
            out.push(pairs[i].1.duplicate());
            assert(out.deep_view() =~= before.push(s[i as int].1));
        }
    }
    proof {
        lemma_take_all(s);
    }
    out
}

// ---- disavowals ----

/// One valid disavowal of a key, with the observer's verdict.
#[derive(Debug)]
pub struct Disavowal {
    pub attester: PublicKey,
    /// The attester rendered: petname, device name or short hex.
    pub attester_label: String,
    /// Whether the key is excluded from addressed sets: only by this client's
    /// own stance or a same-person disavowal.
    pub excludes: bool,
}

pub struct DisavowalView {
    pub attester: PublicKey,
    pub attester_label: Seq<char>,
    pub excludes: bool,
}

impl DeepView for Disavowal {
    type V = DisavowalView;

    open spec fn deep_view(&self) -> DisavowalView {
        DisavowalView {
            attester: self.attester,
            attester_label: self.attester_label@,
            excludes: self.excludes,
        }
    }
}

/// The keys that validly disavow `key`, each at its first disavowal.
pub open spec fn disavowers(s: Seq<SignedView>, key: PublicKey) -> Seq<PublicKey>
    decreases s.len(),
{
    if s.len() == 0 {
        Seq::empty()
    } else {
        let rest = disavowers(s.drop_last(), key);
        let a = s.last().attestation;
        if is_negative(s.last()) && a.subject == key && !rest.contains(a.attester) {
            rest.push(a.attester)
        } else {
            rest
        }
    }
}

/// An entry that lists both keys.
pub open spec fn lists_both(a: PublicKey, b: PublicKey) -> spec_fn((Seq<char>, RecordView)) -> bool {
    |e: (Seq<char>, RecordView)| e.1.keys.contains(a) && e.1.keys.contains(b)
}

/// A verified self-attested link between two keys, in either direction.
/// Voiding does not matter here: even a voided link proves that the keys were
/// one person.
pub open spec fn links(a: PublicKey, b: PublicKey) -> spec_fn(SignedView) -> bool {
    |s: SignedView|
        match s.attestation.claim {
            ClaimView::SamePersonAs(to) => s.verified && s.attestation.attester
                == s.attestation.subject && ((s.attestation.attester == a && to == b) || (
            s.attestation.attester == b && to == a)),
            _ => false,
        }
}

/// Whether a disavowal by `attester` excludes `key`: it is our own stance, or
/// the person's own word.
pub open spec fn excludes(c: ClientView, key: PublicKey, attester: PublicKey) -> bool {
    ||| own(c).contains(attester)
    ||| some(c.contacts, lists_both(attester, key))
    ||| some(held(c, key), links(attester, key))
}

/// What a key is called where it attests something.
pub open spec fn attester_name(c: ClientView, key: PublicKey) -> Seq<char> {
    match known_label(c)(key) {
        Some(l) => l,
        None => short_hex(key),
    }
}

pub open spec fn verdict(c: ClientView, key: PublicKey) -> spec_fn(PublicKey) -> DisavowalView {
    |a: PublicKey|
        DisavowalView {
            attester: a,
            attester_label: attester_name(c, a),
            excludes: excludes(c, key, a),
        }
}

/// The valid disavowals of a key across everything held.
pub open spec fn disavowals_of(c: ClientView, key: PublicKey) -> Seq<DisavowalView> {
    disavowers(held(c, key), key).map_values(verdict(c, key))
}

/// The key is excluded from addressed sets.
pub open spec fn is_excluded(c: ClientView, key: PublicKey) -> bool {
    some(disavowals_of(c, key), excluding())
}

pub open spec fn excluding() -> spec_fn(DisavowalView) -> bool {
    |d: DisavowalView| d.excludes
}

impl Client {
    fn in_one_entry(&self, a: &PublicKey, b: &PublicKey) -> (r: bool)
        ensures
            r == some(self.deep_view().contacts, lists_both(*a, *b)),
    {
        let ghost s = self.contacts.deep_view();
        let ghost p = lists_both(*a, *b);
        for i in 0..self.contacts.len()
            invariant
                s == self.contacts.deep_view(),
                p == lists_both(*a, *b),
                forall|k: int| 0 <= k < i ==> !p(#[trigger] s[k]),
        {
            if self.contacts[i].1.lists(a) && self.contacts[i].1.lists(b) {
                assert(p(s[i as int]));
                return true;
            }
        }
        false
    }

    /// What a key is called where it attests something.
    fn attester_label(&self, key: &PublicKey) -> (r: String)
        ensures
            r@ == attester_name(self.deep_view(), *key),
    {
        let mut one: Vec<PublicKey> = Vec::new();
        one.push(*key);
        let ghost s = one.deep_view();
        proof {
            assert(s =~= seq![*key]);
            assert(s.drop_last() =~= Seq::<PublicKey>::empty());
            assert(s.drop_last().filter_map(known_label(self.deep_view())) =~= Seq::<
                Seq<char>,
            >::empty());
            reveal_with_fuel(labels, 2);
            assert(labels(self.deep_view(), s) =~= seq![attester_name(self.deep_view(), *key)]);
        }
        let mut found: Vec<String> = self.participant_labels(&one);
        assert(found.deep_view().len() == 1);
        assert(found.deep_view()[0] == found@[0]@);
        found.remove(0)
    }

    /// Valid disavowals of a key across everything held, each saying who and
    /// whether it excludes the key from addressed sets. Third-party ones
    /// warn, never exclude.
    pub fn disavowals(&self, key: PublicKey) -> (r: Vec<Disavowal>)
        ensures
            r.deep_view() == disavowals_of(self.deep_view(), key),
    {
        let ghost c = self.deep_view();
        let attestations: Vec<SignedAttestation> = self.held_attestations(key);
        let ghost s = attestations.deep_view();
        let ghost f = verdict(c, key);
        let mut seen: Vec<PublicKey> = Vec::new();
        let mut out: Vec<Disavowal> = Vec::new();
        proof {
            assert(seen.deep_view() =~= disavowers(s.take(0), key));
            assert(out.deep_view() =~= seen.deep_view().map_values(f));
        }
        for i in 0..attestations.len()
            invariant
                c == self.deep_view(),
                s == attestations.deep_view(),
                s == held(c, key),
                f == verdict(c, key),
                seen.deep_view() == disavowers(s.take(i as int), key),
                out.deep_view() == seen.deep_view().map_values(f),
        {
            proof {
                lemma_take_step(s, i as int);
            }
            match attestations[i].verified_negative() {
                Some((attester, disavowed, _)) => {
                    if disavowed == key && !holds(&seen, &attester) {
                        let excluded: bool = self.is_own(&attester) || self.in_one_entry(
                            &attester,
                            &key,
                        ) || any_link(&attestations, &attester, &key);
                        let ghost before = seen.deep_view();
                        let ghost shown = out.deep_view();
                        seen.push(attester);
                        out.push(
                            Disavowal {
                                attester,
                                attester_label: self.attester_label(&attester),
                                excludes: excluded,
                            },
                        );
                        assert(seen.deep_view() =~= before.push(attester));
                        assert(out.deep_view() =~= shown.push(f(attester)));
                        assert(before.push(attester).map_values(f) =~= before.map_values(f).push(
                            f(attester),
                        ));
                    }
                },
                None => {},
            }
        }
        proof {
            lemma_take_all(s);
        }
        out
    }

    /// Whether a disavowal excludes the key from addressed sets.
    pub fn is_disavowed(&self, key: PublicKey) -> (r: bool)
        ensures
            r == is_excluded(self.deep_view(), key),
    {
        let found: Vec<Disavowal> = self.disavowals(key);
        let ghost s = found.deep_view();
        for i in 0..found.len()
            invariant
                s == found.deep_view(),
                s == disavowals_of(self.deep_view(), key),
                forall|k: int| 0 <= k < i ==> !excluding()(#[trigger] s[k]),
        {
            if found[i].excludes {
                assert(excluding()(s[i as int]));
                return true;
            }
        }
        false
    }
}

fn any_link(attestations: &Vec<SignedAttestation>, a: &PublicKey, b: &PublicKey) -> (r: bool)
    ensures
        r == some(attestations.deep_view(), links(*a, *b)),
{
    let ghost s = attestations.deep_view();
    let ghost p = links(*a, *b);
    for i in 0..attestations.len()
        invariant
            s == attestations.deep_view(),
            p == links(*a, *b),
            forall|k: int| 0 <= k < i ==> !p(#[trigger] s[k]),
    {
        let x: &SignedAttestation = &attestations[i];
        let hit: bool = match x.attestation.claim {
            Claim::SamePersonAs(to) => x.verified && x.attestation.attester == x.attestation.subject
                && ((x.attestation.attester == *a && to == *b) || (x.attestation.attester == *b && to
                == *a)),
            _ => false,
        };
        assert(hit == p(s[i as int]));
        if hit {
            return true;
        }
    }
    false
}

/// A third party's disavowal never excludes.
pub proof fn law_third_party_never_excludes(c: ClientView, key: PublicKey)
    requires
        forall|i: int|
            0 <= i < disavowers(held(c, key), key).len() ==> {
                let a = #[trigger] disavowers(held(c, key), key)[i];
                &&& !own(c).contains(a)
                &&& !some(c.contacts, lists_both(a, key))
                &&& !some(held(c, key), links(a, key))
            },
    ensures
        !is_excluded(c, key),
{
    let d = disavowers(held(c, key), key);
    let s = disavowals_of(c, key);
    assert forall|i: int| 0 <= i < s.len() implies !excluding()(#[trigger] s[i]) by {
        assert(s[i] == verdict(c, key)(d[i]));
        assert(!excludes(c, key, d[i]));
    }
}

proof fn lemma_disavower(s: Seq<SignedView>, key: PublicKey, k: int)
    requires
        0 <= k < s.len(),
        is_negative(s[k]),
        s[k].attestation.subject == key,
    ensures
        disavowers(s, key).contains(s[k].attestation.attester),
    decreases s.len(),
{
    let d = s.drop_last();
    let rest = disavowers(d, key);
    let a = s[k].attestation.attester;
    if k < d.len() {
        assert(d[k] == s[k]);
        lemma_disavower(d, key, k);
        let i = choose|i: int| 0 <= i < rest.len() && rest[i] == a;
        assert(disavowers(s, key)[i] == a);
    } else if !rest.contains(a) {
        assert(disavowers(s, key)[rest.len() as int] == a);
    }
}

// ---- stances ----

/// A claim this device signs.
pub open spec fn issued(c: ClientView, subject: PublicKey, claim: ClaimView, revision: u64) -> SignedView {
    SignedView {
        attestation: AttestationView { attester: c.device, subject, claim, revision },
        verified: true,
    }
}

/// The revision that supersedes a prior claim.
pub open spec fn next_revision(prior: Option<SignedView>) -> u64 {
    match prior {
        Some(s) => (s.attestation.revision + 1) as u64,
        None => 0,
    }
}

/// The revision of a standing claim can still be superseded.
pub open spec fn supersedable(prior: Option<SignedView>) -> bool {
    prior is Some ==> prior->0.attestation.revision < u64::MAX
}

/// What is known once a key is vouched for under a name.
pub open spec fn vouched_for(c: ClientView, key: PublicKey, name: Seq<char>) -> ClientView {
    ClientView {
        vouches: refiled(
            c.vouches,
            key,
            issued(c, key, ClaimView::Name(name), next_revision(stance(c, key))),
        ),
        ..c
    }
}

/// What is known once a stance on a key is withdrawn.
pub open spec fn unvouched(c: ClientView, key: PublicKey) -> ClientView {
    ClientView { vouches: unfiled(c.vouches, key), ..c }
}

/// What is known once a device is no longer recognized.
pub open spec fn unrecognized(c: ClientView, key: PublicKey) -> ClientView {
    ClientView {
        devices: unfiled(c.devices, key),
        device_vouches: unfiled(c.device_vouches, key),
        ..c
    }
}

/// What is known once a device is recognized.
pub open spec fn recognized(c: ClientView, key: PublicKey, record: RecordView) -> ClientView {
    ClientView {
        devices: refiled(c.devices, key, record),
        device_vouches: refiled(
            c.device_vouches,
            key,
            issued(c, c.device, ClaimView::SamePersonAs(key), 0),
        ),
        ..c
    }
}

/// The key an entry is identified by.
pub open spec fn entry_key(c: ClientView, petname: Seq<char>) -> Option<PublicKey> {
    match entry_named(c, petname) {
        Some(e) => stem(e.1),
        None => None,
    }
}

/// The link vouch this device has signed for a sibling.
pub open spec fn linking(key: PublicKey) -> spec_fn((PublicKey, SignedView)) -> bool {
    |e: (PublicKey, SignedView)| e.1.attestation.claim == ClaimView::SamePersonAs(key)
}

pub open spec fn link_vouch(c: ClientView, key: PublicKey) -> Option<SignedView> {
    if device_with(c, key) is Some {
        match first(c.device_vouches, linking(key)) {
            Some(e) => Some(e.1),
            None => None,
        }
    } else {
        None
    }
}

pub open spec fn higher(a: Option<SignedView>, b: Option<SignedView>) -> Option<SignedView> {
    match (a, b) {
        (Some(x), Some(y)) => if y.attestation.revision > x.attestation.revision {
            Some(y)
        } else {
            Some(x)
        },
        (Some(x), None) => Some(x),
        (None, y) => y,
    }
}

/// The standing claim of the highest revision that a disavowal of `key` is to
/// void.
pub open spec fn standing(c: ClientView, key: PublicKey) -> Option<SignedView> {
    higher(higher(stance(c, key), link_vouch(c, key)), share_of(c, key))
}

pub open spec fn not_authored_by(key: PublicKey) -> spec_fn(OfferView) -> bool {
    |o: OfferView| o.author != key
}

fn highest(a: Option<u64>, b: Option<u64>) -> (r: Option<u64>)
    ensures
        r == match (a, b) {
            (Some(x), Some(y)) => if y > x {
                Some(y)
            } else {
                Some(x)
            },
            (Some(x), None) => Some(x),
            (None, y) => y,
        },
{
    match (a, b) {
        (Some(x), Some(y)) => if y > x {
            Some(y)
        } else {
            Some(x)
        },
        (Some(x), None) => Some(x),
        (None, y) => y,
    }
}

pub open spec fn revision_of(o: Option<SignedView>) -> Option<u64> {
    match o {
        Some(s) => Some(s.attestation.revision),
        None => None,
    }
}

fn revision_of_claim(o: &Option<SignedAttestation>) -> (r: Option<u64>)
    ensures
        r == revision_of(o.deep_view()),
{
    match o {
        Some(s) => Some(s.attestation.revision),
        None => None,
    }
}

impl Client {
    pub(crate) fn issue(&self, subject: PublicKey, claim: Claim, revision: u64) -> (r: SignedAttestation)
        ensures
            r.deep_view() == issued(self.deep_view(), subject, claim.deep_view(), revision),
    {
        SignedAttestation {
            attestation: Attestation { attester: self.device, subject, claim, revision },
            verified: true,
        }
    }

    /// A contact entry's identity key: its record's first.
    pub fn contact_key(&self, petname: &str) -> (r: Result<PublicKey, Error>)
        ensures
            match entry_key(self.deep_view(), petname@) {
                Some(k) => r == Ok::<PublicKey, Error>(k),
                None => r is Err && r->Err_0.deep_view() == no_contact_named(petname@),
            },
    {
        match find_named(&self.contacts, petname) {
            Some(i) => match self.contacts[i].1.first_key() {
                Some(k) => Ok(k),
                None => Err(unknown_petname(petname)),
            },
            None => Err(unknown_petname(petname)),
        }
    }

    /// Vouch for a contact: sign "I call this key <petname>", to be served
    /// with every answer about them. A re-vouch supersedes.
    pub fn vouch(&mut self, petname: &str) -> (r: Result<PublicKey, Error>)
        requires
            entry_key(old(self).deep_view(), petname@) is Some ==> supersedable(
                stance(
                    old(self).deep_view(),
                    entry_key(old(self).deep_view(), petname@)->0,
                ),
            ),
        ensures
            match entry_key(old(self).deep_view(), petname@) {
                Some(k) => r == Ok::<PublicKey, Error>(k) && final(self).deep_view() == vouched_for(
                    old(self).deep_view(),
                    k,
                    petname@,
                ),
                None => r is Err && r->Err_0.deep_view() == no_contact_named(petname@)
                    && final(self).deep_view() == old(self).deep_view(),
            },
    {
        let subject: PublicKey = match self.contact_key(petname) {
            Ok(k) => k,
            Err(e) => {
                return Err(e);
            },
        };
        let revision: u64 = match self.vouch_for(&subject) {
            Some(prior) => prior.attestation.revision + 1,
            None => 0,
        };
        let signed: SignedAttestation = self.issue(
            subject,
            Claim::Name(petname.to_owned()),
            revision,
        );
        refile(&mut self.vouches, subject, signed);
        Ok(subject)
    }

    /// Withdraw a vouch: it stops being served.
    pub fn unvouch(&mut self, petname: &str) -> (r: Result<(), Error>)
        ensures
            match entry_key(old(self).deep_view(), petname@) {
                Some(k) => r is Ok && final(self).deep_view() == unvouched(
                    old(self).deep_view(),
                    k,
                ),
                None => r is Err && r->Err_0.deep_view() == no_contact_named(petname@)
                    && final(self).deep_view() == old(self).deep_view(),
            },
    {
        match self.contact_key(petname) {
            Ok(k) => {
                unfile(&mut self.vouches, &k);
                Ok(())
            },
            Err(e) => Err(e),
        }
    }

    /// Whether this device has issued a stance about a key.
    pub fn vouches(&self, subject: &PublicKey) -> (r: bool)
        ensures
            r == stance(self.deep_view(), *subject) is Some,
    {
        find_filed(&self.vouches, subject).is_some()
    }

    /// Un-recognize a device, locally only.
    pub fn unrecognize_device(&mut self, key: &PublicKey)
        ensures
            final(self).deep_view() == unrecognized(old(self).deep_view(), *key),
    {
        unfile(&mut self.devices, key);
        unfile(&mut self.device_vouches, key);
    }

    /// The one-way "recognize this device as me" act: store the scanned
    /// record among the own devices and sign the link vouch. Returns the
    /// device's key.
    pub fn recognize_device(&mut self, record: &ContactRecord) -> (r: Result<PublicKey, Error>)
        ensures
            match recognition(old(self).deep_view(), record.deep_view()) {
                Ok(k) => r == Ok::<PublicKey, Error>(k) && final(self).deep_view() == recognized(
                    old(self).deep_view(),
                    k,
                    record.deep_view(),
                ),
                Err(e) => r is Err && r->Err_0.deep_view() == e && final(self).deep_view() == old(
                    self,
                ).deep_view(),
            },
    {
        let key: PublicKey = match record.first_key() {
            Some(k) => k,
            None => {
                return Err(Error::InvalidRecord("record has no keys".to_owned()));
            },
        };
        if key == self.device {
            return Err(Error::InvalidInput("that is this device's own record".to_owned()));
        }
        if record.relays.len() == 0 {
            return Err(
                Error::InvalidRecord(
                    "record has no relays — send-to-self deposits need a mailbox".to_owned(),
                ),
            );
        }
        let signed: SignedAttestation = self.issue(self.device, Claim::SamePersonAs(key), 0);
        refile(&mut self.devices, key, record.duplicate());
        refile(&mut self.device_vouches, key, signed);
        Ok(key)
    }

    /// Repudiate a key: sign the disavowal that voids our earlier claims
    /// about it, stop sharing its picture, drop its offers, and un-recognize
    /// it where it is a sibling.
    pub fn repudiate(&mut self, key: PublicKey) -> (r: Result<(), Error>)
        requires
            key != old(self).deep_view().device ==> supersedable(
                standing(old(self).deep_view(), key),
            ),
        ensures
            key == old(self).deep_view().device ==> r is Err && r->Err_0.deep_view()
                == ErrorView::InvalidInput("that is this device's own key"@)
                && final(self).deep_view() == old(self).deep_view(),
            key != old(self).deep_view().device ==> r is Ok && final(self).deep_view()
                == repudiated(old(self).deep_view(), key),
    {
        if key == self.device {
            return Err(Error::InvalidInput("that is this device's own key".to_owned()));
        }
        let ghost c = self.deep_view();
        let stance_revision: Option<u64> = revision_of_claim(&self.vouch_for(&key));
        let link_revision: Option<u64> = if find_filed(&self.devices, &key).is_some() {
            self.link_revision(&key)
        } else {
            None
        };
        let share_revision: Option<u64> = revision_of_claim(&self.avatar_share_for(&key));
        let top: Option<u64> = highest(highest(stance_revision, link_revision), share_revision);
        assert(top == revision_of(standing(c, key)));
        let revision: u64 = match top {
            Some(t) => t + 1,
            None => 0,
        };
        let negative: SignedAttestation = self.issue(key, Claim::Negative, revision);
        refile(&mut self.vouches, key, negative);
        self.remove_avatar_share(&key);
        drop_offers(&mut self.offers, &key);
        unfile(&mut self.devices, &key);
        unfile(&mut self.device_vouches, &key);
        Ok(())
    }

    fn link_revision(&self, key: &PublicKey) -> (r: Option<u64>)
        ensures
            r == match first(self.deep_view().device_vouches, linking(*key)) {
                Some(e) => Some(e.1.attestation.revision),
                None => None,
            },
    {
        let ghost s = self.device_vouches.deep_view();
        let ghost p = linking(*key);
        for i in 0..self.device_vouches.len()
            invariant
                s == self.device_vouches.deep_view(),
                p == linking(*key),
                first(s.take(i as int), p) is None,
        {
            proof {
                lemma_first_step(s, p, i as int);
            }
            let hit: bool = match self.device_vouches[i].1.attestation.claim {
                Claim::SamePersonAs(linked) => linked == *key,
                _ => false,
            };
            assert(hit == p(s[i as int]));
            if hit {
                proof {
                    lemma_first_found(s, p, i + 1);
                }
                return Some(self.device_vouches[i].1.attestation.revision);
            }
        }
        proof {
            lemma_take_all(s);
        }
        None
    }
}

/// Whether a record can be recognized as a device, and under which key.
pub open spec fn recognition(c: ClientView, record: RecordView) -> Result<PublicKey, ErrorView> {
    match stem(record) {
        None => Err(ErrorView::InvalidRecord("record has no keys"@)),
        Some(k) => if k == c.device {
            Err(ErrorView::InvalidInput("that is this device's own record"@))
        } else if record.relays.len() == 0 {
            Err(
                ErrorView::InvalidRecord(
                    "record has no relays — send-to-self deposits need a mailbox"@,
                ),
            )
        } else {
            Ok(k)
        },
    }
}

/// What is known once a key is repudiated.
pub open spec fn repudiated(c: ClientView, key: PublicKey) -> ClientView {
    ClientView {
        vouches: refiled(
            c.vouches,
            key,
            issued(c, key, ClaimView::Negative, next_revision(standing(c, key))),
        ),
        avatar_shares: unfiled(c.avatar_shares, key),
        offers: c.offers.filter(not_authored_by(key)),
        devices: unfiled(c.devices, key),
        device_vouches: unfiled(c.device_vouches, key),
        ..c
    }
}

fn drop_offers(offers: &mut Vec<LensOffer>, author: &PublicKey)
    ensures
        final(offers).deep_view() == old(offers).deep_view().filter(not_authored_by(*author)),
{
    let ghost s = offers.deep_view();
    let ghost p = not_authored_by(*author);
    let mut out: Vec<LensOffer> = Vec::new();
    proof {
        reveal(Seq::filter);
        assert(out.deep_view() =~= s.take(0).filter(p));
    }
    for i in 0..offers.len()
        invariant
            s == offers.deep_view(),
            p == not_authored_by(*author),
            out.deep_view() == s.take(i as int).filter(p),
    {
        proof {
            lemma_filter_step(s, p, i as int);
        }
        if !(offers[i].author == *author) {
            let ghost before = out.deep_view();
            out.push(offers[i].duplicate());
            assert(out.deep_view() =~= before.push(s[i as int]));
        }
    }
    proof {
        lemma_take_all(s);
    }
    *offers = out;
}

/// A repudiation out-revisions every claim this device had standing about the
/// key.
pub proof fn law_repudiation_supersedes(c: ClientView, key: PublicKey)
    requires
        supersedable(standing(c, key)),
    ensures
        ({
            let n = stance(repudiated(c, key), key);
            &&& n is Some
            &&& is_negative(n->0)
            &&& n->0.attestation.subject == key
            &&& n->0.attestation.attester == c.device
            &&& stance(c, key) is Some ==> n->0.attestation.revision > stance(
                c,
                key,
            )->0.attestation.revision
            &&& link_vouch(c, key) is Some ==> n->0.attestation.revision > link_vouch(
                c,
                key,
            )->0.attestation.revision
            &&& share_of(c, key) is Some ==> n->0.attestation.revision > share_of(
                c,
                key,
            )->0.attestation.revision
        }),
{
    let n = issued(c, key, ClaimView::Negative, next_revision(standing(c, key)));
    crate::client::law_filing(c.vouches, key, n, key);
}

/// Once a key is repudiated it is excluded from addressed sets.
pub proof fn law_repudiated_is_excluded(c: ClientView, key: PublicKey)
    requires
        supersedable(standing(c, key)),
        key != c.device,
    ensures
        is_excluded(repudiated(c, key), key),
{
    let d = repudiated(c, key);
    law_repudiation_supersedes(c, key);
    let n = stance(d, key)->0;
    let s = held(d, key);
    assert(s[0] == n);
    lemma_disavower(s, key, 0);
    let ds = disavowers(s, key);
    let i = choose|i: int| 0 <= i < ds.len() && ds[i] == c.device;
    assert(own(d).contains(c.device));
    assert(disavowals_of(d, key)[i] == verdict(d, key)(ds[i]));
    assert(excluding()(disavowals_of(d, key)[i]));
}

/// A repudiated device's offers are void.
pub proof fn law_repudiation_voids_offers(c: ClientView, key: PublicKey, i: int)
    requires
        0 <= i < repudiated(c, key).offers.len(),
    ensures
        repudiated(c, key).offers[i].author != key,
{
    crate::seqs::lemma_filter(c.offers, not_authored_by(key));
    assert(not_authored_by(key)(c.offers.filter(not_authored_by(key))[i]));
}

/// A vouch is this device's own verified word that the key goes by the name.
/// It supersedes what this device said of the key before, and leaves what it
/// said of others, and everything else, as it was.
pub proof fn law_vouch_is_own_word(c: ClientView, key: PublicKey, name: Seq<char>, other: PublicKey)
    requires
        supersedable(stance(c, key)),
    ensures
        ({
            let d = vouched_for(c, key, name);
            &&& d == (ClientView { vouches: d.vouches, ..c })
            &&& match stance(d, key) {
                Some(s) => {
                    &&& s.verified
                    &&& s.attestation.attester == c.device
                    &&& s.attestation.subject == key
                    &&& s.attestation.claim == ClaimView::Name(name)
                    &&& stance(c, key) is Some ==> s.attestation.revision > stance(
                        c,
                        key,
                    )->0.attestation.revision
                },
                None => false,
            }
            &&& other != key ==> stance(d, other) == stance(c, other)
        }),
{
    let s = issued(c, key, ClaimView::Name(name), next_revision(stance(c, key)));
    crate::client::law_filing(c.vouches, key, s, other);
}

/// Recognizing a device files the record under the device's key and this
/// device's verified word that the two are one person; the other devices, and
/// everything else, stay as they were.
pub proof fn law_recognized_is_own(c: ClientView, key: PublicKey, record: RecordView, other: PublicKey)
    ensures
        ({
            let d = recognized(c, key, record);
            &&& d == (ClientView { devices: d.devices, device_vouches: d.device_vouches, ..c })
            &&& device_with(d, key) == Some((key, record))
            &&& own(d).contains(key)
            &&& other != key ==> device_with(d, other) == device_with(c, other)
            &&& match first(d.device_vouches, crate::client::filed(key)) {
                Some(e) => {
                    &&& e.1.verified
                    &&& e.1.attestation.attester == c.device
                    &&& e.1.attestation.subject == c.device
                    &&& e.1.attestation.claim == ClaimView::SamePersonAs(key)
                },
                None => false,
            }
        }),
{
    let d = recognized(c, key, record);
    let s = issued(c, c.device, ClaimView::SamePersonAs(key), 0);
    crate::client::law_filing(c.devices, key, record, other);
    crate::client::law_filing(c.device_vouches, key, s, other);
    crate::client::law_own_keys(d, key);
    assert(d.devices[d.devices.len() - 1].0 == key);
}

/// A record is recognized exactly where it has a key that is not this
/// device's, and a relay; under its first key.
pub proof fn law_what_can_be_recognized(c: ClientView, record: RecordView)
    ensures
        match recognition(c, record) {
            Ok(k) => record.keys.len() > 0 && record.keys[0] == k && k != c.device
                && record.relays.len() > 0,
            Err(_) => record.keys.len() == 0 || record.keys[0] == c.device || record.relays.len()
                == 0,
        },
{
}

/// Repudiating a key leaves it no device of this user's, no shared picture and
/// no offer; the devices, pictures, stances and offers of others stay, and
/// nothing else changes.
pub proof fn law_repudiation_touches_one_key(c: ClientView, key: PublicKey, other: PublicKey, o: OfferView)
    ensures
        ({
            let d = repudiated(c, key);
            &&& d == (ClientView {
                vouches: d.vouches,
                avatar_shares: d.avatar_shares,
                offers: d.offers,
                devices: d.devices,
                device_vouches: d.device_vouches,
                ..c
            })
            &&& device_with(d, key) is None
            &&& share_of(d, key) is None
            &&& other != key ==> {
                &&& device_with(d, other) == device_with(c, other)
                &&& share_of(d, other) == share_of(c, other)
                &&& stance(d, other) == stance(c, other)
            }
            &&& d.offers.contains(o) <==> c.offers.contains(o) && o.author != key
        }),
{
    let n = issued(c, key, ClaimView::Negative, next_revision(standing(c, key)));
    crate::client::law_filing(c.vouches, key, n, other);
    crate::seqs::lemma_filter_contains(c.offers, not_authored_by(key), o);
    lemma_unfiled(c.devices, key, other);
    lemma_unfiled(c.avatar_shares, key, other);
}

proof fn lemma_unfiled<V>(s: Seq<(PublicKey, V)>, key: PublicKey, other: PublicKey)
    ensures
        first(unfiled(s, key), crate::client::filed(key)) is None,
        other != key ==> first(unfiled(s, key), crate::client::filed(other)) == first(
            s,
            crate::client::filed(other),
        ),
{
    let q = crate::client::not_filed(key);
    if other != key {
        crate::seqs::lemma_first_filter(s, q, crate::client::filed(other));
    }
    let p = crate::client::filed(key);
    let f = unfiled(s, key);
    crate::seqs::lemma_first(f, p);
    crate::seqs::lemma_filter(s, q);
    match first(f, p) {
        Some(v) => {
            let k = choose|k: int| 0 <= k < f.len() && f[k] == v;
            assert(q(f[k]));
        },
        None => {},
    }
}

/// A disavowal of a key is listed exactly where something held is a verified
/// disavowal of it; each disavower once.
pub proof fn law_every_disavower_is_listed(c: ClientView, key: PublicKey, who: PublicKey)
    ensures
        (exists|k: int|
            0 <= k < disavowals_of(c, key).len() && (#[trigger] disavowals_of(c, key)[k]).attester
                == who) <==> exists|i: int|
            0 <= i < held(c, key).len() && (#[trigger] held(c, key)[i]).verified && held(
                c,
                key,
            )[i].attestation.claim is Negative && held(c, key)[i].attestation.subject == key && held(
                c,
                key,
            )[i].attestation.attester == who,
        disavowers(held(c, key), key).no_duplicates(),
{
    let d = disavowers(held(c, key), key);
    let s = disavowals_of(c, key);
    lemma_disavowers(held(c, key), key, who);
    if exists|k: int| 0 <= k < s.len() && (#[trigger] s[k]).attester == who {
        let k = choose|k: int| 0 <= k < s.len() && (#[trigger] s[k]).attester == who;
        assert(d[k] == who);
    }
    if d.contains(who) {
        let k = choose|k: int| 0 <= k < d.len() && d[k] == who;
        assert(s[k].attester == who);
    }
}

proof fn lemma_disavowers(s: Seq<SignedView>, key: PublicKey, who: PublicKey)
    ensures
        disavowers(s, key).contains(who) <==> exists|i: int|
            0 <= i < s.len() && (#[trigger] s[i]).verified && s[i].attestation.claim is Negative
                && s[i].attestation.subject == key && s[i].attestation.attester == who,
        disavowers(s, key).no_duplicates(),
    decreases s.len(),
{
    if s.len() > 0 {
        let d = s.drop_last();
        lemma_disavowers(d, key, who);
        let rest = disavowers(d, key);
        let all = disavowers(s, key);
        let n = s.len() - 1;
        if rest.contains(who) {
            let k = choose|k: int| 0 <= k < rest.len() && rest[k] == who;
            assert(all[k] == who);
            let i = choose|i: int|
                0 <= i < d.len() && (#[trigger] d[i]).verified && d[i].attestation.claim is Negative
                    && d[i].attestation.subject == key && d[i].attestation.attester == who;
            assert(s[i] == d[i]);
        } else {
            if all.contains(who) {
                let k = choose|k: int| 0 <= k < all.len() && all[k] == who;
                if k < rest.len() {
                    assert(rest[k] == who);
                }
                assert(s[n].attestation.attester == who);
            }
            if exists|i: int|
                0 <= i < s.len() && (#[trigger] s[i]).verified && s[i].attestation.claim is Negative
                    && s[i].attestation.subject == key && s[i].attestation.attester == who {
                let i = choose|i: int|
                    0 <= i < s.len() && (#[trigger] s[i]).verified
                        && s[i].attestation.claim is Negative && s[i].attestation.subject == key
                        && s[i].attestation.attester == who;
                if i < n {
                    assert(d[i] == s[i]);
                }
                assert(all[all.len() - 1] == who);
            }
        }
    }
}

/// A key is excluded exactly where somebody listed disavows it whose word
/// excludes: this user's own, or the key's own person, by one entry that lists
/// both or a verified link between them.
pub proof fn law_excluded_by_own_word_only(c: ClientView, key: PublicKey)
    ensures
        is_excluded(c, key) <==> exists|who: PublicKey| #[trigger]
            disavowers(held(c, key), key).contains(who) && (own(c).contains(who) || (exists|i: int|
                0 <= i < c.contacts.len() && (#[trigger] c.contacts[i]).1.keys.contains(who)
                    && c.contacts[i].1.keys.contains(key)) || some(
                held(c, key),
                links(who, key),
            )),
{
    let d = disavowers(held(c, key), key);
    let s = disavowals_of(c, key);
    assert forall|who: PublicKey| #[trigger] excludes(c, key, who) <==> own(c).contains(who) || (
    exists|i: int|
        0 <= i < c.contacts.len() && (#[trigger] c.contacts[i]).1.keys.contains(who)
            && c.contacts[i].1.keys.contains(key)) || some(held(c, key), links(who, key)) by {
        let p = lists_both(who, key);
        if some(c.contacts, p) {
            let i = choose|i: int| 0 <= i < c.contacts.len() && p(#[trigger] c.contacts[i]);
            assert(c.contacts[i].1.keys.contains(who));
        }
        if exists|i: int|
            0 <= i < c.contacts.len() && (#[trigger] c.contacts[i]).1.keys.contains(who)
                && c.contacts[i].1.keys.contains(key) {
            let i = choose|i: int|
                0 <= i < c.contacts.len() && (#[trigger] c.contacts[i]).1.keys.contains(who)
                    && c.contacts[i].1.keys.contains(key);
            assert(p(c.contacts[i]));
        }
    }
    if is_excluded(c, key) {
        let k = choose|k: int| 0 <= k < s.len() && excluding()(#[trigger] s[k]);
        assert(d.contains(d[k]));
        assert(excludes(c, key, d[k]));
    }
    if exists|who: PublicKey| #[trigger] d.contains(who) && excludes(c, key, who) {
        let who = choose|who: PublicKey| #[trigger] d.contains(who) && excludes(c, key, who);
        let k = choose|k: int| 0 <= k < d.len() && d[k] == who;
        assert(excluding()(s[k]));
    }
}

/// What is held about a key: this device's stance on it, every disavowal this
/// device issued, and what is attested by answers about the key and by the
/// contacts' records.
pub proof fn law_held_attestations(c: ClientView, key: PublicKey, s: SignedView)
    ensures
        stance(c, key) == Some(s) ==> held(c, key).contains(s),
        s.attestation.claim is Negative && (exists|k: PublicKey| #[trigger] c.vouches.contains((k, s)))
            ==> held(c, key).contains(s),
        (exists|e: LearnedView| #[trigger]
            c.learned.contains((key, e)) && (e.record.attestations.contains(s)
                || e.endorsements.contains(s))) ==> held(c, key).contains(s),
        (exists|i: int|
            0 <= i < c.contacts.len() && (#[trigger] c.contacts[i]).1.attestations.contains(s)) ==> held(
            c,
            key,
        ).contains(s),
{
    let h = held(c, key);
    let a = as_list(stance(c, key));
    let n1 = c.vouches.filter_map(negative_stance());
    let n = negatives(c);
    let b = attested_about(c)(key);
    let g = gathered(c.contacts, attested_by_entry(c));
    assert(h =~= a + n + b + g);
    if stance(c, key) == Some(s) {
        assert(h[0] == s);
    }
    if s.attestation.claim is Negative && (exists|k: PublicKey| #[trigger]
        c.vouches.contains((k, s))) {
        let k = choose|k: PublicKey| #[trigger] c.vouches.contains((k, s));
        let i = choose|i: int| 0 <= i < c.vouches.len() && c.vouches[i] == (k, s);
        crate::seqs::lemma_filter_map_has(c.vouches, negative_stance(), i);
        let j = choose|j: int| 0 <= j < n1.len() && n1[j] == s;
        assert(n[j] == s);
        assert(h[a.len() + j] == s);
    }
    if exists|e: LearnedView| #[trigger]
        c.learned.contains((key, e)) && (e.record.attestations.contains(s)
            || e.endorsements.contains(s)) {
        let e = choose|e: LearnedView| #[trigger]
            c.learned.contains((key, e)) && (e.record.attestations.contains(s)
                || e.endorsements.contains(s));
        crate::client::law_learned_about(c, key, e);
        let entries = learned_about(c, key);
        let i = choose|i: int| 0 <= i < entries.len() && entries[i] == e;
        let both = e.record.attestations + e.endorsements;
        if e.record.attestations.contains(s) {
            let j = choose|j: int|
                0 <= j < e.record.attestations.len() && e.record.attestations[j] == s;
            assert(both[j] == s);
        } else {
            let j = choose|j: int| 0 <= j < e.endorsements.len() && e.endorsements[j] == s;
            assert(both[e.record.attestations.len() + j] == s);
        }
        assert(attested()(entries[i]).contains(s));
        crate::seqs::lemma_gathered_contains(entries, attested(), s);
        let j = choose|j: int| 0 <= j < b.len() && b[j] == s;
        assert(h[a.len() + n.len() + j] == s);
    }
    if exists|i: int|
        0 <= i < c.contacts.len() && (#[trigger] c.contacts[i]).1.attestations.contains(s) {
        let i = choose|i: int|
            0 <= i < c.contacts.len() && (#[trigger] c.contacts[i]).1.attestations.contains(s);
        let e = c.contacts[i];
        let more = gathered(e.1.keys, attested_about(c));
        let both = more + e.1.attestations;
        let j = choose|j: int| 0 <= j < e.1.attestations.len() && e.1.attestations[j] == s;
        assert(both[more.len() + j] == s);
        assert(attested_by_entry(c)(c.contacts[i]).contains(s));
        crate::seqs::lemma_gathered_contains(c.contacts, attested_by_entry(c), s);
        let k = choose|k: int| 0 <= k < g.len() && g[k] == s;
        assert(h[a.len() + n.len() + b.len() + k] == s);
    }
}

/// Withdrawing a vouch leaves no stance on that key, and every other stance and
/// all else as it was.
pub proof fn law_unvouch_withdraws_one(c: ClientView, key: PublicKey, other: PublicKey)
    ensures
        ({
            let d = unvouched(c, key);
            &&& d == (ClientView { vouches: d.vouches, ..c })
            &&& stance(d, key) is None
            &&& other != key ==> stance(d, other) == stance(c, other)
        }),
{
    lemma_unfiled(c.vouches, key, other);
}

/// A device no longer recognized is none of this user's, and no link to it is
/// kept; the others, and all else, stay.
pub proof fn law_unrecognized_is_not_own(c: ClientView, key: PublicKey, other: PublicKey)
    ensures
        ({
            let d = unrecognized(c, key);
            &&& d == (ClientView { devices: d.devices, device_vouches: d.device_vouches, ..c })
            &&& device_with(d, key) is None
            &&& first(d.device_vouches, crate::client::filed(key)) is None
            &&& other != key ==> device_with(d, other) == device_with(c, other)
            &&& other != key ==> first(d.device_vouches, crate::client::filed(other)) == first(
                c.device_vouches,
                crate::client::filed(other),
            )
        }),
{
    lemma_unfiled(c.devices, key, other);
    lemma_unfiled(c.device_vouches, key, other);
}

/// A petname stands for the first key of the first entry under it, where the
/// entry has a key.
pub proof fn law_key_of_a_petname(c: ClientView, petname: Seq<char>)
    ensures
        match entry_key(c, petname) {
            Some(k) => exists|i: int|
                0 <= i < c.contacts.len() && (#[trigger] c.contacts[i]).0 == petname
                    && c.contacts[i].1.keys.len() > 0 && c.contacts[i].1.keys[0] == k && forall|
                    j: int,
                |
                    0 <= j < i ==> (#[trigger] c.contacts[j]).0 != petname,
            None => forall|i: int|
                0 <= i < c.contacts.len() && (#[trigger] c.contacts[i]).0 == petname && (forall|
                    j: int,
                |
                    0 <= j < i ==> (#[trigger] c.contacts[j]).0 != petname)
                    ==> c.contacts[i].1.keys.len() == 0,
        },
{
    crate::client::law_entry_by_petname(c, petname);
    match entry_named(c, petname) {
        Some(e) => {
            let i = choose|i: int|
                0 <= i < c.contacts.len() && #[trigger] c.contacts[i] == e && forall|j: int|
                    0 <= j < i ==> (#[trigger] c.contacts[j]).0 != petname;
            assert(c.contacts[i].0 == petname);
            if entry_key(c, petname) is None {
                assert forall|k: int|
                    0 <= k < c.contacts.len() && (#[trigger] c.contacts[k]).0 == petname && (forall|
                        j: int,
                    |
                        0 <= j < k ==> (#[trigger] c.contacts[j]).0
                            != petname) implies c.contacts[k].1.keys.len() == 0 by {
                    if k < i {
                        assert(c.contacts[k].0 != petname);
                    }
                    if i < k {
                        assert(c.contacts[i].0 != petname);
                    }
                }
            }
        },
        None => {},
    }
}

/// The disavowals issued are this device's negative stances, all of them, and
/// nothing else.
pub proof fn law_every_disavowal_is_issued(c: ClientView, s: SignedView)
    ensures
        negatives(c).contains(s) <==> s.attestation.claim is Negative && ((exists|k: PublicKey|
            #[trigger] c.vouches.contains((k, s))) || exists|k: PublicKey| #[trigger]
            c.avatar_shares.contains((k, s))),
{
    let f = negative_stance();
    let a = c.vouches.filter_map(f);
    let b = c.avatar_shares.filter_map(f);
    let all = negatives(c);
    if all.contains(s) {
        let k = choose|k: int| 0 <= k < all.len() && all[k] == s;
        if k < a.len() {
            let i = crate::seqs::lemma_filter_map_source(c.vouches, f, k);
            let key = c.vouches[i].0;
            assert(c.vouches[i] == (key, s));
            assert(c.vouches.contains((key, s)));
        } else {
            let i = crate::seqs::lemma_filter_map_source(c.avatar_shares, f, k - a.len());
            let key = c.avatar_shares[i].0;
            assert(c.avatar_shares[i] == (key, s));
            assert(c.avatar_shares.contains((key, s)));
        }
    }
    if s.attestation.claim is Negative && exists|k: PublicKey| #[trigger] c.vouches.contains((k, s)) {
        let key = choose|k: PublicKey| #[trigger] c.vouches.contains((k, s));
        let i = choose|i: int| 0 <= i < c.vouches.len() && c.vouches[i] == (key, s);
        crate::seqs::lemma_filter_map_has(c.vouches, f, i);
        let k = choose|k: int| 0 <= k < a.len() && a[k] == s;
        assert(all[k] == s);
    }
    if s.attestation.claim is Negative && exists|k: PublicKey| #[trigger]
        c.avatar_shares.contains((k, s)) {
        let key = choose|k: PublicKey| #[trigger] c.avatar_shares.contains((k, s));
        let i = choose|i: int| 0 <= i < c.avatar_shares.len() && c.avatar_shares[i] == (key, s);
        crate::seqs::lemma_filter_map_has(c.avatar_shares, f, i);
        let k = choose|k: int| 0 <= k < b.len() && b[k] == s;
        assert(all[a.len() + k] == s);
    }
}

} // verus!
