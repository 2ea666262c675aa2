//! Own-device lens sync: the channels that carry lens ops, the adoption
//! replay, and what it leaves to the user as offers and surfaced conflicts.
use vstd::prelude::*;

use crate::client::{lemma_own_finite, own, Client, ClientView, Conflict, ConflictView, LensOffer, OfferView, PersonRowView};
use crate::contacts::{add_outcome, add_result, added, overlaps, AddView, AddedContact};
use crate::error::{Error, ErrorView};
use crate::frames::{op_of, parse_op, LensOp, OpView};
use crate::history::{body_view, dag_of, held_envelope, not_stored, ConversationView, Envelope, EnvelopeView};
use crate::ids::{MessageId, PublicKey};
use crate::order::{ascending, ascending_list, copies, holds, lemma_list_is, lists, set_insert, set_of, Duplicate};
use crate::outbox::{conversation_is, envelope_is, find_conversation, find_envelope_in};
use crate::persons::{believed, claimed, entry_for, entry_keys, healed, is_unclaimed, looked, people_by_row, person_at, relabeled, unclaimed, PersonEntry, PersonId, PersonView};
use crate::record::{ContactRecord, RecordView};
use crate::rng::{gave, lemma_gave_more, Mint};
use crate::seqs::{first, gathered, lemma_filter_map_step, lemma_filter_step, lemma_first, lemma_first_found, lemma_first_step, lemma_gathered_step, lemma_take_all, lemma_take_step, some};
use crate::text::same_text;

verus! {

// ---- conflicts ----

pub open spec fn other_conflict(person: u128) -> spec_fn(ConflictView) -> bool {
    |x: ConflictView| x.person != person
}

/// Conflicts without those about a person.
pub open spec fn without_conflict(s: Seq<ConflictView>, person: u128) -> Seq<ConflictView> {
    s.filter(other_conflict(person))
}

/// A person relabeled among some, and the conflict about them gone; or why the
/// label is refused.
pub open spec fn settled(
    c: ClientView,
    v: Seq<PersonView>,
    p: PersonView,
    label: Seq<char>,
) -> Result<ClientView, ErrorView> {
    match relabeled(c, v, p, label) {
        Ok(d) => Ok(ClientView { conflicts: without_conflict(d.conflicts, p.id), ..d }),
        Err(e) => Err(e),
    }
}

/// A sibling's label surfaced, in place of an earlier one about the person.
pub open spec fn surfaced(c: ClientView, person: u128, theirs: Seq<char>, author: PublicKey) -> ClientView {
    ClientView {
        conflicts: without_conflict(c.conflicts, person).push(
            ConflictView { person, theirs, author },
        ),
        ..c
    }
}

impl Client {
    /// Drops the conflict surfaced about a person.
    pub fn remove_conflict(&mut self, person: u128)
        ensures
            final(self).deep_view() == (ClientView {
                conflicts: without_conflict(old(self).deep_view().conflicts, person),
                ..old(self).deep_view()
            }),
    {
        let ghost s = self.conflicts.deep_view();
        let ghost p = other_conflict(person);
        let mut out: Vec<Conflict> = Vec::new();
        proof {
            reveal(Seq::filter);
            assert(out.deep_view() =~= s.take(0).filter(p));
        }
        for i in 0..self.conflicts.len()
            invariant
                s == self.conflicts.deep_view(),
                p == other_conflict(person),
                out.deep_view() == s.take(i as int).filter(p),
        {
            proof {
                lemma_filter_step(s, p, i as int);
            }
            if self.conflicts[i].person != person {
                let ghost before = out.deep_view();
                out.push(self.conflicts[i].duplicate());
                assert(out.deep_view() =~= before.push(s[i as int]));
            }
        }
        proof {
            lemma_take_all(s);
        }
        self.conflicts = out;
    }

    /// Surfaces a label a sibling gave a person.
    pub fn save_conflict(&mut self, person: u128, theirs: &str, author: PublicKey)
        ensures
            final(self).deep_view() == surfaced(old(self).deep_view(), person, theirs@, author),
    {
        self.remove_conflict(person);
        let ghost before = self.conflicts.deep_view();
        self.conflicts.push(Conflict { person, theirs: theirs.to_owned(), author });
        assert(self.conflicts.deep_view() =~= before.push(
            ConflictView { person, theirs: theirs@, author },
        ));
    }

    /// Gives a person a label, where nobody else of all goes by it, and drops
    /// the conflict about them.
    pub(crate) fn settle_among(&mut self, all: &Vec<PersonEntry>, person: &PersonEntry, label: &str) -> (r:
        Result<(), Error>)
        ensures
            match settled(old(self).deep_view(), all.deep_view(), person.deep_view(), label@) {
                Ok(c) => r is Ok && final(self).deep_view() == c,
                Err(e) => r is Err && r->Err_0.deep_view() == e && final(self).deep_view() == old(
                    self,
                ).deep_view(),
            },
    {
        match self.relabel(all, person, label) {
            Ok(()) => {
                self.remove_conflict(person.id.to_storage());
                Ok(())
            },
            Err(e) => Err(e),
        }
    }

    /// Gives a person a label, where nobody else goes by it, and drops the
    /// conflict about them: a deliberate label settles it.
    pub fn settle_label<M: Mint>(&mut self, person: &PersonEntry, label: &str, rng: &mut M) -> (r:
        Result<(), Error>)
        ensures
            exists|d: ClientView, v: Seq<PersonView>| #[trigger]
                looked(old(self).deep_view(), d, v, *old(rng), *final(rng)) && match settled(
                    d,
                    v,
                    person.deep_view(),
                    label@,
                ) {
                    Ok(c) => r is Ok && final(self).deep_view() == c,
                    Err(e) => r is Err && r->Err_0.deep_view() == e && final(self).deep_view() == d,
                },
    {
        let all: Vec<PersonEntry> = self.persons(rng);
        self.settle_among(&all, person, label)
    }
}

/// A surfaced label conflict: what a sibling calls a person. Nothing
/// arbitrates.
#[derive(Debug)]
pub struct LensConflict {
    pub person: PersonId,
    pub theirs: String,
    pub author: PublicKey,
}

impl DeepView for LensConflict {
    type V = ConflictView;

    open spec fn deep_view(&self) -> ConflictView {
        ConflictView { person: self.person.number(), theirs: self.theirs@, author: self.author }
    }
}

impl Client {
    /// Surfaced label conflicts, with provenance.
    pub fn lens_conflicts(&self) -> (r: Vec<LensConflict>)
        ensures
            r.deep_view() == self.deep_view().conflicts,
    {
        let ghost s = self.conflicts.deep_view();
        let mut out: Vec<LensConflict> = Vec::new();
        assert(out.deep_view() =~= s.take(0));
        for i in 0..self.conflicts.len()
            invariant
                s == self.conflicts.deep_view(),
                out.deep_view() == s.take(i as int),
        {
            proof {
                lemma_take_step(s, i as int);
            }
            let ghost before = out.deep_view();
            out.push(
                LensConflict {
                    person: PersonId::from_storage(self.conflicts[i].person),
                    theirs: self.conflicts[i].theirs.clone(),
                    author: self.conflicts[i].author,
                },
            );
            assert(out.deep_view() =~= before.push(s[i as int]));
        }
        proof {
            lemma_take_all(s);
        }
        out
    }
}

// ---- offers ----

/// Some contact shares a key with the record.
pub open spec fn is_held(c: ClientView, record: RecordView) -> bool {
    some(c.contacts, overlaps(record))
}

pub open spec fn other_subject(subject: PublicKey) -> spec_fn(OfferView) -> bool {
    |o: OfferView| o.subject != subject
}

/// Offers without those about a subject.
pub open spec fn without_offer(s: Seq<OfferView>, subject: PublicKey) -> Seq<OfferView> {
    s.filter(other_subject(subject))
}

/// What a sibling's contact-add leaves: the latest offer per subject; nothing
/// where the record has no key or the contact is held already.
pub open spec fn adopted_offer(
    c: ClientView,
    author: PublicKey,
    record: RecordView,
    petname: Seq<char>,
) -> ClientView {
    if record.keys.len() == 0 || is_held(c, record) {
        c
    } else {
        let subject = record.keys[0];
        ClientView {
            offers: without_offer(c.offers, subject).push(
                OfferView { subject, author, petname, record },
            ),
            ..c
        }
    }
}

/// An offer still stands: its author is one of this user's own devices, and
/// the contact is not held meanwhile.
pub open spec fn stands(c: ClientView) -> spec_fn(OfferView) -> bool {
    |o: OfferView| own(c).contains(o.author) && !is_held(c, o.record)
}

pub open spec fn subject_is(subject: PublicKey) -> spec_fn(OfferView) -> bool {
    |o: OfferView| o.subject == subject
}

/// The offers that still stand.
pub open spec fn standing_offers(c: ClientView) -> Seq<OfferView> {
    c.offers.filter(stands(c))
}

/// The offer about a subject that still stands.
pub open spec fn pending_offer(c: ClientView, subject: PublicKey) -> Option<OfferView> {
    first(standing_offers(c), subject_is(subject))
}

/// Accepting an offer: the ordinary add under the offered petname, and the
/// offer gone.
pub open spec fn accepted(c: ClientView, v: Seq<PersonView>, subject: PublicKey, id: u128) -> Result<
    AddView,
    ErrorView,
> {
    match pending_offer(c, subject) {
        None => Err(ErrorView::InvalidInput("no pending offer for that key"@)),
        Some(o) => match added(c, v, o.record, Some(o.petname), id) {
            Err(e) => Err(e),
            Ok(v) => Ok(
                AddView {
                    after: ClientView {
                        offers: without_offer(v.after.offers, subject),
                        ..v.after
                    },
                    ..v
                },
            ),
        },
    }
}

impl Client {
    fn holds_contact(&self, record: &ContactRecord) -> (r: bool)
        ensures
            r == is_held(self.deep_view(), record.deep_view()),
    {
        let ghost s = self.contacts.deep_view();
        let ghost p = overlaps(record.deep_view());
        for i in 0..self.contacts.len()
            invariant
                s == self.contacts.deep_view(),
                p == overlaps(record.deep_view()),
                forall|k: int| 0 <= k < i ==> !p(#[trigger] s[k]),
        {
            if self.contacts[i].1.overlaps(record) {
                assert(p(s[i as int]));
                return true;
            }
        }
        false
    }

    /// Drops the offer about a subject.
    pub fn decline_offer(&mut self, subject: &PublicKey)
        ensures
            final(self).deep_view() == (ClientView {
                offers: without_offer(old(self).deep_view().offers, *subject),
                ..old(self).deep_view()
            }),
    {
        let ghost s = self.offers.deep_view();
        let ghost p = other_subject(*subject);
        let mut out: Vec<LensOffer> = Vec::new();
        proof {
            reveal(Seq::filter);
            assert(out.deep_view() =~= s.take(0).filter(p));
        }
        for i in 0..self.offers.len()
            invariant
                s == self.offers.deep_view(),
                p == other_subject(*subject),
                out.deep_view() == s.take(i as int).filter(p),
        {
            proof {
                lemma_filter_step(s, p, i as int);
            }
            if !(self.offers[i].subject == *subject) {
                let ghost before = out.deep_view();
                out.push(self.offers[i].duplicate());
                assert(out.deep_view() =~= before.push(s[i as int]));
            }
        }
        proof {
            lemma_take_all(s);
        }
        self.offers = out;
    }

    /// Stores a sibling's contact-add as an offer: never a contact write.
    pub fn adopt_offer(&mut self, author: PublicKey, record: &ContactRecord, petname: &str)
        ensures
            final(self).deep_view() == adopted_offer(
                old(self).deep_view(),
                author,
                record.deep_view(),
                petname@,
            ),
    {
        if record.keys.len() == 0 || self.holds_contact(record) {
            return;
        }
        let subject: PublicKey = record.keys[0];
        self.decline_offer(&subject);
        let ghost before = self.offers.deep_view();
        let offer: LensOffer = LensOffer {
            subject,
            author,
            petname: petname.to_owned(),
            record: record.duplicate(),
        };
        let ghost o = offer.deep_view();
        self.offers.push(offer);
        assert(self.offers.deep_view() =~= before.push(o));
    }

    /// The offers that still stand: the author is still a recognized device,
    /// and the subject not held meanwhile.
    pub fn lens_offers(&self) -> (r: Vec<LensOffer>)
        ensures
            r.deep_view() == standing_offers(self.deep_view()),
    {
        let ghost c = self.deep_view();
        let ghost s = self.offers.deep_view();
        let ghost p = stands(c);
        let mut out: Vec<LensOffer> = Vec::new();
        proof {
            reveal(Seq::filter);
            assert(out.deep_view() =~= s.take(0).filter(p));
        }
        for i in 0..self.offers.len()
            invariant
                c == self.deep_view(),
                s == self.offers.deep_view(),
                p == stands(c),
                out.deep_view() == s.take(i as int).filter(p),
        {
            proof {
                lemma_filter_step(s, p, i as int);
            }
            if self.is_own(&self.offers[i].author) && !self.holds_contact(&self.offers[i].record) {
                let ghost before = out.deep_view();
                out.push(self.offers[i].duplicate());
                assert(out.deep_view() =~= before.push(s[i as int]));
            }
        }
        proof {
            lemma_take_all(s);
        }
        out
    }

    /// The explicit accept: the ordinary add, the only write the contacts
    /// ever take from this path. `id` is the new person's minted id.
    pub fn accept_offer<M: Mint>(&mut self, subject: &PublicKey, rng: &mut M) -> (r: Result<
        AddedContact,
        Error,
    >)
        ensures
            match pending_offer(old(self).deep_view(), *subject) {
                None => {
                    &&& r is Err
                    &&& r->Err_0.deep_view() == ErrorView::InvalidInput(
                        "no pending offer for that key"@,
                    )
                    &&& final(self).deep_view() == old(self).deep_view()
                    &&& *final(rng) == *old(rng)
                },
                Some(o) => exists|e: ClientView| #[trigger]
                    add_outcome(
                        old(self).deep_view(),
                        o.record,
                        Some(o.petname),
                        *old(rng),
                        *final(rng),
                        e,
                        add_result(r),
                    ) && final(self).deep_view() == if r is Ok {
                        ClientView { offers: without_offer(e.offers, *subject), ..e }
                    } else {
                        e
                    },
            },
    {
        let offers: Vec<LensOffer> = self.lens_offers();
        let ghost s = offers.deep_view();
        let ghost p = subject_is(*subject);
        let mut i: usize = 0;
        while i < offers.len() && !(offers[i].subject == *subject)
            invariant
                i <= offers.len(),
                s == offers.deep_view(),
                p == subject_is(*subject),
                first(s.take(i as int), p) is None,
            decreases offers.len() - i,
        {
            proof {
                lemma_first_step(s, p, i as int);
            }
            i += 1;
        }
        if i == offers.len() {
            proof {
                lemma_take_all(s);
            }
            return Err(Error::InvalidInput("no pending offer for that key".to_owned()));
        }
        proof {
            lemma_first_step(s, p, i as int);
            lemma_first_found(s, p, i + 1);
            assert(s[i as int] == offers@[i as int].deep_view());
        }
        let petname: Option<String> = Some(offers[i].petname.clone());
        assert(petname.deep_view() == Some(s[i as int].petname));
        match self.add_contact(&offers[i].record, petname, rng) {
            Ok(stored) => {
                self.decline_offer(subject);
                Ok(stored)
            },
            Err(e) => Err(e),
        }
    }
}

// ---- ancestry ----

/// A stored message names another as its parent.
pub open spec fn parent_of(all: Seq<EnvelopeView>, child: MessageId, parent: MessageId) -> bool {
    match first(all, envelope_is(child)) {
        Some(e) => e.parents.contains(parent),
        None => false,
    }
}

/// Going from parent to parent `n` times leads from one message to another.
pub open spec fn climbs(all: Seq<EnvelopeView>, from: MessageId, to: MessageId, n: nat) -> bool
    decreases n,
{
    if n == 0 {
        from == to
    } else {
        exists|mid: MessageId|
            climbs(all, from, mid, (n - 1) as nat) && #[trigger] parent_of(all, mid, to)
    }
}

/// A message came before another, as far as the stored messages tell.
pub open spec fn ancestor(all: Seq<EnvelopeView>, from: MessageId, to: MessageId) -> bool {
    exists|n: nat| n >= 1 && #[trigger] climbs(all, from, to, n)
}

pub open spec fn parents_fn() -> spec_fn(EnvelopeView) -> Seq<MessageId> {
    |e: EnvelopeView| e.parents
}

/// Every parent of a message is among these.
spec fn closed_at(all: Seq<EnvelopeView>, m: MessageId, found: Seq<MessageId>) -> bool {
    forall|p: MessageId| #[trigger] parent_of(all, m, p) ==> found.contains(p)
}

proof fn lemma_climb_found(
    all: Seq<EnvelopeView>,
    from: MessageId,
    to: MessageId,
    n: nat,
    found: Seq<MessageId>,
)
    requires
        climbs(all, from, to, n),
        forall|m: MessageId|
            m == from || found.contains(m) ==> #[trigger] closed_at(all, m, found),
    ensures
        if n == 0 {
            to == from
        } else {
            found.contains(to)
        },
    decreases n,
{
    if n > 0 {
        let mid = choose|mid: MessageId|
            climbs(all, from, mid, (n - 1) as nat) && #[trigger] parent_of(all, mid, to);
        lemma_climb_found(all, from, mid, (n - 1) as nat, found);
        assert(closed_at(all, mid, found));
    }
}

/// The parents that are yet to be found.
spec fn unfound(all: Seq<EnvelopeView>, found: Seq<MessageId>) -> Set<MessageId> {
    gathered(all, parents_fn()).to_set().difference(found.to_set())
}

proof fn lemma_found_one(
    all: Seq<EnvelopeView>,
    child: MessageId,
    p: MessageId,
    before: Seq<MessageId>,
    after: Seq<MessageId>,
)
    requires
        parent_of(all, child, p),
        !before.contains(p),
        after.to_set() == before.to_set().insert(p),
    ensures
        unfound(all, after).len() < unfound(all, before).len(),
{
    let e = first(all, envelope_is(child))->0;
    lemma_first(all, envelope_is(child));
    let k = choose|k: int| 0 <= k < all.len() && all[k] == e;
    assert(parents_fn()(all[k]).contains(p));
    crate::seqs::lemma_gathered_contains(all, parents_fn(), p);
    let u = unfound(all, before);
    vstd::seq_lib::seq_to_set_is_finite(gathered(all, parents_fn()));
    assert(u.contains(p));
    assert(unfound(all, after) =~= u.remove(p));
}

/// Every message that came before one, ascending.
pub fn ancestors_of(all: &Vec<Envelope>, from: MessageId) -> (r: Vec<MessageId>)
    ensures
        ascending::<MessageId>(r.deep_view()),
        forall|m: MessageId|
            r.deep_view().contains(m) <==> #[trigger] ancestor(all.deep_view(), from, m),
{
    let ghost s = all.deep_view();
    let mut found: Vec<MessageId> = Vec::new();
    let mut stack: Vec<MessageId> = Vec::new();
    stack.push(from);
    assert(found.deep_view() =~= Seq::<MessageId>::empty());
    assert(stack@[0] == from);
    while stack.len() > 0
        invariant
            s == all.deep_view(),
            ascending::<MessageId>(found.deep_view()),
            forall|m: MessageId| #[trigger] found.deep_view().contains(m) ==> ancestor(s, from, m),
            forall|k: int|
                0 <= k < stack.len() ==> #[trigger] stack@[k] == from || found.deep_view().contains(
                    stack@[k],
                ),
            forall|m: MessageId|
                (m == from || found.deep_view().contains(m)) && !stack@.contains(m)
                    ==> #[trigger] closed_at(s, m, found.deep_view()),
        decreases unfound(s, found.deep_view()).len(), stack.len(),
    {
        let ghost held = stack@;
        let ghost begun = found.deep_view();
        let last: usize = stack.len() - 1;
        let current: MessageId = stack[last];
        stack.pop();
        proof {
            assert(stack@ =~= held.drop_last());
            assert forall|m: MessageId| (m == from || found.deep_view().contains(m)) && m != current
                && !stack@.contains(m) implies #[trigger] closed_at(s, m, found.deep_view()) by {
                if held.contains(m) {
                    let k = choose|k: int| 0 <= k < held.len() && held[k] == m;
                    assert(stack@[k] == m);
                }
            }
            assert(held[last as int] == current);
        }
        let at: Option<usize> = find_envelope_in(all, &current);
        let i: usize = match at {
            Some(i) => i,
            None => {
                assert(closed_at(s, current, found.deep_view()));
                continue ;
            },
        };
        let parents: &Vec<MessageId> = &all[i].parents;
        let ghost ps = parents.deep_view();
        let ghost depth = choose|n: nat| #[trigger] climbs(s, from, current, n);
        proof {
            assert(s[i as int] == all@[i as int].deep_view());
            if current == from {
                assert(climbs(s, from, current, 0));
            }
        }
        let mut j: usize = 0;
        while j < parents.len()
            invariant
                s == all.deep_view(),
                j <= parents.len(),
                ps == parents.deep_view(),
                first(s, envelope_is(current)) is Some,
                first(s, envelope_is(current))->0.parents == ps,
                climbs(s, from, current, depth),
                ascending::<MessageId>(found.deep_view()),
                forall|m: MessageId| #[trigger]
                    found.deep_view().contains(m) ==> ancestor(s, from, m),
                forall|k: int|
                    0 <= k < stack.len() ==> #[trigger] stack@[k] == from
                        || found.deep_view().contains(stack@[k]),
                forall|m: MessageId|
                    (m == from || found.deep_view().contains(m)) && m != current && !stack@.contains(
                        m,
                    ) ==> #[trigger] closed_at(s, m, found.deep_view()),
                forall|k: int| 0 <= k < j ==> found.deep_view().contains(#[trigger] ps[k]),
                unfound(s, found.deep_view()).len() < unfound(s, begun).len() || (unfound(
                    s,
                    found.deep_view(),
                ).len() == unfound(s, begun).len() && stack.len() + 1 == held.len()),
            decreases parents.len() - j,
        {
            let ghost f0 = found.deep_view();
            let ghost st0 = stack@;
            let parent: MessageId = parents[j];
            let fresh: bool = set_insert(&mut found, parent);
            proof {
                assert(ps[j as int] == parent);
                assert(parent_of(s, current, parent));
                let f1 = found.deep_view();
                assert forall|m: MessageId| #[trigger] f1.contains(m) <==> (f0.contains(m) || m
                    == parent) by {
                    assert(f1.to_set().contains(m) == f0.to_set().insert(parent).contains(m));
                }
                assert(climbs(s, from, parent, depth + 1));
                assert(ancestor(s, from, parent));
                if fresh {
                    lemma_found_one(s, current, parent, f0, f1);
                }
                assert forall|m: MessageId| closed_at(s, m, f0) implies #[trigger] closed_at(s, m, f1) by {}
            }
            if fresh {
                stack.push(parent);
                proof {
                    assert forall|m: MessageId| st0.contains(m) || m == parent implies #[trigger] stack@.contains(m) by {
                        if m == parent {
                            assert(stack@[st0.len() as int] == parent);
                        } else {
                            let k = choose|k: int| 0 <= k < st0.len() && st0[k] == m;
                            assert(stack@[k] == m);
                        }
                    }
                }
            }
            j += 1;
        }
        proof {
            assert(closed_at(s, current, found.deep_view())) by {
                assert forall|p: MessageId| #[trigger] parent_of(s, current, p) implies found.deep_view().contains(p) by {
                    let k = choose|k: int| 0 <= k < ps.len() && ps[k] == p;
                    assert(found.deep_view().contains(ps[k]));
                }
            }
        }
    }
    proof {
        assert forall|m: MessageId| #[trigger] ancestor(s, from, m) implies found.deep_view().contains(m) by {
            let n = choose|n: nat| n >= 1 && #[trigger] climbs(s, from, m, n);
            lemma_climb_found(s, from, m, n, found.deep_view());
        }
    }
    found
}

// ---- channels ----

/// The op an opened body carries.
pub open spec fn op_in(body: Result<Seq<u8>, Seq<char>>) -> Option<OpView> {
    match body {
        Ok(b) => op_of(b),
        Err(_) => None,
    }
}

/// A conversation is a lens channel: one of this user's own devices began it
/// with a hello.
pub open spec fn is_channel(c: ClientView) -> spec_fn(ConversationView) -> bool {
    |x: ConversationView|
        match held_envelope(c, x.id) {
            Some(e) => own(c).contains(e.sender) && op_in(e.body) == Some(OpView::Hello),
            None => false,
        }
}

pub open spec fn conversation_id() -> spec_fn(ConversationView) -> MessageId {
    |x: ConversationView| x.id
}

/// The lens channels, ascending: those known, and those a hello reveals.
pub open spec fn channels(c: ClientView) -> Seq<MessageId> {
    ascending_list::<MessageId>(
        c.lens_channels.to_set() + c.conversations.filter(is_channel(c)).map_values(
            conversation_id(),
        ).to_set(),
    )
}

/// Emission converges on the smallest channel: a tiebreak every sibling
/// computes alike.
pub open spec fn classified(c: ClientView) -> ClientView {
    let found = channels(c);
    ClientView {
        lens_channels: found,
        lens_conversation: if found.len() > 0 {
            Some(found[0])
        } else {
            c.lens_conversation
        },
        ..c
    }
}

fn op_in_body(body: &Result<Vec<u8>, String>) -> (r: Option<LensOp>)
    ensures
        r.deep_view() == op_in(body_view(*body)),
{
    match body {
        Ok(b) => parse_op(b.as_slice()),
        Err(_) => None,
    }
}

impl Client {
    /// Classifies the stored conversations and settles where this device
    /// emits.
    pub fn classify_channels(&mut self)
        ensures
            final(self).deep_view() == classified(old(self).deep_view()),
    {
        let ghost c = self.deep_view();
        let ghost s = self.conversations.deep_view();
        let ghost p = is_channel(c);
        let ghost f = conversation_id();
        let mut found: Vec<MessageId> = set_of(&self.lens_channels);
        let ghost base = c.lens_channels.to_set();
        proof {
            reveal(Seq::filter);
            assert(found.deep_view().to_set() =~= base + s.take(0).filter(p).map_values(
                f,
            ).to_set());
        }
        for i in 0..self.conversations.len()
            invariant
                c == self.deep_view(),
                s == self.conversations.deep_view(),
                p == is_channel(c),
                f == conversation_id(),
                ascending::<MessageId>(found.deep_view()),
                found.deep_view().to_set() == base + s.take(i as int).filter(p).map_values(
                    f,
                ).to_set(),
        {
            let id: MessageId = self.conversations[i].id;
            let hello: bool = match self.find_envelope(&id) {
                Some(e) => {
                    let greeted: bool = match op_in_body(&e.body) {
                        Some(LensOp::Hello) => true,
                        _ => false,
                    };
                    greeted && self.is_own(&e.sender)
                },
                None => false,
            };
            proof {
                lemma_filter_step(s, p, i as int);
                assert(hello == p(s[i as int]));
            }
            if hello {
                set_insert(&mut found, id);
                proof {
                    let held = s.take(i as int).filter(p);
                    assert(held.push(s[i as int]).map_values(f) =~= held.map_values(f).push(id));
                    held.map_values(f).lemma_push_to_set_commute(id);
                    assert(found.deep_view().to_set() =~= base + held.map_values(f).push(
                        id,
                    ).to_set());
                }
            }
        }
        proof {
            lemma_take_all(s);
            lemma_list_is::<MessageId>(
                found.deep_view(),
                base + s.filter(p).map_values(f).to_set(),
            );
        }
        if found.len() > 0 {
            assert(found.deep_view()[0] == found@[0]);
            self.lens_conversation = Some(found[0]);
        }
        self.lens_channels = found;
    }
}

// ---- my label ops ----

/// A label op this device authored: the keys it spoke about, the message and
/// the channel.
#[derive(Debug)]
pub struct MyLabelOp {
    pub members: Vec<PublicKey>,
    pub id: MessageId,
    pub channel: MessageId,
}

pub struct MyLabelView {
    pub members: Seq<PublicKey>,
    pub id: MessageId,
    pub channel: MessageId,
}

impl DeepView for MyLabelOp {
    type V = MyLabelView;

    open spec fn deep_view(&self) -> MyLabelView {
        MyLabelView { members: self.members.deep_view(), id: self.id, channel: self.channel }
    }
}

/// The label op a message is, where this device wrote it.
pub open spec fn my_label(c: ClientView, channel: MessageId) -> spec_fn(EnvelopeView) -> Option<
    MyLabelView,
> {
    |e: EnvelopeView|
        if e.sender != c.device {
            None
        } else {
            match op_in(e.body) {
                Some(OpView::LabelPerson(members, _)) => Some(
                    MyLabelView { members, id: e.id, channel },
                ),
                _ => None,
            }
        }
}

/// This device's label ops in a channel.
pub open spec fn my_labels(c: ClientView) -> spec_fn(MessageId) -> Seq<MyLabelView> {
    |channel: MessageId|
        match first(c.conversations, conversation_is(channel)) {
            Some(x) => x.envelopes.filter_map(my_label(c, channel)),
            None => Seq::empty(),
        }
}

/// Whether nothing of a channel is stored.
pub open spec fn unstored(c: ClientView) -> spec_fn(MessageId) -> bool {
    |channel: MessageId| first(c.conversations, conversation_is(channel)) is None
}

impl Client {
    fn my_labels_in(&self, at: usize, channel: MessageId, out: &mut Vec<MyLabelOp>)
        requires
            at < self.conversations.len(),
        ensures
            final(out).deep_view() == old(out).deep_view()
                + self.conversations.deep_view()[at as int].envelopes.filter_map(
                my_label(self.deep_view(), channel),
            ),
    {
        let envelopes: &Vec<Envelope> = &self.conversations[at].envelopes;
        let ghost c = self.deep_view();
        let ghost s = envelopes.deep_view();
        let ghost f = my_label(c, channel);
        let ghost base = out.deep_view();
        assert(s == self.conversations.deep_view()[at as int].envelopes);
        assert(out.deep_view() =~= base + s.take(0).filter_map(f));
        for i in 0..envelopes.len()
            invariant
                c == self.deep_view(),
                s == envelopes.deep_view(),
                f == my_label(c, channel),
                out.deep_view() == base + s.take(i as int).filter_map(f),
        {
            proof {
                lemma_filter_map_step(s, f, i as int);
                assert(s[i as int] == envelopes@[i as int].deep_view());
            }
            if envelopes[i].sender == self.device {
                match op_in_body(&envelopes[i].body) {
                    Some(LensOp::LabelPerson { members, label: _ }) => {
                        let ghost before = out.deep_view();
                        let op: MyLabelOp = MyLabelOp { members, id: envelopes[i].id, channel };
                        let ghost v = op.deep_view();
                        out.push(op);
                        assert(out.deep_view() =~= before.push(v));
                        assert(out.deep_view() =~= base + s.take(i + 1).filter_map(f));
                    },
                    _ => {},
                }
            }
        }
        proof {
            lemma_take_all(s);
        }
    }

    /// This device's label ops across channels, where all of them are stored.
    fn gather_my_labels(&self, list: &Vec<MessageId>) -> (r: Option<Vec<MyLabelOp>>)
        ensures
            match r {
                Some(v) => v.deep_view() == gathered(list.deep_view(), my_labels(self.deep_view()))
                    && !some(list.deep_view(), unstored(self.deep_view())),
                None => some(list.deep_view(), unstored(self.deep_view())),
            },
    {
        let ghost c = self.deep_view();
        let ghost s = list.deep_view();
        let ghost f = my_labels(c);
        let mut out: Vec<MyLabelOp> = Vec::new();
        assert(out.deep_view() =~= gathered(s.take(0), f));
        for i in 0..list.len()
            invariant
                c == self.deep_view(),
                s == list.deep_view(),
                f == my_labels(c),
                out.deep_view() == gathered(s.take(i as int), f),
                forall|k: int| 0 <= k < i ==> !unstored(c)(#[trigger] s[k]),
        {
            proof {
                lemma_gathered_step(s, f, i as int);
                assert(s[i as int] == list@[i as int]);
            }
            match find_conversation(&self.conversations, &list[i]) {
                Some(at) => {
                    self.my_labels_in(at, list[i], &mut out);
                },
                None => {
                    assert(unstored(c)(s[i as int]));
                    return None;
                },
            }
        }
        proof {
            lemma_take_all(s);
        }
        Some(out)
    }
}

// ---- adoption ----

/// Two lists of keys share one.
pub open spec fn share(a: Seq<PublicKey>, b: Seq<PublicKey>) -> bool {
    exists|i: int| 0 <= i < a.len() && b.contains(#[trigger] a[i])
}

fn shares(a: &Vec<PublicKey>, b: &Vec<PublicKey>) -> (r: bool)
    ensures
        r == share(a.deep_view(), b.deep_view()),
{
    let ghost s = a.deep_view();
    for i in 0..a.len()
        invariant
            s == a.deep_view(),
            forall|k: int| 0 <= k < i ==> !b.deep_view().contains(#[trigger] s[k]),
    {
        assert(s[i as int] == a@[i as int]);
        if holds(b, &a[i]) {
            return true;
        }
    }
    false
}

/// Every key a person's entries list.
pub open spec fn keys_of(p: PersonView) -> Seq<PublicKey> {
    gathered(p.members, entry_keys())
}

/// The person whose cluster overlaps a list of keys.
pub open spec fn spoken_of(members: Seq<PublicKey>) -> spec_fn(PersonView) -> bool {
    |p: PersonView| share(members, keys_of(p))
}

/// A label op of this device about a person that the sibling's op did not
/// demonstrably see: in another channel, or no ancestor of it.
pub open spec fn unseen(p: PersonView, x: ConversationView, op: MessageId) -> spec_fn(
    MyLabelView,
) -> bool {
    |m: MyLabelView|
        share(m.members, keys_of(p)) && !(m.channel == x.id && ancestor(x.envelopes, op, m.id))
}

/// A sibling's label among some persons: adopted where the sibling saw every
/// label this device gave the person and nobody else goes by it; else
/// surfaced.
pub open spec fn adopted_label(
    c: ClientView,
    v: Seq<PersonView>,
    mine: Seq<MyLabelView>,
    x: ConversationView,
    op: MessageId,
    author: PublicKey,
    members: Seq<PublicKey>,
    label: Seq<char>,
) -> ClientView {
    match first(v, spoken_of(members)) {
        None => c,
        Some(p) => if p.label == label {
            c
        } else if some(mine, unseen(p, x, op)) {
            surfaced(c, p.id, label, author)
        } else {
            match settled(c, v, p, label) {
                Ok(d) => d,
                Err(_) => surfaced(c, p.id, label, author),
            }
        },
    }
}

/// What a replay reads once, at its start.
pub struct Replay {
    /// This user's own devices, ascending.
    pub own: Vec<PublicKey>,
    /// The messages dealt with before.
    pub applied: Vec<MessageId>,
    /// This device's label ops.
    pub mine: Vec<MyLabelOp>,
}

pub struct ReplayView {
    pub own: Seq<PublicKey>,
    pub applied: Seq<MessageId>,
    pub mine: Seq<MyLabelView>,
}

impl DeepView for Replay {
    type V = ReplayView;

    open spec fn deep_view(&self) -> ReplayView {
        ReplayView {
            own: self.own.deep_view(),
            applied: self.applied.deep_view(),
            mine: self.mine.deep_view(),
        }
    }
}

/// A message noted as dealt with.
pub open spec fn noted(c: ClientView, id: MessageId) -> ClientView {
    ClientView {
        lens_applied: if c.lens_applied.contains(id) {
            c.lens_applied
        } else {
            c.lens_applied.push(id)
        },
        ..c
    }
}

pub open spec fn record_for(id: MessageId) -> spec_fn((MessageId, RecordView)) -> bool {
    |e: (MessageId, RecordView)| e.0 == id
}

/// The tokens a look takes, of those a mint gives from some point on.
pub open spec fn taken_at(tokens: Seq<u128>, at: int, n: nat) -> Seq<u128> {
    Seq::new(n, |i: int| tokens[at + i])
}

/// What a sibling's op does, and how many of the mint's tokens are used then.
/// A label looks at the people, so an entry no row claims gets its row.
pub open spec fn adopted(
    c: ClientView,
    used: int,
    tokens: Seq<u128>,
    replay: ReplayView,
    records: Seq<(MessageId, RecordView)>,
    x: ConversationView,
    e: EnvelopeView,
    op: OpView,
) -> (ClientView, int) {
    match op {
        OpView::Hello => (c, used),
        OpView::LabelPerson(members, label) => {
            let taken = taken_at(tokens, used, unclaimed(c).len());
            (
                adopted_label(
                    healed(c, taken),
                    believed(c, taken),
                    replay.mine,
                    x,
                    e.id,
                    e.sender,
                    members,
                    label,
                ),
                used + unclaimed(c).len(),
            )
        },
        OpView::OfferContact(_, petname) => match first(records, record_for(e.id)) {
            Some(r) => (adopted_offer(c, e.sender, r.1, petname), used),
            None => (c, used),
        },
    }
}

/// What a message of a lens channel does, the first time it is read: a
/// stranger's nothing; one that cannot be opened yet stays open; a sibling's
/// op its effect.
pub open spec fn replayed_message(
    c: ClientView,
    used: int,
    tokens: Seq<u128>,
    replay: ReplayView,
    records: Seq<(MessageId, RecordView)>,
    x: ConversationView,
    id: MessageId,
) -> (ClientView, int) {
    if replay.applied.contains(id) {
        (c, used)
    } else {
        match first(x.envelopes, envelope_is(id)) {
            None => (c, used),
            Some(e) => if !replay.own.contains(e.sender) {
                (noted(c, id), used)
            } else {
                match e.body {
                    Err(_) => (c, used),
                    Ok(b) => match op_of(b) {
                        None => (noted(c, id), used),
                        Some(op) => if e.sender == c.device {
                            (noted(c, id), used)
                        } else {
                            let (d, more) = adopted(c, used, tokens, replay, records, x, e, op);
                            (noted(d, id), more)
                        },
                    },
                }
            },
        }
    }
}

/// What the messages of a channel do, in order.
pub open spec fn replayed_order(
    c: ClientView,
    used: int,
    tokens: Seq<u128>,
    replay: ReplayView,
    records: Seq<(MessageId, RecordView)>,
    x: ConversationView,
    order: Seq<MessageId>,
) -> (ClientView, int)
    decreases order.len(),
{
    if order.len() == 0 {
        (c, used)
    } else {
        let (d, more) = replayed_order(c, used, tokens, replay, records, x, order.drop_last());
        replayed_message(d, more, tokens, replay, records, x, order.last())
    }
}

/// Where a replay stands: the client, how many of the mint's tokens are used,
/// and what stopped it.
pub struct Replayed {
    pub client: ClientView,
    pub used: int,
    pub fault: Option<ErrorView>,
}

/// What the channels do, in order, up to the first whose graph cannot be
/// built.
pub open spec fn replayed_channels(
    c: ClientView,
    tokens: Seq<u128>,
    replay: ReplayView,
    records: Seq<(MessageId, RecordView)>,
    list: Seq<MessageId>,
) -> Replayed
    decreases list.len(),
{
    if list.len() == 0 {
        Replayed { client: c, used: 0, fault: None }
    } else {
        let r = replayed_channels(c, tokens, replay, records, list.drop_last());
        if r.fault is Some {
            r
        } else {
            match first(c.conversations, conversation_is(list.last())) {
                None => Replayed { fault: Some(not_stored()), ..r },
                Some(x) => match dag_of(x) {
                    Err(e) => Replayed { fault: Some(e), ..r },
                    Ok(g) => {
                        let (client, used) = replayed_order(
                            r.client,
                            r.used,
                            tokens,
                            replay,
                            records,
                            x,
                            g.order,
                        );
                        Replayed { client, used, fault: None }
                    },
                },
            }
        }
    }
}

/// What a replay reads of the classified channels.
pub open spec fn read_once(d: ClientView) -> ReplayView {
    ReplayView {
        own: ascending_list::<PublicKey>(own(d)),
        applied: d.lens_applied,
        mine: gathered(d.lens_channels, my_labels(d)),
    }
}

/// Every message not dealt with yet, once the channels are classified. Nothing
/// is replayed where a channel's messages are gone.
pub open spec fn replayed_on(
    d: ClientView,
    tokens: Seq<u128>,
    records: Seq<(MessageId, RecordView)>,
) -> Replayed {
    if some(d.lens_channels, unstored(d)) {
        Replayed { client: d, used: 0, fault: Some(not_stored()) }
    } else {
        replayed_channels(d, tokens, read_once(d), records, d.lens_channels)
    }
}

/// The adoption replay: the channels classified, then every message not dealt
/// with yet. The people are looked at where a sibling's label is taken up, and
/// entries no row claims then get a row, from the mint's tokens in turn.
pub open spec fn replayed(
    c: ClientView,
    tokens: Seq<u128>,
    records: Seq<(MessageId, RecordView)>,
) -> Replayed {
    replayed_on(classified(c), tokens, records)
}

proof fn lemma_replay_keeps(
    c: ClientView,
    used: int,
    tokens: Seq<u128>,
    replay: ReplayView,
    records: Seq<(MessageId, RecordView)>,
    x: ConversationView,
    id: MessageId,
)
    ensures
        replayed_message(c, used, tokens, replay, records, x, id).0.conversations
            == c.conversations,
        replayed_message(c, used, tokens, replay, records, x, id).0.device == c.device,
{
}

/// Only the tokens a message takes matter to it.
proof fn lemma_message_tokens(
    c: ClientView,
    m: int,
    b: Seq<u128>,
    n: int,
    a: Seq<u128>,
    replay: ReplayView,
    records: Seq<(MessageId, RecordView)>,
    x: ConversationView,
    id: MessageId,
)
    requires
        forall|i: int|
            0 <= i < replayed_message(c, m, b, replay, records, x, id).1 - m ==> #[trigger] a[n + i]
                == b[m + i],
    ensures
        replayed_message(c, m, b, replay, records, x, id).1 >= m,
        replayed_message(c, n, a, replay, records, x, id) == (
            replayed_message(c, m, b, replay, records, x, id).0,
            n + (replayed_message(c, m, b, replay, records, x, id).1 - m),
        ),
{
    let k = unclaimed(c).len();
    let used = replayed_message(c, m, b, replay, records, x, id).1 - m;
    if used == k {
        assert forall|i: int| 0 <= i < k implies #[trigger] a[n + i] == b[m + i] by {}
        assert(taken_at(a, n, k) =~= taken_at(b, m, k));
    }
}

/// Only the tokens the messages of a channel take matter to them.
proof fn lemma_order_tokens(
    c: ClientView,
    m: int,
    b: Seq<u128>,
    n: int,
    a: Seq<u128>,
    replay: ReplayView,
    records: Seq<(MessageId, RecordView)>,
    x: ConversationView,
    order: Seq<MessageId>,
)
    requires
        forall|i: int|
            0 <= i < replayed_order(c, m, b, replay, records, x, order).1 - m ==> #[trigger] a[n
                + i] == b[m + i],
    ensures
        replayed_order(c, m, b, replay, records, x, order).1 >= m,
        replayed_order(c, n, a, replay, records, x, order) == (
            replayed_order(c, m, b, replay, records, x, order).0,
            n + (replayed_order(c, m, b, replay, records, x, order).1 - m),
        ),
    decreases order.len(),
{
    if order.len() > 0 {
        let before = order.drop_last();
        let id = order.last();
        lemma_order_used(c, m, b, replay, records, x, before);
        let (d, more) = replayed_order(c, m, b, replay, records, x, before);
        lemma_message_used(d, more, b, replay, records, x, id);
        lemma_order_tokens(c, m, b, n, a, replay, records, x, before);
        let at = n + (more - m);
        assert forall|i: int|
            0 <= i < replayed_message(d, more, b, replay, records, x, id).1 - more implies #[trigger] a[at
            + i] == b[more + i] by {
            let j = (more - m) + i;
            assert(a[n + j] == b[m + j]);
        }
        lemma_message_tokens(d, more, b, at, a, replay, records, x, id);
    }
}

proof fn lemma_message_used(
    c: ClientView,
    used: int,
    tokens: Seq<u128>,
    replay: ReplayView,
    records: Seq<(MessageId, RecordView)>,
    x: ConversationView,
    id: MessageId,
)
    ensures
        replayed_message(c, used, tokens, replay, records, x, id).1 >= used,
{
}

proof fn lemma_order_used(
    c: ClientView,
    used: int,
    tokens: Seq<u128>,
    replay: ReplayView,
    records: Seq<(MessageId, RecordView)>,
    x: ConversationView,
    order: Seq<MessageId>,
)
    ensures
        replayed_order(c, used, tokens, replay, records, x, order).1 >= used,
    decreases order.len(),
{
    if order.len() > 0 {
        let before = order.drop_last();
        lemma_order_used(c, used, tokens, replay, records, x, before);
        let (d, more) = replayed_order(c, used, tokens, replay, records, x, before);
        lemma_message_used(d, more, tokens, replay, records, x, order.last());
    }
}

/// Only the tokens the channels take matter to them.
proof fn lemma_channels_tokens(
    c: ClientView,
    b: Seq<u128>,
    a: Seq<u128>,
    replay: ReplayView,
    records: Seq<(MessageId, RecordView)>,
    list: Seq<MessageId>,
)
    requires
        forall|i: int|
            0 <= i < replayed_channels(c, b, replay, records, list).used ==> #[trigger] a[i] == b[i],
    ensures
        replayed_channels(c, b, replay, records, list).used >= 0,
        replayed_channels(c, a, replay, records, list) == replayed_channels(
            c,
            b,
            replay,
            records,
            list,
        ),
    decreases list.len(),
{
    if list.len() > 0 {
        let before = list.drop_last();
        let r = replayed_channels(c, b, replay, records, before);
        if r.fault is None {
            match first(c.conversations, conversation_is(list.last())) {
                Some(x) => match dag_of(x) {
                    Ok(g) => {
                        lemma_order_used(r.client, r.used, b, replay, records, x, g.order);
                    },
                    Err(_) => {},
                },
                None => {},
            }
        }
        lemma_channels_tokens(c, b, a, replay, records, before);
        if r.fault is None {
            match first(c.conversations, conversation_is(list.last())) {
                Some(x) => match dag_of(x) {
                    Ok(g) => {
                        lemma_order_tokens(
                            r.client,
                            r.used,
                            b,
                            r.used,
                            a,
                            replay,
                            records,
                            x,
                            g.order,
                        );
                    },
                    Err(_) => {},
                },
                None => {},
            }
        }
    }
}

fn find_spoken_of(all: &Vec<PersonEntry>, members: &Vec<PublicKey>) -> (r: Option<PersonEntry>)
    ensures
        r.deep_view() == first(all.deep_view(), spoken_of(members.deep_view())),
{
    let ghost s = all.deep_view();
    let ghost p = spoken_of(members.deep_view());
    let mut i: usize = 0;
    while i < all.len()
        invariant
            i <= all.len(),
            s == all.deep_view(),
            p == spoken_of(members.deep_view()),
            first(s.take(i as int), p) is None,
        decreases all.len() - i,
    {
        let keys: Vec<PublicKey> = all[i].keys();
        let hit: bool = shares(members, &keys);
        proof {
            lemma_first_step(s, p, i as int);
            assert(s[i as int] == all@[i as int].deep_view());
            lemma_share_listed(members.deep_view(), keys.deep_view(), keys_of(s[i as int]));
        }
        if hit {
            proof {
                lemma_first_found(s, p, i + 1);
            }
            return Some(all[i].duplicate());
        }
        i += 1;
    }
    proof {
        lemma_take_all(s);
    }
    None
}

impl Client {
    /// Notes a message as dealt with.
    pub fn add_lens_applied(&mut self, id: MessageId)
        ensures
            final(self).deep_view() == noted(old(self).deep_view(), id),
    {
        if !holds(&self.lens_applied, &id) {
            let ghost before = self.lens_applied.deep_view();
            self.lens_applied.push(id);
            assert(self.lens_applied.deep_view() =~= before.push(id));
        }
    }

    /// Auto-adopt or surface a sibling's label. Concurrent edits keep this
    /// device's and surface the sibling's; so does a label that would collide
    /// with an existing one.
    fn adopt_label<M: Mint>(
        &mut self,
        mine: &Vec<MyLabelOp>,
        at: usize,
        op: MessageId,
        author: PublicKey,
        members: &Vec<PublicKey>,
        label: &str,
        rng: &mut M,
    )
        requires
            at < old(self).conversations.len(),
        ensures
            exists|d: ClientView, v: Seq<PersonView>| #[trigger]
                looked(old(self).deep_view(), d, v, *old(rng), *final(rng)) && final(self).deep_view() == adopted_label(
                    d,
                    v,
                    mine.deep_view(),
                    old(self).deep_view().conversations[at as int],
                    op,
                    author,
                    members.deep_view(),
                    label@,
                ),
    {
        let ghost x = self.deep_view().conversations[at as int];
        let all: Vec<PersonEntry> = self.persons(rng);
        assert(self.deep_view().conversations == old(self).deep_view().conversations);
        assert(self.conversations.len() == self.deep_view().conversations.len());
        let person: PersonEntry = match find_spoken_of(&all, members) {
            Some(p) => p,
            None => {
                return;
            },
        };
        if same_text(&person.label, label) {
            return;
        }
        let ghost p = person.deep_view();
        let ghost s = mine.deep_view();
        let keys: Vec<PublicKey> = person.keys();
        let before: Vec<MessageId> = ancestors_of(&self.conversations[at].envelopes, op);
        let channel: MessageId = self.conversations[at].id;
        let mut seen: bool = true;
        let mut i: usize = 0;
        while i < mine.len()
            invariant
                i <= mine.len(),
                s == mine.deep_view(),
                p == person.deep_view(),
                channel == x.id,
                lists::<PublicKey>(keys.deep_view(), keys_of(p).to_set()),
                forall|m: MessageId|
                    before.deep_view().contains(m) <==> #[trigger] ancestor(x.envelopes, op, m),
                seen <==> forall|k: int| 0 <= k < i ==> !unseen(p, x, op)(#[trigger] s[k]),
            decreases mine.len() - i,
        {
            proof {
                assert(s[i as int] == mine@[i as int].deep_view());
                lemma_share_listed(s[i as int].members, keys.deep_view(), keys_of(p));
            }
            if shares(&mine[i].members, &keys) && !(mine[i].channel == channel && holds(
                &before,
                &mine[i].id,
            )) {
                assert(unseen(p, x, op)(s[i as int]));
                seen = false;
            }
            i += 1;
        }
        if seen {
            match self.settle_among(&all, &person, label) {
                Ok(()) => {
                    return;
                },
                Err(_) => {},
            }
        }
        self.save_conflict(person.id.to_storage(), label, author);
    }

    fn replay_message<M: Mint>(
        &mut self,
        replay: &Replay,
        records: &Vec<(MessageId, ContactRecord)>,
        at: usize,
        id: MessageId,
        rng: &mut M,
    )
        requires
            at < old(self).conversations.len(),
        ensures
            exists|tokens: Seq<u128>| #[trigger]
                gave(*old(rng), *final(rng), tokens) && (
                    final(self).deep_view(),
                    tokens.len() as int,
                ) == replayed_message(
                    old(self).deep_view(),
                    0,
                    tokens,
                    replay.deep_view(),
                    records.deep_view(),
                    old(self).deep_view().conversations[at as int],
                    id,
                ),
    {
        let ghost c = self.deep_view();
        let ghost x = c.conversations[at as int];
        let ghost none = Seq::<u128>::empty();
        assert(gave(*rng, *rng, none));
        if holds(&replay.applied, &id) {
            return;
        }
        let envelopes: &Vec<Envelope> = &self.conversations[at].envelopes;
        let k: usize = match find_envelope_in(envelopes, &id) {
            Some(k) => k,
            None => {
                return;
            },
        };
        let ghost e = envelopes.deep_view()[k as int];
        proof {
            assert(e == envelopes@[k as int].deep_view());
            lemma_first(envelopes.deep_view(), envelope_is(id));
        }
        let author: PublicKey = envelopes[k].sender;
        if !holds(&replay.own, &author) {
            self.add_lens_applied(id);
            return;
        }
        if envelopes[k].body.is_err() {
            return;
        }
        let op: LensOp = match op_in_body(&envelopes[k].body) {
            Some(op) => op,
            None => {
                self.add_lens_applied(id);
                return;
            },
        };
        if !(author == self.device) {
            match op {
                LensOp::Hello => {},
                LensOp::LabelPerson { members, label } => {
                    let ghost before = *rng;
                    self.adopt_label(&replay.mine, at, id, author, &members, label.as_str(), rng);
                    proof {
                        let (d, v) = choose|d: ClientView, v: Seq<PersonView>| #[trigger]
                            looked(c, d, v, before, *rng) && self.deep_view() == adopted_label(
                                d,
                                v,
                                replay.mine.deep_view(),
                                x,
                                id,
                                author,
                                members.deep_view(),
                                label@,
                            );
                        let tokens = choose|tokens: Seq<u128>| #[trigger]
                            gave(before, *rng, tokens) && tokens.len() == unclaimed(c).len() && d
                                == healed(c, tokens) && v == believed(c, tokens);
                        assert(taken_at(tokens, 0, unclaimed(c).len()) =~= tokens);
                        assert(gave(before, *rng, tokens) && (
                            self.deep_view(),
                            tokens.len() as int,
                        ) == adopted(
                            c,
                            0,
                            tokens,
                            replay.deep_view(),
                            records.deep_view(),
                            x,
                            e,
                            OpView::LabelPerson(members.deep_view(), label@),
                        ));
                    }
                },
                LensOp::OfferContact { record: _, petname } => {
                    match find_record(records, &id) {
                        Some(i) => {
                            assert(records.deep_view()[i as int] == records@[i as int].deep_view());
                            self.adopt_offer(author, &records[i].1, petname.as_str());
                        },
                        None => {},
                    }
                },
            }
        }
        self.add_lens_applied(id);
    }

    fn replay_channel<M: Mint>(
        &mut self,
        replay: &Replay,
        records: &Vec<(MessageId, ContactRecord)>,
        at: usize,
        order: &Vec<MessageId>,
        rng: &mut M,
    )
        requires
            at < old(self).conversations.len(),
        ensures
            exists|tokens: Seq<u128>| #[trigger]
                gave(*old(rng), *final(rng), tokens) && (
                    final(self).deep_view(),
                    tokens.len() as int,
                ) == replayed_order(
                    old(self).deep_view(),
                    0,
                    tokens,
                    replay.deep_view(),
                    records.deep_view(),
                    old(self).deep_view().conversations[at as int],
                    order.deep_view(),
                ),
            final(self).deep_view().conversations == old(self).deep_view().conversations,
    {
        let ghost begun = *rng;
        let ghost mut tokens = Seq::<u128>::empty();
        let ghost c = self.deep_view();
        let ghost x = c.conversations[at as int];
        let ghost s = order.deep_view();
        let ghost v = replay.deep_view();
        let ghost t = records.deep_view();
        for i in 0..order.len()
            invariant
                s == order.deep_view(),
                v == replay.deep_view(),
                t == records.deep_view(),
                at < c.conversations.len(),
                x == c.conversations[at as int],
                gave(begun, *rng, tokens),
                (self.deep_view(), tokens.len() as int) == replayed_order(
                    c,
                    0,
                    tokens,
                    v,
                    t,
                    x,
                    s.take(i as int),
                ),
                self.deep_view().conversations == c.conversations,
        {
            let ghost d = self.deep_view();
            let ghost mid = *rng;
            proof {
                lemma_take_step(s, i as int);
                assert(s[i as int] == order@[i as int]);
                assert(self.conversations.len() == self.deep_view().conversations.len());
            }
            self.replay_message(replay, records, at, order[i], rng);
            proof {
                let id = s[i as int];
                let more = choose|more: Seq<u128>| #[trigger]
                    gave(mid, *rng, more) && (self.deep_view(), more.len() as int)
                        == replayed_message(d, 0, more, v, t, x, id);
                let all = tokens + more;
                lemma_gave_more(begun, mid, *rng, tokens, more);
                lemma_order_tokens(c, 0, tokens, 0, all, v, t, x, s.take(i as int));
                lemma_message_tokens(d, 0, more, tokens.len() as int, all, v, t, x, id);
                lemma_replay_keeps(d, 0, more, v, t, x, id);
                tokens = all;
            }
        }
        proof {
            lemma_take_all(s);
        }
    }

    /// The adoption replay: driven by the store and idempotent, run after
    /// drains and after re-wraps land. `records` holds, by message, the
    /// contact record each offer op decodes to. Taking up a sibling's label
    /// looks at the people, so entries no row claims are healed then.
    pub fn replay_lens<M: Mint>(
        &mut self,
        records: &Vec<(MessageId, ContactRecord)>,
        rng: &mut M,
    ) -> (r: Result<(), Error>)
        ensures
            exists|tokens: Seq<u128>| #[trigger]
                gave(*old(rng), *final(rng), tokens) && replayed(
                    old(self).deep_view(),
                    tokens,
                    records.deep_view(),
                ) == (Replayed {
                    client: final(self).deep_view(),
                    used: tokens.len() as int,
                    fault: fault_of(r),
                }),
    {
        self.classify_channels();
        let ghost d = self.deep_view();
        let ghost t = records.deep_view();
        let ghost begun = *rng;
        let ghost mut tokens = Seq::<u128>::empty();
        assert(gave(begun, *rng, tokens));
        let mine: Vec<MyLabelOp> = match self.gather_my_labels(&self.lens_channels) {
            Some(m) => m,
            None => {
                return Err(Error::Storage("no such conversation".to_owned()));
            },
        };
        let own_keys: Vec<PublicKey> = self.own_keys();
        proof {
            lemma_list_is::<PublicKey>(own_keys.deep_view(), own(d));
        }
        let list: Vec<MessageId> = copies(&self.lens_channels);
        let replay: Replay = Replay { own: own_keys, applied: copies(&self.lens_applied), mine };
        let ghost s = list.deep_view();
        let ghost v = replay.deep_view();
        for i in 0..list.len()
            invariant
                s == list.deep_view(),
                s == d.lens_channels,
                t == records.deep_view(),
                v == replay.deep_view(),
                gave(begun, *rng, tokens),
                replayed_channels(d, tokens, v, t, s.take(i as int)) == (Replayed {
                    client: self.deep_view(),
                    used: tokens.len() as int,
                    fault: None,
                }),
                self.deep_view().conversations == d.conversations,
                !some(d.lens_channels, unstored(d)),
                v == read_once(d),
                d == classified(old(self).deep_view()),
                begun == *old(rng),
        {
            proof {
                lemma_take_step(s, i as int);
                assert(s[i as int] == list@[i as int]);
            }
            let at: usize = match find_conversation(&self.conversations, &list[i]) {
                Some(at) => at,
                None => {
                    assert(unstored(d)(s[i as int]));
                    return Err(Error::Storage("no such conversation".to_owned()));
                },
            };
            let ghost x = d.conversations[at as int];
            proof {
                assert(x == self.conversations@[at as int].deep_view());
            }
            let order: Vec<MessageId> = match self.conversations[at].graph() {
                Ok(g) => copies(&g.order),
                Err(e) => {
                    proof {
                        lemma_channels_stop(d, tokens, v, t, s, i + 1);
                    }
                    return Err(e);
                },
            };
            let ghost c = self.deep_view();
            let ghost mid = *rng;
            self.replay_channel(&replay, records, at, &order, rng);
            proof {
                let more = choose|more: Seq<u128>| #[trigger]
                    gave(mid, *rng, more) && (self.deep_view(), more.len() as int)
                        == replayed_order(c, 0, more, v, t, x, order.deep_view());
                let all = tokens + more;
                lemma_gave_more(begun, mid, *rng, tokens, more);
                lemma_channels_tokens(d, tokens, all, v, t, s.take(i as int));
                lemma_order_tokens(
                    c,
                    0,
                    more,
                    tokens.len() as int,
                    all,
                    v,
                    t,
                    x,
                    order.deep_view(),
                );
                tokens = all;
            }
        }
        proof {
            lemma_take_all(s);
        }
        Ok(())
    }
}

pub open spec fn fault_of(r: Result<(), Error>) -> Option<ErrorView> {
    match r {
        Ok(()) => None,
        Err(e) => Some(e.deep_view()),
    }
}

proof fn lemma_share_listed(a: Seq<PublicKey>, listed: Seq<PublicKey>, b: Seq<PublicKey>)
    requires
        lists::<PublicKey>(listed, b.to_set()),
    ensures
        share(a, listed) == share(a, b),
{
    assert forall|k: PublicKey| #[trigger] listed.contains(k) == b.contains(k) by {
        assert(listed.to_set().contains(k) == b.to_set().contains(k));
    }
}

/// A fault ends the replay.
proof fn lemma_channels_stop(
    c: ClientView,
    tokens: Seq<u128>,
    replay: ReplayView,
    records: Seq<(MessageId, RecordView)>,
    list: Seq<MessageId>,
    n: int,
)
    requires
        0 <= n <= list.len(),
        replayed_channels(c, tokens, replay, records, list.take(n)).fault is Some,
    ensures
        replayed_channels(c, tokens, replay, records, list) == replayed_channels(
            c,
            tokens,
            replay,
            records,
            list.take(n),
        ),
    decreases list.len() - n,
{
    if n < list.len() {
        lemma_take_step(list, n);
        lemma_channels_stop(c, tokens, replay, records, list, n + 1);
    } else {
        lemma_take_all(list);
    }
}

fn find_record(records: &Vec<(MessageId, ContactRecord)>, id: &MessageId) -> (r: Option<usize>)
    ensures
        match r {
            Some(i) => i < records.len() && first(records.deep_view(), record_for(*id)) == Some(
                records.deep_view()[i as int],
            ),
            None => first(records.deep_view(), record_for(*id)) is None,
        },
{
    let ghost s = records.deep_view();
    let ghost p = record_for(*id);
    let mut i: usize = 0;
    while i < records.len()
        invariant
            i <= records.len(),
            s == records.deep_view(),
            p == record_for(*id),
            first(s.take(i as int), p) is None,
        decreases records.len() - i,
    {
        proof {
            lemma_first_step(s, p, i as int);
        }
        if records[i].0 == *id {
            proof {
                lemma_first_found(s, p, i + 1);
            }
            return Some(i);
        }
        i += 1;
    }
    proof {
        lemma_take_all(s);
    }
    None
}

// ---- emission ----

/// The label op for a person: every key of theirs, and the label.
pub open spec fn label_op_of(p: PersonView) -> OpView {
    OpView::LabelPerson(ascending_list::<PublicKey>(keys_of(p).to_set()), p.label)
}

/// The op that tells siblings what this device calls a person.
pub fn label_op(person: &PersonEntry) -> (r: LensOp)
    ensures
        r.deep_view() == label_op_of(person.deep_view()),
{
    let members: Vec<PublicKey> = person.keys();
    proof {
        lemma_list_is::<PublicKey>(
            members.deep_view(),
            keys_of(person.deep_view()).to_set(),
        );
    }
    LensOp::LabelPerson { members, label: person.label.clone() }
}

/// The record an offer op carries, with the message it came in.
pub open spec fn offered() -> spec_fn(EnvelopeView) -> Option<(MessageId, Seq<u8>)> {
    |e: EnvelopeView|
        match op_in(e.body) {
            Some(OpView::OfferContact(record, _)) => Some((e.id, record)),
            _ => None,
        }
}

pub open spec fn offered_in() -> spec_fn(ConversationView) -> Seq<(MessageId, Seq<u8>)> {
    |x: ConversationView| x.envelopes.filter_map(offered())
}

/// The records of every stored offer op, by message.
pub open spec fn offered_by_message(c: ClientView) -> Seq<(MessageId, Seq<u8>)> {
    gathered(c.conversations, offered_in())
}

/// A channel this device opened, and its hello dealt with.
pub open spec fn channel_opened(c: ClientView, conversation: MessageId, hello: MessageId) -> ClientView {
    noted(
        ClientView {
            lens_conversation: Some(conversation),
            lens_channels: ascending_list::<MessageId>(
                c.lens_channels.to_set().insert(conversation),
            ),
            ..c
        },
        hello,
    )
}

impl Client {
    /// A channel this device opened: it emits there, and its own hello is
    /// dealt with.
    pub fn open_lens_channel(&mut self, conversation: MessageId, hello: MessageId)
        ensures
            final(self).deep_view() == channel_opened(old(self).deep_view(), conversation, hello),
    {
        self.lens_conversation = Some(conversation);
        let mut list: Vec<MessageId> = set_of(&self.lens_channels);
        set_insert(&mut list, conversation);
        proof {
            lemma_list_is::<MessageId>(
                list.deep_view(),
                self.lens_channels.deep_view().to_set().insert(conversation),
            );
        }
        self.lens_channels = list;
        self.add_lens_applied(hello);
    }

    /// The records that stored offer ops carry, by message: what a replay
    /// needs decoded.
    pub fn offered_records(&self) -> (r: Vec<(MessageId, Vec<u8>)>)
        ensures
            r.deep_view() == offered_by_message(self.deep_view()),
    {
        let ghost s = self.conversations.deep_view();
        let ghost f = offered_in();
        let mut out: Vec<(MessageId, Vec<u8>)> = Vec::new();
        assert(out.deep_view() =~= gathered(s.take(0), f));
        for i in 0..self.conversations.len()
            invariant
                s == self.conversations.deep_view(),
                f == offered_in(),
                out.deep_view() == gathered(s.take(i as int), f),
        {
            let envelopes: &Vec<Envelope> = &self.conversations[i].envelopes;
            let ghost t = envelopes.deep_view();
            let ghost g = offered();
            let ghost base = out.deep_view();
            assert(out.deep_view() =~= base + t.take(0).filter_map(g));
            for j in 0..envelopes.len()
                invariant
                    t == envelopes.deep_view(),
                    g == offered(),
                    out.deep_view() == base + t.take(j as int).filter_map(g),
            {
                proof {
                    lemma_filter_map_step(t, g, j as int);
                    assert(t[j as int] == envelopes@[j as int].deep_view());
                }
                match op_in_body(&envelopes[j].body) {
                    Some(LensOp::OfferContact { record, petname: _ }) => {
                        let ghost before = out.deep_view();
                        assert(record.deep_view() =~= record@);
                        let pair: (MessageId, Vec<u8>) = (envelopes[j].id, record);
                        let ghost v = pair.deep_view();
                        out.push(pair);
                        assert(out.deep_view() =~= before.push(v));
                        assert(out.deep_view() =~= base + t.take(j + 1).filter_map(g));
                    },
                    _ => {},
                }
            }
            proof {
                lemma_take_all(t);
                lemma_gathered_step(s, f, i as int);
            }
        }
        proof {
            lemma_take_all(s);
        }
        out
    }
}

// ---- laws ----

/// Nothing a replay reads writes a contact: a sibling's add is an offer.
pub proof fn law_replay_writes_no_contact(
    c: ClientView,
    tokens: Seq<u128>,
    records: Seq<(MessageId, RecordView)>,
)
    ensures
        replayed(c, tokens, records).client.contacts == c.contacts,
{
    let d = classified(c);
    if !some(d.lens_channels, unstored(d)) {
        lemma_channels_keep(d, tokens, read_once(d), records, d.lens_channels);
    }
}

/// What the replay leaves alone, and that what is dealt with stays so.
spec fn kept(c: ClientView, d: ClientView) -> bool {
    &&& d.contacts == c.contacts
    &&& d.conversations == c.conversations
    &&& d.device == c.device
    &&& d.devices == c.devices
    &&& d.lens_channels == c.lens_channels
    &&& d.lens_conversation == c.lens_conversation
    &&& forall|m: MessageId| #[trigger] c.lens_applied.contains(m) ==> d.lens_applied.contains(m)
}

proof fn lemma_noted(c: ClientView, id: MessageId)
    ensures
        kept(c, noted(c, id)),
        noted(c, id).lens_applied.contains(id),
{
    let t = noted(c, id).lens_applied;
    if !c.lens_applied.contains(id) {
        assert(t[t.len() - 1] == id);
        assert forall|m: MessageId| #[trigger] c.lens_applied.contains(m) implies t.contains(m) by {
            let k = choose|k: int| 0 <= k < c.lens_applied.len() && c.lens_applied[k] == m;
            assert(t[k] == m);
        }
    }
}

proof fn lemma_message_keeps(
    c: ClientView,
    used: int,
    tokens: Seq<u128>,
    replay: ReplayView,
    records: Seq<(MessageId, RecordView)>,
    x: ConversationView,
    id: MessageId,
)
    ensures
        kept(c, replayed_message(c, used, tokens, replay, records, x, id).0),
        quiet(
            replayed_message(c, used, tokens, replay, records, x, id).0.lens_applied,
            replay,
            x,
            id,
        ),
{
    lemma_noted(c, id);
    match first(x.envelopes, envelope_is(id)) {
        Some(e) => match op_in(e.body) {
            Some(op) => {
                lemma_noted(adopted(c, used, tokens, replay, records, x, e, op).0, id);
            },
            None => {},
        },
        None => {},
    }
}

/// A message a replay has nothing left to do about.
spec fn quiet(applied: Seq<MessageId>, replay: ReplayView, x: ConversationView, id: MessageId) -> bool {
    ||| applied.contains(id)
    ||| replay.applied.contains(id)
    ||| match first(x.envelopes, envelope_is(id)) {
        None => true,
        Some(e) => replay.own.contains(e.sender) && e.body is Err,
    }
}

proof fn lemma_order_keeps(
    c: ClientView,
    used: int,
    tokens: Seq<u128>,
    replay: ReplayView,
    records: Seq<(MessageId, RecordView)>,
    x: ConversationView,
    order: Seq<MessageId>,
)
    ensures
        kept(c, replayed_order(c, used, tokens, replay, records, x, order).0),
        forall|i: int|
            0 <= i < order.len() ==> quiet(
                replayed_order(c, used, tokens, replay, records, x, order).0.lens_applied,
                replay,
                x,
                #[trigger] order[i],
            ),
    decreases order.len(),
{
    if order.len() > 0 {
        let before = order.drop_last();
        lemma_order_keeps(c, used, tokens, replay, records, x, before);
        let (mid, more) = replayed_order(c, used, tokens, replay, records, x, before);
        lemma_message_keeps(mid, more, tokens, replay, records, x, order.last());
        let done = replayed_order(c, used, tokens, replay, records, x, order).0;
        assert forall|i: int| 0 <= i < order.len() implies quiet(done.lens_applied, replay, x, #[trigger] order[i]) by {
            if i < before.len() {
                assert(before[i] == order[i]);
                assert(quiet(mid.lens_applied, replay, x, before[i]));
            }
        }
    }
}

proof fn lemma_channels_keep(
    c: ClientView,
    tokens: Seq<u128>,
    replay: ReplayView,
    records: Seq<(MessageId, RecordView)>,
    list: Seq<MessageId>,
)
    ensures
        kept(c, replayed_channels(c, tokens, replay, records, list).client),
    decreases list.len(),
{
    if list.len() > 0 {
        lemma_channels_keep(c, tokens, replay, records, list.drop_last());
        let r = replayed_channels(c, tokens, replay, records, list.drop_last());
        if r.fault is None {
            match first(c.conversations, conversation_is(list.last())) {
                Some(x) => match dag_of(x) {
                    Ok(g) => {
                        lemma_order_keeps(r.client, r.used, tokens, replay, records, x, g.order);
                    },
                    Err(_) => {},
                },
                None => {},
            }
        }
    }
}

/// A replay over quiet messages changes nothing and looks at nobody.
proof fn lemma_order_quiet(
    c: ClientView,
    used: int,
    tokens: Seq<u128>,
    replay: ReplayView,
    records: Seq<(MessageId, RecordView)>,
    x: ConversationView,
    order: Seq<MessageId>,
)
    requires
        forall|i: int|
            0 <= i < order.len() ==> quiet(replay.applied, replay, x, #[trigger] order[i]),
    ensures
        replayed_order(c, used, tokens, replay, records, x, order) == (c, used),
    decreases order.len(),
{
    if order.len() > 0 {
        let before = order.drop_last();
        assert forall|i: int| 0 <= i < before.len() implies quiet(replay.applied, replay, x, #[trigger] before[i]) by {
            assert(before[i] == order[i]);
        }
        lemma_order_quiet(c, used, tokens, replay, records, x, before);
        assert(quiet(replay.applied, replay, x, order[order.len() - 1]));
    }
}

/// Once the channels are replayed, replaying them again changes nothing,
/// takes no token, and meets the same fault.
proof fn lemma_channels_again(
    c: ClientView,
    tokens: Seq<u128>,
    first_pass: ReplayView,
    records: Seq<(MessageId, RecordView)>,
    d: ClientView,
    more: Seq<u128>,
    second_pass: ReplayView,
    others: Seq<(MessageId, RecordView)>,
    list: Seq<MessageId>,
)
    requires
        first_pass.applied == c.lens_applied,
        second_pass.applied == d.lens_applied,
        second_pass.own == first_pass.own,
        d.conversations == c.conversations,
        kept(replayed_channels(c, tokens, first_pass, records, list).client, d),
    ensures
        replayed_channels(d, more, second_pass, others, list) == (Replayed {
            client: d,
            used: 0,
            fault: replayed_channels(c, tokens, first_pass, records, list).fault,
        }),
    decreases list.len(),
{
    if list.len() > 0 {
        let before = list.drop_last();
        let r = replayed_channels(c, tokens, first_pass, records, before);
        let mid = r.client;
        lemma_channels_keep(c, tokens, first_pass, records, before);
        if r.fault is None {
            match first(c.conversations, conversation_is(list.last())) {
                Some(x) => match dag_of(x) {
                    Ok(g) => {
                        lemma_order_keeps(mid, r.used, tokens, first_pass, records, x, g.order);
                    },
                    Err(_) => {},
                },
                None => {},
            }
        }
        assert(kept(mid, d));
        lemma_channels_again(c, tokens, first_pass, records, d, more, second_pass, others, before);
        if r.fault is None {
            match first(c.conversations, conversation_is(list.last())) {
                Some(x) => match dag_of(x) {
                    Ok(g) => {
                        let done = replayed_order(
                            mid,
                            r.used,
                            tokens,
                            first_pass,
                            records,
                            x,
                            g.order,
                        ).0;
                        assert forall|i: int| 0 <= i < g.order.len() implies quiet(
                            second_pass.applied,
                            second_pass,
                            x,
                            #[trigger] g.order[i],
                        ) by {
                            let m = g.order[i];
                            assert(quiet(done.lens_applied, first_pass, x, m));
                            if c.lens_applied.contains(m) {
                                assert(mid.lens_applied.contains(m));
                                assert(d.lens_applied.contains(m));
                            } else if done.lens_applied.contains(m) {
                                assert(d.lens_applied.contains(m));
                            }
                        }
                        lemma_order_quiet(d, 0, more, second_pass, others, x, g.order);
                    },
                    Err(_) => {},
                },
                None => {},
            }
        }
    }
}

/// The replay is idempotent: running it again on the same store changes
/// nothing, whatever the mint would give, and says the same. It looks at
/// nobody, so it takes no token.
pub proof fn law_replay_idempotent(
    c: ClientView,
    tokens: Seq<u128>,
    records: Seq<(MessageId, RecordView)>,
    more: Seq<u128>,
    others: Seq<(MessageId, RecordView)>,
)
    ensures
        replayed(replayed(c, tokens, records).client, more, others) == (Replayed {
            used: 0,
            ..replayed(c, tokens, records)
        }),
{
    let d = classified(c);
    let r = replayed(c, tokens, records);
    let done = r.client;
    lemma_channels_keep(d, tokens, read_once(d), records, d.lens_channels);
    assert(kept(d, done));
    lemma_classified_again(c, done);
    assert(unstored(done) == unstored(d));
    if !some(d.lens_channels, unstored(d)) {
        lemma_channels_again(
            d,
            tokens,
            read_once(d),
            records,
            done,
            more,
            read_once(done),
            others,
            d.lens_channels,
        );
    }
}

proof fn lemma_classified_again(c: ClientView, done: ClientView)
    requires
        kept(classified(c), done),
    ensures
        classified(done) == done,
{
    let d = classified(c);
    let base = c.lens_channels.to_set();
    let more = c.conversations.filter(is_channel(c)).map_values(conversation_id()).to_set();
    assert(own(done) == own(c));
    assert(is_channel(done) =~= is_channel(c)) by {
        assert forall|x: ConversationView| #[trigger] is_channel(done)(x) == is_channel(c)(x) by {
            assert(held_envelope(done, x.id) == held_envelope(c, x.id));
        }
    }
    vstd::seq_lib::seq_to_set_is_finite(c.lens_channels);
    vstd::seq_lib::seq_to_set_is_finite(
        c.conversations.filter(is_channel(c)).map_values(conversation_id()),
    );
    crate::order::lemma_list_exists::<MessageId>(base + more);
    assert(lists::<MessageId>(channels(c), base + more));
    assert(done.lens_channels.to_set() + more =~= base + more);
}

/// Only a sibling's message has an effect: one of a stranger or of this device
/// is noted at most, whatever it says.
pub proof fn law_only_siblings_have_effect(
    c: ClientView,
    used: int,
    tokens: Seq<u128>,
    replay: ReplayView,
    records: Seq<(MessageId, RecordView)>,
    x: ConversationView,
    id: MessageId,
)
    requires
        match first(x.envelopes, envelope_is(id)) {
            Some(e) => !replay.own.contains(e.sender) || e.sender == c.device,
            None => true,
        },
    ensures
        replayed_message(c, used, tokens, replay, records, x, id) == (c, used)
            || replayed_message(c, used, tokens, replay, records, x, id) == (noted(c, id), used),
{
}

/// Two clients that differ at most in which messages are dealt with.
spec fn alike(c: ClientView, d: ClientView) -> bool {
    d == (ClientView { lens_applied: d.lens_applied, ..c })
}

/// The people are the same whichever messages are dealt with.
proof fn lemma_same_people(c: ClientView, d: ClientView)
    requires
        alike(c, d),
    ensures
        unclaimed(d) == unclaimed(c),
        people_by_row(d) == people_by_row(c),
{
    assert(entry_for(d) =~= entry_for(c));
    assert forall|rows: Seq<PersonRowView>| #[trigger] claimed(d, rows) == claimed(c, rows) by {
        assert(claimed(d, rows) =~= claimed(c, rows));
    }
    assert(is_unclaimed(d) =~= is_unclaimed(c));
    assert(person_at(d) =~= person_at(c));
}

proof fn lemma_message_alike(
    c: ClientView,
    d: ClientView,
    used: int,
    tokens: Seq<u128>,
    replay: ReplayView,
    records: Seq<(MessageId, RecordView)>,
    x: ConversationView,
    id: MessageId,
)
    requires
        alike(c, d),
    ensures
        alike(
            replayed_message(c, used, tokens, replay, records, x, id).0,
            replayed_message(d, used, tokens, replay, records, x, id).0,
        ),
        replayed_message(c, used, tokens, replay, records, x, id).1 == replayed_message(
            d,
            used,
            tokens,
            replay,
            records,
            x,
            id,
        ).1,
{
    lemma_same_people(c, d);
}

/// A message of a channel that a sibling sent.
pub open spec fn sibling_said(device: PublicKey, replay: ReplayView, x: ConversationView) -> spec_fn(
    MessageId,
) -> bool {
    |id: MessageId|
        match first(x.envelopes, envelope_is(id)) {
            Some(e) => replay.own.contains(e.sender) && e.sender != device,
            None => false,
        }
}

proof fn lemma_order_of_siblings(
    c: ClientView,
    used: int,
    tokens: Seq<u128>,
    replay: ReplayView,
    records: Seq<(MessageId, RecordView)>,
    x: ConversationView,
    order: Seq<MessageId>,
)
    ensures
        alike(
            replayed_order(
                c,
                used,
                tokens,
                replay,
                records,
                x,
                order.filter(sibling_said(c.device, replay, x)),
            ).0,
            replayed_order(c, used, tokens, replay, records, x, order).0,
        ),
        replayed_order(
            c,
            used,
            tokens,
            replay,
            records,
            x,
            order.filter(sibling_said(c.device, replay, x)),
        ).1 == replayed_order(c, used, tokens, replay, records, x, order).1,
    decreases order.len(),
{
    reveal(Seq::filter);
    if order.len() > 0 {
        let p = sibling_said(c.device, replay, x);
        let before = order.drop_last();
        let id = order.last();
        lemma_order_of_siblings(c, used, tokens, replay, records, x, before);
        lemma_order_keeps(c, used, tokens, replay, records, x, before);
        let (d, more) = replayed_order(c, used, tokens, replay, records, x, before);
        let theirs = before.filter(p);
        let e = replayed_order(c, used, tokens, replay, records, x, theirs).0;
        if p(id) {
            lemma_message_alike(e, d, more, tokens, replay, records, x, id);
            assert(order.filter(p) == theirs.push(id));
            assert(theirs.push(id).drop_last() =~= theirs);
        } else {
            law_only_siblings_have_effect(d, more, tokens, replay, records, x, id);
            assert(order.filter(p) == theirs);
        }
    }
}

/// Only what siblings said counts: a channel's messages come to the labels,
/// offers and conflicts that its siblings' messages alone come to, in the
/// same order.
pub proof fn law_only_siblings_count(
    c: ClientView,
    used: int,
    tokens: Seq<u128>,
    replay: ReplayView,
    records: Seq<(MessageId, RecordView)>,
    x: ConversationView,
    order: Seq<MessageId>,
)
    ensures
        ({
            let theirs = order.filter(sibling_said(c.device, replay, x));
            let a = replayed_order(c, used, tokens, replay, records, x, order);
            let b = replayed_order(c, used, tokens, replay, records, x, theirs);
            &&& a.0.persons == b.0.persons
            &&& a.0.offers == b.0.offers
            &&& a.0.conflicts == b.0.conflicts
            &&& a.1 == b.1
        }),
{
    lemma_order_of_siblings(c, used, tokens, replay, records, x, order);
}

/// A message of a sibling: one of this user's own devices, and not this one.
pub open spec fn from_sibling(c: ClientView) -> spec_fn(EnvelopeView) -> bool {
    |e: EnvelopeView| own(c).contains(e.sender) && e.sender != c.device
}

/// What the user sees of the lens: labels, offers and conflicts.
spec fn same_lens(c: ClientView, d: ClientView) -> bool {
    &&& d.persons == c.persons
    &&& d.offers == c.offers
    &&& d.conflicts == c.conflicts
}

proof fn lemma_order_without_siblings(
    c: ClientView,
    used: int,
    tokens: Seq<u128>,
    replay: ReplayView,
    records: Seq<(MessageId, RecordView)>,
    x: ConversationView,
    order: Seq<MessageId>,
)
    requires
        forall|k: PublicKey| replay.own.contains(k) <==> #[trigger] own(c).contains(k),
        !some(x.envelopes, from_sibling(c)),
    ensures
        same_lens(c, replayed_order(c, used, tokens, replay, records, x, order).0),
        replayed_order(c, used, tokens, replay, records, x, order).0.device == c.device,
        replayed_order(c, used, tokens, replay, records, x, order).1 == used,
    decreases order.len(),
{
    if order.len() > 0 {
        let before = order.drop_last();
        let id = order.last();
        lemma_order_without_siblings(c, used, tokens, replay, records, x, before);
        let (d, more) = replayed_order(c, used, tokens, replay, records, x, before);
        lemma_first(x.envelopes, envelope_is(id));
        match first(x.envelopes, envelope_is(id)) {
            Some(e) => {
                lemma_first(x.envelopes, from_sibling(c));
                let k = choose|k: int| 0 <= k < x.envelopes.len() && x.envelopes[k] == e;
                assert(!from_sibling(c)(x.envelopes[k]));
                assert(replay.own.contains(e.sender) <==> own(c).contains(e.sender));
            },
            None => {},
        }
        law_only_siblings_have_effect(d, more, tokens, replay, records, x, id);
    }
}

/// A channel without a sibling's message.
pub open spec fn unsaid(c: ClientView) -> spec_fn(MessageId) -> bool {
    |m: MessageId|
        match first(c.conversations, conversation_is(m)) {
            Some(x) => !some(x.envelopes, from_sibling(c)),
            None => true,
        }
}

proof fn lemma_channels_without_siblings(
    c: ClientView,
    tokens: Seq<u128>,
    records: Seq<(MessageId, RecordView)>,
    list: Seq<MessageId>,
)
    requires
        forall|i: int| 0 <= i < list.len() ==> unsaid(c)(#[trigger] list[i]),
    ensures
        same_lens(c, replayed_channels(c, tokens, read_once(c), records, list).client),
        replayed_channels(c, tokens, read_once(c), records, list).used == 0,
    decreases list.len(),
{
    if list.len() > 0 {
        let before = list.drop_last();
        let replay = read_once(c);
        assert forall|i: int| 0 <= i < before.len() implies unsaid(c)(#[trigger] before[i]) by {
            assert(before[i] == list[i]);
        }
        lemma_channels_without_siblings(c, tokens, records, before);
        lemma_channels_keep(c, tokens, replay, records, before);
        let r = replayed_channels(c, tokens, replay, records, before);
        assert(unsaid(c)(list[list.len() - 1]));
        if r.fault is None {
            match first(c.conversations, conversation_is(list.last())) {
                Some(x) => match dag_of(x) {
                    Ok(g) => {
                        lemma_own_list(c);
                        assert(own(r.client) == own(c));
                        assert(from_sibling(r.client) =~= from_sibling(c));
                        lemma_order_without_siblings(
                            r.client,
                            r.used,
                            tokens,
                            replay,
                            records,
                            x,
                            g.order,
                        );
                    },
                    Err(_) => {},
                },
                None => {},
            }
        }
    }
}

/// The keys a replay reads are this user's own.
proof fn lemma_own_list(c: ClientView)
    ensures
        forall|k: PublicKey|
            read_once(c).own.contains(k) <==> #[trigger] own(c).contains(k),
{
    lemma_own_finite(c);
    crate::order::lemma_list_exists::<PublicKey>(own(c));
    let list = read_once(c).own;
    assert forall|k: PublicKey| list.contains(k) <==> #[trigger] own(c).contains(k) by {
        assert(list.to_set().contains(k) == own(c).contains(k));
    }
}

/// Without a sibling's message no replay changes a label, an offer or a
/// conflict, and nobody is looked at, whatever strangers have sent.
pub proof fn law_strangers_change_nothing(
    c: ClientView,
    tokens: Seq<u128>,
    records: Seq<(MessageId, RecordView)>,
)
    requires
        forall|i: int| 0 <= i < channels(c).len() ==> unsaid(c)(#[trigger] channels(c)[i]),
    ensures
        replayed(c, tokens, records).client.persons == c.persons,
        replayed(c, tokens, records).client.offers == c.offers,
        replayed(c, tokens, records).client.conflicts == c.conflicts,
        replayed(c, tokens, records).used == 0,
{
    let d = classified(c);
    assert(own(d) == own(c));
    assert(from_sibling(d) =~= from_sibling(c));
    assert forall|i: int| 0 <= i < d.lens_channels.len() implies unsaid(d)(#[trigger] d.lens_channels[i]) by {
        assert(unsaid(c)(channels(c)[i]));
    }
    if !some(d.lens_channels, unstored(d)) {
        lemma_channels_without_siblings(d, tokens, records, d.lens_channels);
    }
}

/// A conversation that a stranger began never becomes a lens channel.
pub proof fn law_strangers_open_no_channel(
    c: ClientView,
    tokens: Seq<u128>,
    records: Seq<(MessageId, RecordView)>,
    id: MessageId,
)
    requires
        !c.lens_channels.contains(id),
        match held_envelope(c, id) {
            Some(e) => !own(c).contains(e.sender),
            None => true,
        },
    ensures
        !replayed(c, tokens, records).client.lens_channels.contains(id),
{
    let d = classified(c);
    let base = c.lens_channels.to_set();
    let found = c.conversations.filter(is_channel(c));
    let more = found.map_values(conversation_id()).to_set();
    vstd::seq_lib::seq_to_set_is_finite(c.lens_channels);
    vstd::seq_lib::seq_to_set_is_finite(found.map_values(conversation_id()));
    crate::order::lemma_list_exists::<MessageId>(base + more);
    assert(lists::<MessageId>(channels(c), base + more));
    if d.lens_channels.contains(id) {
        assert(channels(c).to_set().contains(id));
        assert(more.contains(id));
        let ids = found.map_values(conversation_id());
        let k = choose|k: int| 0 <= k < ids.len() && ids[k] == id;
        crate::seqs::lemma_filter(c.conversations, is_channel(c));
        assert(is_channel(c)(found[k]));
        assert(found[k].id == id);
    }
    if !some(d.lens_channels, unstored(d)) {
        lemma_channels_keep(d, tokens, read_once(d), records, d.lens_channels);
    }
}

/// A label of this device that the sibling did not see is kept: the sibling's
/// is surfaced with its author, and no person changes.
pub proof fn law_concurrent_label_is_surfaced(
    c: ClientView,
    v: Seq<PersonView>,
    mine: Seq<MyLabelView>,
    x: ConversationView,
    op: MessageId,
    author: PublicKey,
    members: Seq<PublicKey>,
    label: Seq<char>,
    p: PersonView,
)
    requires
        first(v, spoken_of(members)) == Some(p),
        p.label != label,
        some(mine, unseen(p, x, op)),
    ensures
        adopted_label(c, v, mine, x, op, author, members, label).persons == c.persons,
        adopted_label(c, v, mine, x, op, author, members, label).conflicts.contains(
            ConflictView { person: p.id, theirs: label, author },
        ),
{
    let t = adopted_label(c, v, mine, x, op, author, members, label).conflicts;
    assert(t[t.len() - 1] == (ConflictView { person: p.id, theirs: label, author }));
}

/// A label adopted leaves no conflict about the person.
pub proof fn law_settled_clears_the_conflict(
    c: ClientView,
    v: Seq<PersonView>,
    p: PersonView,
    label: Seq<char>,
    i: int,
)
    requires
        settled(c, v, p, label) is Ok,
        0 <= i < settled(c, v, p, label)->Ok_0.conflicts.len(),
    ensures
        settled(c, v, p, label)->Ok_0.conflicts[i].person != p.id,
{
    crate::seqs::lemma_filter(c.conflicts, other_conflict(p.id));
    let t = without_conflict(c.conflicts, p.id);
    assert(other_conflict(p.id)(t[i]));
}

/// A contact once held is never offered again: this is what ends the exchange
/// of offers between siblings.
pub proof fn law_held_is_not_offered(
    c: ClientView,
    author: PublicKey,
    record: RecordView,
    petname: Seq<char>,
    k: int,
)
    requires
        0 <= k < c.contacts.len(),
        crate::record::share_key(c.contacts[k].1, record),
    ensures
        adopted_offer(c, author, record, petname) == c,
        !stands(c)(OfferView { subject: record.keys[0], author, petname, record }),
{
    assert(overlaps(record)(c.contacts[k]));
}

/// Whoever accepts an offer is not offered the contact again.
pub proof fn law_accepted_is_held(
    c: ClientView,
    v: Seq<PersonView>,
    subject: PublicKey,
    id: u128,
    o: OfferView,
)
    requires
        pending_offer(c, subject) == Some(o),
        accepted(c, v, subject, id) is Ok,
    ensures
        is_held(accepted(c, v, subject, id)->Ok_0.after, o.record),
        first(accepted(c, v, subject, id)->Ok_0.after.offers, subject_is(subject)) is None,
{
    let after = accepted(c, v, subject, id)->Ok_0.after;
    lemma_first(c.offers.filter(stands(c)), subject_is(subject));
    crate::seqs::lemma_filter(c.offers, stands(c));
    let found = c.offers.filter(stands(c));
    let k = choose|k: int| 0 <= k < found.len() && found[k] == o;
    assert(stands(c)(found[k]));
    assert(!is_held(c, o.record));
    let both = crate::contacts::overlapping(c, o.record);
    crate::seqs::lemma_filter(c.contacts, overlaps(o.record));
    if both.len() > 0 {
        assert(overlaps(o.record)(both[0]));
        assert(c.contacts.contains(both[0]));
        let j = choose|j: int| 0 <= j < c.contacts.len() && c.contacts[j] == both[0];
        assert(overlaps(o.record)(c.contacts[j]));
    }
    let e = (crate::text::trimmed(o.petname), o.record);
    crate::order::lemma_placed_contains(
        c.contacts.filter(crate::contacts::other_stem(crate::record::stem(o.record))),
        e,
        crate::load::by_petname(),
        e,
    );
    let m = choose|m: int| 0 <= m < after.contacts.len() && after.contacts[m] == e;
    assert(o.record.keys[0] == o.record.keys[0]);
    assert(overlaps(o.record)(after.contacts[m]));
    let rest = without_offer(c.offers, subject);
    crate::seqs::lemma_filter(c.offers, other_subject(subject));
    lemma_first(rest, subject_is(subject));
    match first(rest, subject_is(subject)) {
        Some(v) => {
            let n = choose|n: int| 0 <= n < rest.len() && rest[n] == v;
            assert(other_subject(subject)(rest[n]));
        },
        None => {},
    }
}

/// A sibling's label surfaced stands as it came, with its author, in place of
/// what was surfaced about that person before; nothing else changes.
pub proof fn law_surfaced_stands_alone(
    c: ClientView,
    person: u128,
    theirs: Seq<char>,
    author: PublicKey,
    x: ConflictView,
)
    ensures
        ({
            let d = surfaced(c, person, theirs, author);
            &&& d == (ClientView { conflicts: d.conflicts, ..c })
            &&& d.conflicts.contains(x) <==> if x.person == person {
                x.theirs == theirs && x.author == author
            } else {
                c.conflicts.contains(x)
            }
        }),
{
    let rest = without_conflict(c.conflicts, person);
    let new = ConflictView { person, theirs, author };
    crate::seqs::lemma_filter_contains(c.conflicts, other_conflict(person), x);
    crate::order::lemma_push_contains(rest, new, x);
}

/// A settled label is the person's label from then on: refused exactly where
/// somebody else goes by it, and else no conflict about the person is left and
/// those about others stay.
pub proof fn law_settled_label(
    c: ClientView,
    v: Seq<PersonView>,
    p: PersonView,
    label: Seq<char>,
    r: PersonRowView,
    x: ConflictView,
)
    requires
        crate::persons::storable(label),
    ensures
        match settled(c, v, p, label) {
            Ok(d) => {
                &&& !crate::persons::taken(v, label, Some(p.id))
                &&& d == (ClientView { persons: d.persons, conflicts: d.conflicts, ..c })
                &&& d.persons.contains(r) <==> if r.id == p.id {
                    r.label == label && r.members == crate::persons::stems(p)
                } else {
                    c.persons.contains(r)
                }
                &&& d.conflicts.contains(x) <==> c.conflicts.contains(x) && x.person != p.id
            },
            Err(e) => crate::persons::taken(v, label, Some(p.id)) && e
                == ErrorView::PetnameCollision(label),
        },
{
    crate::persons::law_relabel_changes_the_label(c, v, p, label, r);
    crate::seqs::lemma_filter_contains(c.conflicts, other_conflict(p.id), x);
}

/// A person's entries list one of these keys.
pub open spec fn lists_one(members: Seq<PublicKey>, p: PersonView) -> bool {
    exists|i: int, m: int|
        0 <= i < members.len() && 0 <= m < p.members.len() && (#[trigger] p.members[m]).1.keys.contains(
            #[trigger] members[i],
        )
}

proof fn lemma_keys_of(p: PersonView, key: PublicKey)
    ensures
        keys_of(p).contains(key) <==> exists|m: int|
            0 <= m < p.members.len() && (#[trigger] p.members[m]).1.keys.contains(key),
{
    let f = entry_keys();
    crate::seqs::lemma_gathered_contains(p.members, f, key);
    if keys_of(p).contains(key) {
        let m = choose|m: int| 0 <= m < p.members.len() && f(#[trigger] p.members[m]).contains(key);
        assert(p.members[m].1.keys.contains(key));
    }
    if exists|m: int| 0 <= m < p.members.len() && (#[trigger] p.members[m]).1.keys.contains(key) {
        let m = choose|m: int|
            0 <= m < p.members.len() && (#[trigger] p.members[m]).1.keys.contains(key);
        assert(f(p.members[m]).contains(key));
    }
}

proof fn lemma_lists_one(members: Seq<PublicKey>, p: PersonView)
    ensures
        share(members, keys_of(p)) <==> lists_one(members, p),
{
    if share(members, keys_of(p)) {
        let i = choose|i: int| 0 <= i < members.len() && keys_of(p).contains(#[trigger] members[i]);
        lemma_keys_of(p, members[i]);
        let m = choose|m: int|
            0 <= m < p.members.len() && (#[trigger] p.members[m]).1.keys.contains(members[i]);
        assert(p.members[m].1.keys.contains(members[i]));
    }
    if lists_one(members, p) {
        let (i, m) = choose|i: int, m: int|
            0 <= i < members.len() && 0 <= m < p.members.len() && (
            #[trigger] p.members[m]).1.keys.contains(#[trigger] members[i]);
        lemma_keys_of(p, members[i]);
        assert(keys_of(p).contains(members[i]));
    }
}

/// This device gave the person a label that the sibling had not seen: none of
/// the messages before the sibling's in that channel.
pub open spec fn gave_one_unseen(
    mine: Seq<MyLabelView>,
    p: PersonView,
    x: ConversationView,
    op: MessageId,
) -> bool {
    exists|k: int|
        0 <= k < mine.len() && lists_one((#[trigger] mine[k]).members, p) && (mine[k].channel
            != x.id || !ancestor(x.envelopes, op, mine[k].id))
}

proof fn lemma_unseen(mine: Seq<MyLabelView>, p: PersonView, x: ConversationView, op: MessageId)
    ensures
        some(mine, unseen(p, x, op)) <==> gave_one_unseen(mine, p, x, op),
{
    let q = unseen(p, x, op);
    if some(mine, q) {
        let k = choose|k: int| 0 <= k < mine.len() && q(#[trigger] mine[k]);
        lemma_lists_one(mine[k].members, p);
    }
    if gave_one_unseen(mine, p, x, op) {
        let k = choose|k: int|
            0 <= k < mine.len() && lists_one((#[trigger] mine[k]).members, p) && (mine[k].channel
                != x.id || !ancestor(x.envelopes, op, mine[k].id));
        lemma_lists_one(mine[k].members, p);
        assert(q(mine[k]));
    }
}

/// A sibling's label is about the first person who lists one of the keys it
/// names. It becomes theirs where the sibling had seen every label this device
/// gave them and nobody else goes by it; otherwise it is surfaced and their
/// row stays. Their own label already changes nothing.
pub proof fn law_siblings_label(
    c: ClientView,
    v: Seq<PersonView>,
    mine: Seq<MyLabelView>,
    x: ConversationView,
    op: MessageId,
    author: PublicKey,
    members: Seq<PublicKey>,
    label: Seq<char>,
    at: int,
    r: PersonRowView,
)
    requires
        crate::persons::storable(label),
        0 <= at < v.len(),
        lists_one(members, v[at]),
        forall|j: int| 0 <= j < at ==> !lists_one(members, #[trigger] v[j]),
    ensures
        ({
            let d = adopted_label(c, v, mine, x, op, author, members, label);
            let p = v[at];
            let refused = gave_one_unseen(mine, p, x, op) || crate::persons::taken(
                v,
                label,
                Some(p.id),
            );
            &&& d == (ClientView { persons: d.persons, conflicts: d.conflicts, ..c })
            &&& p.label == label ==> d == c
            &&& p.label != label && refused ==> d.persons == c.persons && d.conflicts.contains(
                ConflictView { person: p.id, theirs: label, author },
            )
            &&& p.label != label && !refused ==> {
                &&& forall|k: int| 0 <= k < d.conflicts.len() ==> (#[trigger] d.conflicts[k]).person
                    != p.id
                &&& d.persons.contains(r) <==> if r.id == p.id {
                    r.label == label && r.members == crate::persons::stems(p)
                } else {
                    c.persons.contains(r)
                }
            }
        }),
{
    let p = v[at];
    let q = spoken_of(members);
    lemma_lists_one(members, p);
    assert forall|j: int| 0 <= j < at implies !q(#[trigger] v[j]) by {
        lemma_lists_one(members, v[j]);
    }
    crate::seqs::lemma_first_is(v, q, at);
    lemma_unseen(mine, p, x, op);
    let new = ConflictView { person: p.id, theirs: label, author };
    law_surfaced_stands_alone(c, p.id, label, author, new);
    law_settled_label(c, v, p, label, r, new);
    if settled(c, v, p, label) is Ok {
        assert forall|k: int|
            0 <= k < settled(c, v, p, label)->Ok_0.conflicts.len() implies (
        #[trigger] settled(c, v, p, label)->Ok_0.conflicts[k]).person != p.id by {
            law_settled_clears_the_conflict(c, v, p, label, k);
        }
    }
}

/// A sibling's label about keys nobody lists changes nothing.
pub proof fn law_label_of_nobody(
    c: ClientView,
    v: Seq<PersonView>,
    mine: Seq<MyLabelView>,
    x: ConversationView,
    op: MessageId,
    author: PublicKey,
    members: Seq<PublicKey>,
    label: Seq<char>,
)
    requires
        forall|j: int| 0 <= j < v.len() ==> !lists_one(members, #[trigger] v[j]),
    ensures
        adopted_label(c, v, mine, x, op, author, members, label) == c,
{
    let q = spoken_of(members);
    lemma_first(v, q);
    match first(v, q) {
        Some(p) => {
            let j = choose|j: int| 0 <= j < v.len() && v[j] == p;
            lemma_lists_one(members, v[j]);
        },
        None => {},
    }
}

/// A contact is held where one of the record's keys is a contact's.
pub proof fn law_held_by_any_key(c: ClientView, record: RecordView)
    ensures
        is_held(c, record) <==> exists|i: int, k: int|
            0 <= i < c.contacts.len() && 0 <= k < record.keys.len() && (
            #[trigger] c.contacts[i]).1.keys.contains(#[trigger] record.keys[k]),
{
    let p = overlaps(record);
    if is_held(c, record) {
        let i = choose|i: int| 0 <= i < c.contacts.len() && p(#[trigger] c.contacts[i]);
        let e = c.contacts[i].1;
        let j = choose|j: int| 0 <= j < e.keys.len() && record.keys.contains(#[trigger] e.keys[j]);
        let k = choose|k: int| 0 <= k < record.keys.len() && record.keys[k] == e.keys[j];
        assert(c.contacts[i].1.keys.contains(record.keys[k]));
    }
    if exists|i: int, k: int|
        0 <= i < c.contacts.len() && 0 <= k < record.keys.len() && (
        #[trigger] c.contacts[i]).1.keys.contains(#[trigger] record.keys[k]) {
        let (i, k) = choose|i: int, k: int|
            0 <= i < c.contacts.len() && 0 <= k < record.keys.len() && (
            #[trigger] c.contacts[i]).1.keys.contains(#[trigger] record.keys[k]);
        let e = c.contacts[i].1;
        let j = choose|j: int| 0 <= j < e.keys.len() && e.keys[j] == record.keys[k];
        assert(record.keys.contains(e.keys[j]));
        assert(p(c.contacts[i]));
    }
}

/// A sibling's contact-add becomes an offer as it came, under the record's
/// first key and in place of an earlier offer about it, exactly where the
/// record has a key and the contact is not held; nothing else changes.
pub proof fn law_offer_is_kept_as_it_came(
    c: ClientView,
    author: PublicKey,
    record: RecordView,
    petname: Seq<char>,
    o: OfferView,
)
    ensures
        ({
            let d = adopted_offer(c, author, record, petname);
            let news = record.keys.len() > 0 && !is_held(c, record);
            &&& d == (ClientView { offers: d.offers, ..c })
            &&& !news ==> d == c
            &&& news ==> (d.offers.contains(o) <==> if o.subject == record.keys[0] {
                o.author == author && o.petname == petname && o.record == record
            } else {
                c.offers.contains(o)
            })
        }),
{
    if record.keys.len() > 0 {
        let subject = record.keys[0];
        let rest = without_offer(c.offers, subject);
        let new = OfferView { subject, author, petname, record };
        crate::seqs::lemma_filter_contains(c.offers, other_subject(subject), o);
        crate::order::lemma_push_contains(rest, new, o);
    }
}

/// The offers shown are those of this user's own devices about contacts not
/// held, all of them; the one found for a subject is among them.
pub proof fn law_offers_shown(c: ClientView, o: OfferView, subject: PublicKey)
    ensures
        standing_offers(c).contains(o) <==> c.offers.contains(o) && own(c).contains(o.author)
            && !is_held(c, o.record),
        match pending_offer(c, subject) {
            Some(found) => standing_offers(c).contains(found) && found.subject == subject,
            None => !(standing_offers(c).contains(o) && o.subject == subject),
        },
{
    let s = standing_offers(c);
    crate::seqs::lemma_filter_contains(c.offers, stands(c), o);
    lemma_first(s, subject_is(subject));
    if pending_offer(c, subject) is None && s.contains(o) {
        let k = choose|k: int| 0 <= k < s.len() && s[k] == o;
        assert(!subject_is(subject)(s[k]));
    }
}

/// Accepting an offer is the ordinary add of the offered record under the
/// offered petname; besides, the offers about the subject are gone and no
/// others.
pub proof fn law_accepting_adds_what_was_offered(
    c: ClientView,
    v: Seq<PersonView>,
    subject: PublicKey,
    id: u128,
    o: OfferView,
    x: OfferView,
)
    requires
        pending_offer(c, subject) == Some(o),
    ensures
        match (added(c, v, o.record, Some(o.petname), id), accepted(c, v, subject, id)) {
            (Ok(a), Ok(b)) => {
                &&& b == (AddView {
                    after: ClientView { offers: b.after.offers, ..a.after },
                    ..a
                })
                &&& b.after.offers.contains(x) <==> a.after.offers.contains(x) && x.subject != subject
            },
            (Err(a), Err(b)) => a == b,
            _ => false,
        },
{
    match added(c, v, o.record, Some(o.petname), id) {
        Ok(a) => {
            crate::seqs::lemma_filter_contains(a.after.offers, other_subject(subject), x);
        },
        Err(_) => {},
    }
}

/// A stored message has the parents it names.
pub proof fn law_parents_as_stored(all: Seq<EnvelopeView>, i: int, parent: MessageId)
    requires
        0 <= i < all.len(),
        forall|j: int| 0 <= j < i ==> (#[trigger] all[j]).id != all[i].id,
    ensures
        parent_of(all, all[i].id, parent) <==> all[i].parents.contains(parent),
{
    crate::seqs::lemma_first_is(all, envelope_is(all[i].id), i);
}

/// What came before a message: its parents, whatever came before them, and
/// nothing else.
pub proof fn law_ancestors(all: Seq<EnvelopeView>, from: MessageId, to: MessageId)
    ensures
        ancestor(all, from, to) <==> parent_of(all, from, to) || exists|mid: MessageId|
            ancestor(all, from, mid) && #[trigger] parent_of(all, mid, to),
{
    reveal_with_fuel(climbs, 2);
    if ancestor(all, from, to) {
        let n = choose|n: nat| n >= 1 && #[trigger] climbs(all, from, to, n);
        let mid = choose|mid: MessageId|
            climbs(all, from, mid, (n - 1) as nat) && #[trigger] parent_of(all, mid, to);
        if n >= 2 {
            assert(climbs(all, from, mid, (n - 1) as nat));
            assert(ancestor(all, from, mid));
        } else {
            assert(mid == from);
        }
    }
    if parent_of(all, from, to) {
        assert(climbs(all, from, from, 0));
        assert(climbs(all, from, to, 1));
    }
    if exists|mid: MessageId| ancestor(all, from, mid) && #[trigger] parent_of(all, mid, to) {
        let mid = choose|mid: MessageId|
            ancestor(all, from, mid) && #[trigger] parent_of(all, mid, to);
        let n = choose|n: nat| n >= 1 && #[trigger] climbs(all, from, mid, n);
        assert(((n + 1) as nat - 1) as nat == n);
        assert(climbs(all, from, to, (n + 1) as nat));
    }
}

/// A lens channel is one known before, or a stored conversation that one of
/// this user's own devices began with a hello.
pub proof fn law_what_a_channel_is(c: ClientView, id: MessageId)
    ensures
        channels(c).contains(id) <==> c.lens_channels.contains(id) || (match held_envelope(c, id) {
            Some(e) => own(c).contains(e.sender) && op_in(e.body) == Some(OpView::Hello),
            None => false,
        } && exists|i: int| 0 <= i < c.conversations.len() && (#[trigger] c.conversations[i]).id
            == id),
        ascending::<MessageId>(channels(c)),
{
    let p = is_channel(c);
    let kept = c.conversations.filter(p);
    let ids = kept.map_values(conversation_id());
    let set = c.lens_channels.to_set() + ids.to_set();
    vstd::seq_lib::seq_to_set_is_finite(c.lens_channels);
    vstd::seq_lib::seq_to_set_is_finite(ids);
    crate::order::lemma_list_exists::<MessageId>(set);
    assert(channels(c).to_set().contains(id) == set.contains(id));
    if ids.contains(id) {
        let k = choose|k: int| 0 <= k < ids.len() && ids[k] == id;
        assert(kept.contains(kept[k]));
        crate::seqs::lemma_filter_contains(c.conversations, p, kept[k]);
        let i = choose|i: int| 0 <= i < c.conversations.len() && c.conversations[i] == kept[k];
        assert(c.conversations[i].id == id);
    }
    if exists|i: int|
        0 <= i < c.conversations.len() && (#[trigger] c.conversations[i]).id == id && p(
            c.conversations[i],
        ) {
        let i = choose|i: int|
            0 <= i < c.conversations.len() && (#[trigger] c.conversations[i]).id == id && p(
                c.conversations[i],
            );
        assert(c.conversations.contains(c.conversations[i]));
        crate::seqs::lemma_filter_contains(c.conversations, p, c.conversations[i]);
        let k = choose|k: int| 0 <= k < kept.len() && kept[k] == c.conversations[i];
        assert(ids[k] == id);
    }
}

/// Classifying settles on the smallest channel, where there is one, and
/// changes nothing but the channels.
pub proof fn law_emission_converges(c: ClientView, id: MessageId)
    ensures
        ({
            let d = classified(c);
            &&& d == (ClientView {
                lens_channels: channels(c),
                lens_conversation: d.lens_conversation,
                ..c
            })
            &&& channels(c).contains(id) ==> match d.lens_conversation {
                Some(m) => channels(c).contains(m) && (m == id
                    || <MessageId as crate::order::Ranked>::below(m, id)),
                None => false,
            }
            &&& channels(c).len() == 0 ==> d.lens_conversation == c.lens_conversation
        }),
{
    law_what_a_channel_is(c, id);
    let found = channels(c);
    if found.contains(id) {
        let k = choose|k: int| 0 <= k < found.len() && found[k] == id;
        assert(found.contains(found[0]));
    }
}

/// This device's labels in the channels listed: every label op it wrote there,
/// with the keys the op names, and nobody else's.
pub proof fn law_own_labels(c: ClientView, list: Seq<MessageId>, m: MyLabelView, at: int)
    requires
        0 <= at < c.conversations.len(),
        c.conversations[at].id == m.channel,
        forall|j: int| 0 <= j < at ==> (#[trigger] c.conversations[j]).id != m.channel,
    ensures
        gathered(list, my_labels(c)).contains(m) <==> list.contains(m.channel) && exists|i: int|
            0 <= i < c.conversations[at].envelopes.len() && (
            #[trigger] c.conversations[at].envelopes[i]).sender == c.device
                && c.conversations[at].envelopes[i].id == m.id && match op_in(
                c.conversations[at].envelopes[i].body,
            ) {
                Some(OpView::LabelPerson(members, _)) => members == m.members,
                _ => false,
            },
{
    let f = my_labels(c);
    crate::seqs::lemma_gathered_contains(list, f, m);
    crate::seqs::lemma_first_is(c.conversations, conversation_is(m.channel), at);
    let x = c.conversations[at];
    let g = my_label(c, m.channel);
    let own_ops = x.envelopes.filter_map(g);
    if gathered(list, f).contains(m) {
        let i = choose|i: int| 0 <= i < list.len() && f(#[trigger] list[i]).contains(m);
        let ch = list[i];
        match first(c.conversations, conversation_is(ch)) {
            Some(y) => {
                let h = my_label(c, ch);
                let ops = y.envelopes.filter_map(h);
                let k = choose|k: int| 0 <= k < ops.len() && ops[k] == m;
                let e = crate::seqs::lemma_filter_map_source(y.envelopes, h, k);
                assert(m.channel == ch);
                assert(y == x);
                assert(x.envelopes[e].sender == c.device);
            },
            None => {},
        }
    }
    if list.contains(m.channel) && exists|i: int|
        0 <= i < c.conversations[at].envelopes.len() && (#[trigger] c.conversations[at].envelopes[i]).sender
            == c.device && c.conversations[at].envelopes[i].id == m.id && match op_in(
            c.conversations[at].envelopes[i].body,
        ) {
            Some(OpView::LabelPerson(members, _)) => members == m.members,
            _ => false,
        } {
        let i = choose|i: int|
            0 <= i < c.conversations[at].envelopes.len() && (
            #[trigger] c.conversations[at].envelopes[i]).sender == c.device
                && c.conversations[at].envelopes[i].id == m.id && match op_in(
                c.conversations[at].envelopes[i].body,
            ) {
                Some(OpView::LabelPerson(members, _)) => members == m.members,
                _ => false,
            };
        crate::seqs::lemma_filter_map_has(x.envelopes, g, i);
        assert(g(x.envelopes[i]) == Some(m));
        let k = choose|k: int| 0 <= k < list.len() && list[k] == m.channel;
        assert(f(list[k]).contains(m));
    }
}

/// Noting a message adds that message to those dealt with, and nothing else
/// changes.
pub proof fn law_noted(c: ClientView, id: MessageId, m: MessageId)
    ensures
        noted(c, id) == (ClientView { lens_applied: noted(c, id).lens_applied, ..c }),
        noted(c, id).lens_applied.contains(m) <==> c.lens_applied.contains(m) || m == id,
{
    crate::order::lemma_push_contains(c.lens_applied, id, m);
}

/// A replay without a fault deals with all there is: every message of every
/// channel is noted, but for those of own devices that do not open yet.
pub proof fn law_replay_deals_with_everything(
    c: ClientView,
    tokens: Seq<u128>,
    records: Seq<(MessageId, RecordView)>,
    channel: MessageId,
    at: int,
    id: MessageId,
    i: int,
)
    requires
        replayed(c, tokens, records).fault is None,
        channels(c).contains(channel),
        0 <= at < c.conversations.len(),
        c.conversations[at].id == channel,
        forall|j: int| 0 <= j < at ==> (#[trigger] c.conversations[j]).id != channel,
        dag_of(c.conversations[at]) is Ok,
        dag_of(c.conversations[at])->Ok_0.order.contains(id),
        0 <= i < c.conversations[at].envelopes.len(),
        c.conversations[at].envelopes[i].id == id,
        forall|j: int| 0 <= j < i ==> (#[trigger] c.conversations[at].envelopes[j]).id != id,
        c.conversations[at].envelopes[i].body is Ok || !own(c).contains(
            c.conversations[at].envelopes[i].sender,
        ),
    ensures
        replayed(c, tokens, records).client.lens_applied.contains(id),
{
    let d = classified(c);
    let replay = read_once(d);
    let x = c.conversations[at];
    crate::seqs::lemma_first_is(c.conversations, conversation_is(channel), at);
    crate::seqs::lemma_first_is(x.envelopes, envelope_is(id), i);
    lemma_own_list(d);
    let k = choose|k: int| 0 <= k < channels(c).len() && channels(c)[k] == channel;
    lemma_channels_dealt(d, tokens, replay, records, d.lens_channels, k, x, id);
    lemma_channels_keep(d, tokens, replay, records, d.lens_channels);
}

proof fn lemma_channels_dealt(
    c: ClientView,
    tokens: Seq<u128>,
    replay: ReplayView,
    records: Seq<(MessageId, RecordView)>,
    list: Seq<MessageId>,
    k: int,
    x: ConversationView,
    id: MessageId,
)
    requires
        0 <= k < list.len(),
        replayed_channels(c, tokens, replay, records, list).fault is None,
        first(c.conversations, conversation_is(list[k])) == Some(x),
        dag_of(x) is Ok,
        dag_of(x)->Ok_0.order.contains(id),
    ensures
        quiet(
            replayed_channels(c, tokens, replay, records, list).client.lens_applied,
            replay,
            x,
            id,
        ),
    decreases list.len(),
{
    let before = list.drop_last();
    let r = replayed_channels(c, tokens, replay, records, before);
    match first(c.conversations, conversation_is(list.last())) {
        Some(y) => match dag_of(y) {
            Ok(g) => {
                lemma_order_keeps(r.client, r.used, tokens, replay, records, y, g.order);
                if k < before.len() {
                    assert(before[k] == list[k]);
                    lemma_channels_dealt(c, tokens, replay, records, before, k, x, id);
                } else {
                    let i = choose|i: int| 0 <= i < g.order.len() && g.order[i] == id;
                    assert(g.order[i] == id);
                }
            },
            Err(_) => {},
        },
        None => {},
    }
}

/// What a sibling's message does besides being noted: its label is adopted or
/// surfaced with the people as they are then, its offer is kept under the
/// record it decodes to, and its hello does nothing.
pub proof fn law_sibling_message_takes_effect(
    c: ClientView,
    used: int,
    tokens: Seq<u128>,
    replay: ReplayView,
    records: Seq<(MessageId, RecordView)>,
    x: ConversationView,
    i: int,
    op: OpView,
)
    requires
        0 <= i < x.envelopes.len(),
        forall|j: int| 0 <= j < i ==> (#[trigger] x.envelopes[j]).id != x.envelopes[i].id,
        !replay.applied.contains(x.envelopes[i].id),
        replay.own.contains(x.envelopes[i].sender),
        x.envelopes[i].sender != c.device,
        op_in(x.envelopes[i].body) == Some(op),
    ensures
        ({
            let e = x.envelopes[i];
            let d = replayed_message(c, used, tokens, replay, records, x, e.id).0;
            let n = unclaimed(c).len();
            let taken = Seq::new(n, |t: int| tokens[used + t]);
            match op {
                OpView::Hello => d == noted(c, e.id),
                OpView::LabelPerson(members, label) => d == noted(
                    adopted_label(
                        healed(c, taken),
                        believed(c, taken),
                        replay.mine,
                        x,
                        e.id,
                        e.sender,
                        members,
                        label,
                    ),
                    e.id,
                ),
                OpView::OfferContact(_, petname) => forall|k: int|
                    0 <= k < records.len() && (#[trigger] records[k]).0 == e.id && (forall|j: int|
                        0 <= j < k ==> (#[trigger] records[j]).0 != e.id) ==> d == noted(
                        adopted_offer(c, e.sender, records[k].1, petname),
                        e.id,
                    ),
            }
        }),
{
    let e = x.envelopes[i];
    crate::seqs::lemma_first_is(x.envelopes, envelope_is(e.id), i);
    let n = unclaimed(c).len();
    assert(Seq::new(n, |t: int| tokens[used + t]) =~= taken_at(tokens, used, n));
    assert forall|k: int|
        0 <= k < records.len() && (#[trigger] records[k]).0 == e.id && (forall|j: int|
            0 <= j < k ==> (#[trigger] records[j]).0 != e.id) implies first(records, record_for(e.id))
        == Some(records[k]) by {
        crate::seqs::lemma_first_is(records, record_for(e.id), k);
    }
}

/// The label op for a person names every key their entries list, each once and
/// in order, and says their label.
pub proof fn law_label_op_names_every_key(p: PersonView, key: PublicKey)
    ensures
        match label_op_of(p) {
            OpView::LabelPerson(keys, label) => {
                &&& label == p.label
                &&& ascending::<PublicKey>(keys)
                &&& keys.contains(key) <==> exists|m: int|
                    0 <= m < p.members.len() && (#[trigger] p.members[m]).1.keys.contains(key)
            },
            _ => false,
        },
{
    lemma_keys_of(p, key);
    let set = keys_of(p).to_set();
    vstd::seq_lib::seq_to_set_is_finite(keys_of(p));
    crate::order::lemma_list_exists::<PublicKey>(set);
    assert(ascending_list::<PublicKey>(set).to_set().contains(key) == set.contains(key));
}

/// The offered records are those of every stored offer op, each with the
/// message it came in.
pub proof fn law_every_offer_is_read(c: ClientView, id: MessageId, record: Seq<u8>)
    ensures
        offered_by_message(c).contains((id, record)) <==> exists|x: int, i: int|
            0 <= x < c.conversations.len() && 0 <= i < c.conversations[x].envelopes.len() && (
            #[trigger] c.conversations[x].envelopes[i]).id == id && match op_in(
                c.conversations[x].envelopes[i].body,
            ) {
                Some(OpView::OfferContact(carried, _)) => carried == record,
                _ => false,
            },
{
    let f = offered_in();
    let g = offered();
    crate::seqs::lemma_gathered_contains(c.conversations, f, (id, record));
    if offered_by_message(c).contains((id, record)) {
        let x = choose|x: int|
            0 <= x < c.conversations.len() && f(#[trigger] c.conversations[x]).contains(
                (id, record),
            );
        let all = c.conversations[x].envelopes;
        let ops = all.filter_map(g);
        let k = choose|k: int| 0 <= k < ops.len() && ops[k] == (id, record);
        let i = crate::seqs::lemma_filter_map_source(all, g, k);
        assert(c.conversations[x].envelopes[i].id == id);
    }
    if exists|x: int, i: int|
        0 <= x < c.conversations.len() && 0 <= i < c.conversations[x].envelopes.len() && (
        #[trigger] c.conversations[x].envelopes[i]).id == id && match op_in(
            c.conversations[x].envelopes[i].body,
        ) {
            Some(OpView::OfferContact(carried, _)) => carried == record,
            _ => false,
        } {
        let (x, i) = choose|x: int, i: int|
            0 <= x < c.conversations.len() && 0 <= i < c.conversations[x].envelopes.len() && (
            #[trigger] c.conversations[x].envelopes[i]).id == id && match op_in(
                c.conversations[x].envelopes[i].body,
            ) {
                Some(OpView::OfferContact(carried, _)) => carried == record,
                _ => false,
            };
        let all = c.conversations[x].envelopes;
        crate::seqs::lemma_filter_map_has(all, g, i);
        assert(g(all[i]) == Some((id, record)));
        assert(f(c.conversations[x]).contains((id, record)));
    }
}

/// A channel this device opened is where it emits and one of its channels, its
/// hello is dealt with, and nothing else changes.
pub proof fn law_opened_channel(
    c: ClientView,
    conversation: MessageId,
    hello: MessageId,
    m: MessageId,
)
    ensures
        ({
            let d = channel_opened(c, conversation, hello);
            &&& d == (ClientView {
                lens_conversation: Some(conversation),
                lens_channels: d.lens_channels,
                lens_applied: d.lens_applied,
                ..c
            })
            &&& d.lens_channels.contains(m) <==> c.lens_channels.contains(m) || m == conversation
            &&& d.lens_applied.contains(m) <==> c.lens_applied.contains(m) || m == hello
        }),
{
    let set = c.lens_channels.to_set().insert(conversation);
    vstd::seq_lib::seq_to_set_is_finite(c.lens_channels);
    crate::order::lemma_list_exists::<MessageId>(set);
    assert(ascending_list::<MessageId>(set).to_set().contains(m) == set.contains(m));
    crate::order::lemma_push_contains(c.lens_applied, hello, m);
}

} // verus!
