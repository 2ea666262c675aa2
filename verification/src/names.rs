//! Names: what to call a key, over everything the client has learned, with
//! provenance. Belief is local; nothing here arbitrates or adopts.
use vstd::prelude::*;

use crate::client::{entry_with, find_listing, learned_about, Client, ClientView, LearnedRecord, LearnedView};
use crate::hex;
use crate::hex::hex_text;
use crate::ids::PublicKey;
use crate::order::{ascending, ascending_list, in_order, law_sorted_in_order, lemma_list_is, lists, set_insert, sort_stably, sorted, weak_order, Duplicate, Ranked};
use crate::record::{claimed_name, is_negative, Claim, ClaimView, ContactRecord, RecordView, SignedAttestation, SignedView};
use crate::seqs::{first, gathered, lemma_filter_map_step, lemma_gathered_step, lemma_map_step, lemma_take_all, lemma_take_step, some};
use crate::text::{comes_before, same_text, text_less};

verus! {

/// `resolve_name`'s verdict.
#[derive(Debug)]
pub enum ResolvedName {
    /// The key belongs to a contact: the manual label always wins.
    Petname(String),
    /// Not a contact; what the learned store supports, best first.
    Learned(Vec<LearnedName>),
    /// Nothing known: the edge renders the key itself.
    Unknown,
}

pub enum ResolvedView {
    Petname(Seq<char>),
    Learned(Seq<LearnedNameView>),
    Unknown,
}

impl DeepView for ResolvedName {
    type V = ResolvedView;

    open spec fn deep_view(&self) -> ResolvedView {
        match *self {
            ResolvedName::Petname(s) => ResolvedView::Petname(s@),
            ResolvedName::Learned(v) => ResolvedView::Learned(v.deep_view()),
            ResolvedName::Unknown => ResolvedView::Unknown,
        }
    }
}

/// One name the learned store supports, with its provenance.
#[derive(Debug)]
pub struct LearnedName {
    pub name: String,
    /// The self-claim's supersession counter; 0 for endorsed-only names.
    pub revision: u64,
    /// Petnames of the contacts serving a record with this claim.
    pub held_by: Vec<String>,
    /// The subject itself served a record claiming this name.
    pub confirmed_by_subject: bool,
    /// Petnames of the contacts who vouch this name themselves.
    pub endorsed_by: Vec<String>,
}

pub struct LearnedNameView {
    pub name: Seq<char>,
    pub revision: u64,
    pub held_by: Seq<Seq<char>>,
    pub confirmed_by_subject: bool,
    pub endorsed_by: Seq<Seq<char>>,
}

impl DeepView for LearnedName {
    type V = LearnedNameView;

    open spec fn deep_view(&self) -> LearnedNameView {
        LearnedNameView {
            name: self.name@,
            revision: self.revision,
            held_by: self.held_by.deep_view(),
            confirmed_by_subject: self.confirmed_by_subject,
            endorsed_by: self.endorsed_by.deep_view(),
        }
    }
}

// ---- what to call a responder ----

/// The first four bytes of a key, in hex.
pub open spec fn short_hex(key: PublicKey) -> Seq<char> {
    hex_text(key.0@.take(4))
}

/// A key's petname, or its short hex where it is no contact's.
pub open spec fn petname(c: ClientView, key: PublicKey) -> Seq<char> {
    match entry_with(c, key) {
        Some(e) => e.0,
        None => short_hex(key),
    }
}

/// The first four bytes of a key, in hex.
pub fn short_form(key: &PublicKey) -> (r: String)
    ensures
        r@ == short_hex(*key),
{
    let mut bytes: Vec<u8> = Vec::new();
    bytes.push(key.0[0]);
    bytes.push(key.0[1]);
    bytes.push(key.0[2]);
    bytes.push(key.0[3]);
    assert(bytes@ =~= key.0@.take(4));
    hex::encode(bytes.as_slice())
}

impl Client {
    pub fn petname_of(&self, key: &PublicKey) -> (r: String)
        ensures
            r@ == petname(self.deep_view(), *key),
    {
        match find_listing(&self.contacts, key) {
            Some(i) => self.contacts[i].0.clone(),
            None => short_form(key),
        }
    }
}

// ---- the learned names of a subject ----

pub open spec fn endorsements_of() -> spec_fn(LearnedView) -> Seq<SignedView> {
    |e: LearnedView| e.endorsements
}

/// A disavowal of `subject` by `attester` above `revision`.
pub open spec fn voiding(
    attester: PublicKey,
    subject: PublicKey,
    revision: u64,
) -> spec_fn(SignedView) -> bool {
    |s: SignedView|
        is_negative(s) && s.attestation.attester == attester && s.attestation.subject == subject
            && s.attestation.revision > revision
}

/// A name vouch is voided by the same attester's later disavowal of the
/// subject, wherever it was learned.
pub open spec fn voided(entries: Seq<LearnedView>, subject: PublicKey, s: SignedView) -> bool {
    some(
        gathered(entries, endorsements_of()),
        voiding(s.attestation.attester, subject, s.attestation.revision),
    )
}

/// The name a signed claim vouches and that still stands.
pub open spec fn vouched(entries: Seq<LearnedView>, subject: PublicKey, s: SignedView) -> Option<
    Seq<char>,
> {
    match s.attestation.claim {
        ClaimView::Name(n) => if s.verified && !voided(entries, subject, s) {
            Some(n)
        } else {
            None
        },
        _ => None,
    }
}

/// The entry's record claims the name.
pub open spec fn claims(e: LearnedView, name: Seq<char>) -> bool {
    claimed_name(e.record) == Some(name)
}

/// Each time an entry's endorsements vouch the name, its responder's petname.
pub open spec fn voucher_names(
    c: ClientView,
    entries: Seq<LearnedView>,
    subject: PublicKey,
    name: Seq<char>,
) -> spec_fn(LearnedView) -> Seq<Seq<char>> {
    |e: LearnedView|
        e.endorsements.filter_map(
            |s: SignedView|
                if vouched(entries, subject, s) == Some(name) {
                    Some(petname(c, e.responder))
                } else {
                    None
                },
        )
}

/// The petname of a responder, other than the subject, holding a record that
/// claims the name.
pub open spec fn holder_name(c: ClientView, subject: PublicKey, name: Seq<char>) -> spec_fn(
    LearnedView,
) -> Option<Seq<char>> {
    |e: LearnedView|
        if claims(e, name) && e.responder != subject {
            Some(petname(c, e.responder))
        } else {
            None
        }
}

pub open spec fn served_by_subject(subject: PublicKey, name: Seq<char>) -> spec_fn(
    LearnedView,
) -> bool {
    |e: LearnedView| claims(e, name) && e.responder == subject
}

/// The revision of an entry's name claim.
pub open spec fn claim_revision(e: LearnedView) -> u64 {
    match e.record.name_claim {
        Some((_, revision)) => revision,
        None => 0,
    }
}

/// The highest revision at which an entry claims the name, or 0.
pub open spec fn top_revision(entries: Seq<LearnedView>, name: Seq<char>) -> u64
    decreases entries.len(),
{
    if entries.len() == 0 {
        0
    } else {
        let rest = top_revision(entries.drop_last(), name);
        let e = entries.last();
        if claims(e, name) && claim_revision(e) > rest {
            claim_revision(e)
        } else {
            rest
        }
    }
}

/// `a` is the fresher claim: higher revision, then later receipt.
pub open spec fn fresher(a: LearnedView, b: LearnedView) -> bool {
    ||| claim_revision(a) > claim_revision(b)
    ||| claim_revision(a) == claim_revision(b) && a.received_ms > b.received_ms
}

/// The freshest entry claiming the name; of equally fresh ones, the first.
pub open spec fn freshest(entries: Seq<LearnedView>, name: Seq<char>) -> Option<LearnedView>
    decreases entries.len(),
{
    if entries.len() == 0 {
        None
    } else {
        let e = entries.last();
        match freshest(entries.drop_last(), name) {
            Some(f) => if claims(e, name) && fresher(e, f) {
                Some(e)
            } else {
                Some(f)
            },
            None => if claims(e, name) {
                Some(e)
            } else {
                None
            },
        }
    }
}

/// The entry has an endorsement that vouches the name.
pub open spec fn vouches_name(
    entries: Seq<LearnedView>,
    subject: PublicKey,
    name: Seq<char>,
) -> spec_fn(LearnedView) -> bool {
    |e: LearnedView|
        exists|i: int|
            0 <= i < e.endorsements.len() && vouched(entries, subject, #[trigger] e.endorsements[i])
                == Some(name)
}

/// The promotable record behind a name: the freshest one claiming it, or,
/// where none does, the one its first voucher served.
pub open spec fn behind_name(
    entries: Seq<LearnedView>,
    subject: PublicKey,
    name: Seq<char>,
) -> Option<RecordView> {
    match freshest(entries, name) {
        Some(e) => Some(e.record),
        None => match first(entries, vouches_name(entries, subject, name)) {
            Some(e) => Some(e.record),
            None => None,
        },
    }
}

/// Everything learned in support of one name of a subject.
pub open spec fn support(
    c: ClientView,
    subject: PublicKey,
    name: Seq<char>,
) -> LearnedNameView {
    let entries = learned_about(c, subject);
    LearnedNameView {
        name,
        revision: top_revision(entries, name),
        held_by: entries.filter_map(holder_name(c, subject, name)),
        confirmed_by_subject: some(entries, served_by_subject(subject, name)),
        endorsed_by: gathered(entries, voucher_names(c, entries, subject, name)),
    }
}

/// A name some entry claims or some endorsement vouches.
pub open spec fn supported(entries: Seq<LearnedView>, subject: PublicKey, name: Seq<char>) -> bool {
    ||| exists|i: int| 0 <= i < entries.len() && claims(#[trigger] entries[i], name)
    ||| some(entries, vouches_name(entries, subject, name))
}

/// The names learned about a subject.
pub open spec fn names_of(entries: Seq<LearnedView>, subject: PublicKey) -> Set<Seq<char>> {
    Set::new(|n: Seq<char>| supported(entries, subject, n))
}

/// A verified self-claim stands behind the name.
pub open spec fn self_claimed(n: LearnedNameView) -> bool {
    n.confirmed_by_subject || n.held_by.len() > 0
}

pub open spec fn agreement(n: LearnedNameView) -> nat {
    n.held_by.len() + n.endorsed_by.len()
}

/// The ranking: self-claimed names outrank endorsed-only ones; then the
/// higher revision, then the wider agreement, then the alphabet.
pub open spec fn outranks(a: LearnedNameView, b: LearnedNameView) -> bool {
    if self_claimed(a) != self_claimed(b) {
        self_claimed(a)
    } else if a.revision != b.revision {
        a.revision > b.revision
    } else if agreement(a) != agreement(b) {
        agreement(a) > agreement(b)
    } else {
        text_less(a.name, b.name)
    }
}

pub open spec fn by_rank() -> spec_fn((LearnedNameView, RecordView), (LearnedNameView, RecordView)) -> bool {
    |a: (LearnedNameView, RecordView), b: (LearnedNameView, RecordView)| outranks(a.0, b.0)
}

/// The candidate for one name.
pub open spec fn candidate(c: ClientView, subject: PublicKey) -> spec_fn(Seq<char>) -> (
    LearnedNameView,
    RecordView,
) {
    |n: Seq<char>|
        (support(c, subject, n), behind_name(learned_about(c, subject), subject, n)->0)
}

/// The names of a subject in alphabetical order.
pub open spec fn name_list(c: ClientView, subject: PublicKey) -> Seq<Seq<char>> {
    ascending_list::<String>(names_of(learned_about(c, subject), subject))
}

/// One candidate per name, best first.
pub open spec fn candidates(c: ClientView, subject: PublicKey) -> Seq<(LearnedNameView, RecordView)> {
    sorted(name_list(c, subject).map_values(candidate(c, subject)), by_rank())
}

fn is_voided(entries: &Vec<LearnedRecord>, subject: &PublicKey, signed: &SignedAttestation) -> (r: bool)
    ensures
        r == voided(entries.deep_view(), *subject, signed.deep_view()),
{
    let ghost s = entries.deep_view();
    let ghost f = endorsements_of();
    let ghost p = voiding(
        signed.attestation.attester,
        *subject,
        signed.attestation.revision,
    );
    let ghost mut seen: Seq<SignedView> = Seq::empty();
    let mut i: usize = 0;
    while i < entries.len()
        invariant
            i <= entries.len(),
            s == entries.deep_view(),
            f == endorsements_of(),
            p == voiding(signed.attestation.attester, *subject, signed.attestation.revision),
            !some(gathered(s.take(i as int), f), p),
        decreases entries.len() - i,
    {
        let ghost g = gathered(s.take(i as int), f);
        let ghost t = s[i as int].endorsements;
        proof {
            lemma_gathered_step(s, f, i as int);
        }
        let mut j: usize = 0;
        while j < entries[i].endorsements.len()
            invariant
                i < entries.len(),
                j <= entries[i as int].endorsements.len(),
                s == entries.deep_view(),
                f == endorsements_of(),
                g == gathered(s.take(i as int), f),
                t == s[i as int].endorsements,
                gathered(s.take(i + 1), f) == g + t,
                p == voiding(signed.attestation.attester, *subject, signed.attestation.revision),
                !some(g, p),
                forall|k: int| 0 <= k < j ==> !p(#[trigger] t[k]),
            decreases entries[i as int].endorsements.len() - j,
        {
            let hit: bool = match entries[i].endorsements[j].verified_negative() {
                Some((attester, disavowed, revision)) => attester == signed.attestation.attester
                    && disavowed == *subject && revision > signed.attestation.revision,
                None => false,
            };
            assert(hit == p(t[j as int]));
            if hit {
                proof {
                    lemma_prefix_gathered(s, f, i + 1);
                    let all = gathered(s, f);
                    let at = g.len() + j;
                    assert((g + t)[at] == t[j as int]);
                    assert(all[at] == t[j as int]);
                }
                return true;
            }
            j += 1;
        }
        proof {
            assert forall|k: int| 0 <= k < (g + t).len() implies !p(#[trigger] (g + t)[k]) by {
                if k < g.len() {
                    assert(!p(g[k]));
                } else {
                    assert(!p(t[k - g.len()]));
                }
            }
        }
        i += 1;
    }
    proof {
        lemma_take_all(s);
    }
    false
}

/// What a prefix gathers is a prefix of what the whole gathers.
pub proof fn lemma_prefix_gathered<A, B>(s: Seq<A>, f: spec_fn(A) -> Seq<B>, i: int)
    requires
        0 <= i <= s.len(),
    ensures
        gathered(s.take(i), f).len() <= gathered(s, f).len(),
        forall|k: int|
            0 <= k < gathered(s.take(i), f).len() ==> #[trigger] gathered(s, f)[k] == gathered(
                s.take(i),
                f,
            )[k],
    decreases s.len() - i,
{
    if i < s.len() {
        lemma_gathered_step(s, f, i);
        lemma_prefix_gathered(s, f, i + 1);
        assert forall|k: int| 0 <= k < gathered(s.take(i), f).len() implies #[trigger] gathered(s, f)[k]
            == gathered(s.take(i), f)[k] by {
            assert(gathered(s, f)[k] == gathered(s.take(i + 1), f)[k]);
        }
    } else {
        lemma_take_all(s);
    }
}

/// The name a signed claim vouches and that still stands.
fn vouched_name_of(
    entries: &Vec<LearnedRecord>,
    subject: &PublicKey,
    signed: &SignedAttestation,
) -> (r: Option<String>)
    ensures
        r.deep_view() == vouched(entries.deep_view(), *subject, signed.deep_view()),
{
    match &signed.attestation.claim {
        Claim::Name(name) => if signed.verified && !is_voided(entries, subject, signed) {
            Some(name.clone())
        } else {
            None
        },
        _ => None,
    }
}

fn claims_name(entry: &LearnedRecord, name: &String) -> (r: bool)
    ensures
        r == claims(entry.deep_view(), name@),
{
    match &entry.record.name_claim {
        Some((n, _)) => same_text(n, name.as_str()),
        None => false,
    }
}

impl Client {
    fn support_for(&self, entries: &Vec<LearnedRecord>, subject: &PublicKey, name: &String) -> (r:
        LearnedName)
        requires
            entries.deep_view() == learned_about(self.deep_view(), *subject),
        ensures
            r.deep_view() == support(self.deep_view(), *subject, name@),
    {
        let ghost c = self.deep_view();
        let ghost s = entries.deep_view();
        let ghost n = name@;
        let ghost hold = holder_name(c, *subject, n);
        let ghost vouch = voucher_names(c, s, *subject, n);
        let ghost own = served_by_subject(*subject, n);
        let mut revision: u64 = 0;
        let mut held_by: Vec<String> = Vec::new();
        let mut confirmed: bool = false;
        let mut endorsed_by: Vec<String> = Vec::new();
        let mut i: usize = 0;
        proof {
            assert(s.take(0) =~= Seq::<LearnedView>::empty());
            assert(held_by.deep_view() =~= Seq::<Seq<char>>::empty());
            assert(endorsed_by.deep_view() =~= Seq::<Seq<char>>::empty());
            reveal_with_fuel(Seq::filter_map, 1);
            assert(s.take(0).filter_map(hold) =~= Seq::<Seq<char>>::empty());
        }
        while i < entries.len()
            invariant
                i <= entries.len(),
                c == self.deep_view(),
                s == entries.deep_view(),
                n == name@,
                hold == holder_name(c, *subject, n),
                vouch == voucher_names(c, s, *subject, n),
                own == served_by_subject(*subject, n),
                revision == top_revision(s.take(i as int), n),
                held_by.deep_view() == s.take(i as int).filter_map(hold),
                confirmed == some(s.take(i as int), own),
                endorsed_by.deep_view() == gathered(s.take(i as int), vouch),
            decreases entries.len() - i,
        {
            let ghost e = s[i as int];
            proof {
                lemma_take_step(s, i as int);
                lemma_filter_map_step(s, hold, i as int);
                lemma_gathered_step(s, vouch, i as int);
                if confirmed {
                    let k = choose|k: int| 0 <= k < i && own(#[trigger] s.take(i as int)[k]);
                    assert(own(s.take(i + 1)[k]));
                }
                if own(e) {
                    assert(own(s.take(i + 1)[i as int]));
                }
                assert forall|k: int| 0 <= k < i + 1 && own(#[trigger] s.take(i + 1)[k]) implies own(e) || confirmed by {
                    if k < i {
                        assert(own(s.take(i as int)[k]));
                    }
                }
            }
            if claims_name(&entries[i], name) {
                match &entries[i].record.name_claim {
                    Some((_, at)) => {
                        if *at > revision {
                            revision = *at;
                        }
                    },
                    None => {},
                }
                if entries[i].responder == *subject {
                    confirmed = true;
                } else {
                    let ghost before = held_by.deep_view();
                    held_by.push(self.petname_of(&entries[i].responder));
                    assert(held_by.deep_view() =~= before.push(petname(c, e.responder)));
                }
            }
            let ghost base = endorsed_by.deep_view();
            let ghost t = e.endorsements;
            let ghost g = |x: SignedView|
                if vouched(s, *subject, x) == Some(n) {
                    Some(petname(c, e.responder))
                } else {
                    None
                };
            assert(vouch(e) == t.filter_map(g));
            let mut j: usize = 0;
            proof {
                assert(t.take(0).filter_map(g) =~= Seq::<Seq<char>>::empty());
                assert(base + t.take(0).filter_map(g) =~= base);
            }
            while j < entries[i].endorsements.len()
                invariant
                    i < entries.len(),
                    j <= entries[i as int].endorsements.len(),
                    c == self.deep_view(),
                    s == entries.deep_view(),
                    n == name@,
                    e == s[i as int],
                    t == e.endorsements,
                    g == (|x: SignedView|
                        if vouched(s, *subject, x) == Some(n) {
                            Some(petname(c, e.responder))
                        } else {
                            None
                        }),
                    endorsed_by.deep_view() == base + t.take(j as int).filter_map(g),
                decreases entries[i as int].endorsements.len() - j,
            {
                proof {
                    lemma_filter_map_step(t, g, j as int);
                }
                let hit: bool = match vouched_name_of(entries, subject, &entries[i].endorsements[j]) {
                    Some(v) => same_text(&v, name.as_str()),
                    None => false,
                };
                if hit {
                    let ghost before = endorsed_by.deep_view();
                    endorsed_by.push(self.petname_of(&entries[i].responder));
                    assert(endorsed_by.deep_view() =~= before.push(petname(c, e.responder)));
                    assert(endorsed_by.deep_view() =~= base + t.take(j + 1).filter_map(g));
                }
                j += 1;
            }
            proof {
                lemma_take_all(t);
            }
            i += 1;
        }
        proof {
            lemma_take_all(s);
        }
        LearnedName {
            name: name.clone(),
            revision,
            held_by,
            confirmed_by_subject: confirmed,
            endorsed_by,
        }
    }
}

/// The names of a prefix of the entries: claims and standing vouches.
spec fn names_so_far(
    entries: Seq<LearnedView>,
    subject: PublicKey,
    upto: int,
) -> Set<Seq<char>> {
    Set::new(
        |n: Seq<char>|
            exists|i: int|
                0 <= i < upto && i < entries.len() && (claims(#[trigger] entries[i], n) || vouches_name(
                    entries,
                    subject,
                    n,
                )(entries[i])),
    )
}

/// The names of the first `upto` endorsements of an entry.
spec fn vouched_so_far(
    entries: Seq<LearnedView>,
    subject: PublicKey,
    t: Seq<SignedView>,
    upto: int,
) -> Set<Seq<char>> {
    Set::new(
        |n: Seq<char>|
            exists|j: int|
                0 <= j < upto && j < t.len() && vouched(entries, subject, #[trigger] t[j]) == Some(n),
    )
}

fn collect_names(entries: &Vec<LearnedRecord>, subject: &PublicKey) -> (r: Vec<String>)
    ensures
        lists::<String>(r.deep_view(), names_of(entries.deep_view(), *subject)),
{
    let ghost s = entries.deep_view();
    let mut names: Vec<String> = Vec::new();
    let mut i: usize = 0;
    proof {
        assert(names.deep_view() =~= Seq::<Seq<char>>::empty());
        assert(names.deep_view().to_set() =~= names_so_far(s, *subject, 0));
    }
    while i < entries.len()
        invariant
            i <= entries.len(),
            s == entries.deep_view(),
            ascending::<String>(names.deep_view()),
            names.deep_view().to_set() == names_so_far(s, *subject, i as int),
        decreases entries.len() - i,
    {
        let ghost e = s[i as int];
        let ghost t = e.endorsements;
        let ghost base = names_so_far(s, *subject, i as int);
        match &entries[i].record.name_claim {
            Some((n, _)) => {
                set_insert(&mut names, n.clone());
            },
            None => {},
        }
        let ghost with_claim = names.deep_view().to_set();
        let mut j: usize = 0;
        proof {
            assert(with_claim =~= base + Set::new(|n: Seq<char>| claims(e, n)));
            assert(names.deep_view().to_set() =~= with_claim + vouched_so_far(s, *subject, t, 0));
        }
        while j < entries[i].endorsements.len()
            invariant
                i < entries.len(),
                j <= entries[i as int].endorsements.len(),
                s == entries.deep_view(),
                e == s[i as int],
                t == e.endorsements,
                ascending::<String>(names.deep_view()),
                names.deep_view().to_set() == with_claim + vouched_so_far(
                    s,
                    *subject,
                    t,
                    j as int,
                ),
            decreases entries[i as int].endorsements.len() - j,
        {
            match vouched_name_of(entries, subject, &entries[i].endorsements[j]) {
                Some(n) => {
                    set_insert(&mut names, n);
                },
                None => {},
            }
            proof {
                let more = vouched_so_far(s, *subject, t, j + 1);
                let less = vouched_so_far(s, *subject, t, j as int);
                let v = vouched(s, *subject, t[j as int]);
                assert forall|n: Seq<char>| #[trigger] more.contains(n) <==> less.contains(n) || v == Some(n) by {
                    if v == Some(n) {
                        assert(vouched(s, *subject, t[j as int]) == Some(n));
                    }
                    if less.contains(n) {
                        let k = choose|k: int|
                            0 <= k < j && k < t.len() && vouched(s, *subject, #[trigger] t[k]) == Some(n);
                        assert(vouched(s, *subject, t[k]) == Some(n));
                    }
                }
                assert(names.deep_view().to_set() =~= with_claim + more);
            }
            j += 1;
        }
        proof {
            let now = names_so_far(s, *subject, i + 1);
            let vouched_here = vouched_so_far(s, *subject, t, t.len() as int);
            assert forall|n: Seq<char>| #[trigger] now.contains(n) <==> with_claim.contains(n) || vouched_here.contains(n) by {
                if vouched_here.contains(n) {
                    assert(vouches_name(s, *subject, n)(s[i as int]));
                }
                if claims(e, n) {
                    assert(claims(s[i as int], n));
                }
                if base.contains(n) {
                    let k = choose|k: int|
                        0 <= k < i && k < s.len() && (claims(#[trigger] s[k], n) || vouches_name(
                            s,
                            *subject,
                            n,
                        )(s[k]));
                    assert(claims(s[k], n) || vouches_name(s, *subject, n)(s[k]));
                }
                if now.contains(n) {
                    let k = choose|k: int|
                        0 <= k < i + 1 && k < s.len() && (claims(#[trigger] s[k], n)
                            || vouches_name(s, *subject, n)(s[k]));
                    if k < i {
                        assert(base.contains(n));
                    }
                }
            }
            assert(names.deep_view().to_set() =~= now);
        }
        i += 1;
    }
    proof {
        let all = names_so_far(s, *subject, s.len() as int);
        assert forall|n: Seq<char>| #[trigger] all.contains(n) <==> supported(s, *subject, n) by {
            if all.contains(n) {
                let k = choose|k: int|
                    0 <= k < s.len() && (claims(#[trigger] s[k], n) || vouches_name(
                        s,
                        *subject,
                        n,
                    )(s[k]));
                assert(claims(s[k], n) || vouches_name(s, *subject, n)(s[k]));
            }
            if supported(s, *subject, n) {
                if exists|k: int| 0 <= k < s.len() && claims(#[trigger] s[k], n) {
                } else {
                    let k = choose|k: int|
                        0 <= k < s.len() && vouches_name(s, *subject, n)(#[trigger] s[k]);
                    assert(vouches_name(s, *subject, n)(s[k]));
                }
            }
        }
        assert(all =~= names_of(s, *subject));
    }
    names
}

/// Whether an entry's endorsements vouch the name.
fn entry_vouches(
    entries: &Vec<LearnedRecord>,
    subject: &PublicKey,
    entry: &LearnedRecord,
    name: &String,
) -> (r: bool)
    ensures
        r == vouches_name(entries.deep_view(), *subject, name@)(entry.deep_view()),
{
    let ghost s = entries.deep_view();
    let ghost t = entry.deep_view().endorsements;
    let mut j: usize = 0;
    while j < entry.endorsements.len()
        invariant
            j <= entry.endorsements.len(),
            s == entries.deep_view(),
            t == entry.deep_view().endorsements,
            forall|k: int| 0 <= k < j ==> vouched(s, *subject, #[trigger] t[k]) != Some(name@),
        decreases entry.endorsements.len() - j,
    {
        match vouched_name_of(entries, subject, &entry.endorsements[j]) {
            Some(v) => {
                if same_text(&v, name.as_str()) {
                    assert(vouched(s, *subject, t[j as int]) == Some(name@));
                    return true;
                }
            },
            None => {},
        }
        j += 1;
    }
    false
}

proof fn lemma_supported_behind(entries: Seq<LearnedView>, subject: PublicKey, name: Seq<char>)
    requires
        supported(entries, subject, name),
    ensures
        behind_name(entries, subject, name) is Some,
{
    lemma_freshest(entries, name);
    crate::seqs::lemma_first(entries, vouches_name(entries, subject, name));
    if freshest(entries, name) is None {
        let k = choose|k: int|
            0 <= k < entries.len() && vouches_name(entries, subject, name)(#[trigger] entries[k]);
        assert(vouches_name(entries, subject, name)(entries[k]));
    }
}

/// The freshest claimant claims the name, and none is fresher.
pub proof fn lemma_freshest(entries: Seq<LearnedView>, name: Seq<char>)
    ensures
        match freshest(entries, name) {
            Some(f) => {
                &&& entries.contains(f)
                &&& claims(f, name)
                &&& forall|i: int|
                    0 <= i < entries.len() && claims(#[trigger] entries[i], name) ==> !fresher(
                        entries[i],
                        f,
                    )
            },
            None => forall|i: int| 0 <= i < entries.len() ==> !claims(#[trigger] entries[i], name),
        },
    decreases entries.len(),
{
    if entries.len() > 0 {
        let d = entries.drop_last();
        lemma_freshest(d, name);
        assert(entries[entries.len() - 1] == entries.last());
        assert forall|i: int| 0 <= i < d.len() implies d[i] == #[trigger] entries[i] by {}
        match freshest(d, name) {
            Some(f) => {
                let k = choose|k: int| 0 <= k < d.len() && d[k] == f;
                assert(entries[k] == f);
            },
            None => {},
        }
    }
}

fn record_behind(entries: &Vec<LearnedRecord>, subject: &PublicKey, name: &String) -> (r: ContactRecord)
    requires
        supported(entries.deep_view(), *subject, name@),
    ensures
        Some(r.deep_view()) == behind_name(entries.deep_view(), *subject, name@),
{
    let ghost s = entries.deep_view();
    let ghost p = vouches_name(s, *subject, name@);
    proof {
        lemma_supported_behind(s, *subject, name@);
        assert(s.take(0) =~= Seq::<LearnedView>::empty());
    }
    let mut best: Option<usize> = None;
    let mut voucher: Option<usize> = None;
    let mut i: usize = 0;
    while i < entries.len()
        invariant
            i <= entries.len(),
            s == entries.deep_view(),
            p == vouches_name(s, *subject, name@),
            match best {
                Some(b) => b < i && freshest(s.take(i as int), name@) == Some(s[b as int]),
                None => freshest(s.take(i as int), name@) is None,
            },
            match voucher {
                Some(v) => v < i && first(s.take(i as int), p) == Some(s[v as int]),
                None => first(s.take(i as int), p) is None,
            },
        decreases entries.len() - i,
    {
        proof {
            lemma_take_step(s, i as int);
        }
        if claims_name(&entries[i], name) {
            match best {
                Some(b) => {
                    let (ra, rb): (u64, u64) = match (
                        &entries[i].record.name_claim,
                        &entries[b].record.name_claim,
                    ) {
                        (Some((_, x)), Some((_, y))) => (*x, *y),
                        _ => (0, 0),
                    };
                    proof {
                        lemma_freshest(s.take(i as int), name@);
                    }
                    if ra > rb || (ra == rb && entries[i].received_ms > entries[b].received_ms) {
                        best = Some(i);
                    }
                },
                None => {
                    best = Some(i);
                },
            }
        }
        if voucher.is_none() && entry_vouches(entries, subject, &entries[i], name) {
            voucher = Some(i);
        }
        i += 1;
    }
    proof {
        lemma_take_all(s);
    }
    match best {
        Some(b) => entries[b].record.duplicate(),
        None => match voucher {
            Some(v) => entries[v].record.duplicate(),
            None => entries[0].record.duplicate(),
        },
    }
}

impl LearnedName {
    fn ranks_above(&self, other: &LearnedName) -> (r: bool)
        ensures
            r == outranks(self.deep_view(), other.deep_view()),
    {
        let mine: bool = self.confirmed_by_subject || self.held_by.len() > 0;
        let theirs: bool = other.confirmed_by_subject || other.held_by.len() > 0;
        if mine != theirs {
            return mine;
        }
        if self.revision != other.revision {
            return self.revision > other.revision;
        }
        let a: u128 = self.held_by.len() as u128 + self.endorsed_by.len() as u128;
        let b: u128 = other.held_by.len() as u128 + other.endorsed_by.len() as u128;
        if a != b {
            return a > b;
        }
        comes_before(self.name.as_str(), other.name.as_str())
    }
}

fn candidate_before(a: &(LearnedName, ContactRecord), b: &(LearnedName, ContactRecord)) -> (r: bool)
    ensures
        r == outranks(a.deep_view().0, b.deep_view().0),
{
    a.0.ranks_above(&b.0)
}

impl Client {
    /// Render-ready candidates for a key from everything learned so far: one
    /// per name, each with the record to promote. Best first.
    pub fn learned_candidates(&self, subject: PublicKey) -> (r: Vec<(LearnedName, ContactRecord)>)
        ensures
            r.deep_view() == candidates(self.deep_view(), subject),
    {
        let ghost c = self.deep_view();
        let entries: Vec<LearnedRecord> = self.learned(&subject);
        let names: Vec<String> = collect_names(&entries, &subject);
        let ghost s = entries.deep_view();
        let ghost l = names.deep_view();
        let ghost f = candidate(c, subject);
        proof {
            lemma_list_is::<String>(l, names_of(s, subject));
        }
        let mut out: Vec<(LearnedName, ContactRecord)> = Vec::new();
        proof {
            assert(out.deep_view() =~= l.take(0).map_values(f));
        }
        for i in 0..names.len()
            invariant
                c == self.deep_view(),
                s == entries.deep_view(),
                s == learned_about(c, subject),
                l == names.deep_view(),
                f == candidate(c, subject),
                lists::<String>(l, names_of(s, subject)),
                out.deep_view() == l.take(i as int).map_values(f),
        {
            proof {
                lemma_map_step(l, f, i as int);
                assert(l.to_set().contains(l[i as int]));
                assert(names_of(s, subject).contains(l[i as int]));
            }
            let name: LearnedName = self.support_for(&entries, &subject, &names[i]);
            let record: ContactRecord = record_behind(&entries, &subject, &names[i]);
            let ghost before = out.deep_view();
            out.push((name, record));
            assert(out.deep_view() =~= before.push(f(l[i as int])));
        }
        proof {
            lemma_take_all(l);
        }
        sort_stably(&mut out, candidate_before, Ghost(by_rank()));
        out
    }

    /// The best-believed name of a key: the petname, else what was learned,
    /// best first, else nothing.
    pub fn resolve_name(&self, key: PublicKey) -> (r: ResolvedName)
        ensures
            r.deep_view() == resolved(self.deep_view(), key),
    {
        match find_listing(&self.contacts, &key) {
            Some(i) => {
                return ResolvedName::Petname(self.contacts[i].0.clone());
            },
            None => {},
        }
        let found: Vec<(LearnedName, ContactRecord)> = self.learned_candidates(key);
        let ghost s = found.deep_view();
        let ghost f = |e: (LearnedNameView, RecordView)| e.0;
        let mut names: Vec<LearnedName> = Vec::new();
        let mut rest: Vec<(LearnedName, ContactRecord)> = found;
        assert(names.deep_view() =~= s.take(0).map_values(f));
        assert(rest.deep_view() =~= s.skip(0));
        let n: usize = rest.len();
        for i in 0..n
            invariant
                f == (|e: (LearnedNameView, RecordView)| e.0),
                n == s.len(),
                rest.deep_view() == s.skip(i as int),
                names.deep_view() == s.take(i as int).map_values(f),
        {
            proof {
                lemma_map_step(s, f, i as int);
                assert(rest.deep_view().len() == n - i);
                assert(rest.deep_view()[0] == s[i as int]);
            }
            let ghost held = rest@;
            let ghost whole = rest.deep_view();
            let (name, _record): (LearnedName, ContactRecord) = rest.remove(0);
            proof {
                assert(rest@ == held.remove(0));
                assert(rest.deep_view() =~= whole.remove(0));
                assert(rest.deep_view() =~= s.skip(i + 1));
            }
            let ghost before = names.deep_view();
            names.push(name);
            assert(names.deep_view() =~= before.push(f(s[i as int])));
        }
        proof {
            lemma_take_all(s);
        }
        if names.len() == 0 {
            ResolvedName::Unknown
        } else {
            ResolvedName::Learned(names)
        }
    }
}

/// What a key resolves to: a contact's petname, else the learned names.
pub open spec fn resolved(c: ClientView, key: PublicKey) -> ResolvedView {
    match entry_with(c, key) {
        Some(e) => ResolvedView::Petname(e.0),
        None => {
            let names = candidates(c, key).map_values(|e: (LearnedNameView, RecordView)| e.0);
            if names.len() == 0 {
                ResolvedView::Unknown
            } else {
                ResolvedView::Learned(names)
            }
        },
    }
}

// ---- laws ----

proof fn lemma_outranks_weak()
    ensures
        weak_order(by_rank()),
{
    let before = by_rank();
    assert forall|a: (LearnedNameView, RecordView), b: (LearnedNameView, RecordView)| #[trigger] before(a, b) implies !before(b, a) by {
        String::order_laws(a.0.name, b.0.name, a.0.name);
    }
    assert forall|
        a: (LearnedNameView, RecordView),
        b: (LearnedNameView, RecordView),
        c: (LearnedNameView, RecordView),
    | !(#[trigger] before(a, b)) && !(#[trigger] before(b, c)) implies !before(a, c) by {
        String::order_laws(a.0.name, b.0.name, c.0.name);
        String::order_laws(c.0.name, b.0.name, a.0.name);
        String::order_laws(b.0.name, c.0.name, a.0.name);
        String::order_laws(a.0.name, c.0.name, b.0.name);
        String::order_laws(c.0.name, a.0.name, b.0.name);
    }
}

/// Candidates come best first: no later one outranks an earlier one.
pub proof fn law_candidates_best_first(c: ClientView, subject: PublicKey)
    ensures
        in_order(candidates(c, subject), by_rank()),
{
    lemma_outranks_weak();
    law_sorted_in_order(name_list(c, subject).map_values(candidate(c, subject)), by_rank());
}

/// A petname always wins: what was learned about a contact's key never
/// changes what it is called.
pub proof fn law_petname_wins(c: ClientView, key: PublicKey)
    requires
        entry_with(c, key) is Some,
    ensures
        resolved(c, key) == ResolvedView::Petname(petname(c, key)),
{
}

/// Candidates are ranked by what is known of them: a name the subject's own
/// record claims before one that is only vouched for, then the higher
/// revision, then the more people behind it.
pub proof fn law_candidates_ranked(c: ClientView, subject: PublicKey, i: int, j: int)
    requires
        0 <= i < j < candidates(c, subject).len(),
    ensures
        ({
            let a = candidates(c, subject)[i].0;
            let b = candidates(c, subject)[j].0;
            let own_a = a.confirmed_by_subject || a.held_by.len() > 0;
            let own_b = b.confirmed_by_subject || b.held_by.len() > 0;
            &&& own_b ==> own_a
            &&& own_a == own_b ==> a.revision >= b.revision
            &&& own_a == own_b && a.revision == b.revision ==> a.held_by.len() + a.endorsed_by.len()
                >= b.held_by.len() + b.endorsed_by.len()
        }),
{
    law_candidates_best_first(c, subject);
    let s = candidates(c, subject);
    assert(!by_rank()(s[j], s[i]));
}

/// The names learned about a subject, each once: those a learned record
/// claims, and those vouched for and not disavowed since.
pub proof fn law_candidate_names(c: ClientView, subject: PublicKey, name: Seq<char>)
    ensures
        (exists|k: int|
            0 <= k < candidates(c, subject).len() && (#[trigger] candidates(c, subject)[k]).0.name
                == name) <==> {
            ||| exists|e: LearnedView| #[trigger]
                c.learned.contains((subject, e)) && e.record.name_claim is Some
                    && (e.record.name_claim->0).0 == name
            ||| exists|e: LearnedView, s: SignedView|
                #![trigger c.learned.contains((subject, e)), e.endorsements.contains(s)]
                c.learned.contains((subject, e)) && e.endorsements.contains(s) && vouched(
                    learned_about(c, subject),
                    subject,
                    s,
                ) == Some(name)
        },
{
    let entries = learned_about(c, subject);
    let set = names_of(entries, subject);
    let list = name_list(c, subject);
    let f = candidate(c, subject);
    let all = list.map_values(f);
    let out = candidates(c, subject);
    lemma_names_finite(entries, subject);
    crate::order::lemma_list_exists::<String>(set);
    assert(list.to_set().contains(name) == set.contains(name));
    if exists|k: int| 0 <= k < out.len() && (#[trigger] out[k]).0.name == name {
        let k = choose|k: int| 0 <= k < out.len() && (#[trigger] out[k]).0.name == name;
        assert(out.contains(out[k]));
        crate::order::lemma_sorted_contains(all, by_rank(), out[k]);
        let i = choose|i: int| 0 <= i < all.len() && all[i] == out[k];
        assert(list[i] == name);
        assert(list.contains(name));
        assert(supported(entries, subject, name));
        if exists|i: int| 0 <= i < entries.len() && claims(#[trigger] entries[i], name) {
            let i = choose|i: int| 0 <= i < entries.len() && claims(#[trigger] entries[i], name);
            let e = entries[i];
            assert(entries.contains(e));
            crate::client::law_learned_about(c, subject, e);
            assert(c.learned.contains((subject, e)) && e.record.name_claim is Some
                && (e.record.name_claim->0).0 == name);
        } else {
            let p = vouches_name(entries, subject, name);
            let i = choose|i: int| 0 <= i < entries.len() && p(#[trigger] entries[i]);
            let e = entries[i];
            assert(entries.contains(e));
            crate::client::law_learned_about(c, subject, e);
            let j = choose|j: int|
                0 <= j < e.endorsements.len() && vouched(
                    entries,
                    subject,
                    #[trigger] e.endorsements[j],
                ) == Some(name);
            let s = e.endorsements[j];
            assert(e.endorsements.contains(s));
        }
    }
    if (exists|e: LearnedView| #[trigger]
        c.learned.contains((subject, e)) && e.record.name_claim is Some
            && (e.record.name_claim->0).0 == name) || (exists|e: LearnedView, s: SignedView|
        #![trigger c.learned.contains((subject, e)), e.endorsements.contains(s)]
        c.learned.contains((subject, e)) && e.endorsements.contains(s) && vouched(
            entries,
            subject,
            s,
        ) == Some(name)) {
        if exists|e: LearnedView| #[trigger]
            c.learned.contains((subject, e)) && e.record.name_claim is Some
                && (e.record.name_claim->0).0 == name {
            let e = choose|e: LearnedView| #[trigger]
                c.learned.contains((subject, e)) && e.record.name_claim is Some
                    && (e.record.name_claim->0).0 == name;
            crate::client::law_learned_about(c, subject, e);
            let i = choose|i: int| 0 <= i < entries.len() && entries[i] == e;
            assert(claims(entries[i], name));
        } else {
            let (e, s) = choose|e: LearnedView, s: SignedView|
                #![trigger c.learned.contains((subject, e)), e.endorsements.contains(s)]
                c.learned.contains((subject, e)) && e.endorsements.contains(s) && vouched(
                    entries,
                    subject,
                    s,
                ) == Some(name);
            crate::client::law_learned_about(c, subject, e);
            let i = choose|i: int| 0 <= i < entries.len() && entries[i] == e;
            let j = choose|j: int| 0 <= j < e.endorsements.len() && e.endorsements[j] == s;
            assert(vouched(entries, subject, e.endorsements[j]) == Some(name));
            assert(vouches_name(entries, subject, name)(entries[i]));
        }
        assert(supported(entries, subject, name));
        assert(list.contains(name));
        let i = choose|i: int| 0 <= i < list.len() && list[i] == name;
        crate::order::lemma_sorted_contains(all, by_rank(), all[i]);
        assert(all.contains(all[i]));
        let k = choose|k: int| 0 <= k < out.len() && out[k] == all[i];
        assert(out[k].0.name == name);
    }
}

proof fn lemma_names_finite(entries: Seq<LearnedView>, subject: PublicKey)
    ensures
        names_of(entries, subject).finite(),
{
    let f = |e: LearnedView|
        (match claimed_name(e.record) {
            Some(n) => seq![n],
            None => Seq::empty(),
        }) + e.endorsements.filter_map(|s: SignedView| vouched(entries, subject, s));
    let all = gathered(entries, f);
    vstd::seq_lib::seq_to_set_is_finite(all);
    let set = names_of(entries, subject);
    assert forall|n: Seq<char>| #[trigger] set.contains(n) implies all.to_set().contains(n) by {
        crate::seqs::lemma_gathered_contains(entries, f, n);
        if exists|i: int| 0 <= i < entries.len() && claims(#[trigger] entries[i], n) {
            let i = choose|i: int| 0 <= i < entries.len() && claims(#[trigger] entries[i], n);
            assert(f(entries[i])[0] == n);
            assert(f(entries[i]).contains(n));
        } else {
            let p = vouches_name(entries, subject, n);
            let i = choose|i: int| 0 <= i < entries.len() && p(#[trigger] entries[i]);
            let e = entries[i];
            let g = |s: SignedView| vouched(entries, subject, s);
            let j = choose|j: int|
                0 <= j < e.endorsements.len() && vouched(
                    entries,
                    subject,
                    #[trigger] e.endorsements[j],
                ) == Some(n);
            crate::seqs::lemma_filter_map_has(e.endorsements, g, j);
            let head = match claimed_name(e.record) {
                Some(m) => seq![m],
                None => Seq::empty(),
            };
            let tail = e.endorsements.filter_map(g);
            let k = choose|k: int| 0 <= k < tail.len() && tail[k] == n;
            assert(f(e) == head + tail);
            assert((head + tail)[head.len() + k] == n);
            assert(f(entries[i]).contains(n));
        }
    }
    assert(set.subset_of(all.to_set()));
    vstd::set_lib::lemma_len_subset(set, all.to_set());
}

/// A vouch names somebody exactly where it is a name claim that verifies and
/// whose attester has not, at a later revision, verifiably disavowed the
/// subject.
pub proof fn law_standing_vouch(entries: Seq<LearnedView>, subject: PublicKey, s: SignedView)
    ensures
        vouched(entries, subject, s) is Some <==> {
            &&& s.attestation.claim is Name
            &&& s.verified
            &&& forall|e: LearnedView, n: SignedView|
                #![trigger entries.contains(e), e.endorsements.contains(n)]
                entries.contains(e) && e.endorsements.contains(n) && n.verified
                    && n.attestation.claim is Negative && n.attestation.attester
                    == s.attestation.attester && n.attestation.subject == subject
                    ==> n.attestation.revision <= s.attestation.revision
        },
        vouched(entries, subject, s) is Some ==> s.attestation.claim == ClaimView::Name(
            vouched(entries, subject, s)->0,
        ),
{
    let f = endorsements_of();
    let all = gathered(entries, f);
    let p = voiding(s.attestation.attester, subject, s.attestation.revision);
    if voided(entries, subject, s) {
        let k = choose|k: int| 0 <= k < all.len() && p(#[trigger] all[k]);
        let n = all[k];
        assert(all.contains(n));
        crate::seqs::lemma_gathered_contains(entries, f, n);
        let i = choose|i: int| 0 <= i < entries.len() && f(#[trigger] entries[i]).contains(n);
        assert(entries.contains(entries[i]));
        assert(entries[i].endorsements.contains(n));
    } else {
        assert forall|e: LearnedView, n: SignedView|
            #![trigger entries.contains(e), e.endorsements.contains(n)]
            entries.contains(e) && e.endorsements.contains(n) && n.verified
                && n.attestation.claim is Negative && n.attestation.attester
                == s.attestation.attester && n.attestation.subject == subject implies n.attestation.revision
            <= s.attestation.revision by {
            let i = choose|i: int| 0 <= i < entries.len() && entries[i] == e;
            assert(f(entries[i]).contains(n));
            crate::seqs::lemma_gathered_contains(entries, f, n);
            let k = choose|k: int| 0 <= k < all.len() && all[k] == n;
            assert(!p(all[k]));
        }
    }
}

/// What supports a name: the subject confirms it exactly where a record it
/// served itself claims it; it is held by everybody else who serves such a
/// record; and its revision is the highest at which it is claimed.
pub proof fn law_support_of_a_name(c: ClientView, subject: PublicKey, name: Seq<char>)
    ensures
        ({
            let s = support(c, subject, name);
            &&& s.name == name
            &&& s.confirmed_by_subject <==> exists|e: LearnedView| #[trigger]
                c.learned.contains((subject, e)) && e.responder == subject
                    && e.record.name_claim is Some && (e.record.name_claim->0).0 == name
            &&& forall|e: LearnedView| #[trigger]
                c.learned.contains((subject, e)) && e.record.name_claim is Some
                    && (e.record.name_claim->0).0 == name ==> {
                    &&& (e.record.name_claim->0).1 <= s.revision
                    &&& e.responder != subject ==> s.held_by.contains(petname(c, e.responder))
                }
            &&& s.revision > 0 ==> exists|e: LearnedView| #[trigger]
                c.learned.contains((subject, e)) && e.record.name_claim == Some((name, s.revision))
            &&& forall|k: int|
                0 <= k < s.held_by.len() ==> holds_name(c, subject, name, #[trigger] s.held_by[k])
        }),
{
    let s = support(c, subject, name);
    let entries = learned_about(c, subject);
    lemma_top_revision(entries, name);
    let p = served_by_subject(subject, name);
    let f = holder_name(c, subject, name);
    if s.confirmed_by_subject {
        let i = choose|i: int| 0 <= i < entries.len() && p(#[trigger] entries[i]);
        assert(entries.contains(entries[i]));
        crate::client::law_learned_about(c, subject, entries[i]);
        assert(c.learned.contains((subject, entries[i])));
    }
    assert forall|e: LearnedView| #[trigger]
        c.learned.contains((subject, e)) && e.record.name_claim is Some
            && (e.record.name_claim->0).0 == name implies {
        &&& (e.record.name_claim->0).1 <= s.revision
        &&& e.responder != subject ==> s.held_by.contains(petname(c, e.responder))
        &&& e.responder == subject ==> s.confirmed_by_subject
    } by {
        crate::client::law_learned_about(c, subject, e);
        let i = choose|i: int| 0 <= i < entries.len() && entries[i] == e;
        assert(claims(entries[i], name));
        if e.responder != subject {
            crate::seqs::lemma_filter_map_has(entries, f, i);
        } else {
            assert(p(entries[i]));
        }
    }
    if s.revision > 0 {
        let i = choose|i: int|
            0 <= i < entries.len() && claims(#[trigger] entries[i], name) && claim_revision(
                entries[i],
            ) == s.revision;
        assert(entries.contains(entries[i]));
        crate::client::law_learned_about(c, subject, entries[i]);
        assert(c.learned.contains((subject, entries[i])));
    }
    assert forall|k: int| 0 <= k < s.held_by.len() implies holds_name(
        c,
        subject,
        name,
        #[trigger] s.held_by[k],
    ) by {
        let i = crate::seqs::lemma_filter_map_source(entries, f, k);
        assert(entries.contains(entries[i]));
        crate::client::law_learned_about(c, subject, entries[i]);
        assert(c.learned.contains((subject, entries[i])));
    }
}

/// Somebody of a petname, other than the subject, serves a record of the
/// subject with a name.
pub open spec fn holds_name(c: ClientView, subject: PublicKey, name: Seq<char>, who: Seq<char>) -> bool {
    exists|e: LearnedView| #[trigger]
        c.learned.contains((subject, e)) && e.responder != subject && e.record.name_claim is Some
            && (e.record.name_claim->0).0 == name && petname(c, e.responder) == who
}

proof fn lemma_top_revision(entries: Seq<LearnedView>, name: Seq<char>)
    ensures
        forall|i: int|
            0 <= i < entries.len() && claims(#[trigger] entries[i], name) ==> claim_revision(entries[i])
                <= top_revision(entries, name),
        top_revision(entries, name) > 0 ==> exists|i: int|
            0 <= i < entries.len() && claims(#[trigger] entries[i], name) && claim_revision(
                entries[i],
            ) == top_revision(entries, name),
    decreases entries.len(),
{
    if entries.len() > 0 {
        let d = entries.drop_last();
        lemma_top_revision(d, name);
        let n = entries.len() - 1;
        assert forall|i: int| 0 <= i < entries.len() && claims(#[trigger] entries[i], name) implies claim_revision(
            entries[i],
        ) <= top_revision(entries, name) by {
            if i < n {
                assert(claims(d[i], name));
            }
        }
        if top_revision(entries, name) > 0 {
            if claims(entries[n], name) && claim_revision(entries[n]) == top_revision(entries, name) {
            } else {
                let i = choose|i: int|
                    0 <= i < d.len() && claims(#[trigger] d[i], name) && claim_revision(d[i])
                        == top_revision(d, name);
                assert(claims(entries[i], name));
            }
        }
    }
}

/// A key is called by the petname of the contact that lists it; by what was
/// learned, every name of it, only where no contact does; and by nothing only
/// where nothing was learned.
pub proof fn law_called_by_what_is_known(c: ClientView, key: PublicKey)
    ensures
        match resolved(c, key) {
            ResolvedView::Petname(p) => exists|i: int|
                0 <= i < c.contacts.len() && (#[trigger] c.contacts[i]).0 == p
                    && c.contacts[i].1.keys.contains(key),
            ResolvedView::Learned(names) => {
                &&& forall|i: int|
                    0 <= i < c.contacts.len() ==> !(#[trigger] c.contacts[i]).1.keys.contains(key)
                &&& names.len() == candidates(c, key).len() && names.len() > 0
                &&& forall|k: int|
                    0 <= k < names.len() ==> #[trigger] names[k] == candidates(c, key)[k].0
            },
            ResolvedView::Unknown => {
                &&& forall|i: int|
                    0 <= i < c.contacts.len() ==> !(#[trigger] c.contacts[i]).1.keys.contains(key)
                &&& candidates(c, key).len() == 0
            },
        },
{
    crate::client::law_entry_by_key(c, key);
}

/// The record behind a name is one that claims it where any does, and then
/// none that claims it has a higher revision.
pub proof fn law_record_behind_a_name(entries: Seq<LearnedView>, subject: PublicKey, name: Seq<char>)
    ensures
        (exists|i: int| 0 <= i < entries.len() && claims(#[trigger] entries[i], name)) ==> match behind_name(
            entries,
            subject,
            name,
        ) {
            Some(r) => {
                &&& r.name_claim is Some && (r.name_claim->0).0 == name
                &&& forall|i: int|
                    0 <= i < entries.len() && claims(#[trigger] entries[i], name) ==> claim_revision(
                        entries[i],
                    ) <= (r.name_claim->0).1
                &&& exists|i: int| 0 <= i < entries.len() && (#[trigger] entries[i]).record == r
            },
            None => false,
        },
{
    lemma_freshest(entries, name);
    match freshest(entries, name) {
        Some(e) => {
            let i = choose|i: int| 0 <= i < entries.len() && entries[i] == e;
            assert(entries[i].record == e.record);
        },
        None => {},
    }
}

/// The short form of a key is how its hex begins.
pub proof fn law_short_form_begins_the_hex(key: PublicKey)
    ensures
        short_hex(key).len() == 8,
        short_hex(key) == crate::hex::hex_text(key.0@).take(8),
{
    let all = crate::hex::hex_text(key.0@);
    let head = key.0@.take(4);
    assert forall|i: int| 0 <= i < 8 implies #[trigger] short_hex(key)[i] == all[i] by {
        assert(head[i / 2] == key.0@[i / 2]);
    }
    assert(short_hex(key) =~= all.take(8));
}

} // verus!
