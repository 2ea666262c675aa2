//! Persons: the observer's local lens over key clusters, a label spanning one
//! or more contact entries. Every contact entry belongs to a person: adding a
//! contact creates its row, record updates re-point the member, and whoever
//! looks at the people mints the row of an unclaimed entry on sight.
use vstd::prelude::*;
use vstd::string::StringExecFns;

use crate::client::{named, Client, ClientView, PersonRow, PersonRowView};
use crate::error::{Error, ErrorView};
use crate::format::{hex128, hex_digits, law_hex128_round_trip, number128, parse128};
use crate::ids::PublicKey;
use crate::lens::settled;
use crate::load::by_person_id;
use crate::order::{ascending, copies, holds, in_order, law_sorted_in_order, lemma_apart_placed, lists, placed, set_insert, sort_stably, sorted, weak_order, Duplicate, Ranked};
use crate::record::{lemma_keys_view, stem, ContactRecord, RecordView};
use crate::relays::{no_contact_named, recipient, unknown_petname, Contact, ContactView};
use crate::rng::{gave, tokens_of, Mint};
use crate::seqs::{count_where, first, gathered, lemma_apart_filter, lemma_filter, lemma_filter_all, lemma_filter_map_add, lemma_filter_map_back, lemma_filter_map_step, lemma_filter_none, lemma_filter_step, lemma_first, lemma_first_found, lemma_first_step, lemma_gathered_step, lemma_map_step, lemma_take_all, lemma_take_step, some};
use crate::state::{person_of_text, person_text, read_person, write_person};
use crate::text::{behind, concat, quote, quoted, same_text, strip_prefix, text_less, trim, trimmed};

verus! {

// ---- ids ----

/// The opaque local person id: what every act keys on. Ids identify; labels
/// display and address. Never derived from keys or content, never on the
/// wire.
#[derive(Clone, Copy, Debug, PartialEq, Eq, PartialOrd, Ord, Hash, Structural)]
pub struct PersonId(u128);

impl DeepView for PersonId {
    type V = PersonId;

    open spec fn deep_view(&self) -> PersonId {
        *self
    }
}

/// The typed string form: `person:` and 32 hex digits.
pub open spec fn id_text(id: u128) -> Seq<char> {
    "person:"@ + hex_digits(id as nat, 32)
}

/// The id a string form denotes.
pub open spec fn id_of_text(s: Seq<char>) -> Option<u128> {
    match behind(s, "person:"@) {
        Some(digits) => number128(digits),
        None => None,
    }
}

impl PersonId {
    /// The number the storage layer files under.
    pub closed spec fn number(self) -> u128 {
        self.0
    }

    /// Mint a fresh id: creation sites only. It is the token the mint gives.
    pub fn mint<M: Mint>(rng: &mut M) -> (r: Self)
        ensures
            M::gives(*old(rng), *final(rng), r.number()),
    {
        PersonId(rng.token128())
    }

    pub fn from_storage(id: u128) -> (r: Self)
        ensures
            r.number() == id,
    {
        PersonId(id)
    }

    /// The raw id the storage layer files under.
    pub fn to_storage(self) -> (r: u128)
        ensures
            r == self.number(),
    {
        self.0
    }

    /// The typed string form.
    pub fn to_text(&self) -> (r: String)
        ensures
            r@ == id_text(self.number()),
    {
        let digits: String = hex128(self.0);
        concat("person:", digits.as_str())
    }

    /// Reads the typed string form; everything else is refused, stray bare
    /// hex included.
    pub fn parse(raw: &str) -> (r: Result<PersonId, Error>)
        ensures
            match id_of_text(raw@) {
                Some(id) => r is Ok && r->Ok_0.number() == id,
                None => r is Err && r->Err_0.deep_view() == ErrorView::InvalidInput(
                    "not a person id: "@ + quoted(raw@),
                ),
            },
    {
        match strip_prefix(raw, "person:") {
            Some(digits) => {
                match parse128(digits.as_str()) {
                    Some(id) => {
                        return Ok(PersonId(id));
                    },
                    None => {},
                }
            },
            None => {},
        }
        let shown: String = quote(raw);
        Err(Error::InvalidInput(concat("not a person id: ", shown.as_str())))
    }
}

impl std::str::FromStr for PersonId {
    type Err = Error;

    fn from_str(raw: &str) -> Result<Self, Error> {
        PersonId::parse(raw)
    }
}

/// Two ids with one number are one id.
pub proof fn lemma_id_number(a: PersonId, b: PersonId)
    ensures
        a.number() == b.number() <==> a == b,
{
}

/// An id's string form parses back to itself.
pub proof fn law_person_id_round_trip(id: u128)
    ensures
        id_of_text(id_text(id)) == Some(id),
{
    law_hex128_round_trip(id);
    let s = id_text(id);
    let p = "person:"@;
    assert(s.take(p.len() as int) =~= p);
    assert(s.skip(p.len() as int) =~= hex_digits(id as nat, 32));
}

// ---- persons ----

/// One person as this client currently believes it: the id, the addressing
/// label, and the member contact entries.
#[derive(Debug)]
pub struct PersonEntry {
    pub id: PersonId,
    pub label: String,
    pub members: Vec<(String, ContactRecord)>,
}

pub struct PersonView {
    pub id: u128,
    pub label: Seq<char>,
    pub members: Seq<(Seq<char>, RecordView)>,
}

impl DeepView for PersonEntry {
    type V = PersonView;

    open spec fn deep_view(&self) -> PersonView {
        PersonView { id: self.id.number(), label: self.label@, members: self.members.deep_view() }
    }
}

impl Duplicate for PersonEntry {
    fn duplicate(&self) -> (r: Self) {
        PersonEntry { id: self.id, label: self.label.clone(), members: copies(&self.members) }
    }
}

pub open spec fn entry_keys() -> spec_fn((Seq<char>, RecordView)) -> Seq<PublicKey> {
    |e: (Seq<char>, RecordView)| e.1.keys
}

pub open spec fn entry_stem() -> spec_fn((Seq<char>, RecordView)) -> Option<PublicKey> {
    |e: (Seq<char>, RecordView)| stem(e.1)
}

/// The first keys of a person's entries.
pub open spec fn stems(p: PersonView) -> Seq<PublicKey> {
    p.members.filter_map(entry_stem())
}

impl PersonEntry {
    /// Every key any member's record lists, ascending.
    pub fn keys(&self) -> (r: Vec<PublicKey>)
        ensures
            lists::<PublicKey>(
                r.deep_view(),
                gathered(self.deep_view().members, entry_keys()).to_set(),
            ),
    {
        let ghost s = self.members.deep_view();
        let ghost f = entry_keys();
        let mut out: Vec<PublicKey> = Vec::new();
        proof {
            assert(out.deep_view() =~= Seq::<PublicKey>::empty());
            assert(out.deep_view().to_set() =~= gathered(s.take(0), f).to_set());
        }
        for i in 0..self.members.len()
            invariant
                s == self.members.deep_view(),
                f == entry_keys(),
                ascending::<PublicKey>(out.deep_view()),
                out.deep_view().to_set() == gathered(s.take(i as int), f).to_set(),
        {
            let keys: &Vec<PublicKey> = &self.members[i].1.keys;
            let ghost t = keys@;
            let ghost base = out.deep_view().to_set();
            assert(out.deep_view().to_set() =~= base + t.take(0).to_set());
            for j in 0..keys.len()
                invariant
                    t == keys@,
                    ascending::<PublicKey>(out.deep_view()),
                    out.deep_view().to_set() == base + t.take(j as int).to_set(),
            {
                set_insert(&mut out, keys[j]);
                proof {
                    crate::order::lemma_take_set(t, j as int);
                    assert(out.deep_view().to_set() =~= base + t.take(j + 1).to_set());
                }
            }
            proof {
                lemma_take_all(t);
                lemma_gathered_step(s, f, i as int);
                vstd::seq_lib::seq_to_set_distributes_over_add(gathered(s.take(i as int), f), t);
                assert(out.deep_view().to_set() =~= (gathered(s.take(i as int), f) + t).to_set());
            }
        }
        proof {
            lemma_take_all(s);
        }
        out
    }

    /// The first keys of the member entries.
    pub fn member_stems(&self) -> (r: Vec<PublicKey>)
        ensures
            r.deep_view() == stems(self.deep_view()),
    {
        stems_of(&self.members)
    }
}

fn stems_of(members: &Vec<(String, ContactRecord)>) -> (r: Vec<PublicKey>)
    ensures
        r.deep_view() == members.deep_view().filter_map(entry_stem()),
{
    let ghost s = members.deep_view();
    let ghost f = entry_stem();
    let mut out: Vec<PublicKey> = Vec::new();
    assert(out.deep_view() =~= s.take(0).filter_map(f));
    for i in 0..members.len()
        invariant
            s == members.deep_view(),
            f == entry_stem(),
            out.deep_view() == s.take(i as int).filter_map(f),
    {
        proof {
            lemma_filter_map_step(s, f, i as int);
        }
        match members[i].1.first_key() {
            Some(k) => {
                let ghost before = out.deep_view();
                out.push(k);
                assert(out.deep_view() =~= before.push(k));
            },
            None => {},
        }
    }
    proof {
        lemma_take_all(s);
    }
    out
}

/// Entries identified by a key.
pub open spec fn stemmed(key: PublicKey) -> spec_fn((Seq<char>, RecordView)) -> bool {
    |e: (Seq<char>, RecordView)| stem(e.1) == Some(key)
}

/// The contact entry a member key stands for.
pub open spec fn entry_for(c: ClientView) -> spec_fn(PublicKey) -> Option<(Seq<char>, RecordView)> {
    |k: PublicKey| first(c.contacts, stemmed(k))
}

/// The keys that rows claim and that have an entry.
pub open spec fn claimed(c: ClientView, rows: Seq<PersonRowView>) -> Set<PublicKey> {
    Set::new(
        |k: PublicKey|
            entry_for(c)(k) is Some && exists|i: int|
                0 <= i < rows.len() && #[trigger] rows[i].members.contains(k),
    )
}

pub open spec fn outside(taken: Set<PublicKey>) -> spec_fn(PublicKey) -> bool {
    |k: PublicKey| !taken.contains(k)
}

/// The entries a row stands for: its members that no earlier row claims and
/// whose entry is there.
pub open spec fn row_members(c: ClientView, row: PersonRowView, taken: Set<PublicKey>) -> Seq<
    (Seq<char>, RecordView),
> {
    row.members.filter(outside(taken)).filter_map(entry_for(c))
}

/// The person of a row; an emptied one hides.
pub open spec fn person_at(c: ClientView) -> spec_fn(int) -> Option<PersonView> {
    |i: int|
        {
            let row = c.persons[i];
            let m = row_members(c, row, claimed(c, c.persons.take(i)));
            if m.len() > 0 {
                Some(PersonView { id: row.id, label: row.label, members: m })
            } else {
                None
            }
        }
}

pub open spec fn by_label() -> spec_fn(PersonView, PersonView) -> bool {
    |a: PersonView, b: PersonView| text_less(a.label, b.label)
}

/// The persons of the rows, in row order.
pub open spec fn people_by_row(c: ClientView) -> Seq<PersonView> {
    crate::evidence::indices(c.persons.len()).filter_map(person_at(c))
}

/// The persons of the rows, by label.
pub open spec fn people(c: ClientView) -> Seq<PersonView> {
    sorted(people_by_row(c), by_label())
}

fn label_before(a: &PersonEntry, b: &PersonEntry) -> (r: bool)
    ensures
        r == by_label()(a.deep_view(), b.deep_view()),
{
    a.label.before(&b.label)
}

fn find_stem(contacts: &Vec<(String, ContactRecord)>, key: &PublicKey) -> (r: Option<usize>)
    ensures
        match r {
            Some(i) => i < contacts.len() && first(contacts.deep_view(), stemmed(*key)) == Some(
                contacts.deep_view()[i as int],
            ),
            None => first(contacts.deep_view(), stemmed(*key)) is None,
        },
{
    let ghost s = contacts.deep_view();
    let ghost p = stemmed(*key);
    for i in 0..contacts.len()
        invariant
            s == contacts.deep_view(),
            p == stemmed(*key),
            first(s.take(i as int), p) is None,
    {
        proof {
            lemma_first_step(s, p, i as int);
        }
        let hit: bool = match contacts[i].1.first_key() {
            Some(k) => k == *key,
            None => false,
        };
        assert(hit == p(s[i as int]));
        if hit {
            proof {
                lemma_first_found(s, p, i + 1);
            }
            return Some(i);
        }
    }
    proof {
        lemma_take_all(s);
    }
    None
}

impl Client {
    /// The entries of a row, given the keys earlier rows claim.
    fn members_of_row(&self, row: &PersonRow, taken: &Vec<PublicKey>) -> (r: Vec<
        (String, ContactRecord),
    >)
        ensures
            r.deep_view() == row_members(
                self.deep_view(),
                row.deep_view(),
                taken.deep_view().to_set(),
            ),
    {
        let ghost c = self.deep_view();
        let ghost s = row.members@;
        let ghost p = outside(taken.deep_view().to_set());
        let ghost f = entry_for(c);
        let mut out: Vec<(String, ContactRecord)> = Vec::new();
        proof {
            reveal(Seq::filter);
            assert(s.take(0).filter(p) =~= Seq::<PublicKey>::empty());
            assert(out.deep_view() =~= s.take(0).filter(p).filter_map(f));
        }
        for i in 0..row.members.len()
            invariant
                c == self.deep_view(),
                s == row.members@,
                p == outside(taken.deep_view().to_set()),
                f == entry_for(c),
                out.deep_view() == s.take(i as int).filter(p).filter_map(f),
        {
            let ghost kept = s.take(i as int).filter(p);
            proof {
                lemma_filter_step(s, p, i as int);
                assert(taken.deep_view().to_set().contains(s[i as int])
                    == taken.deep_view().contains(s[i as int]));
            }
            if !holds(taken, &row.members[i]) {
                proof {
                    let k = kept.push(s[i as int]);
                    lemma_filter_map_step(k, f, kept.len() as int);
                    lemma_take_all(k);
                    assert(k.take(kept.len() as int) =~= kept);
                }
                match find_stem(&self.contacts, &row.members[i]) {
                    Some(j) => {
                        let ghost before = out.deep_view();
                        out.push(self.contacts[j].duplicate());
                        assert(out.deep_view() =~= before.push(c.contacts[j as int]));
                    },
                    None => {},
                }
            }
        }
        proof {
            lemma_take_all(s);
        }
        out
    }

    /// Adds to `taken` the keys a row claims.
    fn claim_row(&self, row: &PersonRow, taken: &mut Vec<PublicKey>, Ghost(rows): Ghost<Seq<PersonRowView>>)
        requires
            ascending::<PublicKey>(old(taken).deep_view()),
            old(taken).deep_view().to_set() == claimed(self.deep_view(), rows),
        ensures
            ascending::<PublicKey>(final(taken).deep_view()),
            final(taken).deep_view().to_set() == claimed(
                self.deep_view(),
                rows.push(row.deep_view()),
            ),
    {
        let ghost c = self.deep_view();
        let ghost s = row.members@;
        let ghost base = claimed(c, rows);
        let ghost has = Set::new(|k: PublicKey| entry_for(c)(k) is Some);
        assert(taken.deep_view().to_set() =~= base + s.take(0).to_set().intersect(has));
        for i in 0..row.members.len()
            invariant
                c == self.deep_view(),
                s == row.members@,
                has == Set::new(|k: PublicKey| entry_for(c)(k) is Some),
                ascending::<PublicKey>(taken.deep_view()),
                taken.deep_view().to_set() == base + s.take(i as int).to_set().intersect(has),
        {
            proof {
                crate::order::lemma_take_set(s, i as int);
            }
            if find_stem(&self.contacts, &row.members[i]).is_some() {
                set_insert(taken, row.members[i]);
            }
            assert(taken.deep_view().to_set() =~= base + s.take(i + 1).to_set().intersect(has));
        }
        proof {
            lemma_take_all(s);
            let more = rows.push(row.deep_view());
            assert forall|k: PublicKey| #[trigger] claimed(c, more).contains(k) <==> base.contains(k) || (s.to_set().contains(k) && has.contains(k)) by {
                if claimed(c, more).contains(k) {
                    let i = choose|i: int| 0 <= i < more.len() && #[trigger] more[i].members.contains(k);
                    if i < rows.len() {
                        assert(rows[i].members.contains(k));
                    }
                }
                if base.contains(k) {
                    let i = choose|i: int| 0 <= i < rows.len() && #[trigger] rows[i].members.contains(k);
                    assert(more[i].members.contains(k));
                }
                if s.to_set().contains(k) && has.contains(k) {
                    assert(more[rows.len() as int].members.contains(k));
                }
            }
            assert(taken.deep_view().to_set() =~= claimed(c, more));
        }
    }

    /// The persons of the rows, in row order. Members whose entry is gone
    /// drop out, an emptied person hides, and a key two rows claim renders
    /// under the first row only.
    fn by_row(&self) -> (r: Vec<PersonEntry>)
        ensures
            r.deep_view() == people_by_row(self.deep_view()),
    {
        let ghost c = self.deep_view();
        let ghost rows = c.persons;
        let ghost s = crate::evidence::indices(rows.len());
        let ghost f = person_at(c);
        let mut taken: Vec<PublicKey> = Vec::new();
        let mut out: Vec<PersonEntry> = Vec::new();
        proof {
            assert(out.deep_view() =~= s.take(0).filter_map(f));
            assert(taken.deep_view() =~= Seq::<PublicKey>::empty());
            assert(taken.deep_view().to_set() =~= claimed(c, rows.take(0)));
        }
        for i in 0..self.persons.len()
            invariant
                c == self.deep_view(),
                rows == c.persons,
                s == crate::evidence::indices(rows.len()),
                f == person_at(c),
                ascending::<PublicKey>(taken.deep_view()),
                taken.deep_view().to_set() == claimed(c, rows.take(i as int)),
                out.deep_view() == s.take(i as int).filter_map(f),
        {
            let row: &PersonRow = &self.persons[i];
            let members: Vec<(String, ContactRecord)> = self.members_of_row(row, &taken);
            proof {
                lemma_filter_map_step(s, f, i as int);
                lemma_take_step(rows, i as int);
            }
            self.claim_row(row, &mut taken, Ghost(rows.take(i as int)));
            if members.len() > 0 {
                let ghost before = out.deep_view();
                out.push(
                    PersonEntry {
                        id: PersonId::from_storage(row.id),
                        label: row.label.clone(),
                        members,
                    },
                );
                assert(out.deep_view() =~= before.push(f(i as int)->0));
            }
        }
        proof {
            lemma_take_all(s);
        }
        out
    }

    /// The persons of the rows, label-sorted.
    pub(crate) fn stored_people(&self) -> (r: Vec<PersonEntry>)
        ensures
            r.deep_view() == people(self.deep_view()),
    {
        let mut out: Vec<PersonEntry> = self.by_row();
        sort_stably(&mut out, label_before, Ghost(by_label()));
        out
    }
}

// ---- rows ----

pub open spec fn other_row(id: u128) -> spec_fn(PersonRowView) -> bool {
    |r: PersonRowView| r.id != id
}

/// Rows without one.
pub open spec fn without_row(rows: Seq<PersonRowView>, id: u128) -> Seq<PersonRowView> {
    rows.filter(other_row(id))
}

/// Rows with one saved: what its file reads back as, in the order of ids.
pub open spec fn with_row(
    rows: Seq<PersonRowView>,
    id: u128,
    label: Seq<char>,
    members: Seq<PublicKey>,
) -> Seq<PersonRowView> {
    match person_of_text(person_text(label, members)) {
        Some((l, m)) => placed(
            without_row(rows, id),
            PersonRowView { id, label: l, members: m },
            by_person_id(),
        ),
        None => without_row(rows, id),
    }
}

impl Client {
    /// Drops a person row.
    pub fn remove_person(&mut self, id: u128)
        ensures
            final(self).deep_view() == (ClientView {
                persons: without_row(old(self).deep_view().persons, id),
                ..old(self).deep_view()
            }),
    {
        let ghost s = self.persons.deep_view();
        let ghost p = other_row(id);
        let mut out: Vec<PersonRow> = Vec::new();
        proof {
            reveal(Seq::filter);
            assert(out.deep_view() =~= s.take(0).filter(p));
        }
        for i in 0..self.persons.len()
            invariant
                s == self.persons.deep_view(),
                p == other_row(id),
                out.deep_view() == s.take(i as int).filter(p),
        {
            proof {
                lemma_filter_step(s, p, i as int);
            }
            if self.persons[i].id != id {
                let ghost before = out.deep_view();
                out.push(self.persons[i].duplicate());
                assert(out.deep_view() =~= before.push(s[i as int]));
            }
        }
        proof {
            lemma_take_all(s);
        }
        self.persons = out;
    }

    /// Saves a person row: it holds what its file will read back as.
    pub fn save_person(&mut self, id: u128, label: &str, members: &Vec<PublicKey>)
        ensures
            final(self).deep_view() == (ClientView {
                persons: with_row(
                    old(self).deep_view().persons,
                    id,
                    label@,
                    members.deep_view(),
                ),
                ..old(self).deep_view()
            }),
    {
        self.remove_person(id);
        let text: String = write_person(label, members);
        match read_person(text.as_str()) {
            Some((l, m)) => {
                proof {
                    lemma_keys_view(&m);
                }
                place_row(&mut self.persons, PersonRow { id, label: l, members: m });
            },
            None => {},
        }
    }
}

fn place_row(rows: &mut Vec<PersonRow>, row: PersonRow)
    ensures
        final(rows).deep_view() == placed(old(rows).deep_view(), row.deep_view(), by_person_id()),
{
    let ghost s = rows.deep_view();
    let ghost o = row.deep_view();
    let mut k: usize = rows.len();
    while k > 0 && row.id < rows[k - 1].id
        invariant
            k <= rows.len(),
            s == rows.deep_view(),
            o == row.deep_view(),
            forall|j: int| k <= j < s.len() ==> by_person_id()(o, #[trigger] s[j]),
        decreases k,
    {
        k -= 1;
    }
    let ghost held = rows@;
    rows.insert(k, row);
    proof {
        assert(rows@ == held.insert(k as int, row));
        assert(rows.deep_view() =~= s.insert(k as int, o));
        crate::order::lemma_placed_at(s, o, by_person_id(), k as int);
    }
}

// ---- lookups ----

pub open spec fn has_id(id: u128) -> spec_fn(PersonView) -> bool {
    |p: PersonView| p.id == id
}

pub open spec fn has_label(label: Seq<char>) -> spec_fn(PersonView) -> bool {
    |p: PersonView| p.label == label
}

pub open spec fn has_member(petname: Seq<char>) -> spec_fn(PersonView) -> bool {
    |p: PersonView| some(p.members, named(petname))
}

/// The person with an id among some, or why there is none.
pub open spec fn person_with(v: Seq<PersonView>, id: u128) -> Result<PersonView, ErrorView> {
    match first(v, has_id(id)) {
        Some(p) => Ok(p),
        None => Err(ErrorView::NotAContact("no person with id "@ + id_text(id))),
    }
}

/// The one person with a label among some; a duplicate means a damaged store.
pub open spec fn person_labeled(v: Seq<PersonView>, label: Seq<char>) -> Result<
    PersonView,
    ErrorView,
> {
    let found = v.filter(has_label(label));
    if found.len() == 0 {
        Err(ErrorView::NotAContact("no person labeled "@ + quoted(label)))
    } else if found.len() == 1 {
        Ok(found[0])
    } else {
        Err(
            ErrorView::InvalidInput(
                "several persons are labeled "@ + quoted(label)
                    + " — rename one, or act by id"@,
            ),
        )
    }
}

/// A person other than the exempt one goes by a name: as its label, or as one
/// of its entries' petnames.
pub open spec fn goes_by(name: Seq<char>, exempt: Option<u128>) -> spec_fn(PersonView) -> bool {
    |p: PersonView|
        Some(p.id) != exempt && (p.label == name || some(p.members, named(name)))
}

/// The name is taken by somebody else among some persons.
pub open spec fn taken(v: Seq<PersonView>, name: Seq<char>, exempt: Option<u128>) -> bool {
    some(v, goes_by(name, exempt))
}

fn member_named(members: &Vec<(String, ContactRecord)>, petname: &str) -> (r: bool)
    ensures
        r == some(members.deep_view(), named(petname@)),
{
    let ghost s = members.deep_view();
    for i in 0..members.len()
        invariant
            s == members.deep_view(),
            forall|k: int| 0 <= k < i ==> !named(petname@)(#[trigger] s[k]),
    {
        if same_text(&members[i].0, petname) {
            assert(named(petname@)(s[i as int]));
            return true;
        }
    }
    false
}

fn find_id(all: &Vec<PersonEntry>, id: PersonId) -> (r: Result<PersonEntry, Error>)
    ensures
        match person_with(all.deep_view(), id.number()) {
            Ok(p) => r is Ok && r->Ok_0.deep_view() == p,
            Err(e) => r is Err && r->Err_0.deep_view() == e,
        },
{
    let ghost s = all.deep_view();
    let ghost p = has_id(id.number());
    let mut i: usize = 0;
    while i < all.len()
        invariant
            i <= all.len(),
            s == all.deep_view(),
            p == has_id(id.number()),
            first(s.take(i as int), p) is None,
        decreases all.len() - i,
    {
        proof {
            lemma_first_step(s, p, i as int);
            lemma_id_number(all[i as int].id, id);
        }
        if all[i].id == id {
            proof {
                lemma_first_found(s, p, i + 1);
                assert(s[i as int] == all[i as int].deep_view());
            }
            return Ok(all[i].duplicate());
        }
        i += 1;
    }
    proof {
        lemma_take_all(s);
    }
    let shown: String = id.to_text();
    Err(Error::NotAContact(concat("no person with id ", shown.as_str())))
}

fn find_label(all: &Vec<PersonEntry>, label: &str) -> (r: Result<PersonEntry, Error>)
    ensures
        match person_labeled(all.deep_view(), label@) {
            Ok(p) => r is Ok && r->Ok_0.deep_view() == p,
            Err(e) => r is Err && r->Err_0.deep_view() == e,
        },
{
    let ghost s = all.deep_view();
    let ghost p = has_label(label@);
    let mut found: Vec<PersonEntry> = Vec::new();
    proof {
        reveal(Seq::filter);
        assert(found.deep_view() =~= s.take(0).filter(p));
    }
    for i in 0..all.len()
        invariant
            s == all.deep_view(),
            p == has_label(label@),
            found.deep_view() == s.take(i as int).filter(p),
    {
        proof {
            lemma_filter_step(s, p, i as int);
        }
        if same_text(&all[i].label, label) {
            let ghost before = found.deep_view();
            found.push(all[i].duplicate());
            assert(found.deep_view() =~= before.push(s[i as int]));
        }
    }
    proof {
        lemma_take_all(s);
        assert(found.deep_view().len() == found.len());
    }
    if found.len() == 0 {
        let shown: String = quote(label);
        return Err(Error::NotAContact(concat("no person labeled ", shown.as_str())));
    }
    if found.len() > 1 {
        let shown: String = quote(label);
        return Err(
            Error::InvalidInput(
                crate::error::around(
                    "several persons are labeled ",
                    shown.as_str(),
                    " — rename one, or act by id",
                ),
            ),
        );
    }
    assert(found.deep_view()[0] == found@[0].deep_view());
    Ok(found.remove(0))
}

pub(crate) fn label_free(all: &Vec<PersonEntry>, name: &str, exempt: Option<PersonId>) -> (r: Result<
    (),
    Error,
>)
    ensures
        r is Ok <==> !taken(all.deep_view(), name@, id_number(exempt)),
        r is Err ==> r->Err_0.deep_view() == ErrorView::PetnameCollision(name@),
{
    let ghost s = all.deep_view();
    let ghost p = goes_by(name@, id_number(exempt));
    for i in 0..all.len()
        invariant
            s == all.deep_view(),
            p == goes_by(name@, id_number(exempt)),
            forall|k: int| 0 <= k < i ==> !p(#[trigger] s[k]),
    {
        let skip: bool = match exempt {
            Some(id) => id == all[i].id,
            None => false,
        };
        proof {
            match exempt {
                Some(id) => {
                    lemma_id_number(id, all[i as int].id);
                },
                None => {},
            }
        }
        let hit: bool = !skip && (same_text(&all[i].label, name) || member_named(
            &all[i].members,
            name,
        ));
        assert(hit == p(s[i as int]));
        if hit {
            return Err(Error::PetnameCollision(name.to_owned()));
        }
    }
    Ok(())
}

impl Client {
    /// Look a person up by id: the reference every act takes.
    pub fn person_by_id<M: Mint>(&mut self, id: PersonId, rng: &mut M) -> (r: Result<
        PersonEntry,
        Error,
    >)
        ensures
            exists|v: Seq<PersonView>| #[trigger]
                looked(
                    old(self).deep_view(),
                    final(self).deep_view(),
                    v,
                    *old(rng),
                    *final(rng),
                ) && match person_with(v, id.number()) {
                    Ok(p) => r is Ok && r->Ok_0.deep_view() == p,
                    Err(e) => r is Err && r->Err_0.deep_view() == e,
                },
    {
        let all: Vec<PersonEntry> = self.persons(rng);
        find_id(&all, id)
    }

    /// Resolve a label to a person: the human boundary, and the only place
    /// labels resolve.
    pub fn person_by_label<M: Mint>(&mut self, label: &str, rng: &mut M) -> (r: Result<
        PersonEntry,
        Error,
    >)
        ensures
            exists|v: Seq<PersonView>| #[trigger]
                looked(
                    old(self).deep_view(),
                    final(self).deep_view(),
                    v,
                    *old(rng),
                    *final(rng),
                ) && match person_labeled(v, label@) {
                    Ok(p) => r is Ok && r->Ok_0.deep_view() == p,
                    Err(e) => r is Err && r->Err_0.deep_view() == e,
                },
    {
        let all: Vec<PersonEntry> = self.persons(rng);
        find_label(&all, label)
    }

    /// The joint-namespace collision check: a name must not already be
    /// another person's label or a contact petname outside the exempt
    /// person's entries.
    pub fn ensure_label_free<M: Mint>(
        &mut self,
        name: &str,
        exempt: Option<PersonId>,
        rng: &mut M,
    ) -> (r: Result<(), Error>)
        ensures
            exists|v: Seq<PersonView>| #[trigger]
                looked(
                    old(self).deep_view(),
                    final(self).deep_view(),
                    v,
                    *old(rng),
                    *final(rng),
                ) && (r is Ok <==> !taken(v, name@, id_number(exempt))),
            r is Err ==> r->Err_0.deep_view() == ErrorView::PetnameCollision(name@),
    {
        let all: Vec<PersonEntry> = self.persons(rng);
        label_free(&all, name, exempt)
    }
}

pub open spec fn id_number(o: Option<PersonId>) -> Option<u128> {
    match o {
        Some(id) => Some(id.number()),
        None => None,
    }
}

// ---- acts ----

/// Relabeling a person among some, or why it is refused.
pub open spec fn relabeled(
    c: ClientView,
    v: Seq<PersonView>,
    p: PersonView,
    label: Seq<char>,
) -> Result<ClientView, ErrorView> {
    if taken(v, label, Some(p.id)) {
        Err(ErrorView::PetnameCollision(label))
    } else {
        Ok(ClientView { persons: with_row(c.persons, p.id, label, stems(p)), ..c })
    }
}

/// Renaming a person among some: refused where nobody has the id or somebody
/// else goes by the name; nothing changes where it is the label already. A
/// rename settles what a sibling's label left open.
pub open spec fn renamed_person(
    c: ClientView,
    v: Seq<PersonView>,
    id: u128,
    name: Seq<char>,
) -> Result<ClientView, ErrorView> {
    match person_with(v, id) {
        Err(e) => Err(e),
        Ok(p) => if name == p.label {
            Ok(c)
        } else {
            settled(c, v, p, name)
        },
    }
}

/// Merging one person into another: `into` keeps its label and id and takes
/// `from`'s entries behind its own.
pub open spec fn merged(c: ClientView, v: Seq<PersonView>, into: u128, from: u128) -> Result<
    ClientView,
    ErrorView,
> {
    match person_with(v, into) {
        Err(e) => Err(e),
        Ok(keep) => match person_with(v, from) {
            Err(e) => Err(e),
            Ok(absorb) => Ok(
                ClientView {
                    persons: without_row(
                        with_row(c.persons, into, keep.label, stems(keep) + stems(absorb)),
                        from,
                    ),
                    ..c
                },
            ),
        },
    }
}

pub open spec fn not_named(petname: Seq<char>) -> spec_fn((Seq<char>, RecordView)) -> bool {
    |e: (Seq<char>, RecordView)| e.0 != petname
}

/// The person a member entry is to be split from, or why it is not.
pub open spec fn splits(v: Seq<PersonView>, petname: Seq<char>) -> Result<PersonView, ErrorView> {
    match first(v, has_member(petname)) {
        None => Err(no_contact_named(petname)),
        Some(source) => if source.members.len() == 1 {
            Err(ErrorView::InvalidInput("already its own person — nothing to split"@))
        } else if source.label == petname || some(v, labeled_else(petname, source.id)) {
            Err(ErrorView::PetnameCollision(petname))
        } else {
            Ok(source)
        },
    }
}

/// A member entry split out to a person of its own, labeled by its petname.
pub open spec fn split_off(c: ClientView, source: PersonView, petname: Seq<char>, id: u128) -> ClientView {
    let kept = source.members.filter(not_named(petname)).filter_map(entry_stem());
    let out = source.members.filter(named(petname)).filter_map(entry_stem());
    ClientView {
        persons: with_row(
            with_row(c.persons, source.id, source.label, kept),
            id,
            petname,
            out,
        ),
        ..c
    }
}

pub open spec fn labeled_else(label: Seq<char>, id: u128) -> spec_fn(PersonView) -> bool {
    |p: PersonView| p.id != id && p.label == label
}

impl Client {
    /// Gives a person a label, where nobody else of all goes by it.
    pub(crate) fn relabel(&mut self, all: &Vec<PersonEntry>, person: &PersonEntry, label: &str) -> (r:
        Result<(), Error>)
        ensures
            match relabeled(
                old(self).deep_view(),
                all.deep_view(),
                person.deep_view(),
                label@,
            ) {
                Ok(c) => r is Ok && final(self).deep_view() == c,
                Err(e) => r is Err && r->Err_0.deep_view() == e && final(self).deep_view() == old(
                    self,
                ).deep_view(),
            },
    {
        match label_free(all, label, Some(person.id)) {
            Ok(()) => {
                let members: Vec<PublicKey> = person.member_stems();
                self.save_person(person.id.to_storage(), label, &members);
                Ok(())
            },
            Err(e) => Err(e),
        }
    }

    /// Gives a person a label, where nobody else goes by it.
    pub fn set_person_label<M: Mint>(
        &mut self,
        person: &PersonEntry,
        label: &str,
        rng: &mut M,
    ) -> (r: Result<(), Error>)
        ensures
            exists|d: ClientView, v: Seq<PersonView>| #[trigger]
                looked(old(self).deep_view(), d, v, *old(rng), *final(rng)) && match relabeled(
                    d,
                    v,
                    person.deep_view(),
                    label@,
                ) {
                    Ok(c) => r is Ok && final(self).deep_view() == c,
                    Err(e) => r is Err && r->Err_0.deep_view() == e && final(self).deep_view() == d,
                },
    {
        let all: Vec<PersonEntry> = self.persons(rng);
        self.relabel(&all, person, label)
    }

    /// Rename a person: the addressing label. Refuses a blank name, and a
    /// collision with any other person label or contact petname, except its
    /// own members'.
    pub fn rename_person<M: Mint>(&mut self, id: PersonId, new: &str, rng: &mut M) -> (r: Result<
        (),
        Error,
    >)
        ensures
            if trimmed(new@).len() == 0 {
                &&& r is Err
                &&& r->Err_0.deep_view() == ErrorView::InvalidInput("person label cannot be empty"@)
                &&& final(self).deep_view() == old(self).deep_view()
                &&& *final(rng) == *old(rng)
            } else {
                exists|d: ClientView, v: Seq<PersonView>| #[trigger]
                    looked(
                        old(self).deep_view(),
                        d,
                        v,
                        *old(rng),
                        *final(rng),
                    ) && match renamed_person(d, v, id.number(), trimmed(new@)) {
                        Ok(c) => r is Ok && final(self).deep_view() == c,
                        Err(e) => r is Err && r->Err_0.deep_view() == e && final(self).deep_view()
                            == d,
                    }
            },
    {
        let name: String = trim(new);
        if name.as_str().is_empty() {
            return Err(Error::InvalidInput("person label cannot be empty".to_owned()));
        }
        let all: Vec<PersonEntry> = self.persons(rng);
        let person: PersonEntry = match find_id(&all, id) {
            Ok(p) => p,
            Err(e) => {
                return Err(e);
            },
        };
        if same_text(&person.label, name.as_str()) {
            return Ok(());
        }
        self.settle_among(&all, &person, name.as_str())
    }

    /// Merge one person into another: the explicit clustering act.
    pub fn merge_persons<M: Mint>(&mut self, into: PersonId, from: PersonId, rng: &mut M) -> (r: Result<
        PersonEntry,
        Error,
    >)
        ensures
            if into.number() == from.number() {
                &&& r is Err
                &&& r->Err_0.deep_view() == ErrorView::InvalidInput(
                    "cannot merge a person into itself"@,
                )
                &&& final(self).deep_view() == old(self).deep_view()
                &&& *final(rng) == *old(rng)
            } else {
                exists|d: ClientView, v: Seq<PersonView>| #[trigger]
                    looked(
                        old(self).deep_view(),
                        d,
                        v,
                        *old(rng),
                        *final(rng),
                    ) && match merged(d, v, into.number(), from.number()) {
                        Ok(c) => final(self).deep_view() == c && match person_with(
                            people(c),
                            into.number(),
                        ) {
                            Ok(p) => r is Ok && r->Ok_0.deep_view() == p,
                            Err(e) => r is Err && r->Err_0.deep_view() == e,
                        },
                        Err(e) => r is Err && r->Err_0.deep_view() == e && final(self).deep_view()
                            == d,
                    }
            },
    {
        proof {
            lemma_id_number(into, from);
        }
        if into == from {
            return Err(Error::InvalidInput("cannot merge a person into itself".to_owned()));
        }
        let all: Vec<PersonEntry> = self.persons(rng);
        let keep: PersonEntry = match find_id(&all, into) {
            Ok(p) => p,
            Err(e) => {
                return Err(e);
            },
        };
        let absorb: PersonEntry = match find_id(&all, from) {
            Ok(p) => p,
            Err(e) => {
                return Err(e);
            },
        };
        let mut members: Vec<PublicKey> = keep.member_stems();
        let more: Vec<PublicKey> = absorb.member_stems();
        crate::trust::append_copies(&mut members, &more);
        self.save_person(into.to_storage(), keep.label.as_str(), &members);
        self.remove_person(from.to_storage());
        find_id(&self.stored_people(), into)
    }

    /// Split a member entry back out to its own person, labeled by its
    /// petname: the undo of a merge.
    pub fn split_person<M: Mint>(&mut self, member_petname: &str, rng: &mut M) -> (r: Result<
        PersonEntry,
        Error,
    >)
        ensures
            exists|d: ClientView, v: Seq<PersonView>, mid: M| #[trigger]
                looked(old(self).deep_view(), d, v, *old(rng), mid) && match splits(
                    v,
                    member_petname@,
                ) {
                    Err(e) => {
                        &&& r is Err
                        &&& r->Err_0.deep_view() == e
                        &&& final(self).deep_view() == d
                        &&& *final(rng) == mid
                    },
                    Ok(source) => exists|id: u128| #[trigger]
                        M::gives(mid, *final(rng), id) && final(self).deep_view() == split_off(
                            d,
                            source,
                            member_petname@,
                            id,
                        ) && match person_with(people(final(self).deep_view()), id) {
                            Ok(p) => r is Ok && r->Ok_0.deep_view() == p,
                            Err(e) => r is Err && r->Err_0.deep_view() == e,
                        },
                },
    {
        let all: Vec<PersonEntry> = self.persons(rng);
        let ghost d = self.deep_view();
        let ghost s = all.deep_view();
        let ghost mid = *rng;
        let at: usize = match find_person_with(&all, member_petname) {
            Some(i) => i,
            None => {
                return Err(unknown_petname(member_petname));
            },
        };
        let source: &PersonEntry = &all[at];
        assert(s[at as int] == source.deep_view());
        if source.members.len() == 1 {
            return Err(
                Error::InvalidInput("already its own person — nothing to split".to_owned()),
            );
        }
        if same_text(&source.label, member_petname) || label_elsewhere(
            &all,
            member_petname,
            source.id,
        ) {
            return Err(Error::PetnameCollision(member_petname.to_owned()));
        }
        let (kept, out): (Vec<(String, ContactRecord)>, Vec<(String, ContactRecord)>) = partition(
            &source.members,
            member_petname,
        );
        let kept_stems: Vec<PublicKey> = stems_of(&kept);
        let out_stems: Vec<PublicKey> = stems_of(&out);
        self.save_person(source.id.to_storage(), source.label.as_str(), &kept_stems);
        let id: PersonId = PersonId::mint(rng);
        self.save_person(id.to_storage(), member_petname, &out_stems);
        assert(M::gives(mid, *rng, id.number()));
        assert(splits(s, member_petname@) == Ok::<PersonView, ErrorView>(source.deep_view()));
        find_id(&self.stored_people(), id)
    }

    /// Resolve a name to send-ready recipients: the person layer first, one
    /// contact per member entry; else the entry with that petname alone.
    pub fn resolve_person<M: Mint>(&mut self, name: &str, rng: &mut M) -> (r: Result<
        Vec<Contact>,
        Error,
    >)
        ensures
            exists|v: Seq<PersonView>| #[trigger]
                looked(
                    old(self).deep_view(),
                    final(self).deep_view(),
                    v,
                    *old(rng),
                    *final(rng),
                ) && match addressees(final(self).deep_view(), v, name@) {
                    Ok(s) => r is Ok && r->Ok_0.deep_view() == s,
                    Err(e) => r is Err && r->Err_0.deep_view() == e,
                },
    {
        let all: Vec<PersonEntry> = self.persons(rng);
        match find_label(&all, name) {
            Ok(person) => {
                let ghost s = person.members.deep_view();
                let ghost f = recipient_of(self.deep_view());
                let ghost now = *self;
                let mut out: Vec<Contact> = Vec::new();
                assert(out.deep_view() =~= s.take(0).map_values(f));
                for i in 0..person.members.len()
                    invariant
                        s == person.members.deep_view(),
                        *self == now,
                        f == recipient_of(self.deep_view()),
                        out.deep_view() == s.take(i as int).map_values(f),
                {
                    proof {
                        lemma_map_step(s, f, i as int);
                    }
                    let ghost before = out.deep_view();
                    out.push(self.contact_from(&person.members[i].1));
                    assert(out.deep_view() =~= before.push(f(s[i as int])));
                }
                proof {
                    lemma_take_all(s);
                }
                Ok(out)
            },
            Err(Error::NotAContact(_)) => match self.resolve_contact(name) {
                Ok(contact) => {
                    let mut out: Vec<Contact> = Vec::new();
                    out.push(contact);
                    assert(out.deep_view() =~= seq![contact.deep_view()]);
                    Ok(out)
                },
                Err(e) => Err(e),
            },
            Err(e) => Err(e),
        }
    }
}

/// Whom a name addresses, among some persons: the entries of the one person
/// with that label, else the entry with that petname alone.
pub open spec fn addressees(c: ClientView, v: Seq<PersonView>, name: Seq<char>) -> Result<
    Seq<ContactView>,
    ErrorView,
> {
    match person_labeled(v, name) {
        Ok(p) => Ok(p.members.map_values(recipient_of(c))),
        Err(e) => if e is NotAContact {
            match crate::relays::addressee(c, name) {
                Ok(x) => Ok(seq![x]),
                Err(x) => Err(x),
            }
        } else {
            Err(e)
        },
    }
}

pub open spec fn recipient_of(c: ClientView) -> spec_fn((Seq<char>, RecordView)) -> ContactView {
    |e: (Seq<char>, RecordView)| recipient(c, e.1)
}

pub(crate) fn find_person_with(all: &Vec<PersonEntry>, petname: &str) -> (r: Option<usize>)
    ensures
        match r {
            Some(i) => i < all.len() && first(all.deep_view(), has_member(petname@)) == Some(
                all.deep_view()[i as int],
            ),
            None => first(all.deep_view(), has_member(petname@)) is None,
        },
{
    let ghost s = all.deep_view();
    let ghost p = has_member(petname@);
    for i in 0..all.len()
        invariant
            s == all.deep_view(),
            p == has_member(petname@),
            first(s.take(i as int), p) is None,
    {
        proof {
            lemma_first_step(s, p, i as int);
        }
        if member_named(&all[i].members, petname) {
            proof {
                lemma_first_found(s, p, i + 1);
            }
            return Some(i);
        }
    }
    proof {
        lemma_take_all(s);
    }
    None
}

fn label_elsewhere(all: &Vec<PersonEntry>, label: &str, id: PersonId) -> (r: bool)
    ensures
        r == some(all.deep_view(), labeled_else(label@, id.number())),
{
    let ghost s = all.deep_view();
    let ghost p = labeled_else(label@, id.number());
    for i in 0..all.len()
        invariant
            s == all.deep_view(),
            p == labeled_else(label@, id.number()),
            forall|k: int| 0 <= k < i ==> !p(#[trigger] s[k]),
    {
        proof {
            lemma_id_number(all[i as int].id, id);
        }
        let hit: bool = !(all[i].id == id) && same_text(&all[i].label, label);
        assert(hit == p(s[i as int]));
        if hit {
            return true;
        }
    }
    false
}

/// The entries not under a petname, and those under it.
fn partition(members: &Vec<(String, ContactRecord)>, petname: &str) -> (r: (
    Vec<(String, ContactRecord)>,
    Vec<(String, ContactRecord)>,
))
    ensures
        r.0.deep_view() == members.deep_view().filter(not_named(petname@)),
        r.1.deep_view() == members.deep_view().filter(named(petname@)),
{
    let ghost s = members.deep_view();
    let ghost p = not_named(petname@);
    let ghost q = named(petname@);
    let mut kept: Vec<(String, ContactRecord)> = Vec::new();
    let mut out: Vec<(String, ContactRecord)> = Vec::new();
    proof {
        reveal(Seq::filter);
        assert(kept.deep_view() =~= s.take(0).filter(p));
        assert(out.deep_view() =~= s.take(0).filter(q));
    }
    for i in 0..members.len()
        invariant
            s == members.deep_view(),
            p == not_named(petname@),
            q == named(petname@),
            kept.deep_view() == s.take(i as int).filter(p),
            out.deep_view() == s.take(i as int).filter(q),
    {
        proof {
            lemma_filter_step(s, p, i as int);
            lemma_filter_step(s, q, i as int);
        }
        if same_text(&members[i].0, petname) {
            let ghost before = out.deep_view();
            out.push(members[i].duplicate());
            assert(out.deep_view() =~= before.push(s[i as int]));
        } else {
            let ghost before = kept.deep_view();
            kept.push(members[i].duplicate());
            assert(kept.deep_view() =~= before.push(s[i as int]));
        }
    }
    proof {
        lemma_take_all(s);
    }
    (kept, out)
}

// ---- healing ----

/// An entry no row claims.
pub open spec fn is_unclaimed(c: ClientView) -> spec_fn((Seq<char>, RecordView)) -> bool {
    |e: (Seq<char>, RecordView)|
        match stem(e.1) {
            Some(k) => !claimed(c, c.persons).contains(k),
            None => false,
        }
}

/// The entries no row claims.
pub open spec fn unclaimed(c: ClientView) -> Seq<(Seq<char>, RecordView)> {
    c.contacts.filter(is_unclaimed(c))
}

/// Every contact entry belongs to a person.
pub open spec fn eager(c: ClientView) -> bool {
    forall|i: int|
        0 <= i < c.contacts.len() && stem((#[trigger] c.contacts[i]).1) is Some ==> claimed(
            c,
            c.persons,
        ).contains(stem(c.contacts[i].1)->0)
}

/// Rows with one minted per unclaimed entry, labeled by its petname.
pub open spec fn minted(
    rows: Seq<PersonRowView>,
    pending: Seq<(Seq<char>, RecordView)>,
    tokens: Seq<u128>,
) -> Seq<PersonRowView>
    decreases pending.len(),
{
    if pending.len() == 0 {
        rows
    } else {
        with_row(
            minted(rows, pending.drop_last(), tokens),
            tokens[pending.len() - 1],
            pending.last().0,
            seq![stem(pending.last().1)->0],
        )
    }
}

/// The client with a row for every entry that had none.
pub open spec fn healed(c: ClientView, tokens: Seq<u128>) -> ClientView {
    ClientView { persons: minted(c.persons, unclaimed(c), tokens), ..c }
}

/// The person of an entry that had none.
pub open spec fn newcomer(e: (Seq<char>, RecordView), id: u128) -> PersonView {
    PersonView { id, label: e.0, members: seq![e] }
}

/// The persons of the entries that had none.
pub open spec fn newcomers(entries: Seq<(Seq<char>, RecordView)>, tokens: Seq<u128>) -> Seq<PersonView> {
    Seq::new(entries.len(), |i: int| newcomer(entries[i], tokens[i]))
}

/// Every person this client believes in, by label: the rows' own, and one for
/// each entry no row claims.
pub open spec fn believed(c: ClientView, tokens: Seq<u128>) -> Seq<PersonView> {
    sorted(people_by_row(c) + newcomers(unclaimed(c), tokens), by_label())
}

/// A look at the people: what it shows, and the client and the mint after it.
/// Every entry no row claims has had a row minted, from as many tokens in
/// turn.
pub open spec fn looked<M: Mint>(
    c: ClientView,
    d: ClientView,
    v: Seq<PersonView>,
    before: M,
    after: M,
) -> bool {
    exists|tokens: Seq<u128>| #[trigger]
        gave(before, after, tokens) && tokens.len() == unclaimed(c).len() && d == healed(c, tokens)
            && v == believed(c, tokens)
}

impl Client {
    /// The entries no row claims.
    pub fn unclaimed_entries(&self) -> (r: Vec<(String, ContactRecord)>)
        ensures
            r.deep_view() == unclaimed(self.deep_view()),
    {
        let ghost c = self.deep_view();
        let ghost rows = c.persons;
        let mut taken: Vec<PublicKey> = Vec::new();
        proof {
            assert(taken.deep_view() =~= Seq::<PublicKey>::empty());
            assert(taken.deep_view().to_set() =~= claimed(c, rows.take(0)));
        }
        for i in 0..self.persons.len()
            invariant
                c == self.deep_view(),
                rows == c.persons,
                ascending::<PublicKey>(taken.deep_view()),
                taken.deep_view().to_set() == claimed(c, rows.take(i as int)),
        {
            proof {
                lemma_take_step(rows, i as int);
            }
            self.claim_row(&self.persons[i], &mut taken, Ghost(rows.take(i as int)));
        }
        proof {
            lemma_take_all(rows);
        }
        let ghost s = c.contacts;
        let ghost p = is_unclaimed(c);
        let mut out: Vec<(String, ContactRecord)> = Vec::new();
        proof {
            reveal(Seq::filter);
            assert(out.deep_view() =~= s.take(0).filter(p));
        }
        for i in 0..self.contacts.len()
            invariant
                c == self.deep_view(),
                s == c.contacts,
                p == is_unclaimed(c),
                taken.deep_view().to_set() == claimed(c, c.persons),
                out.deep_view() == s.take(i as int).filter(p),
        {
            proof {
                lemma_filter_step(s, p, i as int);
                assert(s[i as int] == self.contacts@[i as int].deep_view());
            }
            match self.contacts[i].1.first_key() {
                Some(k) => {
                    assert(taken.deep_view().to_set().contains(k) == taken.deep_view().contains(k));
                    if !holds(&taken, &k) {
                        let ghost before = out.deep_view();
                        out.push(self.contacts[i].duplicate());
                        assert(out.deep_view() =~= before.push(s[i as int]));
                    }
                },
                None => {},
            }
        }
        proof {
            lemma_take_all(s);
        }
        out
    }

    /// Mints a row for every entry no row claims: a crash gap, or a store
    /// from before rows were made with their entry. `tokens` are the fresh
    /// ids.
    pub fn heal_persons(&mut self, tokens: &Vec<u128>)
        requires
            tokens.len() >= unclaimed(old(self).deep_view()).len(),
        ensures
            final(self).deep_view() == healed(old(self).deep_view(), tokens@),
    {
        let ghost c = self.deep_view();
        let pending: Vec<(String, ContactRecord)> = self.unclaimed_entries();
        let ghost s = pending.deep_view();
        proof {
            lemma_filter(c.contacts, is_unclaimed(c));
        }
        for i in 0..pending.len()
            invariant
                s == pending.deep_view(),
                s == unclaimed(c),
                forall|j: int| 0 <= j < s.len() ==> is_unclaimed(c)(#[trigger] s[j]),
                tokens.len() >= s.len(),
                self.deep_view() == (ClientView {
                    persons: minted(c.persons, s.take(i as int), tokens@),
                    ..c
                }),
        {
            proof {
                lemma_take_step(s, i as int);
                assert(s[i as int] == pending@[i as int].deep_view());
                assert(is_unclaimed(c)(s[i as int]));
            }
            match pending[i].1.first_key() {
                Some(k) => {
                    let mut member: Vec<PublicKey> = Vec::new();
                    member.push(k);
                    assert(member.deep_view() =~= seq![stem(s[i as int].1)->0]);
                    self.save_person(tokens[i], pending[i].0.as_str(), &member);
                },
                None => {},
            }
        }
        proof {
            lemma_take_all(s);
        }
    }

    /// Heals with freshly minted ids, in turn.
    pub fn heal<M: Mint>(&mut self, rng: &mut M)
        ensures
            exists|tokens: Seq<u128>| #[trigger]
                gave(*old(rng), *final(rng), tokens) && tokens.len() == unclaimed(
                    old(self).deep_view(),
                ).len() && final(self).deep_view() == healed(old(self).deep_view(), tokens),
    {
        let pending: Vec<(String, ContactRecord)> = self.unclaimed_entries();
        assert(pending.deep_view().len() == pending.len());
        let tokens: Vec<u128> = tokens_of(rng, pending.len());
        self.heal_persons(&tokens);
    }

    /// Every person this client believes in, label-sorted. Members whose
    /// entry is gone drop out, an emptied person hides, a key two rows claim
    /// renders under the first row only, and an entry no row claims gets its
    /// row minted on sight.
    pub fn persons<M: Mint>(&mut self, rng: &mut M) -> (r: Vec<PersonEntry>)
        ensures
            looked(
                old(self).deep_view(),
                final(self).deep_view(),
                r.deep_view(),
                *old(rng),
                *final(rng),
            ),
    {
        let ghost c = self.deep_view();
        let pending: Vec<(String, ContactRecord)> = self.unclaimed_entries();
        let mut out: Vec<PersonEntry> = self.by_row();
        let ghost base = out.deep_view();
        let ghost s = pending.deep_view();
        assert(pending.deep_view().len() == pending.len());
        let tokens: Vec<u128> = tokens_of(rng, pending.len());
        self.heal_persons(&tokens);
        let ghost n = newcomers(s, tokens@);
        assert(out.deep_view() =~= base + n.take(0));
        for i in 0..pending.len()
            invariant
                s == pending.deep_view(),
                tokens.len() == pending.len(),
                n == newcomers(s, tokens@),
                out.deep_view() == base + n.take(i as int),
        {
            let entry: (String, ContactRecord) = pending[i].duplicate();
            let label: String = entry.0.clone();
            let mut members: Vec<(String, ContactRecord)> = Vec::new();
            members.push(entry);
            proof {
                assert(s[i as int] == pending@[i as int].deep_view());
                assert(members.deep_view() =~= seq![s[i as int]]);
                lemma_take_step(n, i as int);
            }
            let ghost before = out.deep_view();
            out.push(PersonEntry { id: PersonId::from_storage(tokens[i]), label, members });
            assert(out.deep_view() =~= before.push(n[i as int]));
            assert(out.deep_view() =~= base + n.take(i + 1));
        }
        proof {
            lemma_take_all(n);
        }
        sort_stably(&mut out, label_before, Ghost(by_label()));
        assert(out.deep_view() == believed(c, tokens@));
        out
    }

    /// The row claiming one contact entry: the companion of an add. The label
    /// starts as the petname; they are independent facts from here on.
    pub fn claim_entry(&mut self, petname: &str, stem: PublicKey, id: PersonId)
        ensures
            final(self).deep_view() == (ClientView {
                persons: with_row(
                    old(self).deep_view().persons,
                    id.number(),
                    petname@,
                    seq![stem],
                ),
                ..old(self).deep_view()
            }),
    {
        let mut member: Vec<PublicKey> = Vec::new();
        member.push(stem);
        assert(member.deep_view() =~= seq![stem]);
        self.save_person(id.to_storage(), petname, &member);
    }
}

// ---- laws ----

/// No entry renders under two persons: a key an earlier row claims is none of
/// a later row's.
pub proof fn law_no_entry_under_two_rows(c: ClientView, i: int, j: int, a: int, b: int)
    requires
        0 <= i < j < c.persons.len(),
        0 <= a < row_members(c, c.persons[i], claimed(c, c.persons.take(i))).len(),
        0 <= b < row_members(c, c.persons[j], claimed(c, c.persons.take(j))).len(),
    ensures
        stem(row_members(c, c.persons[i], claimed(c, c.persons.take(i)))[a].1) != stem(
            row_members(c, c.persons[j], claimed(c, c.persons.take(j)))[b].1,
        ),
{
    let k = lemma_row_member(c, c.persons[i], claimed(c, c.persons.take(i)), a);
    let l = lemma_row_member(c, c.persons[j], claimed(c, c.persons.take(j)), b);
    if k == l {
        let rows = c.persons.take(j);
        assert(rows[i].members.contains(k));
        assert(claimed(c, rows).contains(k));
    }
}

/// A row's entry comes from one of its members, unclaimed before.
proof fn lemma_row_member(c: ClientView, row: PersonRowView, before: Set<PublicKey>, a: int) -> (k:
    PublicKey)
    requires
        0 <= a < row_members(c, row, before).len(),
    ensures
        row.members.contains(k),
        !before.contains(k),
        entry_for(c)(k) == Some(row_members(c, row, before)[a]),
        stem(row_members(c, row, before)[a].1) == Some(k),
{
    let kept = row.members.filter(outside(before));
    let m = row_members(c, row, before);
    lemma_filter(row.members, outside(before));
    assert(m.contains(m[a]));
    kept.lemma_filter_map_contains(entry_for(c), m[a]);
    let t = choose|t: int| 0 <= t < kept.len() && entry_for(c)(#[trigger] kept[t]) == Some(m[a]);
    let k = kept[t];
    lemma_first(c.contacts, stemmed(k));
    assert(outside(before)(kept[t]));
    assert(row.members.contains(kept[t]));
    k
}

/// Every contact entry renders: the entry of each claimed key is a member of
/// some person.
pub proof fn law_every_entry_renders(c: ClientView, k: PublicKey)
    requires
        claimed(c, c.persons).contains(k),
    ensures
        exists|p: PersonView| #[trigger]
            people(c).contains(p) && p.members.contains(entry_for(c)(k)->0),
{
    let p = lemma_owner(c, k);
    assert(people(c).contains(p) && p.members.contains(entry_for(c)(k)->0));
}

/// The first of the first `n` rows that claims a key.
proof fn lemma_first_claim(c: ClientView, rows: Seq<PersonRowView>, k: PublicKey, n: int) -> (i: int)
    requires
        0 <= n <= rows.len(),
        claimed(c, rows.take(n)).contains(k),
    ensures
        0 <= i < n,
        rows[i].members.contains(k),
        !claimed(c, rows.take(i)).contains(k),
    decreases n,
{
    let t = rows.take(n);
    let j = choose|j: int| 0 <= j < t.len() && #[trigger] t[j].members.contains(k);
    if claimed(c, rows.take(j)).contains(k) {
        lemma_first_claim(c, rows, k, j)
    } else {
        j
    }
}

/// A label that its file gives back: one line, not blank, without white space
/// at its ends.
pub open spec fn storable(label: Seq<char>) -> bool {
    crate::format::plain(label) && crate::text::is_trim(label) && label.len() > 0
}

/// Fresh ids: none is a row's, and none comes twice.
pub open spec fn fresh(rows: Seq<PersonRowView>, tokens: Seq<u128>) -> bool {
    &&& tokens.no_duplicates()
    &&& forall|i: int, j: int|
        0 <= i < rows.len() && 0 <= j < tokens.len() ==> (#[trigger] rows[i]).id != #[trigger] tokens[j]
}

/// Healing leaves no entry without a person: every entry no row claimed gets
/// one.
pub proof fn law_healing_is_complete(c: ClientView, tokens: Seq<u128>)
    requires
        tokens.len() == unclaimed(c).len(),
        fresh(c.persons, tokens),
        forall|j: int| 0 <= j < unclaimed(c).len() ==> storable((#[trigger] unclaimed(c)[j]).0),
    ensures
        eager(healed(c, tokens)),
{
    let pending = unclaimed(c);
    let rows = minted(c.persons, pending, tokens);
    let d = ClientView { persons: rows, ..c };
    lemma_filter(c.contacts, is_unclaimed(c));
    lemma_minted(c.persons, pending, tokens);
    assert forall|i: int| 0 <= i < d.contacts.len() && stem((#[trigger] d.contacts[i]).1) is Some implies claimed(
        d,
        d.persons,
    ).contains(stem(d.contacts[i].1)->0) by {
        let k = stem(d.contacts[i].1)->0;
        lemma_first(d.contacts, stemmed(k));
        assert(stemmed(k)(d.contacts[i]));
        assert(entry_for(d)(k) is Some);
        assert(entry_for(c)(k) is Some);
        if claimed(c, c.persons).contains(k) {
            let a = choose|a: int|
                0 <= a < c.persons.len() && #[trigger] c.persons[a].members.contains(k);
            assert(c.persons.contains(c.persons[a]));
            let b = choose|b: int| 0 <= b < rows.len() && rows[b] == c.persons[a];
            assert(rows[b].members.contains(k));
        } else {
            assert(is_unclaimed(c)(c.contacts[i]));
            let j = choose|j: int| 0 <= j < pending.len() && pending[j] == c.contacts[i];
            assert(holds_member(rows, stem(pending[j].1)->0));
            let b = choose|b: int| 0 <= b < rows.len() && #[trigger] rows[b].members.contains(k);
            assert(rows[b].members.contains(k));
        }
    }
}

/// Some row has a member.
pub open spec fn holds_member(rows: Seq<PersonRowView>, k: PublicKey) -> bool {
    exists|b: int| 0 <= b < rows.len() && #[trigger] rows[b].members.contains(k)
}

proof fn lemma_minted(rows: Seq<PersonRowView>, pending: Seq<(Seq<char>, RecordView)>, tokens: Seq<u128>)
    requires
        tokens.len() == pending.len(),
        fresh(rows, tokens),
        forall|j: int| 0 <= j < pending.len() ==> storable((#[trigger] pending[j]).0),
    ensures
        forall|r: PersonRowView| #[trigger]
            rows.contains(r) ==> minted(rows, pending, tokens).contains(r),
        forall|j: int|
            0 <= j < pending.len() ==> holds_member(
                minted(rows, pending, tokens),
                stem((#[trigger] pending[j]).1)->0,
            ),
        forall|r: PersonRowView| #[trigger]
            minted(rows, pending, tokens).contains(r) ==> rows.contains(r) || tokens.contains(r.id),
    decreases pending.len(),
{
    if pending.len() > 0 {
        let n = pending.len() - 1;
        let before = pending.drop_last();
        let fewer = tokens.take(n);
        assert forall|j: int| 0 <= j < before.len() implies storable((#[trigger] before[j]).0) by {
            assert(before[j] == pending[j]);
        }
        assert(fresh(rows, fewer)) by {
            assert forall|i: int, j: int| 0 <= i < rows.len() && 0 <= j < fewer.len() implies (
            #[trigger] rows[i]).id != #[trigger] fewer[j] by {
                assert(fewer[j] == tokens[j]);
            }
        }
        lemma_minted(rows, before, fewer);
        lemma_minted_prefix(rows, before, tokens, fewer);
        let m = minted(rows, before, fewer);
        let label = pending.last().0;
        let k = stem(pending.last().1)->0;
        let tok = tokens[n];
        crate::state::law_person_round_trip(label, seq![k]);
        let row = PersonRowView { id: tok, label, members: seq![k] };
        let kept = without_row(m, tok);
        let now = minted(rows, pending, tokens);
        assert(now == placed(kept, row, by_person_id()));
        lemma_filter(m, other_row(tok));
        assert forall|r: PersonRowView| #[trigger] now.contains(r) <==> (kept.contains(r) || r == row) by {
            crate::order::lemma_placed_contains(kept, row, by_person_id(), r);
        }
        assert forall|r: PersonRowView| #[trigger] m.contains(r) implies kept.contains(r) by {
            if r.id == tok {
                if rows.contains(r) {
                    let a = choose|a: int| 0 <= a < rows.len() && rows[a] == r;
                    assert(rows[a].id != tokens[n]);
                } else {
                    let b = choose|b: int| 0 <= b < fewer.len() && fewer[b] == r.id;
                    assert(tokens[b] == tokens[n]);
                }
            }
            let a = choose|a: int| 0 <= a < m.len() && m[a] == r;
            assert(other_row(tok)(m[a]));
        }
        assert forall|j: int| 0 <= j < pending.len() implies holds_member(now, stem((#[trigger] pending[j]).1)->0) by {
            if j < n {
                assert(before[j] == pending[j]);
                let own = stem(pending[j].1)->0;
                assert(holds_member(m, stem(before[j].1)->0));
                let b = choose|b: int| 0 <= b < m.len() && #[trigger] m[b].members.contains(own);
                assert(m.contains(m[b]));
                assert(now.contains(m[b]));
                let a = choose|a: int| 0 <= a < now.len() && now[a] == m[b];
                assert(now[a].members.contains(own));
            } else {
                assert(now.contains(row));
                let a = choose|a: int| 0 <= a < now.len() && now[a] == row;
                assert(row.members[0] == k);
                assert(now[a].members.contains(k));
            }
        }
        assert forall|r: PersonRowView| #[trigger] now.contains(r) implies rows.contains(r)
            || tokens.contains(r.id) by {
            if r == row {
                assert(tokens[n] == r.id);
            } else {
                let a = choose|a: int| 0 <= a < kept.len() && kept[a] == r;
                assert(m.contains(kept[a]));
                if !rows.contains(r) {
                    let b = choose|b: int| 0 <= b < fewer.len() && fewer[b] == r.id;
                    assert(tokens[b] == r.id);
                }
            }
        }
    }
}

/// Only as many tokens matter as rows are minted.
proof fn lemma_minted_prefix(
    rows: Seq<PersonRowView>,
    pending: Seq<(Seq<char>, RecordView)>,
    a: Seq<u128>,
    b: Seq<u128>,
)
    requires
        pending.len() <= a.len(),
        pending.len() <= b.len(),
        forall|i: int| 0 <= i < pending.len() ==> a[i] == b[i],
    ensures
        minted(rows, pending, a) == minted(rows, pending, b),
    decreases pending.len(),
{
    if pending.len() > 0 {
        lemma_minted_prefix(rows, pending.drop_last(), a, b);
    }
}

// ---- every entry once ----

/// A person one of whose entries is identified by a key.
pub open spec fn has_stem(k: PublicKey) -> spec_fn(PersonView) -> bool {
    |p: PersonView| some(p.members, stemmed(k))
}

/// Entries are filed by key: no two have one.
pub open spec fn keyed_apart(entries: Seq<(Seq<char>, RecordView)>) -> bool {
    forall|i: int, j: int|
        0 <= i < j < entries.len() && stem((#[trigger] entries[i]).1) is Some ==> stem(
            entries[i].1,
        ) != stem((#[trigger] entries[j]).1)
}

proof fn lemma_count_push<V>(s: Seq<V>, x: V, p: spec_fn(V) -> bool)
    ensures
        count_where(s.push(x), p) == count_where(s, p) + if p(x) {
            1nat
        } else {
            0
        },
{
    reveal(Seq::filter);
    assert(s.push(x).drop_last() =~= s);
}

proof fn lemma_count_placed<V>(s: Seq<V>, x: V, before: spec_fn(V, V) -> bool, p: spec_fn(V) -> bool)
    ensures
        count_where(placed(s, x, before), p) == count_where(s.push(x), p),
    decreases s.len(),
{
    if s.len() > 0 && before(x, s.last()) {
        let d = s.drop_last();
        lemma_count_placed(d, x, before, p);
        lemma_count_push(placed(d, x, before), s.last(), p);
        lemma_count_push(d, x, p);
        lemma_count_push(d, s.last(), p);
        assert(d.push(s.last()) =~= s);
        lemma_count_push(s, x, p);
    }
}

proof fn lemma_count_sorted<V>(s: Seq<V>, before: spec_fn(V, V) -> bool, p: spec_fn(V) -> bool)
    ensures
        count_where(sorted(s, before), p) == count_where(s, p),
    decreases s.len(),
{
    if s.len() > 0 {
        let d = s.drop_last();
        lemma_count_sorted(d, before, p);
        lemma_count_placed(sorted(d, before), s.last(), before, p);
        lemma_count_push(sorted(d, before), s.last(), p);
        lemma_count_push(d, s.last(), p);
        assert(d.push(s.last()) =~= s);
    }
}

/// The person of a row has an entry exactly where the row is the first to
/// claim it.
proof fn lemma_row_has(c: ClientView, k: PublicKey, i: int)
    requires
        0 <= i < c.persons.len(),
        entry_for(c)(k) is Some,
    ensures
        (person_at(c)(i) is Some && has_stem(k)(person_at(c)(i)->0)) <==> (
        c.persons[i].members.contains(k) && !claimed(c, c.persons.take(i)).contains(k)),
{
    let row = c.persons[i];
    let before = claimed(c, c.persons.take(i));
    let m = row_members(c, row, before);
    if person_at(c)(i) is Some && has_stem(k)(person_at(c)(i)->0) {
        let a = choose|a: int| 0 <= a < m.len() && stemmed(k)(#[trigger] m[a]);
        let l = lemma_row_member(c, row, before, a);
        assert(l == k);
    }
    if row.members.contains(k) && !before.contains(k) {
        let kept = row.members.filter(outside(before));
        lemma_filter(row.members, outside(before));
        let t = choose|t: int| 0 <= t < row.members.len() && row.members[t] == k;
        assert(outside(before)(row.members[t]));
        let u = choose|u: int| 0 <= u < kept.len() && kept[u] == k;
        crate::seqs::lemma_filter_map_has(kept, entry_for(c), u);
        let e = entry_for(c)(k)->0;
        lemma_first(c.contacts, stemmed(k));
        let a = choose|a: int| 0 <= a < m.len() && m[a] == e;
        assert(stemmed(k)(m[a]));
    }
}

/// Of the first rows' persons, one has an entry that these rows claim, and
/// none has another.
proof fn lemma_rows_count(c: ClientView, k: PublicKey, n: int)
    requires
        0 <= n <= c.persons.len(),
        entry_for(c)(k) is Some,
    ensures
        count_where(
            crate::evidence::indices(c.persons.len()).take(n).filter_map(person_at(c)),
            has_stem(k),
        ) == if claimed(c, c.persons.take(n)).contains(k) {
            1nat
        } else {
            0
        },
    decreases n,
{
    let ix = crate::evidence::indices(c.persons.len());
    let f = person_at(c);
    let p = has_stem(k);
    let rows = c.persons;
    if n == 0 {
        assert(ix.take(0).filter_map(f) =~= Seq::<PersonView>::empty());
        reveal(Seq::filter);
        assert(!claimed(c, rows.take(0)).contains(k));
    } else {
        let i = n - 1;
        lemma_rows_count(c, k, i);
        lemma_row_has(c, k, i);
        lemma_filter_map_step(ix, f, i);
        assert(ix[i] == i);
        if f(i) is Some {
            lemma_count_push(ix.take(i).filter_map(f), f(i)->0, p);
        }
        let fewer = rows.take(i);
        let more = rows.take(n);
        assert(claimed(c, more).contains(k) <==> claimed(c, fewer).contains(k)
            || rows[i].members.contains(k)) by {
            if claimed(c, more).contains(k) {
                let a = choose|a: int| 0 <= a < more.len() && #[trigger] more[a].members.contains(k);
                if a < i {
                    assert(fewer[a].members.contains(k));
                }
            }
            if claimed(c, fewer).contains(k) {
                let a = choose|a: int|
                    0 <= a < fewer.len() && #[trigger] fewer[a].members.contains(k);
                assert(more[a].members.contains(k));
            }
            if rows[i].members.contains(k) {
                assert(more[i].members.contains(k));
            }
        }
    }
}

spec fn same_stem() -> spec_fn((Seq<char>, RecordView), (Seq<char>, RecordView)) -> bool {
    |a: (Seq<char>, RecordView), b: (Seq<char>, RecordView)|
        stem(a.1) is Some && stem(a.1) == stem(b.1)
}

proof fn lemma_filter_apart(s: Seq<(Seq<char>, RecordView)>, p: spec_fn((Seq<char>, RecordView)) -> bool)
    requires
        keyed_apart(s),
    ensures
        keyed_apart(s.filter(p)),
{
    assert forall|i: int, j: int| 0 <= i < j < s.len() implies !same_stem()(
        #[trigger] s[i],
        #[trigger] s[j],
    ) by {}
    lemma_apart_filter(s, same_stem(), p);
    let f = s.filter(p);
    assert forall|i: int, j: int| 0 <= i < j < f.len() && stem((#[trigger] f[i]).1) is Some implies stem(
        f[i].1,
    ) != stem((#[trigger] f[j]).1) by {
        assert(!same_stem()(f[i], f[j]));
    }
}

/// Entries stay filed by key: dropping some and storing one under a key none
/// of the rest has keeps them so.
pub proof fn lemma_entries_apart(
    s: Seq<(Seq<char>, RecordView)>,
    p: spec_fn((Seq<char>, RecordView)) -> bool,
    x: (Seq<char>, RecordView),
    before: spec_fn((Seq<char>, RecordView), (Seq<char>, RecordView)) -> bool,
)
    requires
        keyed_apart(s),
        forall|i: int|
            0 <= i < s.len() && p(#[trigger] s[i]) ==> stem(s[i].1) != stem(x.1) || stem(x.1) is None,
    ensures
        keyed_apart(s.filter(p)),
        keyed_apart(placed(s.filter(p), x, before)),
{
    lemma_filter_apart(s, p);
    lemma_filter(s, p);
    let f = s.filter(p);
    assert forall|i: int, j: int| 0 <= i < j < f.len() implies !same_stem()(
        #[trigger] f[i],
        #[trigger] f[j],
    ) by {}
    assert forall|i: int| 0 <= i < f.len() implies !same_stem()(#[trigger] f[i], x) && !same_stem()(
        x,
        f[i],
    ) by {
        assert(s.contains(f[i]));
        let a = choose|a: int| 0 <= a < s.len() && s[a] == f[i];
        assert(p(s[a]));
    }
    lemma_apart_placed(f, x, before, same_stem());
    let now = placed(f, x, before);
    assert forall|i: int, j: int| 0 <= i < j < now.len() && stem((#[trigger] now[i]).1) is Some implies stem(
        now[i].1,
    ) != stem((#[trigger] now[j]).1) by {
        assert(!same_stem()(now[i], now[j]));
    }
}

proof fn lemma_newcomers_count(s: Seq<(Seq<char>, RecordView)>, tokens: Seq<u128>, k: PublicKey)
    requires
        keyed_apart(s),
    ensures
        count_where(newcomers(s, tokens), has_stem(k)) == if some(s, stemmed(k)) {
            1nat
        } else {
            0
        },
    decreases s.len(),
{
    let n = newcomers(s, tokens);
    let p = has_stem(k);
    if s.len() == 0 {
        reveal(Seq::filter);
    } else {
        let d = s.drop_last();
        assert(keyed_apart(d)) by {
            assert forall|i: int, j: int| 0 <= i < j < d.len() && stem((#[trigger] d[i]).1) is Some implies stem(
                d[i].1,
            ) != stem((#[trigger] d[j]).1) by {
                assert(d[i] == s[i] && d[j] == s[j]);
            }
        }
        lemma_newcomers_count(d, tokens, k);
        let e = s.last();
        let x = newcomer(e, tokens[s.len() - 1]);
        assert(n =~= newcomers(d, tokens).push(x));
        lemma_count_push(newcomers(d, tokens), x, p);
        assert(x.members[0] == e);
        assert(p(x) == stemmed(k)(e)) by {
            if stemmed(k)(e) {
                assert(stemmed(k)(x.members[0]));
            }
        }
        if some(d, stemmed(k)) {
            let a = choose|a: int| 0 <= a < d.len() && stemmed(k)(#[trigger] d[a]);
            assert(stemmed(k)(s[a]));
            assert(stem(s[a].1) != stem(s[s.len() - 1].1));
        }
        if stemmed(k)(e) {
            assert(stemmed(k)(s[s.len() - 1]));
        }
        if some(s, stemmed(k)) && !stemmed(k)(e) {
            let a = choose|a: int| 0 <= a < s.len() && stemmed(k)(#[trigger] s[a]);
            assert(stemmed(k)(d[a]));
        }
    }
}

/// Every contact entry renders exactly once: whatever the rows say and the
/// mint gives, one person has it and no other.
pub proof fn law_every_entry_once(c: ClientView, tokens: Seq<u128>, i: int)
    requires
        keyed_apart(c.contacts),
        0 <= i < c.contacts.len(),
        stem(c.contacts[i].1) is Some,
    ensures
        count_where(believed(c, tokens), has_stem(stem(c.contacts[i].1)->0)) == 1,
{
    let k = stem(c.contacts[i].1)->0;
    let p = has_stem(k);
    let u = unclaimed(c);
    let own = people_by_row(c);
    let come = newcomers(u, tokens);
    lemma_first(c.contacts, stemmed(k));
    assert(stemmed(k)(c.contacts[i]));
    lemma_count_sorted(own + come, by_label(), p);
    Seq::filter_distributes_over_add(own, come, p);
    let ix = crate::evidence::indices(c.persons.len());
    lemma_take_all(ix);
    lemma_take_all(c.persons);
    lemma_rows_count(c, k, c.persons.len() as int);
    lemma_filter_apart(c.contacts, is_unclaimed(c));
    lemma_newcomers_count(u, tokens, k);
    lemma_filter(c.contacts, is_unclaimed(c));
    if claimed(c, c.persons).contains(k) {
        if some(u, stemmed(k)) {
            let a = choose|a: int| 0 <= a < u.len() && stemmed(k)(#[trigger] u[a]);
            assert(is_unclaimed(c)(u[a]));
        }
    } else {
        assert(is_unclaimed(c)(c.contacts[i]));
        let a = choose|a: int| 0 <= a < u.len() && u[a] == c.contacts[i];
        assert(stemmed(k)(u[a]));
    }
}

/// Nobody renders without an entry, and the people come in the order of their
/// labels.
pub proof fn law_people_in_order(c: ClientView, tokens: Seq<u128>)
    ensures
        in_order(believed(c, tokens), by_label()),
        forall|i: int|
            0 <= i < believed(c, tokens).len() ==> (#[trigger] believed(c, tokens)[i]).members.len()
                > 0,
{
    let s = people_by_row(c) + newcomers(unclaimed(c), tokens);
    let v = believed(c, tokens);
    lemma_by_label();
    law_sorted_in_order(s, by_label());
    assert forall|i: int| 0 <= i < v.len() implies (#[trigger] v[i]).members.len() > 0 by {
        assert(v.contains(v[i]));
        crate::order::lemma_sorted_contains(s, by_label(), v[i]);
        let a = choose|a: int| 0 <= a < s.len() && s[a] == v[i];
        let own = people_by_row(c);
        if a < own.len() {
            assert(own.contains(own[a]));
            let ix = crate::evidence::indices(c.persons.len());
            ix.lemma_filter_map_contains(person_at(c), own[a]);
        } else {
            assert(s[a] == newcomers(unclaimed(c), tokens)[a - own.len()]);
        }
    }
}

proof fn lemma_by_label()
    ensures
        weak_order(by_label()),
{
    let before = by_label();
    assert forall|a: PersonView, b: PersonView| #[trigger] before(a, b) implies !before(b, a) by {
        <String as Ranked>::order_laws(a.label, b.label, a.label);
    }
    assert forall|a: PersonView, b: PersonView, c: PersonView|
        !(#[trigger] before(a, b)) && !(#[trigger] before(b, c)) implies !before(a, c) by {
        <String as Ranked>::order_laws(a.label, b.label, c.label);
        <String as Ranked>::order_laws(b.label, c.label, a.label);
        <String as Ranked>::order_laws(c.label, b.label, a.label);
        <String as Ranked>::order_laws(a.label, c.label, b.label);
    }
}

// ---- looking twice ----

/// The row minted for an entry.
spec fn row_for(e: (Seq<char>, RecordView), id: u128) -> PersonRowView {
    PersonRowView { id, label: e.0, members: seq![stem(e.1)->0] }
}

proof fn lemma_filter_same<V>(s: Seq<V>, p: spec_fn(V) -> bool, q: spec_fn(V) -> bool)
    requires
        forall|i: int| 0 <= i < s.len() ==> p(#[trigger] s[i]) == q(s[i]),
    ensures
        s.filter(p) == s.filter(q),
    decreases s.len(),
{
    reveal(Seq::filter);
    if s.len() > 0 {
        let d = s.drop_last();
        assert forall|i: int| 0 <= i < d.len() implies p(#[trigger] d[i]) == q(d[i]) by {
            assert(d[i] == s[i]);
        }
        lemma_filter_same(d, p, q);
        assert(p(s[s.len() - 1]) == q(s[s.len() - 1]));
    }
}

proof fn lemma_placed_inserts(rows: Seq<PersonRowView>, row: PersonRowView) -> (at: int)
    ensures
        0 <= at <= rows.len(),
        placed(rows, row, by_person_id()) == rows.insert(at, row),
    decreases rows.len(),
{
    if rows.len() > 0 && by_person_id()(row, rows.last()) {
        let d = rows.drop_last();
        let at = lemma_placed_inserts(d, row);
        assert(d.insert(at, row).push(rows.last()) =~= rows.insert(at, row));
        at
    } else {
        assert(rows.push(row) =~= rows.insert(rows.len() as int, row));
        rows.len() as int
    }
}

/// A row for an unclaimed entry adds the entry's person and leaves every
/// other as it was.
proof fn lemma_one_more(c: ClientView, e: (Seq<char>, RecordView), id: u128, p: PersonView)
    requires
        keyed_apart(c.contacts),
        c.contacts.contains(e),
        is_unclaimed(c)(e),
        storable(e.0),
        forall|i: int| 0 <= i < c.persons.len() ==> (#[trigger] c.persons[i]).id != id,
    ensures
        people_by_row(
            ClientView { persons: with_row(c.persons, id, e.0, seq![stem(e.1)->0]), ..c },
        ).contains(p) <==> people_by_row(c).contains(p) || p == newcomer(e, id),
{
    let k = stem(e.1)->0;
    let row = row_for(e, id);
    let rows = c.persons;
    crate::state::law_person_round_trip(e.0, seq![k]);
    assert forall|i: int| 0 <= i < rows.len() implies other_row(id)(#[trigger] rows[i]) by {
        assert(rows[i].id != id);
    }
    lemma_filter_same(rows, other_row(id), |r: PersonRowView| true);
    lemma_filter_true(rows);
    let at = lemma_placed_inserts(rows, row);
    let d = ClientView { persons: with_row(rows, id, e.0, seq![k]), ..c };
    let now = d.persons;
    assert(now == rows.insert(at, row));
    assert(entry_for(d) =~= entry_for(c));
    assert forall|s: Seq<PersonRowView>| #[trigger] claimed(d, s) == claimed(c, s) by {
        assert(claimed(d, s) =~= claimed(c, s));
    }
    // The entry is the one its key stands for.
    let a = choose|a: int| 0 <= a < c.contacts.len() && c.contacts[a] == e;
    lemma_first(c.contacts, stemmed(k));
    assert(stemmed(k)(c.contacts[a]));
    let held = entry_for(c)(k)->0;
    let b = choose|b: int| 0 <= b < c.contacts.len() && c.contacts[b] == held;
    assert(a == b);
    // No row has the key as a member.
    assert forall|i: int| 0 <= i < rows.len() implies !(#[trigger] rows[i]).members.contains(k) by {
        if rows[i].members.contains(k) {
            assert(claimed(c, rows).contains(k));
        }
    }
    assert forall|j: int| 0 <= j < now.len() implies #[trigger] person_at(d)(j) == if j < at {
        person_at(c)(j)
    } else if j == at {
        Some(newcomer(e, id))
    } else {
        person_at(c)(j - 1)
    } by {
        if j < at {
            assert(now.take(j) =~= rows.take(j));
        } else if j == at {
            assert(now.take(j) =~= rows.take(j));
            let before = claimed(c, rows.take(j));
            assert(!before.contains(k)) by {
                if before.contains(k) {
                    let i = choose|i: int|
                        0 <= i < rows.take(j).len() && #[trigger] rows.take(j)[i].members.contains(k);
                    assert(rows[i].members.contains(k));
                }
            }
            lemma_single(c, k, before, e);
        } else {
            let i = j - 1;
            let fewer = claimed(c, rows.take(i));
            let more = claimed(d, now.take(j));
            assert(now[j] == rows[i]);
            assert forall|x: PublicKey| x != k implies #[trigger] more.contains(x) == fewer.contains(x) by {
                if more.contains(x) {
                    let n = choose|n: int|
                        0 <= n < now.take(j).len() && #[trigger] now.take(j)[n].members.contains(x);
                    if n < at {
                        assert(rows.take(i)[n].members.contains(x));
                    } else if n > at {
                        assert(rows.take(i)[n - 1].members.contains(x));
                    } else {
                        assert(row.members[0] == k);
                    }
                }
                if fewer.contains(x) {
                    let n = choose|n: int|
                        0 <= n < rows.take(i).len() && #[trigger] rows.take(i)[n].members.contains(x);
                    if n < at {
                        assert(now.take(j)[n].members.contains(x));
                    } else {
                        assert(now.take(j)[n + 1].members.contains(x));
                    }
                }
            }
            let m = rows[i].members;
            assert forall|n: int| 0 <= n < m.len() implies outside(more)(#[trigger] m[n]) == outside(
                fewer,
            )(m[n]) by {
                assert(m.contains(m[n]));
                assert(m[n] != k);
            }
            lemma_filter_same(m, outside(more), outside(fewer));
        }
    }
    let old_ix = crate::evidence::indices(rows.len());
    let new_ix = crate::evidence::indices(now.len());
    if people_by_row(d).contains(p) {
        new_ix.lemma_filter_map_contains(person_at(d), p);
        let j = choose|j: int| 0 <= j < new_ix.len() && person_at(d)(#[trigger] new_ix[j]) == Some(p);
        assert(new_ix[j] == j);
        assert(person_at(d)(j) == Some(p));
        if j < at {
            assert(old_ix[j] == j);
            crate::seqs::lemma_filter_map_has(old_ix, person_at(c), j);
        } else if j > at {
            assert(old_ix[j - 1] == j - 1);
            crate::seqs::lemma_filter_map_has(old_ix, person_at(c), j - 1);
        }
    }
    if people_by_row(c).contains(p) {
        old_ix.lemma_filter_map_contains(person_at(c), p);
        let i = choose|i: int| 0 <= i < old_ix.len() && person_at(c)(#[trigger] old_ix[i]) == Some(p);
        assert(old_ix[i] == i);
        let j = if i < at {
            i
        } else {
            i + 1
        };
        assert(new_ix[j] == j);
        assert(person_at(d)(j) == Some(p));
        crate::seqs::lemma_filter_map_has(new_ix, person_at(d), j);
    }
    if p == newcomer(e, id) {
        assert(new_ix[at] == at);
        assert(person_at(d)(at) == Some(p));
        crate::seqs::lemma_filter_map_has(new_ix, person_at(d), at);
    }
}

proof fn lemma_filter_true<V>(s: Seq<V>)
    ensures
        s.filter(|v: V| true) == s,
    decreases s.len(),
{
    reveal(Seq::filter);
    if s.len() > 0 {
        lemma_filter_true(s.drop_last());
        assert(s.drop_last().push(s.last()) =~= s);
    }
}

/// A row of one free member stands for that member's entry.
proof fn lemma_single(c: ClientView, k: PublicKey, before: Set<PublicKey>, e: (Seq<char>, RecordView))
    requires
        !before.contains(k),
        entry_for(c)(k) == Some(e),
    ensures
        seq![k].filter(outside(before)).filter_map(entry_for(c)) == seq![e],
{
    let s = seq![k];
    let none = Seq::<PublicKey>::empty();
    reveal(Seq::filter);
    assert(s.drop_last() =~= none);
    assert(s.filter(outside(before)) =~= s);
    lemma_filter_map_step(s, entry_for(c), 0);
    assert(s.take(0) =~= none);
    assert(none.filter_map(entry_for(c)) =~= Seq::<(Seq<char>, RecordView)>::empty());
    lemma_take_all(s);
    assert(s.filter_map(entry_for(c)) =~= seq![e]);
}

/// Where the rows after minting come from.
proof fn lemma_minted_rows(
    rows: Seq<PersonRowView>,
    pending: Seq<(Seq<char>, RecordView)>,
    tokens: Seq<u128>,
    r: PersonRowView,
) -> (j: int)
    requires
        pending.len() <= tokens.len(),
        forall|j: int| 0 <= j < pending.len() ==> storable((#[trigger] pending[j]).0),
        minted(rows, pending, tokens).contains(r),
    ensures
        rows.contains(r) || (0 <= j < pending.len() && r == row_for(pending[j], tokens[j])),
    decreases pending.len(),
{
    if pending.len() == 0 {
        0
    } else {
        let n = pending.len() - 1;
        let before = pending.drop_last();
        let m = minted(rows, before, tokens);
        let row = row_for(pending.last(), tokens[n]);
        assert forall|j: int| 0 <= j < before.len() implies storable((#[trigger] before[j]).0) by {
            assert(before[j] == pending[j]);
        }
        assert(storable(pending[n].0));
        crate::state::law_person_round_trip(pending.last().0, row.members);
        let kept = without_row(m, tokens[n]);
        crate::order::lemma_placed_contains(kept, row, by_person_id(), r);
        if r == row {
            n
        } else {
            lemma_filter(m, other_row(tokens[n]));
            let a = choose|a: int| 0 <= a < kept.len() && kept[a] == r;
            assert(m.contains(kept[a]));
            let j = lemma_minted_rows(rows, before, tokens, r);
            if !rows.contains(r) {
                assert(before[j] == pending[j]);
            }
            j
        }
    }
}

/// Minting rows for the first unclaimed entries adds their persons, and
/// nobody else's changes.
proof fn lemma_minted_people(c: ClientView, tokens: Seq<u128>, n: int, p: PersonView)
    requires
        0 <= n <= unclaimed(c).len(),
        tokens.len() == unclaimed(c).len(),
        fresh(c.persons, tokens),
        keyed_apart(c.contacts),
        forall|j: int| 0 <= j < unclaimed(c).len() ==> storable((#[trigger] unclaimed(c)[j]).0),
    ensures
        people_by_row(
            ClientView { persons: minted(c.persons, unclaimed(c).take(n), tokens), ..c },
        ).contains(p) <==> people_by_row(c).contains(p) || newcomers(unclaimed(c), tokens).take(
            n,
        ).contains(p),
    decreases n,
{
    let u = unclaimed(c);
    let come = newcomers(u, tokens);
    if n == 0 {
        assert(u.take(0) =~= Seq::<(Seq<char>, RecordView)>::empty());
        assert(c == (ClientView { persons: minted(c.persons, u.take(0), tokens), ..c }));
    } else {
        let i = n - 1;
        let e = u[i];
        let k = stem(e.1)->0;
        let rows = minted(c.persons, u.take(i), tokens);
        let d = ClientView { persons: rows, ..c };
        lemma_minted_people(c, tokens, i, p);
        lemma_take_step(u, i);
        lemma_take_step(come, i);
        lemma_filter(c.contacts, is_unclaimed(c));
        lemma_filter_apart(c.contacts, is_unclaimed(c));
        assert(is_unclaimed(c)(u[i]));
        assert(c.contacts.contains(u[i]));
        assert(storable(u[i].0));
        assert forall|j: int| 0 <= j < u.take(i).len() implies storable((#[trigger] u.take(i)[j]).0) by {
            assert(u.take(i)[j] == u[j]);
        }
        assert forall|a: int| 0 <= a < rows.len() implies (#[trigger] rows[a]).id != tokens[i] by {
            assert(rows.contains(rows[a]));
            let j = lemma_minted_rows(c.persons, u.take(i), tokens, rows[a]);
            if c.persons.contains(rows[a]) {
                let b = choose|b: int| 0 <= b < c.persons.len() && c.persons[b] == rows[a];
                assert(c.persons[b].id != tokens[i]);
            } else {
                assert(tokens[j] != tokens[i]);
            }
        }
        assert(is_unclaimed(d)(e)) by {
            if claimed(d, rows).contains(k) {
                let a = choose|a: int| 0 <= a < rows.len() && #[trigger] rows[a].members.contains(k);
                assert(rows.contains(rows[a]));
                let j = lemma_minted_rows(c.persons, u.take(i), tokens, rows[a]);
                if c.persons.contains(rows[a]) {
                    let b = choose|b: int| 0 <= b < c.persons.len() && c.persons[b] == rows[a];
                    assert(c.persons[b].members.contains(k));
                    assert(entry_for(d)(k) == entry_for(c)(k));
                    assert(claimed(c, c.persons).contains(k));
                } else {
                    assert(u.take(i)[j] == u[j]);
                    assert(is_unclaimed(c)(u[j]));
                    assert(stem(u[j].1) != stem(u[i].1));
                }
            }
        }
        lemma_one_more(d, e, tokens[i], p);
        let s = come.take(i);
        assert(come.take(n).contains(p) <==> s.contains(p) || p == come[i]) by {
            if s.contains(p) {
                let b = choose|b: int| 0 <= b < s.len() && s[b] == p;
                assert(come.take(n)[b] == p);
            }
            if p == come[i] {
                assert(come.take(n)[i] == p);
            }
            if come.take(n).contains(p) {
                let b = choose|b: int| 0 <= b < come.take(n).len() && come.take(n)[b] == p;
                if b < i {
                    assert(s[b] == p);
                }
            }
        }
    }
}

/// Looking at the people twice shows the same persons, and the second look
/// finds every entry claimed: it mints nothing and stores nothing. For
/// petnames their file gives back, and tokens that are new.
pub proof fn law_second_look(c: ClientView, tokens: Seq<u128>, p: PersonView)
    requires
        tokens.len() == unclaimed(c).len(),
        fresh(c.persons, tokens),
        keyed_apart(c.contacts),
        forall|j: int| 0 <= j < unclaimed(c).len() ==> storable((#[trigger] unclaimed(c)[j]).0),
    ensures
        unclaimed(healed(c, tokens)).len() == 0,
        healed(healed(c, tokens), Seq::empty()) == healed(c, tokens),
        believed(healed(c, tokens), Seq::empty()).contains(p) <==> believed(c, tokens).contains(p),
{
    let d = healed(c, tokens);
    let u = unclaimed(c);
    law_healing_is_complete(c, tokens);
    lemma_filter(d.contacts, is_unclaimed(d));
    if unclaimed(d).len() > 0 {
        let e = unclaimed(d)[0];
        assert(is_unclaimed(d)(e));
        assert(d.contacts.contains(e));
        let i = choose|i: int| 0 <= i < d.contacts.len() && d.contacts[i] == e;
        assert(stem(d.contacts[i].1) is Some);
    }
    assert(unclaimed(d) =~= Seq::<(Seq<char>, RecordView)>::empty());
    lemma_take_all(u);
    lemma_take_all(newcomers(u, tokens));
    lemma_minted_people(c, tokens, u.len() as int, p);
    let own = people_by_row(c);
    let come = newcomers(u, tokens);
    let none = newcomers(unclaimed(d), Seq::empty());
    assert(people_by_row(d) + none =~= people_by_row(d));
    crate::order::lemma_sorted_contains(people_by_row(d), by_label(), p);
    crate::order::lemma_sorted_contains(own + come, by_label(), p);
    assert((own + come).contains(p) <==> own.contains(p) || come.contains(p)) by {
        if own.contains(p) {
            let b = choose|b: int| 0 <= b < own.len() && own[b] == p;
            assert((own + come)[b] == p);
        }
        if come.contains(p) {
            let b = choose|b: int| 0 <= b < come.len() && come[b] == p;
            assert((own + come)[own.len() + b] == p);
        }
        if (own + come).contains(p) {
            let b = choose|b: int| 0 <= b < (own + come).len() && (own + come)[b] == p;
            if b < own.len() {
                assert(own[b] == p);
            } else {
                assert(come[b - own.len()] == p);
            }
        }
    }
}

// ---- acts keep every entry claimed ----

/// No two rows share an id: they are filed by it.
pub open spec fn filed_apart(rows: Seq<PersonRowView>) -> bool {
    forall|i: int, j: int|
        0 <= i < j < rows.len() ==> (#[trigger] rows[i]).id != (#[trigger] rows[j]).id
}

spec fn same_id() -> spec_fn(PersonRowView, PersonRowView) -> bool {
    |a: PersonRowView, b: PersonRowView| a.id == b.id
}

/// Saving and removing rows keeps them filed by id.
pub proof fn law_rows_stay_filed_apart(
    rows: Seq<PersonRowView>,
    id: u128,
    label: Seq<char>,
    members: Seq<PublicKey>,
)
    requires
        filed_apart(rows),
    ensures
        filed_apart(without_row(rows, id)),
        filed_apart(with_row(rows, id, label, members)),
{
    let kept = without_row(rows, id);
    assert forall|i: int, j: int| 0 <= i < j < rows.len() implies !same_id()(
        #[trigger] rows[i],
        #[trigger] rows[j],
    ) by {}
    lemma_apart_filter(rows, same_id(), other_row(id));
    lemma_filter(rows, other_row(id));
    assert forall|i: int, j: int| 0 <= i < j < kept.len() implies (#[trigger] kept[i]).id != (
    #[trigger] kept[j]).id by {
        assert(!same_id()(kept[i], kept[j]));
    }
    match person_of_text(person_text(label, members)) {
        Some((l, m)) => {
            let row = PersonRowView { id, label: l, members: m };
            assert forall|i: int| 0 <= i < kept.len() implies !same_id()(#[trigger] kept[i], row)
                && !same_id()(row, kept[i]) by {
                assert(other_row(id)(kept[i]));
            }
            lemma_apart_placed(kept, row, by_person_id(), same_id());
            let now = with_row(rows, id, label, members);
            assert forall|i: int, j: int| 0 <= i < j < now.len() implies (#[trigger] now[i]).id != (
            #[trigger] now[j]).id by {
                assert(!same_id()(now[i], now[j]));
            }
        },
        None => {},
    }
}

/// Healing keeps the rows filed by id.
pub proof fn law_healing_keeps_rows_filed_apart(
    rows: Seq<PersonRowView>,
    pending: Seq<(Seq<char>, RecordView)>,
    tokens: Seq<u128>,
)
    requires
        filed_apart(rows),
    ensures
        filed_apart(minted(rows, pending, tokens)),
    decreases pending.len(),
{
    if pending.len() > 0 {
        law_healing_keeps_rows_filed_apart(rows, pending.drop_last(), tokens);
        law_rows_stay_filed_apart(
            minted(rows, pending.drop_last(), tokens),
            tokens[pending.len() - 1],
            pending.last().0,
            seq![stem(pending.last().1)->0],
        );
    }
}

/// Every person of a list is one that the rows show.
pub open spec fn shown_by(c: ClientView, v: Seq<PersonView>) -> bool {
    forall|p: PersonView| #[trigger] v.contains(p) ==> people(c).contains(p)
}

/// The row of an id has a member.
pub open spec fn held_by(rows: Seq<PersonRowView>, id: u128, k: PublicKey) -> bool {
    exists|a: int|
        0 <= a < rows.len() && rows[a].id == id && #[trigger] rows[a].members.contains(k)
}

pub proof fn lemma_held(rows: Seq<PersonRowView>, id: u128, k: PublicKey)
    requires
        held_by(rows, id, k),
    ensures
        holds_member(rows, k),
{
}

/// A saved row has its members.
pub proof fn lemma_saved_row_holds(
    rows: Seq<PersonRowView>,
    id: u128,
    label: Seq<char>,
    members: Seq<PublicKey>,
    k: PublicKey,
)
    requires
        storable(label),
        members.contains(k),
    ensures
        held_by(with_row(rows, id, label, members), id, k),
{
    crate::state::law_person_round_trip(label, members);
    let row = PersonRowView { id, label, members };
    let now = with_row(rows, id, label, members);
    crate::order::lemma_placed_contains(without_row(rows, id), row, by_person_id(), row);
    let a = choose|a: int| 0 <= a < now.len() && now[a] == row;
    assert(now[a].members.contains(k));
}

/// Saving or removing one row leaves the members of the others.
pub proof fn lemma_other_rows_hold(
    rows: Seq<PersonRowView>,
    id: u128,
    label: Seq<char>,
    members: Seq<PublicKey>,
    other: u128,
    k: PublicKey,
)
    requires
        other != id,
        held_by(rows, other, k),
    ensures
        held_by(without_row(rows, id), other, k),
        held_by(with_row(rows, id, label, members), other, k),
{
    let a = choose|a: int|
        0 <= a < rows.len() && rows[a].id == other && #[trigger] rows[a].members.contains(k);
    let kept = without_row(rows, id);
    lemma_filter(rows, other_row(id));
    assert(other_row(id)(rows[a]));
    let b = choose|b: int| 0 <= b < kept.len() && kept[b] == rows[a];
    assert(kept[b].members.contains(k));
    match person_of_text(person_text(label, members)) {
        Some((l, m)) => {
            let row = PersonRowView { id, label: l, members: m };
            let now = with_row(rows, id, label, members);
            crate::order::lemma_placed_contains(kept, row, by_person_id(), kept[b]);
            let n = choose|n: int| 0 <= n < now.len() && now[n] == kept[b];
            assert(now[n].members.contains(k));
        },
        None => {},
    }
}

/// Entries whose keys the rows hold are claimed.
pub proof fn lemma_eager(c: ClientView)
    requires
        forall|i: int|
            0 <= i < c.contacts.len() && stem((#[trigger] c.contacts[i]).1) is Some
                ==> holds_member(c.persons, stem(c.contacts[i].1)->0),
    ensures
        eager(c),
{
    assert forall|i: int| 0 <= i < c.contacts.len() && stem((#[trigger] c.contacts[i]).1) is Some implies claimed(
        c,
        c.persons,
    ).contains(stem(c.contacts[i].1)->0) by {
        let k = stem(c.contacts[i].1)->0;
        assert(holds_member(c.persons, k));
        lemma_first(c.contacts, stemmed(k));
        assert(stemmed(k)(c.contacts[i]));
        assert(entry_for(c)(k) is Some);
    }
}

/// The person a claimed key's entry renders under.
proof fn lemma_owner(c: ClientView, k: PublicKey) -> (p: PersonView)
    requires
        claimed(c, c.persons).contains(k),
    ensures
        people(c).contains(p),
        held_by(c.persons, p.id, k),
        p.members.contains(entry_for(c)(k)->0),
        stems(p).contains(k),
{
    let rows = c.persons;
    lemma_take_all(rows);
    let i = lemma_first_claim(c, rows, k, rows.len() as int);
    let row = rows[i];
    let before = claimed(c, rows.take(i));
    let m = row_members(c, row, before);
    let kept = row.members.filter(outside(before));
    lemma_filter(row.members, outside(before));
    let t = choose|t: int| 0 <= t < row.members.len() && row.members[t] == k;
    assert(outside(before)(row.members[t]));
    let u = choose|u: int| 0 <= u < kept.len() && kept[u] == k;
    assert(entry_for(c)(kept[u]) == entry_for(c)(k));
    crate::seqs::lemma_filter_map_has(kept, entry_for(c), u);
    let e = entry_for(c)(k)->0;
    lemma_first(c.contacts, stemmed(k));
    let w = choose|w: int| 0 <= w < m.len() && m[w] == e;
    assert(entry_stem()(m[w]) == Some(k));
    crate::seqs::lemma_filter_map_has(m, entry_stem(), w);
    let p = PersonView { id: row.id, label: row.label, members: m };
    assert(person_at(c)(i) == Some(p));
    let ix = crate::evidence::indices(rows.len());
    assert(ix[i] == i);
    crate::seqs::lemma_filter_map_has(ix, person_at(c), i);
    crate::order::lemma_sorted_contains(people_by_row(c), by_label(), p);
    p
}

/// The row of a person.
proof fn lemma_row_of(c: ClientView, p: PersonView) -> (i: int)
    requires
        people(c).contains(p),
    ensures
        0 <= i < c.persons.len(),
        person_at(c)(i) == Some(p),
        c.persons[i].id == p.id,
{
    crate::order::lemma_sorted_contains(people_by_row(c), by_label(), p);
    let ix = crate::evidence::indices(c.persons.len());
    ix.lemma_filter_map_contains(person_at(c), p);
    let t = choose|t: int| 0 <= t < ix.len() && person_at(c)(#[trigger] ix[t]) == Some(p);
    ix[t]
}

/// Rows filed apart show at most one person of an id.
proof fn lemma_one_of_an_id(c: ClientView, p: PersonView, q: PersonView)
    requires
        filed_apart(c.persons),
        people(c).contains(p),
        people(c).contains(q),
        p.id == q.id,
    ensures
        p == q,
{
    let i = lemma_row_of(c, p);
    let j = lemma_row_of(c, q);
    if i < j {
        assert(c.persons[i].id != c.persons[j].id);
    } else if j < i {
        assert(c.persons[j].id != c.persons[i].id);
    }
}

/// A look shows what the rows it leaves behind say, and leaves every entry
/// claimed. For petnames their file gives back, and tokens that are new.
pub proof fn law_look_shows_the_rows(c: ClientView, tokens: Seq<u128>)
    requires
        tokens.len() == unclaimed(c).len(),
        fresh(c.persons, tokens),
        keyed_apart(c.contacts),
        forall|j: int| 0 <= j < unclaimed(c).len() ==> storable((#[trigger] unclaimed(c)[j]).0),
    ensures
        eager(healed(c, tokens)),
        shown_by(healed(c, tokens), believed(c, tokens)),
{
    let d = healed(c, tokens);
    law_healing_is_complete(c, tokens);
    assert forall|p: PersonView| #[trigger] believed(c, tokens).contains(p) implies people(
        d,
    ).contains(p) by {
        law_second_look(c, tokens, p);
        let none = newcomers(unclaimed(d), Seq::empty());
        assert(people_by_row(d) + none =~= people_by_row(d));
    }
}

/// Relabeling a person keeps every entry claimed.
pub proof fn law_relabeling_keeps_entries_claimed(
    c: ClientView,
    v: Seq<PersonView>,
    p: PersonView,
    label: Seq<char>,
)
    requires
        eager(c),
        filed_apart(c.persons),
        shown_by(c, v),
        v.contains(p),
        storable(label),
        relabeled(c, v, p, label) is Ok,
    ensures
        eager(relabeled(c, v, p, label)->Ok_0),
{
    let d = relabeled(c, v, p, label)->Ok_0;
    assert forall|i: int| 0 <= i < d.contacts.len() && stem((#[trigger] d.contacts[i]).1) is Some implies holds_member(
        d.persons,
        stem(d.contacts[i].1)->0,
    ) by {
        assert(d.contacts[i] == c.contacts[i]);
        let k = stem(c.contacts[i].1)->0;
        let q = lemma_owner(c, k);
        if q.id == p.id {
            lemma_one_of_an_id(c, p, q);
            lemma_saved_row_holds(c.persons, p.id, label, stems(p), k);
            lemma_held(d.persons, p.id, k);
        } else {
            lemma_other_rows_hold(c.persons, p.id, label, stems(p), q.id, k);
            lemma_held(d.persons, q.id, k);
        }
    }
    lemma_eager(d);
}

/// Renaming a person keeps every entry claimed.
pub proof fn law_renaming_keeps_entries_claimed(
    c: ClientView,
    v: Seq<PersonView>,
    id: u128,
    name: Seq<char>,
)
    requires
        eager(c),
        filed_apart(c.persons),
        shown_by(c, v),
        storable(name),
        renamed_person(c, v, id, name) is Ok,
    ensures
        eager(renamed_person(c, v, id, name)->Ok_0),
{
    let p = person_with(v, id)->Ok_0;
    if name != p.label {
        lemma_first(v, has_id(id));
        law_relabeling_keeps_entries_claimed(c, v, p, name);
        let r = relabeled(c, v, p, name)->Ok_0;
        let d = renamed_person(c, v, id, name)->Ok_0;
        assert(d.contacts == r.contacts && d.persons == r.persons);
        lemma_same_claims(r, d);
    }
}

/// What is claimed rests on the entries and the rows alone.
pub proof fn lemma_same_claims(c: ClientView, d: ClientView)
    requires
        eager(c),
        c.contacts == d.contacts,
        c.persons == d.persons,
    ensures
        eager(d),
{
    assert forall|i: int| 0 <= i < d.contacts.len() && stem((#[trigger] d.contacts[i]).1) is Some implies holds_member(
        d.persons,
        stem(d.contacts[i].1)->0,
    ) by {
        assert(claimed(c, c.persons).contains(stem(c.contacts[i].1)->0));
    }
    lemma_eager(d);
}

/// Merging two persons keeps every entry claimed.
pub proof fn law_merging_keeps_entries_claimed(
    c: ClientView,
    v: Seq<PersonView>,
    into: u128,
    from: u128,
)
    requires
        eager(c),
        filed_apart(c.persons),
        shown_by(c, v),
        into != from,
        merged(c, v, into, from) is Ok,
        storable(person_with(v, into)->Ok_0.label),
    ensures
        eager(merged(c, v, into, from)->Ok_0),
{
    let d = merged(c, v, into, from)->Ok_0;
    let keep = person_with(v, into)->Ok_0;
    let absorb = person_with(v, from)->Ok_0;
    lemma_first(v, has_id(into));
    lemma_first(v, has_id(from));
    let both = stems(keep) + stems(absorb);
    let mid = with_row(c.persons, into, keep.label, both);
    assert forall|i: int| 0 <= i < d.contacts.len() && stem((#[trigger] d.contacts[i]).1) is Some implies holds_member(
        d.persons,
        stem(d.contacts[i].1)->0,
    ) by {
        assert(d.contacts[i] == c.contacts[i]);
        let k = stem(c.contacts[i].1)->0;
        let q = lemma_owner(c, k);
        if q.id == into || q.id == from {
            if q.id == into {
                lemma_one_of_an_id(c, keep, q);
                let t = choose|t: int| 0 <= t < stems(keep).len() && stems(keep)[t] == k;
                assert(both[t] == k);
            } else {
                lemma_one_of_an_id(c, absorb, q);
                let t = choose|t: int| 0 <= t < stems(absorb).len() && stems(absorb)[t] == k;
                assert(both[stems(keep).len() + t] == k);
            }
            lemma_saved_row_holds(c.persons, into, keep.label, both, k);
            lemma_other_rows_hold(mid, from, keep.label, both, into, k);
            lemma_held(d.persons, into, k);
        } else {
            lemma_other_rows_hold(c.persons, into, keep.label, both, q.id, k);
            lemma_other_rows_hold(mid, from, keep.label, both, q.id, k);
            lemma_held(d.persons, q.id, k);
        }
    }
    lemma_eager(d);
}

/// No key is claimed by two rows.
pub open spec fn claimed_once(rows: Seq<PersonRowView>) -> bool {
    forall|i: int, j: int, k: PublicKey|
        0 <= i < rows.len() && 0 <= j < rows.len() && #[trigger] rows[i].members.contains(k)
            && #[trigger] rows[j].members.contains(k) ==> i == j
}

/// A person's entries and their first keys say the same.
proof fn lemma_stems_stand_for(c: ClientView, p: PersonView)
    requires
        people(c).contains(p),
    ensures
        forall|a: int|
            0 <= a < p.members.len() ==> entry_stem()(#[trigger] p.members[a]) is Some && entry_for(
                c,
            )(entry_stem()(p.members[a])->0) == Some(p.members[a]),
        forall|k: PublicKey| #[trigger] stems(p).contains(k) ==> held_by(c.persons, p.id, k),
{
    let i = lemma_row_of(c, p);
    let row = c.persons[i];
    let before = claimed(c, c.persons.take(i));
    assert forall|a: int| 0 <= a < p.members.len() implies entry_stem()(#[trigger] p.members[a]) is Some
        && entry_for(c)(entry_stem()(p.members[a])->0) == Some(p.members[a]) by {
        let k = lemma_row_member(c, row, before, a);
    }
    assert forall|k: PublicKey| #[trigger] stems(p).contains(k) implies held_by(c.persons, p.id, k) by {
        p.members.lemma_filter_map_contains(entry_stem(), k);
        let e = choose|e: (Seq<char>, RecordView)| #[trigger]
            p.members.contains(e) && entry_stem()(e) == Some(k);
        let a = choose|a: int| 0 <= a < p.members.len() && p.members[a] == e;
        let l = lemma_row_member(c, row, before, a);
        assert(c.persons[i].members.contains(k));
    }
}

/// The person that two become once merged: the first one's id and label, and
/// the entries of both.
pub open spec fn clustered(keep: PersonView, absorb: PersonView) -> PersonView {
    PersonView { members: keep.members + absorb.members, ..keep }
}

/// A merge shows one person with the entries of both.
#[verifier::spinoff_prover]
#[verifier::rlimit(40)]
pub proof fn law_merging_clusters(c: ClientView, v: Seq<PersonView>, into: u128, from: u128)
    requires
        filed_apart(c.persons),
        claimed_once(c.persons),
        shown_by(c, v),
        into != from,
        merged(c, v, into, from) is Ok,
        storable(person_with(v, into)->Ok_0.label),
    ensures
        people(merged(c, v, into, from)->Ok_0).contains(
            clustered(person_with(v, into)->Ok_0, person_with(v, from)->Ok_0),
        ),
{
    let d = merged(c, v, into, from)->Ok_0;
    let keep = person_with(v, into)->Ok_0;
    let absorb = person_with(v, from)->Ok_0;
    lemma_first(v, has_id(into));
    lemma_first(v, has_id(from));
    lemma_stems_stand_for(c, keep);
    lemma_stems_stand_for(c, absorb);
    let both = stems(keep) + stems(absorb);
    let mid = with_row(c.persons, into, keep.label, both);
    let row = PersonRowView { id: into, label: keep.label, members: both };
    crate::state::law_person_round_trip(keep.label, both);
    crate::order::lemma_placed_contains(without_row(c.persons, into), row, by_person_id(), row);
    lemma_filter(mid, other_row(from));
    let x = choose|x: int| 0 <= x < mid.len() && mid[x] == row;
    assert(other_row(from)(mid[x]));
    let i = choose|i: int| 0 <= i < d.persons.len() && d.persons[i] == row;
    law_rows_stay_filed_apart(c.persons, into, keep.label, both);
    law_rows_stay_filed_apart(mid, from, keep.label, both);
    let before = claimed(d, d.persons.take(i));
    assert forall|a: int| 0 <= a < both.len() implies outside(before)(#[trigger] both[a]) by {
        let k = both[a];
        let own = if a < stems(keep).len() {
            into
        } else {
            from
        };
        assert(held_by(c.persons, own, k)) by {
            if a < stems(keep).len() {
                assert(stems(keep)[a] == k);
                assert(stems(keep).contains(k));
            } else {
                assert(stems(absorb)[a - stems(keep).len()] == k);
                assert(stems(absorb).contains(k));
            }
        }
        if before.contains(k) {
            let t = d.persons.take(i);
            let j = choose|j: int| 0 <= j < t.len() && #[trigger] t[j].members.contains(k);
            let r = d.persons[j];
            assert(d.persons[j].id != d.persons[i].id);
            assert(d.persons.contains(r));
            assert(mid.contains(r));
            crate::order::lemma_placed_contains(without_row(c.persons, into), row, by_person_id(), r);
            lemma_filter(c.persons, other_row(into));
            let kept = without_row(c.persons, into);
            let y = choose|y: int| 0 <= y < kept.len() && kept[y] == r;
            assert(c.persons.contains(kept[y]));
            let z = choose|z: int| 0 <= z < c.persons.len() && c.persons[z] == r;
            assert(other_row(from)(r));
            let w = choose|w: int|
                0 <= w < c.persons.len() && c.persons[w].id == own
                    && #[trigger] c.persons[w].members.contains(k);
            assert(c.persons[z].members.contains(k));
            assert(z == w);
        }
    }
    lemma_filter_all(both, outside(before));
    let all = keep.members + absorb.members;
    lemma_filter_map_add(keep.members, absorb.members, entry_stem());
    assert(entry_for(d) =~= entry_for(c));
    assert forall|a: int| 0 <= a < all.len() implies entry_stem()(#[trigger] all[a]) is Some && entry_for(
        c,
    )(entry_stem()(all[a])->0) == Some(all[a]) by {
        if a < keep.members.len() {
            assert(all[a] == keep.members[a]);
        } else {
            assert(all[a] == absorb.members[a - keep.members.len()]);
        }
    }
    lemma_filter_map_back(all, entry_stem(), entry_for(c));
    assert(row_members(d, row, before) == all);
    let whole = clustered(keep, absorb);
    let r = lemma_row_of(c, keep);
    assert(all[0] == keep.members[0]);
    assert(person_at(d)(i) == Some(whole));
    let ix = crate::evidence::indices(d.persons.len());
    assert(ix[i] == i);
    crate::seqs::lemma_filter_map_has(ix, person_at(d), i);
    crate::order::lemma_sorted_contains(people_by_row(d), by_label(), whole);
}

/// A split undoes a merge: the one absorbed entry has a row of its own again,
/// labeled by its petname, and the other person's row is what it was shown as
/// before.
pub proof fn law_split_undoes_merge(
    c: ClientView,
    keep: PersonView,
    absorb: PersonView,
    id: u128,
)
    requires
        absorb.members.len() == 1,
        !some(keep.members, named(absorb.members[0].0)),
        id != keep.id,
        storable(keep.label),
        storable(absorb.members[0].0),
    ensures
        split_off(c, clustered(keep, absorb), absorb.members[0].0, id).persons.contains(
            PersonRowView { id: keep.id, label: keep.label, members: stems(keep) },
        ),
        split_off(c, clustered(keep, absorb), absorb.members[0].0, id).persons.contains(
            PersonRowView { id, label: absorb.members[0].0, members: stems(absorb) },
        ),
{
    let petname = absorb.members[0].0;
    lemma_partition(keep.members, absorb.members, petname);
    lemma_two_rows(c.persons, keep.id, keep.label, stems(keep), id, petname, stems(absorb));
}

/// Two rows saved one after the other are both there.
proof fn lemma_two_rows(
    rows: Seq<PersonRowView>,
    first_id: u128,
    first_label: Seq<char>,
    first_members: Seq<PublicKey>,
    id: u128,
    label: Seq<char>,
    members: Seq<PublicKey>,
)
    requires
        first_id != id,
        storable(first_label),
        storable(label),
    ensures
        with_row(with_row(rows, first_id, first_label, first_members), id, label, members).contains(
            PersonRowView { id: first_id, label: first_label, members: first_members },
        ),
        with_row(with_row(rows, first_id, first_label, first_members), id, label, members).contains(
            PersonRowView { id, label, members },
        ),
{
    let mid = with_row(rows, first_id, first_label, first_members);
    let a = PersonRowView { id: first_id, label: first_label, members: first_members };
    let b = PersonRowView { id, label, members };
    crate::state::law_person_round_trip(first_label, first_members);
    crate::order::lemma_placed_contains(without_row(rows, first_id), a, by_person_id(), a);
    lemma_filter(mid, other_row(id));
    let x = choose|x: int| 0 <= x < mid.len() && mid[x] == a;
    assert(other_row(id)(mid[x]));
    crate::state::law_person_round_trip(label, members);
    crate::order::lemma_placed_contains(without_row(mid, id), b, by_person_id(), a);
    crate::order::lemma_placed_contains(without_row(mid, id), b, by_person_id(), b);
}

/// One entry behind others of other names, told apart by its name.
proof fn lemma_partition(
    keep: Seq<(Seq<char>, RecordView)>,
    absorb: Seq<(Seq<char>, RecordView)>,
    petname: Seq<char>,
)
    requires
        absorb.len() == 1,
        absorb[0].0 == petname,
        !some(keep, named(petname)),
    ensures
        (keep + absorb).filter(not_named(petname)) == keep,
        (keep + absorb).filter(named(petname)) == absorb,
{
    lemma_first(keep, named(petname));
    Seq::filter_distributes_over_add(keep, absorb, not_named(petname));
    Seq::filter_distributes_over_add(keep, absorb, named(petname));
    assert forall|a: int| 0 <= a < keep.len() implies not_named(petname)(#[trigger] keep[a]) by {
        assert(!named(petname)(keep[a]));
    }
    lemma_filter_none(keep, named(petname));
    lemma_filter_all(keep, not_named(petname));
    lemma_filter_none(absorb, not_named(petname));
    lemma_filter_all(absorb, named(petname));
    assert(keep + Seq::empty() =~= keep);
    assert(Seq::empty() + absorb =~= absorb);
}

/// Splitting a person keeps every entry claimed.
pub proof fn law_splitting_keeps_entries_claimed(
    c: ClientView,
    v: Seq<PersonView>,
    petname: Seq<char>,
    id: u128,
)
    requires
        eager(c),
        filed_apart(c.persons),
        shown_by(c, v),
        splits(v, petname) is Ok,
        storable(splits(v, petname)->Ok_0.label),
        storable(petname),
        fresh(c.persons, seq![id]),
    ensures
        eager(split_off(c, splits(v, petname)->Ok_0, petname, id)),
{
    let source = splits(v, petname)->Ok_0;
    let d = split_off(c, source, petname, id);
    lemma_first(v, has_member(petname));
    let rest = source.members.filter(not_named(petname));
    let out = source.members.filter(named(petname));
    let kept = rest.filter_map(entry_stem());
    let gone = out.filter_map(entry_stem());
    let mid = with_row(c.persons, source.id, source.label, kept);
    let at = lemma_row_of(c, source);
    assert(c.persons[at].id != seq![id][0]);
    lemma_filter(source.members, not_named(petname));
    lemma_filter(source.members, named(petname));
    assert forall|i: int| 0 <= i < d.contacts.len() && stem((#[trigger] d.contacts[i]).1) is Some implies holds_member(
        d.persons,
        stem(d.contacts[i].1)->0,
    ) by {
        assert(d.contacts[i] == c.contacts[i]);
        let k = stem(c.contacts[i].1)->0;
        let q = lemma_owner(c, k);
        let own = lemma_row_of(c, q);
        assert(c.persons[own].id != seq![id][0]);
        if q.id == source.id {
            lemma_one_of_an_id(c, source, q);
            let e = entry_for(c)(k)->0;
            lemma_first(c.contacts, stemmed(k));
            let w = choose|w: int| 0 <= w < source.members.len() && source.members[w] == e;
            if e.0 == petname {
                assert(named(petname)(source.members[w]));
                let t = choose|t: int| 0 <= t < out.len() && out[t] == e;
                assert(entry_stem()(out[t]) == Some(k));
                crate::seqs::lemma_filter_map_has(out, entry_stem(), t);
                lemma_saved_row_holds(mid, id, petname, gone, k);
                lemma_held(d.persons, id, k);
            } else {
                assert(not_named(petname)(source.members[w]));
                let t = choose|t: int| 0 <= t < rest.len() && rest[t] == e;
                assert(entry_stem()(rest[t]) == Some(k));
                crate::seqs::lemma_filter_map_has(rest, entry_stem(), t);
                lemma_saved_row_holds(c.persons, source.id, source.label, kept, k);
                lemma_other_rows_hold(mid, id, petname, gone, source.id, k);
                lemma_held(d.persons, source.id, k);
            }
        } else {
            lemma_other_rows_hold(c.persons, source.id, source.label, kept, q.id, k);
            lemma_other_rows_hold(mid, id, petname, gone, q.id, k);
            lemma_held(d.persons, q.id, k);
        }
    }
    lemma_eager(d);
}

// ---- unique labels ----

/// No two rows share a label.
pub open spec fn labels_unique(rows: Seq<PersonRowView>) -> bool {
    forall|i: int, j: int|
        0 <= i < j < rows.len() ==> (#[trigger] rows[i]).label != (#[trigger] rows[j]).label
}

/// Every row renders: no emptied one hides.
pub open spec fn all_render(c: ClientView) -> bool {
    forall|i: int| 0 <= i < c.persons.len() ==> (#[trigger] person_at(c)(i)) is Some
}

proof fn lemma_rendered(c: ClientView, i: int)
    requires
        0 <= i < c.persons.len(),
        all_render(c),
    ensures
        person_at(c)(i) is Some,
        people(c).contains(person_at(c)(i)->0),
        (person_at(c)(i)->0).id == c.persons[i].id,
        (person_at(c)(i)->0).label == c.persons[i].label,
{
    let ix = crate::evidence::indices(c.persons.len());
    assert(ix[i] == i);
    assert(person_at(c)(i) is Some);
    crate::seqs::lemma_filter_map_has(ix, person_at(c), i);
    crate::order::lemma_sorted_contains(people_by_row(c), by_label(), person_at(c)(i)->0);
}

/// A row under a label nobody else has keeps the labels unique.
proof fn lemma_row_unique(c: ClientView, id: u128, label: Seq<char>, members: Seq<PublicKey>)
    requires
        storable(label),
        labels_unique(c.persons),
        forall|i: int|
            0 <= i < c.persons.len() && (#[trigger] c.persons[i]).id != id ==> c.persons[i].label
                != label,
    ensures
        labels_unique(with_row(c.persons, id, label, members)),
{
    crate::state::law_person_round_trip(label, members);
    let kept = without_row(c.persons, id);
    let row = PersonRowView { id, label, members };
    lemma_filter(c.persons, other_row(id));
    assert forall|i: int| 0 <= i < kept.len() implies (#[trigger] kept[i]).label != label by {
        assert(c.persons.contains(kept[i]));
        let a = choose|a: int| 0 <= a < c.persons.len() && c.persons[a] == kept[i];
        assert(other_row(id)(kept[i]));
        assert(c.persons[a].id != id);
    }
    assert forall|i: int, j: int| 0 <= i < j < c.persons.len() implies !same_label()(
        #[trigger] c.persons[i],
        #[trigger] c.persons[j],
    ) by {}
    lemma_apart_filter(c.persons, same_label(), other_row(id));
    lemma_apart_placed(kept, row, by_person_id(), same_label());
    let now = with_row(c.persons, id, label, members);
    assert forall|i: int, j: int| 0 <= i < j < now.len() implies (#[trigger] now[i]).label != (
    #[trigger] now[j]).label by {
        assert(!same_label()(now[i], now[j]));
    }
}

spec fn same_label() -> spec_fn(PersonRowView, PersonRowView) -> bool {
    |a: PersonRowView, b: PersonRowView| a.label == b.label
}

/// Labels are unique by construction: relabeling keeps them so.
pub proof fn law_relabeling_keeps_labels_unique(c: ClientView, p: PersonView, label: Seq<char>)
    requires
        labels_unique(c.persons),
        all_render(c),
        storable(label),
        relabeled(c, people(c), p, label) is Ok,
    ensures
        labels_unique(relabeled(c, people(c), p, label)->Ok_0.persons),
{
    assert forall|i: int| 0 <= i < c.persons.len() && (#[trigger] c.persons[i]).id != p.id implies c.persons[i].label
        != label by {
        lemma_rendered(c, i);
        let q = person_at(c)(i)->0;
        let k = choose|k: int| 0 <= k < people(c).len() && people(c)[k] == q;
        if c.persons[i].label == label {
            assert(goes_by(label, Some(p.id))(people(c)[k]));
        }
    }
    lemma_row_unique(c, p.id, label, stems(p));
}

/// A name free for a new person keeps the labels unique once a row bears it.
pub proof fn law_new_person_keeps_labels_unique(
    c: ClientView,
    id: u128,
    name: Seq<char>,
    members: Seq<PublicKey>,
)
    requires
        labels_unique(c.persons),
        all_render(c),
        storable(name),
        !taken(people(c), name, None),
    ensures
        labels_unique(with_row(c.persons, id, name, members)),
{
    assert forall|i: int| 0 <= i < c.persons.len() && (#[trigger] c.persons[i]).id != id implies c.persons[i].label
        != name by {
        lemma_rendered(c, i);
        let q = person_at(c)(i)->0;
        let k = choose|k: int| 0 <= k < people(c).len() && people(c)[k] == q;
        if c.persons[i].label == name {
            assert(goes_by(name, None)(people(c)[k]));
        }
    }
    lemma_row_unique(c, id, name, members);
}

/// A name is taken exactly where somebody other than the one exempted has it
/// as label or as the petname of an entry.
pub proof fn law_taken_by_somebody_else(v: Seq<PersonView>, name: Seq<char>, exempt: Option<u128>)
    ensures
        taken(v, name, exempt) <==> exists|i: int|
            0 <= i < v.len() && Some((#[trigger] v[i]).id) != exempt && (v[i].label == name || exists|
                k: int,
            |
                0 <= k < v[i].members.len() && (#[trigger] v[i].members[k]).0 == name),
{
    let p = goes_by(name, exempt);
    if taken(v, name, exempt) {
        let i = choose|i: int| 0 <= i < v.len() && p(#[trigger] v[i]);
        assert(Some(v[i].id) != exempt);
        if v[i].label != name {
            let k = choose|k: int|
                0 <= k < v[i].members.len() && named(name)(#[trigger] v[i].members[k]);
            assert(v[i].members[k].0 == name);
        }
    }
    if exists|i: int|
        0 <= i < v.len() && Some((#[trigger] v[i]).id) != exempt && (v[i].label == name || exists|
            k: int,
        |
            0 <= k < v[i].members.len() && (#[trigger] v[i].members[k]).0 == name) {
        let i = choose|i: int|
            0 <= i < v.len() && Some((#[trigger] v[i]).id) != exempt && (v[i].label == name
                || exists|k: int|
                0 <= k < v[i].members.len() && (#[trigger] v[i].members[k]).0 == name);
        if v[i].label != name {
            let k = choose|k: int|
                0 <= k < v[i].members.len() && (#[trigger] v[i].members[k]).0 == name;
            assert(named(name)(v[i].members[k]));
        }
        assert(p(v[i]));
    }
}

/// A name that is one person's label addresses every entry of that person,
/// each with every key its record lists; one that is nobody's label addresses
/// the contact of that petname with every key of its record; one that several
/// persons have is refused.
pub proof fn law_name_addresses_every_device(
    c: ClientView,
    v: Seq<PersonView>,
    name: Seq<char>,
    i: int,
)
    ensures
        0 <= i < v.len() && v[i].label == name && (forall|j: int|
            0 <= j < v.len() && j != i ==> (#[trigger] v[j]).label != name) ==> match addressees(
            c,
            v,
            name,
        ) {
            Ok(s) => {
                &&& s.len() == v[i].members.len()
                &&& forall|k: int|
                    0 <= k < s.len() ==> (#[trigger] s[k]).keys == v[i].members[k].1.keys
            },
            Err(_) => false,
        },
        (forall|j: int| 0 <= j < v.len() ==> (#[trigger] v[j]).label != name) ==> match addressees(
            c,
            v,
            name,
        ) {
            Ok(s) => s.len() == 1 && exists|k: int|
                0 <= k < c.contacts.len() && (#[trigger] c.contacts[k]).0 == name && s[0].keys
                    == c.contacts[k].1.keys,
            Err(_) => forall|k: int|
                0 <= k < c.contacts.len() ==> (#[trigger] c.contacts[k]).0 != name,
        },
        (exists|a: int, b: int|
            0 <= a < b < v.len() && (#[trigger] v[a]).label == name && (#[trigger] v[b]).label
                == name) ==> addressees(c, v, name) is Err,
{
    let p = has_label(name);
    let found = v.filter(p);
    if 0 <= i < v.len() && v[i].label == name && (forall|j: int|
        0 <= j < v.len() && j != i ==> (#[trigger] v[j]).label != name) {
        lemma_filter_one(v, p, i);
    }
    if forall|j: int| 0 <= j < v.len() ==> (#[trigger] v[j]).label != name {
        assert forall|j: int| 0 <= j < v.len() implies !p(#[trigger] v[j]) by {}
        crate::seqs::lemma_filter_none(v, p);
        crate::client::law_entry_by_petname(c, name);
    }
    if exists|a: int, b: int|
        0 <= a < b < v.len() && (#[trigger] v[a]).label == name && (#[trigger] v[b]).label == name {
        let (a, b) = choose|a: int, b: int|
            0 <= a < b < v.len() && (#[trigger] v[a]).label == name && (#[trigger] v[b]).label
                == name;
        lemma_filter_two(v, p, a, b);
    }
}

/// A filter that one element passes holds that element alone.
proof fn lemma_filter_one<V>(s: Seq<V>, p: spec_fn(V) -> bool, i: int)
    requires
        0 <= i < s.len(),
        p(s[i]),
        forall|j: int| 0 <= j < s.len() && j != i ==> !p(#[trigger] s[j]),
    ensures
        s.filter(p) == seq![s[i]],
    decreases s.len(),
{
    reveal(Seq::filter);
    let d = s.drop_last();
    if i < d.len() {
        assert(d[i] == s[i]);
        assert forall|j: int| 0 <= j < d.len() && j != i implies !p(#[trigger] d[j]) by {
            assert(d[j] == s[j]);
        }
        lemma_filter_one(d, p, i);
        assert(!p(s[s.len() - 1]));
    } else {
        assert forall|j: int| 0 <= j < d.len() implies !p(#[trigger] d[j]) by {
            assert(d[j] == s[j]);
        }
        crate::seqs::lemma_filter_none(d, p);
        assert(s.filter(p) =~= seq![s[i]]);
    }
}

/// A filter that two elements pass holds two at least.
proof fn lemma_filter_two<V>(s: Seq<V>, p: spec_fn(V) -> bool, a: int, b: int)
    requires
        0 <= a < b < s.len(),
        p(s[a]),
        p(s[b]),
    ensures
        s.filter(p).len() >= 2,
    decreases s.len(),
{
    reveal(Seq::filter);
    let d = s.drop_last();
    if b < d.len() {
        assert(d[a] == s[a] && d[b] == s[b]);
        lemma_filter_two(d, p, a, b);
    } else {
        assert(d[a] == s[a]);
        lemma_filter(d, p);
        assert(d.filter(p).contains(d[a]));
    }
}

/// A person is found by its id, and only where somebody has it; a label finds
/// the one person that has it.
pub proof fn law_person_lookups(v: Seq<PersonView>, id: u128, label: Seq<char>)
    ensures
        match person_with(v, id) {
            Ok(p) => p.id == id && v.contains(p),
            Err(_) => forall|i: int| 0 <= i < v.len() ==> (#[trigger] v[i]).id != id,
        },
        match person_labeled(v, label) {
            Ok(p) => p.label == label && v.contains(p) && forall|a: int, b: int|
                0 <= a < b < v.len() ==> !((#[trigger] v[a]).label == label && (
                #[trigger] v[b]).label == label),
            Err(_) => true,
        },
{
    lemma_first(v, has_id(id));
    match first(v, has_id(id)) {
        Some(_) => {},
        None => {
            assert forall|i: int| 0 <= i < v.len() implies (#[trigger] v[i]).id != id by {
                assert(!has_id(id)(v[i]));
            }
        },
    }
    let p = has_label(label);
    let found = v.filter(p);
    lemma_filter(v, p);
    if found.len() == 1 {
        assert(p(found[0]));
        assert(v.contains(found[0]));
        assert forall|a: int, b: int| 0 <= a < b < v.len() implies !((#[trigger] v[a]).label
            == label && (#[trigger] v[b]).label == label) by {
            if v[a].label == label && v[b].label == label {
                lemma_filter_two(v, p, a, b);
            }
        }
    }
}

/// A saved row holds the label and members given, under its id alone; every
/// other row stays as it was. A removed row is gone, and no other is.
pub proof fn law_rows_saved_and_removed(
    rows: Seq<PersonRowView>,
    id: u128,
    label: Seq<char>,
    members: Seq<PublicKey>,
    r: PersonRowView,
)
    requires
        storable(label),
    ensures
        with_row(rows, id, label, members).contains(r) <==> if r.id == id {
            r.label == label && r.members == members
        } else {
            rows.contains(r)
        },
        without_row(rows, id).contains(r) <==> rows.contains(r) && r.id != id,
{
    crate::state::law_person_round_trip(label, members);
    crate::seqs::lemma_filter_contains(rows, other_row(id), r);
    crate::order::lemma_placed_contains(
        without_row(rows, id),
        PersonRowView { id, label, members },
        by_person_id(),
        r,
    );
}

/// Relabeling a person changes the label of its row and nothing else: the row
/// keeps the person's entries, and every other row stays. It is refused
/// exactly where somebody else goes by the label.
pub proof fn law_relabel_changes_the_label(
    c: ClientView,
    v: Seq<PersonView>,
    p: PersonView,
    label: Seq<char>,
    r: PersonRowView,
)
    requires
        storable(label),
    ensures
        match relabeled(c, v, p, label) {
            Ok(d) => {
                &&& d == (ClientView { persons: d.persons, ..c })
                &&& !taken(v, label, Some(p.id))
                &&& d.persons.contains(r) <==> if r.id == p.id {
                    r.label == label && r.members == stems(p)
                } else {
                    c.persons.contains(r)
                }
            },
            Err(e) => taken(v, label, Some(p.id)) && e == ErrorView::PetnameCollision(label),
        },
{
    law_rows_saved_and_removed(c.persons, p.id, label, stems(p), r);
}

/// The entries of a person are known by their first keys, all of them.
pub proof fn law_stems(p: PersonView, key: PublicKey)
    ensures
        stems(p).contains(key) <==> exists|i: int|
            0 <= i < p.members.len() && (#[trigger] p.members[i]).1.keys.len() > 0
                && p.members[i].1.keys[0] == key,
{
    let f = entry_stem();
    let s = stems(p);
    if s.contains(key) {
        let k = choose|k: int| 0 <= k < s.len() && s[k] == key;
        let i = crate::seqs::lemma_filter_map_source(p.members, f, k);
        assert(p.members[i].1.keys[0] == key);
    }
    if exists|i: int|
        0 <= i < p.members.len() && (#[trigger] p.members[i]).1.keys.len() > 0
            && p.members[i].1.keys[0] == key {
        let i = choose|i: int|
            0 <= i < p.members.len() && (#[trigger] p.members[i]).1.keys.len() > 0
                && p.members[i].1.keys[0] == key;
        crate::seqs::lemma_filter_map_has(p.members, f, i);
    }
}

/// A merge leaves one row of the two: the kept person's, under its id and
/// label, with the first keys of both persons' entries; every other row and
/// everything else stays as it was. It fails exactly where one of the two is
/// nobody.
pub proof fn law_merge_keeps_one_row(
    c: ClientView,
    v: Seq<PersonView>,
    into: u128,
    from: u128,
    r: PersonRowView,
)
    requires
        into != from,
    ensures
        merged(c, v, into, from) is Ok <==> person_with(v, into) is Ok && person_with(v, from) is Ok,
        match merged(c, v, into, from) {
            Ok(d) => {
                let keep = person_with(v, into)->Ok_0;
                let absorb = person_with(v, from)->Ok_0;
                &&& d == (ClientView { persons: d.persons, ..c })
                &&& storable(keep.label) ==> (d.persons.contains(r) <==> if r.id == into {
                    r.label == keep.label && r.members == stems(keep) + stems(absorb)
                } else {
                    r.id != from && c.persons.contains(r)
                })
            },
            Err(_) => true,
        },
{
    match merged(c, v, into, from) {
        Ok(d) => {
            let keep = person_with(v, into)->Ok_0;
            let absorb = person_with(v, from)->Ok_0;
            if storable(keep.label) {
                let both = stems(keep) + stems(absorb);
                law_rows_saved_and_removed(c.persons, into, keep.label, both, r);
                law_rows_saved_and_removed(
                    with_row(c.persons, into, keep.label, both),
                    from,
                    keep.label,
                    both,
                    r,
                );
            }
        },
        Err(_) => {},
    }
}

/// An entry is split from the person that has it, where that person has
/// another and nobody has the entry's petname as label; the refusal says
/// which.
pub proof fn law_split_of_whom(v: Seq<PersonView>, petname: Seq<char>)
    ensures
        match splits(v, petname) {
            Ok(source) => {
                &&& v.contains(source)
                &&& exists|k: int|
                    0 <= k < source.members.len() && (#[trigger] source.members[k]).0 == petname
                &&& source.members.len() != 1
                &&& source.label != petname
                &&& forall|i: int|
                    0 <= i < v.len() && (#[trigger] v[i]).id != source.id ==> v[i].label != petname
            },
            Err(ErrorView::InvalidInput(_)) => exists|i: int|
                0 <= i < v.len() && (#[trigger] v[i]).members.len() == 1 && v[i].members[0].0
                    == petname,
            Err(ErrorView::PetnameCollision(n)) => n == petname && exists|i: int|
                0 <= i < v.len() && (#[trigger] v[i]).label == petname,
            Err(_) => forall|i: int, k: int|
                0 <= i < v.len() && 0 <= k < v[i].members.len() ==> (
                #[trigger] v[i].members[k]).0 != petname,
        },
{
    let p = has_member(petname);
    lemma_first(v, p);
    match first(v, p) {
        Some(source) => {
            let i = choose|i: int| 0 <= i < v.len() && v[i] == source;
            let k = choose|k: int|
                0 <= k < source.members.len() && named(petname)(#[trigger] source.members[k]);
            assert(source.members[k].0 == petname);
            if source.members.len() == 1 {
                assert(v[i].members.len() == 1 && v[i].members[0].0 == petname);
            } else if source.label == petname {
                assert(v[i].label == petname);
            } else if some(v, labeled_else(petname, source.id)) {
                let j = choose|j: int|
                    0 <= j < v.len() && labeled_else(petname, source.id)(#[trigger] v[j]);
                assert(v[j].label == petname);
            } else {
                assert forall|j: int| 0 <= j < v.len() && (#[trigger] v[j]).id != source.id implies v[j].label
                    != petname by {
                    assert(!labeled_else(petname, source.id)(v[j]));
                }
            }
        },
        None => {
            assert forall|i: int, k: int| 0 <= i < v.len() && 0 <= k < v[i].members.len() implies (
            #[trigger] v[i].members[k]).0 != petname by {
                assert(!p(v[i]));
                assert(!named(petname)(v[i].members[k]));
            }
        },
    }
}

} // verus!
