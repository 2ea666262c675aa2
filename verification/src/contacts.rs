//! The contact store and its policy: petnames, and key overlap as identity.
//! A record sharing a key with a stored contact is an update of that entry,
//! never a new person; one spanning two contacts is refused outright.
use vstd::prelude::*;
use vstd::string::StringExecFns;

use crate::client::{entry_named, find_named, named, refile, refiled, unfile, unfiled, Client, ClientView, PersonRow, PersonRowView};
use crate::error::{Error, ErrorView};
use crate::hex;
use crate::hex::{hex32, hex_error};
use crate::ids::PublicKey;
use crate::load::{by_person_id, by_petname};
use crate::order::{ascending_list, copies, lemma_list_is, lemma_placed_contains, lists, placed, set_difference, set_of, Duplicate, Ranked};
use crate::persons::{all_render, claimed, eager, filed_apart, find_person_with, fresh, has_member, held_by, holds_member, keyed_apart, label_free, labels_unique, law_new_person_keeps_labels_unique, lemma_eager, lemma_entries_apart, lemma_held, lemma_other_rows_hold, lemma_saved_row_holds, looked, other_row, people, storable, taken, with_row, without_row, PersonEntry, PersonId, PersonView};
use crate::record::{claimed_name, lemma_keys_view, share_key, spec_of_entry, stem, ContactRecord, RecordView, RelayEntry, RelayView};
use crate::relays::{no_contact_named, unknown_petname, Contact};
use crate::rng::Mint;
use crate::seqs::{count_where, first, lemma_filter, lemma_filter_step, lemma_first, lemma_map_step, lemma_take_all, lemma_take_step};
use crate::state::entry_spec;
use crate::text::{cut_at, join, joined, parts, same_text, split, split_once, trim, trimmed};

verus! {

// ---- previews ----

/// The confirmable diff for a key-overlapping record: stored to scanned.
#[derive(Debug)]
pub struct RecordUpdate {
    /// The stored entry's petname: an update never renames.
    pub petname: String,
    pub old_name: Option<String>,
    pub new_name: Option<String>,
    pub relays_added: Vec<String>,
    pub relays_removed: Vec<String>,
    pub keys_added: usize,
    pub keys_removed: usize,
}

pub struct UpdateView {
    pub petname: Seq<char>,
    pub old_name: Option<Seq<char>>,
    pub new_name: Option<Seq<char>>,
    pub relays_added: Seq<Seq<char>>,
    pub relays_removed: Seq<Seq<char>>,
    pub keys_added: nat,
    pub keys_removed: nat,
}

impl DeepView for RecordUpdate {
    type V = UpdateView;

    open spec fn deep_view(&self) -> UpdateView {
        UpdateView {
            petname: self.petname@,
            old_name: self.old_name.deep_view(),
            new_name: self.new_name.deep_view(),
            relays_added: self.relays_added.deep_view(),
            relays_removed: self.relays_removed.deep_view(),
            keys_added: self.keys_added as nat,
            keys_removed: self.keys_removed as nat,
        }
    }
}

/// What storing a scanned or pasted record would do.
#[derive(Debug)]
pub enum RecordMatch {
    /// No key overlap: a new person.
    New {
        /// The record's verified self-claimed name, if any.
        suggested_petname: Option<String>,
    },
    /// Shares a key with exactly one contact: storing it is an update of that
    /// entry.
    Update(RecordUpdate),
    /// Shares keys with two or more contacts: storing would be refused.
    Ambiguous { petnames: Vec<String> },
}

pub enum MatchView {
    New(Option<Seq<char>>),
    Update(UpdateView),
    Ambiguous(Seq<Seq<char>>),
}

impl DeepView for RecordMatch {
    type V = MatchView;

    open spec fn deep_view(&self) -> MatchView {
        match *self {
            RecordMatch::New { suggested_petname } => MatchView::New(
                suggested_petname.deep_view(),
            ),
            RecordMatch::Update(u) => MatchView::Update(u.deep_view()),
            RecordMatch::Ambiguous { petnames } => MatchView::Ambiguous(petnames.deep_view()),
        }
    }
}

/// The relay specs a record names.
pub open spec fn spec_set(record: RecordView) -> Set<Seq<char>> {
    record.relays.map_values(entry_spec()).to_set()
}

pub open spec fn not_among(keys: Seq<PublicKey>) -> spec_fn(PublicKey) -> bool {
    |k: PublicKey| !keys.contains(k)
}

/// The diff from a stored record to a scanned one.
pub open spec fn diff(petname: Seq<char>, stored: RecordView, scanned: RecordView) -> UpdateView {
    UpdateView {
        petname,
        old_name: claimed_name(stored),
        new_name: claimed_name(scanned),
        relays_added: ascending_list::<String>(spec_set(scanned).difference(spec_set(stored))),
        relays_removed: ascending_list::<String>(spec_set(stored).difference(spec_set(scanned))),
        keys_added: count_where(scanned.keys, not_among(stored.keys)),
        keys_removed: count_where(stored.keys, not_among(scanned.keys)),
    }
}

fn specs_of(record: &ContactRecord) -> (r: Vec<String>)
    ensures
        lists::<String>(r.deep_view(), spec_set(record.deep_view())),
{
    let ghost s = record.relays.deep_view();
    let mut specs: Vec<String> = Vec::new();
    assert(specs.deep_view() =~= s.take(0).map_values(entry_spec()));
    for i in 0..record.relays.len()
        invariant
            s == record.relays.deep_view(),
            specs.deep_view() == s.take(i as int).map_values(entry_spec()),
    {
        proof {
            lemma_map_step(s, entry_spec(), i as int);
        }
        let ghost before = specs.deep_view();
        specs.push(record.relays[i].to_spec());
        assert(specs.deep_view() =~= before.push(spec_of_entry(s[i as int])));
    }
    proof {
        lemma_take_all(s);
    }
    set_of(&specs)
}

/// How many of a record's keys another does not list.
fn keys_beyond(record: &ContactRecord, other: &ContactRecord) -> (r: usize)
    ensures
        r == count_where(record.deep_view().keys, not_among(other.deep_view().keys)),
{
    let ghost s = record.deep_view().keys;
    let ghost p = not_among(other.deep_view().keys);
    let mut n: usize = 0;
    proof {
        reveal(Seq::filter);
        assert(s.take(0).filter(p) =~= Seq::<PublicKey>::empty());
    }
    for i in 0..record.keys.len()
        invariant
            s == record.deep_view().keys,
            p == not_among(other.deep_view().keys),
            n == s.take(i as int).filter(p).len(),
            n <= i,
    {
        proof {
            lemma_filter_step(s, p, i as int);
        }
        if !other.lists(&record.keys[i]) {
            n += 1;
        }
    }
    proof {
        lemma_take_all(s);
    }
    n
}

impl RecordUpdate {
    pub fn diff(petname: &str, stored: &ContactRecord, scanned: &ContactRecord) -> (r: Self)
        ensures
            r.deep_view() == diff(petname@, stored.deep_view(), scanned.deep_view()),
    {
        let old_relays: Vec<String> = specs_of(stored);
        let new_relays: Vec<String> = specs_of(scanned);
        let relays_added: Vec<String> = set_difference(&new_relays, &old_relays);
        let relays_removed: Vec<String> = set_difference(&old_relays, &new_relays);
        proof {
            let a = spec_set(scanned.deep_view());
            let b = spec_set(stored.deep_view());
            lemma_list_is::<String>(relays_added.deep_view(), a.difference(b));
            lemma_list_is::<String>(relays_removed.deep_view(), b.difference(a));
        }
        RecordUpdate {
            petname: petname.to_owned(),
            old_name: stored.self_claimed_name(),
            new_name: scanned.self_claimed_name(),
            relays_added,
            relays_removed,
            keys_added: keys_beyond(scanned, stored),
            keys_removed: keys_beyond(stored, scanned),
        }
    }
}

// ---- overlap ----

pub open spec fn overlaps(record: RecordView) -> spec_fn((Seq<char>, RecordView)) -> bool {
    |e: (Seq<char>, RecordView)| share_key(e.1, record)
}

/// The contacts sharing at least one key with a record.
pub open spec fn overlapping(c: ClientView, record: RecordView) -> Seq<(Seq<char>, RecordView)> {
    c.contacts.filter(overlaps(record))
}

pub open spec fn entry_name() -> spec_fn((Seq<char>, RecordView)) -> Seq<char> {
    |e: (Seq<char>, RecordView)| e.0
}

/// "name, name, ..."
pub open spec fn names_text(entries: Seq<(Seq<char>, RecordView)>) -> Seq<char> {
    joined(entries.map_values(entry_name()), ", "@)
}

fn names_in(entries: &Vec<(String, ContactRecord)>) -> (r: Vec<String>)
    ensures
        r.deep_view() == entries.deep_view().map_values(entry_name()),
{
    let ghost s = entries.deep_view();
    let mut out: Vec<String> = Vec::new();
    assert(out.deep_view() =~= s.take(0).map_values(entry_name()));
    for i in 0..entries.len()
        invariant
            s == entries.deep_view(),
            out.deep_view() == s.take(i as int).map_values(entry_name()),
    {
        proof {
            lemma_map_step(s, entry_name(), i as int);
        }
        let ghost before = out.deep_view();
        out.push(entries[i].0.clone());
        assert(out.deep_view() =~= before.push(s[i as int].0));
    }
    proof {
        lemma_take_all(s);
    }
    out
}

impl Client {
    /// The contacts sharing at least one key with the record: the identity
    /// evidence that add, update and preview triage on.
    pub fn overlapping(&self, record: &ContactRecord) -> (r: Vec<(String, ContactRecord)>)
        ensures
            r.deep_view() == overlapping(self.deep_view(), record.deep_view()),
    {
        let ghost s = self.contacts.deep_view();
        let ghost p = overlaps(record.deep_view());
        let mut out: Vec<(String, ContactRecord)> = Vec::new();
        proof {
            reveal(Seq::filter);
            assert(out.deep_view() =~= s.take(0).filter(p));
        }
        for i in 0..self.contacts.len()
            invariant
                s == self.contacts.deep_view(),
                p == overlaps(record.deep_view()),
                out.deep_view() == s.take(i as int).filter(p),
        {
            proof {
                lemma_filter_step(s, p, i as int);
            }
            if self.contacts[i].1.overlaps(record) {
                let ghost before = out.deep_view();
                out.push(self.contacts[i].duplicate());
                assert(out.deep_view() =~= before.push(s[i as int]));
            }
        }
        proof {
            lemma_take_all(s);
        }
        out
    }

    /// Triage a scanned record against the store: a new person, an update of
    /// exactly one contact, or a span that storing would refuse. Read-only.
    pub fn preview_contact(&self, record: &ContactRecord) -> (r: RecordMatch)
        ensures
            r.deep_view() == preview(self.deep_view(), record.deep_view()),
    {
        let found: Vec<(String, ContactRecord)> = self.overlapping(record);
        let ghost s = found.deep_view();
        assert(s.len() == found.len());
        if found.len() == 0 {
            RecordMatch::New { suggested_petname: record.self_claimed_name() }
        } else if found.len() == 1 {
            assert(s[0] == found@[0].deep_view());
            RecordMatch::Update(RecordUpdate::diff(found[0].0.as_str(), &found[0].1, record))
        } else {
            RecordMatch::Ambiguous { petnames: names_in(&found) }
        }
    }
}

/// What storing a record would do.
pub open spec fn preview(c: ClientView, record: RecordView) -> MatchView {
    let found = overlapping(c, record);
    if found.len() == 0 {
        MatchView::New(claimed_name(record))
    } else if found.len() == 1 {
        MatchView::Update(diff(found[0].0, found[0].1, record))
    } else {
        MatchView::Ambiguous(found.map_values(entry_name()))
    }
}

// ---- storing ----

pub open spec fn other_stem(key: Option<PublicKey>) -> spec_fn((Seq<char>, RecordView)) -> bool {
    |e: (Seq<char>, RecordView)| stem(e.1) != key
}

/// The store with an entry under its record's first key; petnames are kept
/// trimmed, entries in the order of petnames.
pub open spec fn with_contact(
    contacts: Seq<(Seq<char>, RecordView)>,
    petname: Seq<char>,
    record: RecordView,
) -> Seq<(Seq<char>, RecordView)> {
    placed(
        contacts.filter(other_stem(stem(record))),
        (trimmed(petname), record),
        by_petname(),
    )
}

/// The place of the first occurrence, or the length.
pub open spec fn place_of<V>(s: Seq<V>, x: V) -> int
    decreases s.len(),
{
    if s.len() == 0 || s[0] == x {
        0
    } else {
        1 + place_of(s.skip(1), x)
    }
}

/// `s` with the first `old` replaced.
pub open spec fn swap_first<V>(s: Seq<V>, old_value: V, new_value: V) -> Seq<V> {
    s.update(place_of(s, old_value), new_value)
}

/// Rows with every membership of one key moved to another.
pub open spec fn repointed(
    rows: Seq<PersonRowView>,
    seen: Seq<PersonRowView>,
    from: PublicKey,
    to: PublicKey,
) -> Seq<PersonRowView>
    decreases seen.len(),
{
    if seen.len() == 0 {
        rows
    } else {
        let before = repointed(rows, seen.drop_last(), from, to);
        let row = seen.last();
        if row.members.contains(from) {
            with_row(before, row.id, row.label, swap_first(row.members, from, to))
        } else {
            before
        }
    }
}

/// The client once an entry's record is replaced. A manual relay override on
/// either key goes: the fresh record supersedes the patch. A re-keyed entry
/// keeps its clustering.
pub open spec fn replaced(
    c: ClientView,
    old_record: RecordView,
    petname: Seq<char>,
    new_record: RecordView,
) -> ClientView {
    let saved = with_contact(c.contacts, petname, new_record);
    match (stem(old_record), stem(new_record)) {
        (Some(a), Some(b)) => if a == b {
            ClientView {
                contacts: saved,
                overrides: unfiled(unfiled(c.overrides, a), b),
                ..c
            }
        } else {
            ClientView {
                contacts: saved.filter(other_stem(Some(a))),
                overrides: unfiled(unfiled(c.overrides, a), b),
                persons: repointed(c.persons, c.persons, a, b),
                ..c
            }
        },
        _ => ClientView { contacts: saved, ..c },
    }
}

fn position(s: &Vec<PublicKey>, x: &PublicKey) -> (r: Option<usize>)
    ensures
        match r {
            Some(i) => i < s.len() && i == place_of(s@, *x) && s@.contains(*x),
            None => !s@.contains(*x),
        },
{
    let mut i: usize = 0;
    assert(s@.skip(0) =~= s@);
    while i < s.len()
        invariant
            i <= s.len(),
            place_of(s@, *x) == i + place_of(s@.skip(i as int), *x),
            forall|k: int| 0 <= k < i ==> s@[k] != *x,
        decreases s.len() - i,
    {
        if s[i] == *x {
            assert(s@.skip(i as int)[0] == *x);
            assert(s@[i as int] == *x);
            return Some(i);
        }
        assert(s@.skip(i as int)[0] == s@[i as int]);
        assert(s@.skip(i as int).skip(1) =~= s@.skip(i + 1));
        i += 1;
    }
    None
}

impl Client {
    fn drop_stem(&mut self, key: Option<PublicKey>)
        ensures
            final(self).deep_view() == (ClientView {
                contacts: old(self).deep_view().contacts.filter(other_stem(key)),
                ..old(self).deep_view()
            }),
    {
        let ghost s = self.contacts.deep_view();
        let ghost p = other_stem(key);
        let mut out: Vec<(String, ContactRecord)> = Vec::new();
        proof {
            reveal(Seq::filter);
            assert(out.deep_view() =~= s.take(0).filter(p));
        }
        for i in 0..self.contacts.len()
            invariant
                s == self.contacts.deep_view(),
                p == other_stem(key),
                out.deep_view() == s.take(i as int).filter(p),
        {
            proof {
                lemma_filter_step(s, p, i as int);
            }
            let same: bool = match (self.contacts[i].1.first_key(), key) {
                (Some(a), Some(b)) => a == b,
                (None, None) => true,
                _ => false,
            };
            assert(same == !p(s[i as int]));
            if !same {
                let ghost before = out.deep_view();
                out.push(self.contacts[i].duplicate());
                assert(out.deep_view() =~= before.push(s[i as int]));
            }
        }
        proof {
            lemma_take_all(s);
        }
        self.contacts = out;
    }

    /// Store a contact under a petname. A record without keys is refused.
    pub fn save_contact(&mut self, petname: &str, record: &ContactRecord) -> (r: Result<(), Error>)
        ensures
            stem(record.deep_view()) is None ==> r is Err && r->Err_0.deep_view()
                == ErrorView::InvalidRecord("record has no keys"@) && final(self).deep_view()
                == old(self).deep_view(),
            stem(record.deep_view()) is Some ==> r is Ok && final(self).deep_view() == (ClientView {
                contacts: with_contact(
                    old(self).deep_view().contacts,
                    petname@,
                    record.deep_view(),
                ),
                ..old(self).deep_view()
            }),
    {
        let key: Option<PublicKey> = record.first_key();
        if key.is_none() {
            return Err(Error::InvalidRecord("record has no keys".to_owned()));
        }
        self.drop_stem(key);
        let entry: (String, ContactRecord) = (trim(petname), record.duplicate());
        place_entry(&mut self.contacts, entry);
        Ok(())
    }

    /// Moves every person membership of one key to another.
    fn move_person_member(&mut self, from: PublicKey, to: PublicKey)
        ensures
            final(self).deep_view() == (ClientView {
                persons: repointed(
                    old(self).deep_view().persons,
                    old(self).deep_view().persons,
                    from,
                    to,
                ),
                ..old(self).deep_view()
            }),
    {
        let ghost c = self.deep_view();
        let rows: Vec<PersonRow> = copies(&self.persons);
        let ghost s = rows.deep_view();
        for i in 0..rows.len()
            invariant
                s == rows.deep_view(),
                s == c.persons,
                self.deep_view() == (ClientView {
                    persons: repointed(c.persons, s.take(i as int), from, to),
                    ..c
                }),
        {
            proof {
                lemma_take_step(s, i as int);
            }
            match position(&rows[i].members, &from) {
                Some(at) => {
                    let mut members: Vec<PublicKey> = copies(&rows[i].members);
                    proof {
                        lemma_keys_view(&members);
                        lemma_keys_view(&rows[i as int].members);
                    }
                    members.set(at, to);
                    proof {
                        lemma_keys_view(&members);
                        assert(members@ =~= swap_first(s[i as int].members, from, to));
                    }
                    self.save_person(rows[i].id, rows[i].label.as_str(), &members);
                },
                None => {},
            }
        }
        proof {
            lemma_take_all(s);
        }
    }

    /// Replace a stored contact's record: the explicit key-overlap update.
    pub fn replace_contact(
        &mut self,
        old_record: &ContactRecord,
        petname: &str,
        new_record: &ContactRecord,
    ) -> (r: Result<(), Error>)
        ensures
            stem(new_record.deep_view()) is None ==> r is Err && r->Err_0.deep_view()
                == ErrorView::InvalidRecord("record has no keys"@) && final(self).deep_view()
                == old(self).deep_view(),
            stem(new_record.deep_view()) is Some ==> r is Ok && final(self).deep_view() == replaced(
                old(self).deep_view(),
                old_record.deep_view(),
                petname@,
                new_record.deep_view(),
            ),
    {
        match self.save_contact(petname, new_record) {
            Ok(()) => {},
            Err(e) => {
                return Err(e);
            },
        }
        match (old_record.first_key(), new_record.first_key()) {
            (Some(a), Some(b)) => {
                unfile(&mut self.overrides, &a);
                unfile(&mut self.overrides, &b);
                if !(a == b) {
                    self.drop_stem(Some(a));
                    self.move_person_member(a, b);
                }
            },
            _ => {},
        }
        Ok(())
    }
}

fn place_entry(contacts: &mut Vec<(String, ContactRecord)>, entry: (String, ContactRecord))
    ensures
        final(contacts).deep_view() == placed(
            old(contacts).deep_view(),
            entry.deep_view(),
            by_petname(),
        ),
{
    let ghost s = contacts.deep_view();
    let ghost o = entry.deep_view();
    let mut k: usize = contacts.len();
    while k > 0 && entry.0.before(&contacts[k - 1].0)
        invariant
            k <= contacts.len(),
            s == contacts.deep_view(),
            o == entry.deep_view(),
            forall|j: int| k <= j < s.len() ==> by_petname()(o, #[trigger] s[j]),
        decreases k,
    {
        k -= 1;
    }
    let ghost held = contacts@;
    contacts.insert(k, entry);
    proof {
        assert(contacts@ == held.insert(k as int, entry));
        assert(contacts.deep_view() =~= s.insert(k as int, o));
        crate::order::lemma_placed_at(s, o, by_petname(), k as int);
    }
}

// ---- adding, updating, renaming ----

/// What an add or update of a record is refused for before anything is
/// looked up.
pub open spec fn unusable(record: RecordView) -> Option<ErrorView> {
    if record.keys.len() == 0 {
        Some(ErrorView::InvalidRecord("record has no keys"@))
    } else if record.relays.len() == 0 {
        Some(ErrorView::InvalidRecord("record has no relays — no way to reach them"@))
    } else {
        None
    }
}

/// What adding a record does: the petname it is stored under, whether it is a
/// new contact, and the client after it.
pub struct AddView {
    pub petname: Seq<char>,
    pub fresh: bool,
    pub after: ClientView,
}

/// The petname to add a record under: the one chosen, else the one claimed.
pub open spec fn chosen_name(record: RecordView, petname: Option<Seq<char>>) -> Option<Seq<char>> {
    match petname {
        Some(p) => Some(p),
        None => claimed_name(record),
    }
}

/// Adding a record under a chosen or claimed petname, among some persons.
pub open spec fn added(
    c: ClientView,
    v: Seq<PersonView>,
    record: RecordView,
    petname: Option<Seq<char>>,
    id: u128,
) -> Result<AddView, ErrorView> {
    match unusable(record) {
        Some(e) => Err(e),
        None => match chosen_name(record, petname) {
            None => Err(
                ErrorView::InvalidRecord(
                    "record has no valid self-claimed name; provide a petname"@,
                ),
            ),
            Some(name) => {
                let found = overlapping(c, record);
                if found.len() == 0 {
                    if taken(v, name, None) {
                        Err(ErrorView::PetnameCollision(name))
                    } else {
                        let contacts = with_contact(c.contacts, name, record);
                        let persons = with_row(c.persons, id, name, seq![record.keys[0]]);
                        Ok(
                            AddView {
                                petname: name,
                                fresh: true,
                                after: ClientView { contacts, persons, ..c },
                            },
                        )
                    }
                } else if found.len() == 1 {
                    if found[0].0 != name {
                        Err(ErrorView::ContactOverlap(found[0].0))
                    } else {
                        Ok(
                            AddView {
                                petname: name,
                                fresh: false,
                                after: replaced(c, found[0].1, name, record),
                            },
                        )
                    }
                } else {
                    Err(ErrorView::AmbiguousOverlap(names_text(found)))
                }
            },
        },
    }
}

/// A record that would make a new contact: the only add that looks at the
/// people.
pub open spec fn is_new(c: ClientView, record: RecordView, petname: Option<Seq<char>>) -> bool {
    unusable(record) is None && chosen_name(record, petname) is Some && overlapping(
        c,
        record,
    ).len() == 0
}

/// What an add comes to. A new contact's name must be free among the people,
/// and its person has the id minted next; every other add leaves people and
/// mint alone.
pub open spec fn add_outcome<M: Mint>(
    c: ClientView,
    record: RecordView,
    petname: Option<Seq<char>>,
    before: M,
    mint: M,
    after: ClientView,
    result: Result<(Seq<char>, bool), ErrorView>,
) -> bool {
    if is_new(c, record, petname) {
        let name = chosen_name(record, petname)->0;
        exists|d: ClientView, v: Seq<PersonView>, mid: M| #[trigger]
            looked(c, d, v, before, mid) && if taken(v, name, None) {
                result == Err::<(Seq<char>, bool), ErrorView>(ErrorView::PetnameCollision(name))
                    && after == d && mint == mid
            } else {
                exists|id: u128| #[trigger]
                    M::gives(mid, mint, id) && result == Ok::<(Seq<char>, bool), ErrorView>(
                        (name, true),
                    ) && added(d, v, record, petname, id) is Ok && after == added(
                        d,
                        v,
                        record,
                        petname,
                        id,
                    )->Ok_0.after
            }
    } else {
        mint == before && match added(c, Seq::empty(), record, petname, 0) {
            Ok(a) => result == Ok::<(Seq<char>, bool), ErrorView>((a.petname, a.fresh)) && after
                == a.after,
            Err(e) => result == Err::<(Seq<char>, bool), ErrorView>(e) && after == c,
        }
    }
}

/// Updating the one contact a record shares a key with.
pub open spec fn updated(c: ClientView, record: RecordView) -> Result<
    (Seq<char>, ClientView),
    ErrorView,
> {
    match unusable(record) {
        Some(e) => Err(e),
        None => {
            let found = overlapping(c, record);
            if found.len() == 0 {
                Err(
                    ErrorView::NotAContact(
                        "record shares no key with a stored contact — add it instead"@,
                    ),
                )
            } else if found.len() == 1 {
                Ok((found[0].0, replaced(c, found[0].1, found[0].0, record)))
            } else {
                Err(ErrorView::AmbiguousOverlap(names_text(found)))
            }
        },
    }
}

/// What a rename is refused for, or settled as, before the people are looked
/// at: `None` where they must be.
pub open spec fn rename_settled(c: ClientView, current: Seq<char>, name: Seq<char>) -> Option<
    Result<(), ErrorView>,
> {
    if name.len() == 0 {
        Some(Err(ErrorView::InvalidInput("petname cannot be empty"@)))
    } else if name == current {
        Some(Ok(()))
    } else if entry_named(c, current) is None {
        Some(Err(no_contact_named(current)))
    } else {
        None
    }
}

/// Renaming a contact entry, among some persons.
pub open spec fn renamed(c: ClientView, v: Seq<PersonView>, current: Seq<char>, name: Seq<char>) -> Result<
    ClientView,
    ErrorView,
> {
    let e = entry_named(c, current)->0;
    let own_person = match first(v, has_member(current)) {
        Some(p) => Some(p.id),
        None => None,
    };
    if taken(v, name, own_person) {
        Err(ErrorView::PetnameCollision(name))
    } else if stem(e.1) is None {
        Err(ErrorView::InvalidRecord("record has no keys"@))
    } else {
        Ok(ClientView { contacts: with_contact(c.contacts, name, e.1), ..c })
    }
}

/// What an add stored.
#[derive(Debug)]
pub struct AddedContact {
    /// The petname it is stored under.
    pub petname: String,
    /// A contact that was not there before: siblings are offered it.
    pub fresh: bool,
}

pub open spec fn add_result(r: Result<AddedContact, Error>) -> Result<(Seq<char>, bool), ErrorView> {
    match r {
        Ok(a) => Ok((a.petname@, a.fresh)),
        Err(e) => Err(e.deep_view()),
    }
}

fn check_usable(record: &ContactRecord) -> (r: Option<Error>)
    ensures
        match unusable(record.deep_view()) {
            Some(e) => r is Some && r->0.deep_view() == e,
            None => r is None,
        },
{
    if record.keys.len() == 0 {
        return Some(Error::InvalidRecord("record has no keys".to_owned()));
    }
    if record.relays.len() == 0 {
        return Some(
            Error::InvalidRecord("record has no relays — no way to reach them".to_owned()),
        );
    }
    None
}

impl Client {
    /// Store a scanned or pasted record. The petname defaults to the
    /// contact's self-claimed name. A record sharing a key with a stored
    /// contact updates that entry, under its own petname only; a new one gets
    /// its person, with a minted id.
    pub fn add_contact<M: Mint>(
        &mut self,
        record: &ContactRecord,
        petname: Option<String>,
        rng: &mut M,
    ) -> (r: Result<AddedContact, Error>)
        ensures
            add_outcome(
                old(self).deep_view(),
                record.deep_view(),
                petname.deep_view(),
                *old(rng),
                *final(rng),
                final(self).deep_view(),
                add_result(r),
            ),
    {
        let ghost c = self.deep_view();
        let ghost asked = petname.deep_view();
        match check_usable(record) {
            Some(e) => {
                return Err(e);
            },
            None => {},
        }
        let chosen: Option<String> = match petname {
            Some(p) => Some(p),
            None => record.self_claimed_name(),
        };
        let name: String = match chosen {
            Some(n) => n,
            None => {
                return Err(
                    Error::InvalidRecord(
                        "record has no valid self-claimed name; provide a petname".to_owned(),
                    ),
                );
            },
        };
        let found: Vec<(String, ContactRecord)> = self.overlapping(record);
        let ghost s = found.deep_view();
        assert(s.len() == found.len());
        if found.len() == 0 {
            let all: Vec<PersonEntry> = self.persons(rng);
            let ghost d = self.deep_view();
            let ghost v = all.deep_view();
            let ghost mid = *rng;
            match label_free(&all, name.as_str(), None) {
                Ok(()) => {},
                Err(e) => {
                    return Err(e);
                },
            }
            match self.save_contact(name.as_str(), record) {
                Ok(()) => {},
                Err(e) => {
                    return Err(e);
                },
            }
            let id: PersonId = PersonId::mint(rng);
            self.claim_entry(name.as_str(), record.keys[0], id);
            proof {
                assert(M::gives(mid, *rng, id.number()));
                assert(added(d, v, record.deep_view(), asked, id.number()) is Ok);
            }
            Ok(AddedContact { petname: name, fresh: true })
        } else if found.len() == 1 {
            assert(s[0] == found@[0].deep_view());
            if !same_text(&found[0].0, name.as_str()) {
                return Err(Error::ContactOverlap { existing: found[0].0.clone() });
            }
            match self.replace_contact(&found[0].1, name.as_str(), record) {
                Ok(()) => Ok(AddedContact { petname: name, fresh: false }),
                Err(e) => Err(e),
            }
        } else {
            let names: Vec<String> = names_in(&found);
            Err(Error::AmbiguousOverlap(join(&names, ", ")))
        }
    }

    /// The explicit update act: replace the record of the one contact this
    /// record shares a key with, keeping the stored petname.
    pub fn update_contact(&mut self, record: &ContactRecord) -> (r: Result<String, Error>)
        ensures
            match updated(old(self).deep_view(), record.deep_view()) {
                Ok((petname, c)) => r is Ok && r->Ok_0@ == petname && final(self).deep_view() == c,
                Err(e) => r is Err && r->Err_0.deep_view() == e && final(self).deep_view() == old(
                    self,
                ).deep_view(),
            },
    {
        match check_usable(record) {
            Some(e) => {
                return Err(e);
            },
            None => {},
        }
        let found: Vec<(String, ContactRecord)> = self.overlapping(record);
        let ghost s = found.deep_view();
        assert(s.len() == found.len());
        if found.len() == 0 {
            Err(
                Error::NotAContact(
                    "record shares no key with a stored contact — add it instead".to_owned(),
                ),
            )
        } else if found.len() == 1 {
            assert(s[0] == found@[0].deep_view());
            match self.replace_contact(&found[0].1, found[0].0.as_str(), record) {
                Ok(()) => Ok(found[0].0.clone()),
                Err(e) => Err(e),
            }
        } else {
            let names: Vec<String> = names_in(&found);
            Err(Error::AmbiguousOverlap(join(&names, ", ")))
        }
    }

    /// Rename a contact: set my petname for them. Purely local. Refuses an
    /// empty name or one that somebody else goes by.
    pub fn rename<M: Mint>(&mut self, current: &str, new: &str, rng: &mut M) -> (r: Result<
        (),
        Error,
    >)
        ensures
            match rename_settled(old(self).deep_view(), current@, trimmed(new@)) {
                Some(done) => {
                    &&& final(self).deep_view() == old(self).deep_view()
                    &&& *final(rng) == *old(rng)
                    &&& match done {
                        Ok(()) => r is Ok,
                        Err(e) => r is Err && r->Err_0.deep_view() == e,
                    }
                },
                None => exists|d: ClientView, v: Seq<PersonView>| #[trigger]
                    looked(old(self).deep_view(), d, v, *old(rng), *final(rng)) && match renamed(
                        d,
                        v,
                        current@,
                        trimmed(new@),
                    ) {
                        Ok(c) => r is Ok && final(self).deep_view() == c,
                        Err(e) => r is Err && r->Err_0.deep_view() == e && final(self).deep_view()
                            == d,
                    },
            },
    {
        let name: String = trim(new);
        if name.as_str().is_empty() {
            return Err(Error::InvalidInput("petname cannot be empty".to_owned()));
        }
        if same_text(&name, current) {
            return Ok(());
        }
        let record: ContactRecord = match find_named(&self.contacts, current) {
            Some(i) => self.contacts[i].1.duplicate(),
            None => {
                return Err(unknown_petname(current));
            },
        };
        let all: Vec<PersonEntry> = self.persons(rng);
        let own_person: Option<PersonId> = match find_person_with(&all, current) {
            Some(i) => Some(all[i].id),
            None => None,
        };
        match label_free(&all, name.as_str(), own_person) {
            Ok(()) => {},
            Err(e) => {
                return Err(e);
            },
        }
        self.save_contact(name.as_str(), &record)
    }
}

// ---- raw contacts and overrides ----

/// A contact spec `<pubkey-hex>@<relay>[,<relay>...]`: the first `@` cuts the
/// key from the relays. What dialing the relays would refuse comes before
/// what the key's hex would.
pub open spec fn contact_of_spec(spec: Seq<char>, refused: Option<ErrorView>) -> Result<
    (PublicKey, Seq<Seq<char>>),
    ErrorView,
> {
    match cut_at(spec, '@') {
        None => Err(ErrorView::InvalidInput("contact must be <pubkey>@<relay>[,<relay>...]"@)),
        Some((key, relays)) => match refused {
            Some(e) => Err(e),
            None => match hex32(key) {
                Some(k) => Ok((PublicKey(k), parts(relays, ','))),
                None => Err(hex_error(key)),
            },
        },
    }
}

impl Contact {
    /// The relays a contact spec names, for an edge to check before parsing.
    pub fn spec_relays(spec: &str) -> (r: Vec<String>)
        ensures
            r.deep_view() == match cut_at(spec@, '@') {
                Some((_, relays)) => parts(relays, ','),
                None => Seq::empty(),
            },
    {
        match split_once(spec, '@') {
            Some((_, relays)) => split(relays.as_str(), ','),
            None => {
                let none: Vec<String> = Vec::new();
                assert(none.deep_view() =~= Seq::<Seq<char>>::empty());
                none
            },
        }
    }

    /// `<pubkey-hex>@<relay>[,<relay>...]`: the raw escape hatch next to
    /// named contacts. `refused` is what dialing its relays was refused for,
    /// if anything.
    pub fn parse(spec: &str, refused: Option<Error>) -> (r: Result<Contact, Error>)
        ensures
            match contact_of_spec(
                spec@,
                match refused {
                    Some(e) => Some(e.deep_view()),
                    None => None,
                },
            ) {
                Ok((key, relays)) => r is Ok && r->Ok_0.deep_view().keys == seq![key]
                    && r->Ok_0.deep_view().relays == relays,
                Err(e) => r is Err && r->Err_0.deep_view() == e,
            },
    {
        match split_once(spec, '@') {
            None => Err(
                Error::InvalidInput("contact must be <pubkey>@<relay>[,<relay>...]".to_owned()),
            ),
            Some((key, relays)) => match refused {
                Some(e) => Err(e),
                None => match hex::parse32(key.as_str()) {
                    Ok(k) => {
                        let mut keys: Vec<PublicKey> = Vec::new();
                        keys.push(PublicKey(k));
                        assert(keys@ =~= seq![PublicKey(k)]);
                        Ok(Contact { keys, relays: split(relays.as_str(), ',') })
                    },
                    Err(e) => Err(e),
                },
            },
        }
    }
}

pub open spec fn entry_of() -> spec_fn(Seq<char>) -> RelayView {
    |s: Seq<char>| crate::record::entry_of_spec(s)
}

/// Setting a manual relay override; an empty list clears it.
pub open spec fn overridden(
    c: ClientView,
    petname: Seq<char>,
    specs: Seq<Seq<char>>,
    refused: Option<ErrorView>,
) -> Result<ClientView, ErrorView> {
    match entry_named(c, petname) {
        None => Err(ErrorView::NotAContact(petname)),
        Some(e) => match stem(e.1) {
            None => Err(ErrorView::InvalidRecord("stored record has no keys"@)),
            Some(key) => if specs.len() == 0 {
                Ok(ClientView { overrides: unfiled(c.overrides, key), ..c })
            } else {
                match refused {
                    Some(e) => Err(e),
                    None => Ok(
                        ClientView {
                            overrides: refiled(c.overrides, key, specs.map_values(entry_of())),
                            ..c
                        },
                    ),
                }
            },
        },
    }
}

impl Client {
    /// Set (or clear, with an empty list) the manual relay override of a
    /// contact: stored beside the record, never inside it. `refused` is what
    /// dialing the specs' mailboxes was refused for, if anything.
    pub fn set_relay_override(&mut self, petname: &str, specs: &Vec<String>, refused: Option<Error>) -> (r:
        Result<(), Error>)
        ensures
            match overridden(
                old(self).deep_view(),
                petname@,
                specs.deep_view(),
                match refused {
                    Some(e) => Some(e.deep_view()),
                    None => None,
                },
            ) {
                Ok(c) => r is Ok && final(self).deep_view() == c,
                Err(e) => r is Err && r->Err_0.deep_view() == e && final(self).deep_view() == old(
                    self,
                ).deep_view(),
            },
    {
        let key: PublicKey = match find_named(&self.contacts, petname) {
            Some(i) => match self.contacts[i].1.first_key() {
                Some(k) => k,
                None => {
                    return Err(Error::InvalidRecord("stored record has no keys".to_owned()));
                },
            },
            None => {
                return Err(Error::NotAContact(petname.to_owned()));
            },
        };
        if specs.len() == 0 {
            unfile(&mut self.overrides, &key);
            return Ok(());
        }
        match refused {
            Some(e) => {
                return Err(e);
            },
            None => {},
        }
        let ghost s = specs.deep_view();
        let ghost f = entry_of();
        let mut entries: Vec<RelayEntry> = Vec::new();
        assert(entries.deep_view() =~= s.take(0).map_values(f));
        for i in 0..specs.len()
            invariant
                s == specs.deep_view(),
                f == entry_of(),
                entries.deep_view() == s.take(i as int).map_values(f),
        {
            proof {
                lemma_map_step(s, f, i as int);
            }
            let ghost before = entries.deep_view();
            entries.push(RelayEntry::from_spec(specs[i].as_str()));
            assert(entries.deep_view() =~= before.push(f(s[i as int])));
        }
        proof {
            lemma_take_all(s);
        }
        refile(&mut self.overrides, key, entries);
        Ok(())
    }
}

// ---- laws ----

/// A record that smuggles a contact's key never rewrites that contact as a
/// side effect of adding somebody else: under any other petname the add is
/// refused and nothing changes.
pub proof fn law_overlap_needs_the_petname(
    c: ClientView,
    v: Seq<PersonView>,
    record: RecordView,
    petname: Seq<char>,
    id: u128,
)
    requires
        unusable(record) is None,
        overlapping(c, record).len() == 1,
        overlapping(c, record)[0].0 != petname,
    ensures
        added(c, v, record, Some(petname), id) == Err::<AddView, ErrorView>(
            ErrorView::ContactOverlap(overlapping(c, record)[0].0),
        ),
{
}

/// A record spanning two contacts is refused by every act.
pub proof fn law_ambiguous_is_refused(
    c: ClientView,
    v: Seq<PersonView>,
    record: RecordView,
    petname: Seq<char>,
    id: u128,
)
    requires
        unusable(record) is None,
        overlapping(c, record).len() > 1,
    ensures
        added(c, v, record, Some(petname), id) is Err,
        updated(c, record) is Err,
        preview(c, record) is Ambiguous,
{
}

/// The preview says what the acts do: it promises an update exactly where the
/// update act succeeds.
pub proof fn law_preview_matches_update(c: ClientView, record: RecordView)
    requires
        unusable(record) is None,
    ensures
        preview(c, record) is Update <==> updated(c, record) is Ok,
        preview(c, record) is Update ==> preview(c, record)->Update_0.petname == updated(
            c,
            record,
        )->Ok_0.0,
{
}

/// Adding a new contact keeps the person labels unique.
pub proof fn law_adding_keeps_labels_unique(
    c: ClientView,
    record: RecordView,
    petname: Option<Seq<char>>,
    id: u128,
)
    requires
        labels_unique(c.persons),
        all_render(c),
        added(c, people(c), record, petname, id) is Ok,
        added(c, people(c), record, petname, id)->Ok_0.fresh,
        storable(added(c, people(c), record, petname, id)->Ok_0.petname),
    ensures
        labels_unique(added(c, people(c), record, petname, id)->Ok_0.after.persons),
{
    law_new_person_keeps_labels_unique(
        c,
        id,
        added(c, people(c), record, petname, id)->Ok_0.petname,
        seq![record.keys[0]],
    );
}

/// A stored entry is one that was stored already, or the new one.
proof fn lemma_with_contact(
    contacts: Seq<(Seq<char>, RecordView)>,
    petname: Seq<char>,
    record: RecordView,
    i: int,
)
    requires
        0 <= i < with_contact(contacts, petname, record).len(),
    ensures
        with_contact(contacts, petname, record)[i] == (trimmed(petname), record) || exists|j: int|
            0 <= j < contacts.len() && #[trigger] contacts[j] == with_contact(
                contacts,
                petname,
                record,
            )[i],
{
    let kept = contacts.filter(other_stem(stem(record)));
    let now = with_contact(contacts, petname, record);
    let e = (trimmed(petname), record);
    lemma_filter(contacts, other_stem(stem(record)));
    lemma_placed_contains(kept, e, by_petname(), now[i]);
    assert(now.contains(now[i]));
    if now[i] != e {
        let a = choose|a: int| 0 <= a < kept.len() && kept[a] == now[i];
        assert(contacts.contains(kept[a]));
    }
}

/// Storing a record keeps the entries filed by key, also where it replaces
/// another one's.
pub proof fn law_entries_stay_filed_apart(
    c: ClientView,
    old_record: RecordView,
    petname: Seq<char>,
    record: RecordView,
)
    requires
        keyed_apart(c.contacts),
    ensures
        keyed_apart(with_contact(c.contacts, petname, record)),
        keyed_apart(replaced(c, old_record, petname, record).contacts),
{
    let e = (trimmed(petname), record);
    lemma_entries_apart(c.contacts, other_stem(stem(record)), e, by_petname());
    let saved = with_contact(c.contacts, petname, record);
    match stem(old_record) {
        Some(a) => {
            let gone = (petname, old_record);
            lemma_entries_apart(saved, other_stem(Some(a)), gone, by_petname());
        },
        None => {},
    }
}

/// Adding a new contact keeps every entry claimed, the new one too.
pub proof fn law_adding_keeps_entries_claimed(
    c: ClientView,
    v: Seq<PersonView>,
    record: RecordView,
    petname: Option<Seq<char>>,
    id: u128,
)
    requires
        eager(c),
        fresh(c.persons, seq![id]),
        added(c, v, record, petname, id) is Ok,
        added(c, v, record, petname, id)->Ok_0.fresh,
        storable(added(c, v, record, petname, id)->Ok_0.petname),
    ensures
        eager(added(c, v, record, petname, id)->Ok_0.after),
{
    let name = added(c, v, record, petname, id)->Ok_0.petname;
    let d = added(c, v, record, petname, id)->Ok_0.after;
    let own = seq![record.keys[0]];
    assert forall|i: int| 0 <= i < d.contacts.len() && stem((#[trigger] d.contacts[i]).1) is Some implies holds_member(
        d.persons,
        stem(d.contacts[i].1)->0,
    ) by {
        let k = stem(d.contacts[i].1)->0;
        lemma_with_contact(c.contacts, name, record, i);
        if d.contacts[i] == (trimmed(name), record) {
            assert(own[0] == k);
            lemma_saved_row_holds(c.persons, id, name, own, k);
            lemma_held(d.persons, id, k);
        } else {
            let j = choose|j: int| 0 <= j < c.contacts.len() && #[trigger] c.contacts[j] == d.contacts[i];
            assert(claimed(c, c.persons).contains(stem(c.contacts[j].1)->0));
            let a = choose|a: int|
                0 <= a < c.persons.len() && #[trigger] c.persons[a].members.contains(k);
            let other = c.persons[a].id;
            assert(c.persons[a].id != seq![id][0]);
            assert(held_by(c.persons, other, k));
            lemma_other_rows_hold(c.persons, id, name, own, other, k);
            lemma_held(d.persons, other, k);
        }
    }
    lemma_eager(d);
}

/// Renaming a contact entry keeps every entry claimed.
pub proof fn law_entry_rename_keeps_entries_claimed(
    c: ClientView,
    v: Seq<PersonView>,
    current: Seq<char>,
    name: Seq<char>,
)
    requires
        eager(c),
        entry_named(c, current) is Some,
        renamed(c, v, current, name) is Ok,
    ensures
        eager(renamed(c, v, current, name)->Ok_0),
{
    let d = renamed(c, v, current, name)->Ok_0;
    let e = entry_named(c, current)->0;
    lemma_first(c.contacts, named(current));
    assert forall|i: int| 0 <= i < d.contacts.len() && stem((#[trigger] d.contacts[i]).1) is Some implies holds_member(
        d.persons,
        stem(d.contacts[i].1)->0,
    ) by {
        lemma_with_contact(c.contacts, name, e.1, i);
        let j = choose|j: int|
            0 <= j < c.contacts.len() && (#[trigger] c.contacts[j]).1 == d.contacts[i].1;
        assert(claimed(c, c.persons).contains(stem(c.contacts[j].1)->0));
    }
    lemma_eager(d);
}

/// A row with the membership of one key moved to another, if it has it.
spec fn moved(row: PersonRowView, from: PublicKey, to: PublicKey) -> PersonRowView {
    if row.members.contains(from) {
        PersonRowView { members: swap_first(row.members, from, to), ..row }
    } else {
        row
    }
}

proof fn lemma_place_of<V>(s: Seq<V>, x: V)
    requires
        s.contains(x),
    ensures
        0 <= place_of(s, x) < s.len(),
        s[place_of(s, x)] == x,
        forall|j: int| 0 <= j < place_of(s, x) ==> s[j] != x,
    decreases s.len(),
{
    let k = choose|k: int| 0 <= k < s.len() && s[k] == x;
    if s[0] != x {
        let t = s.skip(1);
        assert(t[k - 1] == x);
        lemma_place_of(t, x);
        assert forall|j: int| 0 <= j < place_of(s, x) implies s[j] != x by {
            if j > 0 {
                assert(t[j - 1] == s[j]);
            }
        }
    }
}

/// A moved row has every other member still, and the new one where it had the
/// old.
proof fn lemma_moved(row: PersonRowView, from: PublicKey, to: PublicKey, k: PublicKey)
    requires
        row.members.contains(k),
    ensures
        k != from ==> moved(row, from, to).members.contains(k),
        k == from ==> moved(row, from, to).members.contains(to),
{
    if row.members.contains(from) {
        lemma_place_of(row.members, from);
        let at = place_of(row.members, from);
        let now = moved(row, from, to).members;
        assert(now[at] == to);
        if k != from {
            let i = choose|i: int| 0 <= i < row.members.len() && row.members[i] == k;
            assert(now[i] == k);
        }
    }
}

/// Moving a membership rewrites each row that has it and no other.
proof fn lemma_repointed(rows: Seq<PersonRowView>, from: PublicKey, to: PublicKey, n: int, i: int)
    requires
        filed_apart(rows),
        forall|j: int| 0 <= j < rows.len() ==> storable((#[trigger] rows[j]).label),
        0 <= n <= rows.len(),
        0 <= i < rows.len(),
    ensures
        repointed(rows, rows.take(n), from, to).contains(
            if i < n {
                moved(rows[i], from, to)
            } else {
                rows[i]
            },
        ),
    decreases n,
{
    if n == 0 {
        assert(rows.take(0).len() == 0);
        assert(rows.contains(rows[i]));
    } else {
        let m = n - 1;
        lemma_take_step(rows, m);
        let before = repointed(rows, rows.take(m), from, to);
        let row = rows[m];
        lemma_repointed(rows, from, to, m, i);
        if row.members.contains(from) {
            let swapped = swap_first(row.members, from, to);
            crate::state::law_person_round_trip(row.label, swapped);
            let kept = without_row(before, row.id);
            let fresh_row = PersonRowView { id: row.id, label: row.label, members: swapped };
            let want = if i < n {
                moved(rows[i], from, to)
            } else {
                rows[i]
            };
            lemma_placed_contains(kept, fresh_row, by_person_id(), want);
            if i == m {
                assert(want == fresh_row);
            } else {
                assert(rows[i].id != row.id) by {
                    if i < m {
                        assert(rows[i].id != rows[m].id);
                    } else {
                        assert(rows[m].id != rows[i].id);
                    }
                }
                lemma_filter(before, other_row(row.id));
                let a = choose|a: int| 0 <= a < before.len() && before[a] == want;
                assert(other_row(row.id)(before[a]));
            }
        }
    }
}

/// Updating a contact keeps every entry claimed, also where its record comes
/// under a new first key.
pub proof fn law_updating_keeps_entries_claimed(c: ClientView, record: RecordView)
    requires
        eager(c),
        filed_apart(c.persons),
        forall|j: int|
            0 <= j < c.persons.len() ==> storable((#[trigger] c.persons[j]).label),
        updated(c, record) is Ok,
    ensures
        eager(updated(c, record)->Ok_0.1),
{
    let found = overlapping(c, record);
    lemma_filter(c.contacts, overlaps(record));
    assert(c.contacts.contains(found[0]));
    lemma_replacing_keeps_entries_claimed(c, found[0], record);
}

proof fn lemma_replacing_keeps_entries_claimed(
    c: ClientView,
    entry: (Seq<char>, RecordView),
    record: RecordView,
)
    requires
        eager(c),
        filed_apart(c.persons),
        forall|j: int|
            0 <= j < c.persons.len() ==> storable((#[trigger] c.persons[j]).label),
        c.contacts.contains(entry),
        stem(entry.1) is Some,
    ensures
        eager(replaced(c, entry.1, entry.0, record)),
{
    let d = replaced(c, entry.1, entry.0, record);
    let saved = with_contact(c.contacts, entry.0, record);
    let rows = c.persons;
    let a = stem(entry.1)->0;
    let at = choose|at: int| 0 <= at < c.contacts.len() && c.contacts[at] == entry;
    assert(claimed(c, rows).contains(stem(c.contacts[at].1)->0));
    lemma_filter(saved, other_stem(Some(a)));
    lemma_take_all(rows);
    assert forall|i: int| 0 <= i < d.contacts.len() && stem((#[trigger] d.contacts[i]).1) is Some implies holds_member(
        d.persons,
        stem(d.contacts[i].1)->0,
    ) by {
        let e = d.contacts[i];
        let k = stem(e.1)->0;
        assert(saved.contains(e)) by {
            assert(d.contacts.contains(e));
        }
        let s = choose|s: int| 0 <= s < saved.len() && saved[s] == e;
        lemma_with_contact(c.contacts, entry.0, record, s);
        let moves = stem(record) is Some && stem(record) != Some(a);
        let old_key = if moves && e == (trimmed(entry.0), record) {
            a
        } else {
            k
        };
        assert(claimed(c, rows).contains(old_key)) by {
            if !(e == (trimmed(entry.0), record)) {
                let j = choose|j: int| 0 <= j < c.contacts.len() && #[trigger] c.contacts[j] == e;
                assert(stem(c.contacts[j].1) == Some(k));
            }
        }
        let b = choose|b: int| 0 <= b < rows.len() && #[trigger] rows[b].members.contains(old_key);
        if moves {
            let to = stem(record)->0;
            lemma_repointed(rows, a, to, rows.len() as int, b);
            lemma_moved(rows[b], a, to, old_key);
            assert(other_stem(Some(a))(e));
            let row = moved(rows[b], a, to);
            let x = choose|x: int| 0 <= x < d.persons.len() && d.persons[x] == row;
            assert(d.persons[x].members.contains(k));
        } else {
            assert(d.persons[b].members.contains(k));
        }
    }
    lemma_eager(d);
}

/// A new contact is stored, under its trimmed petname.
pub proof fn law_added_is_stored(
    c: ClientView,
    v: Seq<PersonView>,
    record: RecordView,
    petname: Option<Seq<char>>,
    id: u128,
)
    requires
        added(c, v, record, petname, id) is Ok,
        added(c, v, record, petname, id)->Ok_0.fresh,
    ensures
        added(c, v, record, petname, id)->Ok_0.after.contacts.contains(
            (trimmed(added(c, v, record, petname, id)->Ok_0.petname), record),
        ),
{
    let name = added(c, v, record, petname, id)->Ok_0.petname;
    let e = (trimmed(name), record);
    lemma_placed_contains(
        c.contacts.filter(other_stem(stem(record))),
        e,
        by_petname(),
        e,
    );
}

/// Storing a record files it under its petname in place of the entry with the
/// same first key, and leaves every other entry as it was.
pub proof fn law_storing_a_contact(
    contacts: Seq<(Seq<char>, RecordView)>,
    petname: Seq<char>,
    record: RecordView,
    e: (Seq<char>, RecordView),
)
    requires
        record.keys.len() > 0,
    ensures
        with_contact(contacts, petname, record).contains(e) <==> e == (trimmed(petname), record) || (
        contacts.contains(e) && (e.1.keys.len() > 0 ==> e.1.keys[0] != record.keys[0])),
{
    let p = other_stem(stem(record));
    crate::seqs::lemma_filter_contains(contacts, p, e);
    lemma_placed_contains(contacts.filter(p), (trimmed(petname), record), by_petname(), e);
}

/// The contacts a record overlaps are those whose record lists one of its
/// keys, all of them.
pub proof fn law_overlap_by_key(c: ClientView, record: RecordView, e: (Seq<char>, RecordView))
    ensures
        overlapping(c, record).contains(e) <==> c.contacts.contains(e) && exists|key: PublicKey|
            e.1.keys.contains(key) && #[trigger] record.keys.contains(key),
{
    crate::seqs::lemma_filter_contains(c.contacts, overlaps(record), e);
    if share_key(e.1, record) {
        let i = choose|i: int| 0 <= i < e.1.keys.len() && record.keys.contains(#[trigger] e.1.keys[i]);
        assert(e.1.keys.contains(e.1.keys[i]) && record.keys.contains(e.1.keys[i]));
    }
    if exists|key: PublicKey| e.1.keys.contains(key) && #[trigger] record.keys.contains(key) {
        let key = choose|key: PublicKey|
            e.1.keys.contains(key) && #[trigger] record.keys.contains(key);
        let i = choose|i: int| 0 <= i < e.1.keys.len() && e.1.keys[i] == key;
        assert(record.keys.contains(e.1.keys[i]));
    }
}

/// An update succeeds exactly where the record is usable and shares a key with
/// one contact. It then replaces that contact's record and keeps the petname;
/// an entry with another first key than either record's stays as it was, and
/// nothing changes but entries, overrides and, for a new first key, the
/// persons. No override is left on either key.
pub proof fn law_update_replaces_one_record(c: ClientView, record: RecordView, e: (Seq<char>, RecordView))
    ensures
        updated(c, record) is Ok <==> record.keys.len() > 0 && record.relays.len() > 0 && overlapping(
            c,
            record,
        ).len() == 1,
        match updated(c, record) {
            Ok((petname, d)) => {
                let old_entry = overlapping(c, record)[0];
                &&& petname == old_entry.0
                &&& c.contacts.contains(old_entry)
                &&& d == (ClientView {
                    contacts: d.contacts,
                    overrides: d.overrides,
                    persons: d.persons,
                    ..c
                })
                &&& old_entry.1.keys.len() > 0 && old_entry.1.keys[0] == record.keys[0] ==> d.persons
                    == c.persons
                &&& d.contacts.contains((trimmed(petname), record))
                &&& e.1.keys.len() > 0 && e.1.keys[0] != record.keys[0] && (old_entry.1.keys.len()
                    > 0 ==> e.1.keys[0] != old_entry.1.keys[0]) ==> (d.contacts.contains(e)
                    <==> c.contacts.contains(e))
                &&& e.1.keys.len() > 0 && e.1.keys[0] == record.keys[0] && d.contacts.contains(e)
                    ==> e.1 == record
                &&& forall|relays: Seq<RelayView>|
                    old_entry.1.keys.len() > 0 ==> !(#[trigger] d.overrides.contains(
                        (record.keys[0], relays),
                    ))
            },
            Err(_) => true,
        },
{
    match updated(c, record) {
        Ok((petname, d)) => {
            let found = overlapping(c, record);
            let old_entry = found[0];
            lemma_filter(c.contacts, overlaps(record));
            assert(c.contacts.contains(found[0]));
            let new_entry = (trimmed(petname), record);
            law_storing_a_contact(c.contacts, petname, record, e);
            law_storing_a_contact(c.contacts, petname, record, new_entry);
            let saved = with_contact(c.contacts, petname, record);
            match (stem(old_entry.1), stem(record)) {
                (Some(a), Some(b)) => {
                    if a != b {
                        crate::seqs::lemma_filter_contains(saved, other_stem(Some(a)), e);
                        crate::seqs::lemma_filter_contains(saved, other_stem(Some(a)), new_entry);
                    }
                    assert forall|relays: Seq<RelayView>| !(#[trigger] d.overrides.contains(
                        (record.keys[0], relays),
                    )) by {
                        crate::seqs::lemma_filter_contains(
                            unfiled(c.overrides, a),
                            crate::client::not_filed(b),
                            (b, relays),
                        );
                    }
                },
                _ => {},
            }
        },
        Err(_) => {},
    }
}

/// An added contact goes by the petname chosen, else by the name it claims.
/// It is new exactly where no stored contact shares a key with it; then its
/// entry and one person row under the minted id come to what was there, and
/// nothing else changes. A name is needed, a key and a relay too.
pub proof fn law_add_stores_under_the_name(
    c: ClientView,
    v: Seq<PersonView>,
    record: RecordView,
    petname: Option<Seq<char>>,
    id: u128,
    e: (Seq<char>, RecordView),
)
    ensures
        match added(c, v, record, petname, id) {
            Ok(a) => {
                &&& record.keys.len() > 0 && record.relays.len() > 0
                &&& petname is Some ==> a.petname == petname->0
                &&& petname is None ==> record.name_claim is Some && a.petname
                    == (record.name_claim->0).0
                &&& a.fresh <==> overlapping(c, record).len() == 0
                &&& a.fresh ==> a.after == (ClientView {
                    contacts: a.after.contacts,
                    persons: a.after.persons,
                    ..c
                })
                &&& a.fresh ==> (a.after.contacts.contains(e) <==> e == (trimmed(a.petname), record)
                    || (c.contacts.contains(e) && (e.1.keys.len() > 0 ==> e.1.keys[0]
                    != record.keys[0])))
                &&& a.fresh ==> a.after.persons == with_row(
                    c.persons,
                    id,
                    a.petname,
                    seq![record.keys[0]],
                )
                &&& !a.fresh ==> updated(c, record) == Ok::<(Seq<char>, ClientView), ErrorView>(
                    (a.petname, a.after),
                )
            },
            Err(x) => {
                ||| record.keys.len() == 0
                ||| record.relays.len() == 0
                ||| petname is None && record.name_claim is None
                ||| overlapping(c, record).len() > 1
                ||| overlapping(c, record).len() == 1 && overlapping(c, record)[0].0
                    != chosen_name(record, petname)->0
                ||| overlapping(c, record).len() == 0 && taken(
                    v,
                    chosen_name(record, petname)->0,
                    None,
                ) && x == ErrorView::PetnameCollision(chosen_name(record, petname)->0)
            },
        },
{
    if record.keys.len() > 0 {
        match added(c, v, record, petname, id) {
            Ok(a) => {
                law_storing_a_contact(c.contacts, a.petname, record, e);
            },
            Err(_) => {},
        }
    }
}

/// A renamed entry keeps its record under the new name; the entries under
/// other first keys and everything else stay as they were.
pub proof fn law_rename_moves_the_name(
    c: ClientView,
    v: Seq<PersonView>,
    current: Seq<char>,
    name: Seq<char>,
    e: (Seq<char>, RecordView),
)
    requires
        entry_named(c, current) is Some,
    ensures
        match renamed(c, v, current, name) {
            Ok(d) => {
                let r = (entry_named(c, current)->0).1;
                &&& d == (ClientView { contacts: d.contacts, ..c })
                &&& r.keys.len() > 0
                &&& d.contacts.contains(e) <==> e == (trimmed(name), r) || (c.contacts.contains(e)
                    && (e.1.keys.len() > 0 ==> e.1.keys[0] != r.keys[0]))
            },
            Err(_) => {
                ||| (entry_named(c, current)->0).1.keys.len() == 0
                ||| exists|i: int|
                    0 <= i < v.len() && ((#[trigger] v[i]).label == name || exists|k: int|
                        0 <= k < v[i].members.len() && (#[trigger] v[i].members[k]).0 == name)
            },
        },
{
    let r = (entry_named(c, current)->0).1;
    match renamed(c, v, current, name) {
        Ok(d) => {
            law_storing_a_contact(c.contacts, name, r, e);
        },
        Err(_) => {
            if r.keys.len() > 0 {
                let own_person = match first(v, has_member(current)) {
                    Some(p) => Some(p.id),
                    None => None,
                };
                crate::persons::law_taken_by_somebody_else(v, name, own_person);
            }
        },
    }
}

/// What an update would change, spelled out: a relay is added exactly where
/// the scanned record names it and the stored one does not, and removed the
/// other way round; nothing is counted as a change of keys exactly where the
/// one lists all the other's.
pub proof fn law_diff_both_ways(
    petname: Seq<char>,
    stored: RecordView,
    scanned: RecordView,
    spec: Seq<char>,
)
    ensures
        ({
            let d = diff(petname, stored, scanned);
            &&& d.petname == petname
            &&& d.old_name == match stored.name_claim {
                Some((n, _)) => Some(n),
                None => None,
            }
            &&& d.new_name == match scanned.name_claim {
                Some((n, _)) => Some(n),
                None => None,
            }
            &&& d.relays_added.contains(spec) <==> names_relay(scanned, spec) && !names_relay(
                stored,
                spec,
            )
            &&& d.relays_removed.contains(spec) <==> names_relay(stored, spec) && !names_relay(
                scanned,
                spec,
            )
            &&& d.keys_added == 0 <==> forall|i: int|
                0 <= i < scanned.keys.len() ==> stored.keys.contains(#[trigger] scanned.keys[i])
            &&& d.keys_removed == 0 <==> forall|i: int|
                0 <= i < stored.keys.len() ==> scanned.keys.contains(#[trigger] stored.keys[i])
        }),
{
    lemma_spec_set(stored, spec);
    lemma_spec_set(scanned, spec);
    let a = spec_set(scanned).difference(spec_set(stored));
    let b = spec_set(stored).difference(spec_set(scanned));
    vstd::seq_lib::seq_to_set_is_finite(scanned.relays.map_values(entry_spec()));
    vstd::seq_lib::seq_to_set_is_finite(stored.relays.map_values(entry_spec()));
    crate::order::lemma_list_exists::<String>(a);
    crate::order::lemma_list_exists::<String>(b);
    let d = diff(petname, stored, scanned);
    assert(d.relays_added.to_set().contains(spec) == a.contains(spec));
    assert(d.relays_removed.to_set().contains(spec) == b.contains(spec));
    lemma_none_beyond(scanned.keys, stored.keys);
    lemma_none_beyond(stored.keys, scanned.keys);
}

/// A record names a relay.
pub open spec fn names_relay(record: RecordView, spec: Seq<char>) -> bool {
    exists|i: int| 0 <= i < record.relays.len() && spec_of_entry(#[trigger] record.relays[i]) == spec
}

proof fn lemma_spec_set(record: RecordView, spec: Seq<char>)
    ensures
        spec_set(record).contains(spec) <==> names_relay(record, spec),
{
    let s = record.relays.map_values(entry_spec());
    if s.contains(spec) {
        let i = choose|i: int| 0 <= i < s.len() && s[i] == spec;
        assert(spec_of_entry(record.relays[i]) == spec);
    }
    if names_relay(record, spec) {
        let i = choose|i: int|
            0 <= i < record.relays.len() && spec_of_entry(#[trigger] record.relays[i]) == spec;
        assert(s[i] == spec);
    }
}

proof fn lemma_none_beyond(a: Seq<PublicKey>, b: Seq<PublicKey>)
    ensures
        count_where(a, not_among(b)) == 0 <==> forall|i: int|
            0 <= i < a.len() ==> b.contains(#[trigger] a[i]),
{
    let p = not_among(b);
    lemma_filter(a, p);
    if forall|i: int| 0 <= i < a.len() ==> b.contains(#[trigger] a[i]) {
        crate::seqs::lemma_filter_none(a, p);
    } else {
        let i = choose|i: int| 0 <= i < a.len() && !b.contains(#[trigger] a[i]);
        assert(p(a[i]));
        assert(a.filter(p).contains(a[i]));
    }
}

/// An override set on a contact is filed under the first key of its record, as
/// the specs given name it; an empty one clears it. No other override, and
/// nothing else, changes.
pub proof fn law_override_is_filed(
    c: ClientView,
    petname: Seq<char>,
    specs: Seq<Seq<char>>,
    refused: Option<ErrorView>,
    other: PublicKey,
)
    ensures
        match overridden(c, petname, specs, refused) {
            Ok(d) => {
                let r = (entry_named(c, petname)->0).1;
                &&& entry_named(c, petname) is Some && r.keys.len() > 0
                &&& d == (ClientView { overrides: d.overrides, ..c })
                &&& match first(d.overrides, crate::client::filed(r.keys[0])) {
                    Some(o) => {
                        &&& refused is None
                        &&& specs.len() > 0
                        &&& o.0 == r.keys[0]
                        &&& o.1.len() == specs.len()
                        &&& forall|i: int|
                            0 <= i < specs.len() ==> #[trigger] o.1[i]
                                == crate::record::entry_of_spec(specs[i])
                    },
                    None => specs.len() == 0,
                }
                &&& other != r.keys[0] ==> first(d.overrides, crate::client::filed(other)) == first(
                    c.overrides,
                    crate::client::filed(other),
                )
            },
            Err(x) => {
                ||| entry_named(c, petname) is None
                ||| (entry_named(c, petname)->0).1.keys.len() == 0
                ||| specs.len() > 0 && refused == Some(x)
            },
        },
{
    match overridden(c, petname, specs, refused) {
        Ok(d) => {
            let key = (entry_named(c, petname)->0).1.keys[0];
            let value = specs.map_values(entry_of());
            crate::client::law_filing(c.overrides, key, value, other);
            if other != key {
                crate::seqs::lemma_first_filter(
                    c.overrides,
                    crate::client::not_filed(key),
                    crate::client::filed(other),
                );
            }
        },
        Err(_) => {},
    }
}

/// A contact spec is a key in hex and, behind the first `@`, the relays between
/// commas; without an `@` it is refused, and so is one whose key is no hex.
pub proof fn law_contact_spec(key: PublicKey, relays: Seq<char>, other: Seq<char>)
    ensures
        contact_of_spec(crate::hex::hex_text(key.0@).push('@') + relays, None) == Ok::<
            (PublicKey, Seq<Seq<char>>),
            ErrorView,
        >((key, parts(relays, ','))),
        !other.contains('@') ==> contact_of_spec(other, None) is Err,
        contact_of_spec(other, None) is Ok ==> other.contains('@'),
{
    let head = crate::hex::hex_text(key.0@);
    let s = head.push('@') + relays;
    let n = head.len() as int;
    assert forall|i: int| 0 <= i < n implies s[i] != '@' by {
        crate::hex::lemma_hex_text_plain(key.0@, i);
        assert(s[i] == head[i]);
    }
    assert(s[n] == '@');
    crate::text::lemma_index_of_char_unique(s, '@', n);
    assert(s.take(n) =~= head);
    assert(s.skip(n + 1) =~= relays);
    crate::hex::law_hex32_round_trip(key.0);
    crate::text::law_cut_loses_nothing(other, '@');
    match cut_at(other, '@') {
        Some((a, b)) => {
            assert(other[a.len() as int] == '@');
        },
        None => {},
    }
}

/// A record is refused outright exactly where it has no key or no relay.
pub proof fn law_unusable_records(record: RecordView)
    ensures
        unusable(record) is None <==> record.keys.len() > 0 && record.relays.len() > 0,
{
}

/// A rename needs a look at the people exactly where there is a contact by the
/// current name and the new name is another one and not empty. The same name
/// again is no error.
pub proof fn law_rename_settled_at_once(c: ClientView, current: Seq<char>, name: Seq<char>)
    ensures
        rename_settled(c, current, name) is None <==> name.len() > 0 && name != current && exists|
            i: int,
        |
            0 <= i < c.contacts.len() && (#[trigger] c.contacts[i]).0 == current,
        name.len() > 0 && name == current ==> rename_settled(c, current, name) == Some(
            Ok::<(), ErrorView>(()),
        ),
        rename_settled(c, current, name) is Some && name != current ==> rename_settled(
            c,
            current,
            name,
        )->0 is Err,
        name.len() == 0 ==> rename_settled(c, current, name) is Some && rename_settled(
            c,
            current,
            name,
        )->0 is Err,
{
    crate::client::law_entry_by_petname(c, current);
}

/// What an add comes to, whatever the mint gives: the record under the chosen
/// or claimed name, beside the other contacts, where it shares no key with one;
/// an update where it shares one with the contact of that name. A refused add
/// changes no contact.
pub proof fn law_add_comes_to<M: Mint>(
    c: ClientView,
    record: RecordView,
    petname: Option<Seq<char>>,
    before: M,
    mint: M,
    after: ClientView,
    result: Result<(Seq<char>, bool), ErrorView>,
    e: (Seq<char>, RecordView),
)
    requires
        add_outcome(c, record, petname, before, mint, after, result),
    ensures
        match result {
            Ok((name, fresh)) => {
                &&& record.keys.len() > 0 && record.relays.len() > 0
                &&& petname is Some ==> name == petname->0
                &&& petname is None ==> record.name_claim is Some && name
                    == (record.name_claim->0).0
                &&& fresh <==> overlapping(c, record).len() == 0
                &&& fresh ==> after == (ClientView {
                    contacts: after.contacts,
                    persons: after.persons,
                    ..c
                })
                &&& fresh ==> (after.contacts.contains(e) <==> e == (trimmed(name), record) || (
                c.contacts.contains(e) && (e.1.keys.len() > 0 ==> e.1.keys[0] != record.keys[0])))
                &&& !fresh ==> updated(c, record) == Ok::<(Seq<char>, ClientView), ErrorView>(
                    (name, after),
                )
            },
            Err(_) => after == (ClientView { persons: after.persons, ..c }),
        },
{
    if is_new(c, record, petname) {
        let name = chosen_name(record, petname)->0;
        let (d, v, mid) = choose|d: ClientView, v: Seq<PersonView>, mid: M| #[trigger]
            looked(c, d, v, before, mid) && if taken(v, name, None) {
                result == Err::<(Seq<char>, bool), ErrorView>(ErrorView::PetnameCollision(name))
                    && after == d && mint == mid
            } else {
                exists|id: u128| #[trigger]
                    M::gives(mid, mint, id) && result == Ok::<(Seq<char>, bool), ErrorView>(
                        (name, true),
                    ) && added(d, v, record, petname, id) is Ok && after == added(
                        d,
                        v,
                        record,
                        petname,
                        id,
                    )->Ok_0.after
            };
        assert(d == (ClientView { persons: d.persons, ..c }));
        assert(overlapping(d, record) == overlapping(c, record));
        if !taken(v, name, None) {
            let id = choose|id: u128| #[trigger]
                M::gives(mid, mint, id) && result == Ok::<(Seq<char>, bool), ErrorView>((name, true))
                    && added(d, v, record, petname, id) is Ok && after == added(
                    d,
                    v,
                    record,
                    petname,
                    id,
                )->Ok_0.after;
            law_add_stores_under_the_name(d, v, record, petname, id, e);
        }
    } else {
        law_add_stores_under_the_name(c, Seq::empty(), record, petname, 0, e);
    }
}

/// A row as a re-keyed entry leaves it: the first mention of the old key is the
/// new one.
pub open spec fn follows(old_row: PersonRowView, row: PersonRowView, from: PublicKey, to: PublicKey) -> bool {
    &&& row.id == old_row.id
    &&& row.label == old_row.label
    &&& row.members.len() == old_row.members.len()
    &&& forall|j: int|
        0 <= j < row.members.len() ==> #[trigger] row.members[j] == if old_row.members[j] == from && (
        forall|i: int| 0 <= i < j ==> old_row.members[i] != from) {
            to
        } else {
            old_row.members[j]
        }
}

proof fn lemma_moved_follows(row: PersonRowView, from: PublicKey, to: PublicKey)
    ensures
        follows(row, moved(row, from, to), from, to),
{
    if row.members.contains(from) {
        lemma_place_of(row.members, from);
    }
    let new = moved(row, from, to);
    assert forall|j: int| 0 <= j < new.members.len() implies #[trigger] new.members[j] == if row.members[j]
        == from && (forall|i: int| 0 <= i < j ==> row.members[i] != from) {
        to
    } else {
        row.members[j]
    } by {
        assert(row.members.contains(row.members[j]));
    }
}

spec fn at_step(rows: Seq<PersonRowView>, from: PublicKey, to: PublicKey, n: int, k: int) -> PersonRowView {
    if k < n {
        moved(rows[k], from, to)
    } else {
        rows[k]
    }
}

proof fn lemma_rows_repointed(
    rows: Seq<PersonRowView>,
    from: PublicKey,
    to: PublicKey,
    n: int,
    r: PersonRowView,
)
    requires
        0 <= n <= rows.len(),
        forall|i: int, j: int|
            0 <= i < j < rows.len() ==> (#[trigger] rows[i]).id != (#[trigger] rows[j]).id,
        forall|i: int| 0 <= i < rows.len() ==> crate::persons::storable((#[trigger] rows[i]).label),
    ensures
        repointed(rows, rows.take(n), from, to).contains(r) <==> exists|k: int|
            0 <= k < rows.len() && r == #[trigger] at_step(rows, from, to, n, k),
    decreases n,
{
    if n == 0 {
        assert(rows.take(0) =~= Seq::<PersonRowView>::empty());
        if rows.contains(r) {
            let k = choose|k: int| 0 <= k < rows.len() && rows[k] == r;
            assert(r == at_step(rows, from, to, 0, k));
        }
    } else {
        let m = n - 1;
        lemma_rows_repointed(rows, from, to, m, r);
        let seen = rows.take(n);
        assert(seen.drop_last() =~= rows.take(m));
        assert(seen.last() == rows[m]);
        let row = rows[m];
        let before = repointed(rows, rows.take(m), from, to);
        if row.members.contains(from) {
            crate::persons::law_rows_saved_and_removed(
                before,
                row.id,
                row.label,
                swap_first(row.members, from, to),
                r,
            );
        }
        assert(at_step(rows, from, to, n, m) == moved(row, from, to));
        assert(at_step(rows, from, to, m, m) == row);
        if before.contains(r) {
            let k = choose|k: int| 0 <= k < rows.len() && r == #[trigger] at_step(rows, from, to, m, k);
            assert(r.id == rows[k].id);
            if k != m {
                assert(r == at_step(rows, from, to, n, k));
                assert(rows[k].id != rows[m].id);
            }
        }
        if exists|k: int| 0 <= k < rows.len() && r == #[trigger] at_step(rows, from, to, n, k) {
            let k = choose|k: int| 0 <= k < rows.len() && r == #[trigger] at_step(rows, from, to, n, k);
            assert(r.id == rows[k].id);
            if k != m {
                assert(r == at_step(rows, from, to, m, k));
                assert(rows[k].id != rows[m].id);
            }
        }
    }
}

/// A re-keyed entry keeps its place among the people: every row that named the
/// old key names the new one instead, and no row is lost or gained.
pub proof fn law_rekeyed_entry_keeps_its_people(
    rows: Seq<PersonRowView>,
    from: PublicKey,
    to: PublicKey,
    r: PersonRowView,
    k: int,
)
    requires
        forall|i: int, j: int|
            0 <= i < j < rows.len() ==> (#[trigger] rows[i]).id != (#[trigger] rows[j]).id,
        forall|i: int| 0 <= i < rows.len() ==> crate::persons::storable((#[trigger] rows[i]).label),
    ensures
        repointed(rows, rows, from, to).contains(r) ==> exists|i: int|
            0 <= i < rows.len() && follows(#[trigger] rows[i], r, from, to),
        0 <= k < rows.len() ==> exists|row: PersonRowView| #[trigger]
            repointed(rows, rows, from, to).contains(row) && follows(rows[k], row, from, to),
{
    let n = rows.len() as int;
    assert(rows.take(n) =~= rows);
    lemma_rows_repointed(rows, from, to, n, r);
    if repointed(rows, rows, from, to).contains(r) {
        let i = choose|i: int| 0 <= i < rows.len() && r == #[trigger] at_step(rows, from, to, n, i);
        lemma_moved_follows(rows[i], from, to);
        assert(follows(rows[i], r, from, to));
    }
    if 0 <= k < rows.len() {
        let row = at_step(rows, from, to, n, k);
        lemma_rows_repointed(rows, from, to, n, row);
        lemma_moved_follows(rows[k], from, to);
        assert(repointed(rows, rows, from, to).contains(row));
    }
}

/// Before anything is stored a record is told new where it shares no key with a
/// contact, an update where it shares one with a single contact, and otherwise
/// every contact it shares one with is named.
pub proof fn law_preview_names_all_it_touches(c: ClientView, record: RecordView, e: (Seq<char>, RecordView))
    ensures
        match preview(c, record) {
            MatchView::New(name) => {
                &&& !(c.contacts.contains(e) && share_key(e.1, record))
                &&& name == claimed_name(record)
            },
            MatchView::Update(u) => {
                &&& overlapping(c, record).len() == 1
                &&& u == diff(overlapping(c, record)[0].0, overlapping(c, record)[0].1, record)
                &&& c.contacts.contains(e) && share_key(e.1, record) ==> u.petname == e.0
            },
            MatchView::Ambiguous(names) => {
                &&& names.len() >= 2
                &&& c.contacts.contains(e) && share_key(e.1, record) ==> names.contains(e.0)
            },
        },
{
    let found = overlapping(c, record);
    crate::seqs::lemma_filter_contains(c.contacts, overlaps(record), e);
    if c.contacts.contains(e) && share_key(e.1, record) {
        let k = choose|k: int| 0 <= k < found.len() && found[k] == e;
        assert(found.map_values(entry_name())[k] == e.0);
    }
}

} // verus!
