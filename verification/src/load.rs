//! Assembling the client's knowledge from what its directories hold. Damaged
//! entries are skipped, never fatal.
use vstd::prelude::*;
use vstd::string::StringExecFns;

use crate::client::{LearnedRecord, LearnedView, OutboxEntry, OutboxView, PersonRow, PersonRowView};
use crate::format::number128;
use crate::hex;
use crate::hex::{hex32, parse32};
use crate::ids::{MessageId, PublicKey};
use crate::order::{ascending_list, copies, lemma_list_is, lists, sort_stably, sorted, Duplicate, Ranked};
use crate::outbox::by_age;
use crate::record::{stem, ContactRecord, RecordView, SignedAttestation, SignedView};
use crate::relays::oldest;
use crate::seqs::{first, lemma_filter_map_step, lemma_filter_step, lemma_take_all, lemma_take_step};
use crate::state::{content_of, counter, keys_in, outbox_of_file, parse_outbox_entry, parse_person_id, person_of_text, read_counter, read_keys, read_person, ClientState};
use crate::store::other_acks;
use crate::text::{starts_with, text_less, trim, trimmed};

verus! {

/// A file name and its text; `None` where it could not be read.
pub type NamedText = (String, Option<String>);

pub open spec fn message_named() -> spec_fn(Seq<char>) -> Option<MessageId> {
    |name: Seq<char>|
        match hex32(name) {
            Some(b) => Some(MessageId(b)),
            None => None,
        }
}

pub open spec fn by_id() -> spec_fn(MessageId, MessageId) -> bool {
    |a: MessageId, b: MessageId| MessageId::below(a, b)
}

fn id_before(a: &MessageId, b: &MessageId) -> (r: bool)
    ensures
        r == by_id()(a.deep_view(), b.deep_view()),
{
    a.before(b)
}

pub open spec fn person_file() -> spec_fn((Seq<char>, Option<Seq<char>>)) -> Option<PersonRowView> {
    |f: (Seq<char>, Option<Seq<char>>)|
        match (number128(f.0), f.1) {
            (Some(id), Some(text)) => match person_of_text(text) {
                Some((label, members)) => Some(PersonRowView { id, label, members }),
                None => None,
            },
            _ => None,
        }
}

pub open spec fn by_person_id() -> spec_fn(PersonRowView, PersonRowView) -> bool {
    |a: PersonRowView, b: PersonRowView| a.id < b.id
}

fn row_before(a: &PersonRow, b: &PersonRow) -> (r: bool)
    ensures
        r == by_person_id()(a.deep_view(), b.deep_view()),
{
    a.id < b.id
}

/// A person file from before drawn ids: its name is neither hidden nor an id.
pub open spec fn legacy_file() -> spec_fn((Seq<char>, Option<Seq<char>>)) -> Option<
    (Seq<char>, Seq<PublicKey>),
> {
    |f: (Seq<char>, Option<Seq<char>>)|
        if (f.0.len() > 0 && f.0[0] == '.') || number128(f.0) is Some {
            None
        } else {
            match f.1 {
                Some(text) => person_of_text(text),
                None => None,
            }
        }
}

pub open spec fn contact_file() -> spec_fn((Option<Seq<char>>, Option<RecordView>)) -> Option<
    (Seq<char>, RecordView),
> {
    |f: (Option<Seq<char>>, Option<RecordView>)|
        match (f.0, f.1) {
            (Some(petname), Some(record)) => Some((trimmed(petname), record)),
            _ => None,
        }
}

pub open spec fn by_petname() -> spec_fn((Seq<char>, RecordView), (Seq<char>, RecordView)) -> bool {
    |a: (Seq<char>, RecordView), b: (Seq<char>, RecordView)| text_less(a.0, b.0)
}

pub(crate) fn petname_before(a: &(String, ContactRecord), b: &(String, ContactRecord)) -> (r: bool)
    ensures
        r == by_petname()(a.deep_view(), b.deep_view()),
{
    a.0.before(&b.0)
}

pub open spec fn device_file() -> spec_fn(Option<RecordView>) -> Option<(PublicKey, RecordView)> {
    |f: Option<RecordView>|
        match f {
            Some(record) => match stem(record) {
                Some(key) => Some((key, record)),
                None => None,
            },
            None => None,
        }
}

/// The files of one learned answer, as far as they could be read.
#[derive(Debug)]
pub struct LearnedFiles {
    /// The responder's key in hex: the file's stem.
    pub stem: String,
    pub record: Option<ContactRecord>,
    pub time: Option<String>,
    pub endorsements: Vec<SignedAttestation>,
}

pub struct LearnedFilesView {
    pub stem: Seq<char>,
    pub record: Option<RecordView>,
    pub time: Option<Seq<char>>,
    pub endorsements: Seq<SignedView>,
}

impl DeepView for LearnedFiles {
    type V = LearnedFilesView;

    open spec fn deep_view(&self) -> LearnedFilesView {
        LearnedFilesView {
            stem: self.stem@,
            record: self.record.deep_view(),
            time: self.time.deep_view(),
            endorsements: self.endorsements.deep_view(),
        }
    }
}

pub open spec fn learned_file() -> spec_fn(LearnedFilesView) -> Option<LearnedView> {
    |f: LearnedFilesView|
        match (hex32(f.stem), f.record) {
            (Some(key), Some(record)) => Some(
                LearnedView {
                    responder: PublicKey(key),
                    record,
                    endorsements: f.endorsements,
                    received_ms: counter(f.time),
                },
            ),
            _ => None,
        }
}

pub open spec fn outbox_file_view() -> spec_fn((Seq<char>, Option<Seq<char>>)) -> Option<OutboxView> {
    |f: (Seq<char>, Option<Seq<char>>)|
        match f.1 {
            Some(text) => outbox_of_file(f.0, text),
            None => None,
        }
}

fn age_before(a: &OutboxEntry, b: &OutboxEntry) -> (r: bool)
    ensures
        r == by_age()(a.deep_view(), b.deep_view()),
{
    a.created_ms < b.created_ms
}

/// The confirmations the sidecars of a conversation hold, by message: a later
/// file of a message over an earlier one, and none that holds no key.
pub open spec fn acks_listed(files: Seq<(Seq<char>, Seq<u8>)>) -> Seq<(MessageId, Seq<PublicKey>)>
    decreases files.len(),
{
    if files.len() == 0 {
        Seq::empty()
    } else {
        let rest = acks_listed(files.drop_last());
        match hex32(files.last().0) {
            Some(id) => if keys_in(files.last().1).len() > 0 {
                rest.filter(other_acks(MessageId(id))).push(
                    (
                        MessageId(id),
                        ascending_list::<PublicKey>(keys_in(files.last().1).to_set()),
                    ),
                )
            } else {
                rest
            },
            None => rest,
        }
    }
}

fn drop_acks(list: &Vec<(MessageId, Vec<PublicKey>)>, id: &MessageId) -> (r: Vec<
    (MessageId, Vec<PublicKey>),
>)
    ensures
        r.deep_view() == list.deep_view().filter(other_acks(*id)),
{
    let ghost s = list.deep_view();
    let ghost p = other_acks(*id);
    let mut out: Vec<(MessageId, Vec<PublicKey>)> = Vec::new();
    proof {
        reveal(Seq::filter);
        assert(out.deep_view() =~= s.take(0).filter(p));
    }
    for i in 0..list.len()
        invariant
            s == list.deep_view(),
            p == other_acks(*id),
            out.deep_view() == s.take(i as int).filter(p),
    {
        proof {
            lemma_filter_step(s, p, i as int);
        }
        if !(list[i].0 == *id) {
            let ghost before = out.deep_view();
            out.push((list[i].0, copies(&list[i].1)));
            assert(out.deep_view() =~= before.push(s[i as int]));
        }
    }
    proof {
        lemma_take_all(s);
    }
    out
}

impl ClientState {
    /// Every confirmation sidecar of a conversation, by message. `files` holds
    /// each one's name without its extension, and its bytes.
    pub fn acks_in(&self, files: &Vec<(String, Vec<u8>)>) -> (r: Vec<(MessageId, Vec<PublicKey>)>)
        ensures
            r.deep_view() == acks_listed(files.deep_view()),
    {
        let ghost s = files.deep_view();
        let mut out: Vec<(MessageId, Vec<PublicKey>)> = Vec::new();
        assert(out.deep_view() =~= acks_listed(s.take(0)));
        for i in 0..files.len()
            invariant
                s == files.deep_view(),
                out.deep_view() == acks_listed(s.take(i as int)),
        {
            proof {
                lemma_take_step(s, i as int);
                assert(s[i as int].1 =~= files@[i as int].1@);
            }
            match parse32(files[i].0.as_str()) {
                Ok(id) => {
                    let keys: Vec<PublicKey> = read_keys(files[i].1.as_slice());
                    proof {
                        lemma_list_is::<PublicKey>(
                            keys.deep_view(),
                            keys_in(s[i as int].1).to_set(),
                        );
                        lemma_list_empty(keys.deep_view(), keys_in(s[i as int].1));
                        assert(keys.deep_view().len() == keys.len());
                    }
                    if keys.len() > 0 {
                        let mut rest: Vec<(MessageId, Vec<PublicKey>)> = drop_acks(
                            &out,
                            &MessageId(id),
                        );
                        let ghost before = rest.deep_view();
                        let ghost v = keys.deep_view();
                        rest.push((MessageId(id), keys));
                        assert(rest.deep_view() =~= before.push((MessageId(id), v)));
                        out = rest;
                    }
                },
                Err(_) => {},
            }
        }
        proof {
            lemma_take_all(s);
        }
        out
    }
}

proof fn lemma_list_empty(listed: Seq<PublicKey>, all: Seq<PublicKey>)
    requires
        lists::<PublicKey>(listed, all.to_set()),
    ensures
        listed.len() == 0 <==> all.len() == 0,
{
    if listed.len() > 0 {
        assert(listed.to_set().contains(listed[0]));
    }
    if all.len() > 0 {
        assert(all.to_set().contains(all[0]));
        assert(listed.contains(all[0]));
    }
}

fn text_ref(o: &Option<String>) -> (r: Option<&str>)
    ensures
        content_of(r) == o.deep_view(),
{
    match o {
        Some(s) => Some(s.as_str()),
        None => None,
    }
}

impl ClientState {
    /// The stored conversations, by the names of their directories, sorted by
    /// id.
    pub fn conversations(&self, names: &Vec<String>) -> (r: Vec<MessageId>)
        ensures
            r.deep_view() == conversations_named(names.deep_view()),
    {
        let ghost s = names.deep_view();
        let ghost f = message_named();
        let mut ids: Vec<MessageId> = Vec::new();
        assert(ids.deep_view() =~= s.take(0).filter_map(f));
        for i in 0..names.len()
            invariant
                s == names.deep_view(),
                f == message_named(),
                ids.deep_view() == s.take(i as int).filter_map(f),
        {
            proof {
                lemma_filter_map_step(s, f, i as int);
            }
            match hex::parse32(names[i].as_str()) {
                Ok(bytes) => {
                    let ghost before = ids.deep_view();
                    ids.push(MessageId(bytes));
                    assert(ids.deep_view() =~= before.push(MessageId(bytes)));
                },
                Err(_) => {},
            }
        }
        proof {
            lemma_take_all(s);
        }
        sort_stably(&mut ids, id_before, Ghost(by_id()));
        ids
    }

    /// The person rows, by id. Files whose name is no id or whose text holds
    /// no label are skipped.
    pub fn persons(&self, files: &Vec<NamedText>) -> (r: Vec<PersonRow>)
        ensures
            r.deep_view() == rows_read(files.deep_view()),
    {
        let ghost s = files.deep_view();
        let ghost f = person_file();
        let mut rows: Vec<PersonRow> = Vec::new();
        assert(rows.deep_view() =~= s.take(0).filter_map(f));
        for i in 0..files.len()
            invariant
                s == files.deep_view(),
                f == person_file(),
                rows.deep_view() == s.take(i as int).filter_map(f),
        {
            proof {
                lemma_filter_map_step(s, f, i as int);
            }
            match (parse_person_id(files[i].0.as_str()), &files[i].1) {
                (Some(id), Some(text)) => {
                    match read_person(text.as_str()) {
                        Some((label, members)) => {
                            let ghost before = rows.deep_view();
                            proof {
                                crate::record::lemma_keys_view(&members);
                            }
                            rows.push(PersonRow { id, label, members });
                            assert(rows.deep_view() =~= before.push(f(s[i as int])->0));
                        },
                        None => {},
                    }
                },
                _ => {},
            }
        }
        proof {
            lemma_take_all(s);
        }
        sort_stably(&mut rows, row_before, Ghost(by_person_id()));
        rows
    }

    /// Person files from before drawn ids, to be minted anew: labels and
    /// members intact.
    pub fn take_legacy_persons(&self, files: &Vec<NamedText>) -> (r: Vec<(String, Vec<PublicKey>)>)
        ensures
            r.deep_view() == legacy_rows_read(files.deep_view()),
    {
        let ghost s = files.deep_view();
        let ghost f = legacy_file();
        let mut out: Vec<(String, Vec<PublicKey>)> = Vec::new();
        assert(out.deep_view() =~= s.take(0).filter_map(f));
        for i in 0..files.len()
            invariant
                s == files.deep_view(),
                f == legacy_file(),
                out.deep_view() == s.take(i as int).filter_map(f),
        {
            proof {
                lemma_filter_map_step(s, f, i as int);
            }
            let name: &str = files[i].0.as_str();
            if !starts_with(name, '.') && parse_person_id(name).is_none() {
                match &files[i].1 {
                    Some(text) => {
                        match read_person(text.as_str()) {
                            Some(person) => {
                                let ghost before = out.deep_view();
                                out.push(person);
                                assert(out.deep_view() =~= before.push(f(s[i as int])->0));
                            },
                            None => {},
                        }
                    },
                    None => {},
                }
            }
        }
        proof {
            lemma_take_all(s);
        }
        out
    }

    /// All stored contacts as `(petname, record)`, petname-sorted. An entry
    /// missing either file is skipped.
    pub fn contacts(&self, files: &Vec<(Option<String>, Option<ContactRecord>)>) -> (r: Vec<
        (String, ContactRecord),
    >)
        ensures
            r.deep_view() == contacts_read(files.deep_view()),
    {
        let ghost s = files.deep_view();
        let ghost f = contact_file();
        let mut out: Vec<(String, ContactRecord)> = Vec::new();
        assert(out.deep_view() =~= s.take(0).filter_map(f));
        for i in 0..files.len()
            invariant
                s == files.deep_view(),
                f == contact_file(),
                out.deep_view() == s.take(i as int).filter_map(f),
        {
            proof {
                lemma_filter_map_step(s, f, i as int);
            }
            match (&files[i].0, &files[i].1) {
                (Some(petname), Some(record)) => {
                    let ghost before = out.deep_view();
                    out.push((trim(petname.as_str()), record.duplicate()));
                    assert(out.deep_view() =~= before.push(f(s[i as int])->0));
                },
                _ => {},
            }
        }
        proof {
            lemma_take_all(s);
        }
        sort_stably(&mut out, petname_before, Ghost(by_petname()));
        out
    }

    /// Recognized own devices as `(device key, record)`: the key is the one
    /// the record publishes under.
    pub fn recognized_devices(&self, files: &Vec<Option<ContactRecord>>) -> (r: Vec<
        (PublicKey, ContactRecord),
    >)
        ensures
            r.deep_view() == devices_read(files.deep_view()),
    {
        let ghost s = files.deep_view();
        let ghost f = device_file();
        let mut out: Vec<(PublicKey, ContactRecord)> = Vec::new();
        assert(out.deep_view() =~= s.take(0).filter_map(f));
        for i in 0..files.len()
            invariant
                s == files.deep_view(),
                f == device_file(),
                out.deep_view() == s.take(i as int).filter_map(f),
        {
            proof {
                lemma_filter_map_step(s, f, i as int);
            }
            match &files[i] {
                Some(record) => {
                    match record.first_key() {
                        Some(key) => {
                            let ghost before = out.deep_view();
                            out.push((key, record.duplicate()));
                            assert(out.deep_view() =~= before.push(f(s[i as int])->0));
                        },
                        None => {},
                    }
                },
                None => {},
            }
        }
        proof {
            lemma_take_all(s);
        }
        out
    }

    /// Every learned record for a subject, as its directory lists them.
    pub fn learned(&self, files: &Vec<LearnedFiles>) -> (r: Vec<LearnedRecord>)
        ensures
            r.deep_view() == answers_read(files.deep_view()),
    {
        let ghost s = files.deep_view();
        let ghost f = learned_file();
        let mut out: Vec<LearnedRecord> = Vec::new();
        assert(out.deep_view() =~= s.take(0).filter_map(f));
        for i in 0..files.len()
            invariant
                s == files.deep_view(),
                f == learned_file(),
                out.deep_view() == s.take(i as int).filter_map(f),
        {
            proof {
                lemma_filter_map_step(s, f, i as int);
            }
            let file: &LearnedFiles = &files[i];
            match (hex::parse32(file.stem.as_str()), &file.record) {
                (Ok(key), Some(record)) => {
                    let received_ms: u64 = read_counter(text_ref(&file.time));
                    let ghost before = out.deep_view();
                    out.push(
                        LearnedRecord {
                            responder: PublicKey(key),
                            record: record.duplicate(),
                            endorsements: copies(&file.endorsements),
                            received_ms,
                        },
                    );
                    assert(out.deep_view() =~= before.push(f(s[i as int])->0));
                },
                _ => {},
            }
        }
        proof {
            lemma_take_all(s);
        }
        out
    }

    /// Every outstanding delivery, oldest first. Damaged entries are skipped.
    pub fn outbox(&self, files: &Vec<NamedText>) -> (r: Vec<OutboxEntry>)
        ensures
            r.deep_view() == debts_read(files.deep_view()),
    {
        let ghost s = files.deep_view();
        let ghost f = outbox_file_view();
        let mut out: Vec<OutboxEntry> = Vec::new();
        assert(out.deep_view() =~= s.take(0).filter_map(f));
        for i in 0..files.len()
            invariant
                s == files.deep_view(),
                f == outbox_file_view(),
                out.deep_view() == s.take(i as int).filter_map(f),
        {
            proof {
                lemma_filter_map_step(s, f, i as int);
            }
            match &files[i].1 {
                Some(text) => {
                    match parse_outbox_entry(files[i].0.as_str(), text.as_str()) {
                        Some(entry) => {
                            let ghost before = out.deep_view();
                            out.push(entry);
                            assert(out.deep_view() =~= before.push(f(s[i as int])->0));
                        },
                        None => {},
                    }
                },
                None => {},
            }
        }
        proof {
            lemma_take_all(s);
        }
        sort_stably(&mut out, age_before, Ghost(by_age()));
        out
    }
}

// ---- what is read ----

/// The conversations some directory names name, by id.
pub open spec fn conversations_named(names: Seq<Seq<char>>) -> Seq<MessageId> {
    sorted(names.filter_map(message_named()), by_id())
}

/// The person rows some files hold, by id.
pub open spec fn rows_read(files: Seq<(Seq<char>, Option<Seq<char>>)>) -> Seq<PersonRowView> {
    sorted(files.filter_map(person_file()), by_person_id())
}

/// The persons that files from before drawn ids hold.
pub open spec fn legacy_rows_read(files: Seq<(Seq<char>, Option<Seq<char>>)>) -> Seq<
    (Seq<char>, Seq<PublicKey>),
> {
    files.filter_map(legacy_file())
}

/// The contacts some files hold, by petname.
pub open spec fn contacts_read(files: Seq<(Option<Seq<char>>, Option<RecordView>)>) -> Seq<
    (Seq<char>, RecordView),
> {
    sorted(files.filter_map(contact_file()), by_petname())
}

/// The recognized devices some files hold.
pub open spec fn devices_read(files: Seq<Option<RecordView>>) -> Seq<(PublicKey, RecordView)> {
    files.filter_map(device_file())
}

/// The answers some files hold.
pub open spec fn answers_read(files: Seq<LearnedFilesView>) -> Seq<LearnedView> {
    files.filter_map(learned_file())
}

/// The deliveries still owed, oldest first.
pub open spec fn debts_read(files: Seq<(Seq<char>, Option<Seq<char>>)>) -> Seq<OutboxView> {
    sorted(files.filter_map(outbox_file_view()), by_age())
}

// ---- laws ----

proof fn lemma_read<A, B>(files: Seq<A>, f: spec_fn(A) -> Option<B>, b: B)
    ensures
        files.filter_map(f).contains(b) <==> exists|i: int|
            0 <= i < files.len() && f(#[trigger] files[i]) == Some(b),
{
    let list = files.filter_map(f);
    if list.contains(b) {
        let k = choose|k: int| 0 <= k < list.len() && list[k] == b;
        let i = crate::seqs::lemma_filter_map_source(files, f, k);
        assert(f(files[i]) == Some(b));
    }
    if exists|i: int| 0 <= i < files.len() && f(#[trigger] files[i]) == Some(b) {
        let i = choose|i: int| 0 <= i < files.len() && f(#[trigger] files[i]) == Some(b);
        crate::seqs::lemma_filter_map_has(files, f, i);
    }
}

/// Every directory named by an id is a stored conversation, and nothing else
/// is; they come in the order of ids.
pub proof fn law_conversations_read(names: Seq<Seq<char>>, id: MessageId, i: int, j: int)
    ensures
        conversations_named(names).contains(id) <==> exists|k: int|
            0 <= k < names.len() && hex32(#[trigger] names[k]) == Some(id.0),
        0 <= i < j < conversations_named(names).len() ==> !MessageId::below(
            conversations_named(names)[j],
            conversations_named(names)[i],
        ),
{
    let f = message_named();
    let before = by_id();
    let list = names.filter_map(f);
    lemma_read(names, f, id);
    crate::order::lemma_sorted_contains(list, before, id);
    if list.contains(id) {
        let k = choose|k: int| 0 <= k < names.len() && f(#[trigger] names[k]) == Some(id);
        assert(hex32(names[k]) == Some(id.0));
    }
    if exists|k: int| 0 <= k < names.len() && hex32(#[trigger] names[k]) == Some(id.0) {
        let k = choose|k: int| 0 <= k < names.len() && hex32(#[trigger] names[k]) == Some(id.0);
        assert(f(names[k]) == Some(id));
    }
    assert forall|a: MessageId, b: MessageId| #[trigger] before(a, b) implies !before(b, a) by {
        MessageId::order_laws(a, b, a);
    }
    assert forall|a: MessageId, b: MessageId, d: MessageId|
        !(#[trigger] before(a, b)) && !(#[trigger] before(b, d)) implies !before(a, d) by {
        MessageId::order_laws(a, b, d);
        MessageId::order_laws(d, b, a);
        MessageId::order_laws(b, d, a);
        MessageId::order_laws(a, d, b);
        MessageId::order_laws(d, a, b);
    }
    crate::order::law_sorted_in_order(list, before);
    if 0 <= i < j < conversations_named(names).len() {
        assert(!before(conversations_named(names)[j], conversations_named(names)[i]));
    }
}

/// Every file whose name is an id and whose text holds a label is a person's
/// row, with that id, label and members; any other file is passed over. They
/// come in the order of ids.
pub proof fn law_rows_read(
    files: Seq<(Seq<char>, Option<Seq<char>>)>,
    row: PersonRowView,
    i: int,
    j: int,
)
    ensures
        rows_read(files).contains(row) <==> exists|k: int|
            0 <= k < files.len() && number128((#[trigger] files[k]).0) == Some(row.id)
                && files[k].1 is Some && person_of_text(files[k].1->0) == Some(
                (row.label, row.members),
            ),
        0 <= i < j < rows_read(files).len() ==> rows_read(files)[i].id <= rows_read(files)[j].id,
{
    let f = person_file();
    let before = by_person_id();
    let list = files.filter_map(f);
    lemma_read(files, f, row);
    crate::order::lemma_sorted_contains(list, before, row);
    if list.contains(row) {
        let k = choose|k: int| 0 <= k < files.len() && f(#[trigger] files[k]) == Some(row);
        assert(number128(files[k].0) == Some(row.id));
    }
    if exists|k: int|
        0 <= k < files.len() && number128((#[trigger] files[k]).0) == Some(row.id)
            && files[k].1 is Some && person_of_text(files[k].1->0) == Some(
            (row.label, row.members),
        ) {
        let k = choose|k: int|
            0 <= k < files.len() && number128((#[trigger] files[k]).0) == Some(row.id)
                && files[k].1 is Some && person_of_text(files[k].1->0) == Some(
                (row.label, row.members),
            );
        assert(f(files[k]) == Some(row));
    }
    crate::order::law_sorted_in_order(list, before);
    if 0 <= i < j < rows_read(files).len() {
        assert(!before(rows_read(files)[j], rows_read(files)[i]));
    }
}

/// A file from before drawn ids is taken with its label and members where its
/// name is neither hidden nor an id.
pub proof fn law_legacy_rows_read(
    files: Seq<(Seq<char>, Option<Seq<char>>)>,
    label: Seq<char>,
    members: Seq<PublicKey>,
)
    ensures
        legacy_rows_read(files).contains((label, members)) <==> exists|k: int|
            0 <= k < files.len() && number128((#[trigger] files[k]).0) is None && !(
            files[k].0.len() > 0 && files[k].0[0] == '.') && files[k].1 is Some && person_of_text(
                files[k].1->0,
            ) == Some((label, members)),
{
    let f = legacy_file();
    lemma_read(files, f, (label, members));
    if legacy_rows_read(files).contains((label, members)) {
        let k = choose|k: int|
            0 <= k < files.len() && f(#[trigger] files[k]) == Some((label, members));
        assert(number128(files[k].0) is None);
    }
    if exists|k: int|
        0 <= k < files.len() && number128((#[trigger] files[k]).0) is None && !(files[k].0.len() > 0
            && files[k].0[0] == '.') && files[k].1 is Some && person_of_text(files[k].1->0) == Some(
            (label, members),
        ) {
        let k = choose|k: int|
            0 <= k < files.len() && number128((#[trigger] files[k]).0) is None && !(
            files[k].0.len() > 0 && files[k].0[0] == '.') && files[k].1 is Some && person_of_text(
                files[k].1->0,
            ) == Some((label, members));
        assert(f(files[k]) == Some((label, members)));
    }
}

/// Every entry with a petname and a record is a contact, under the trimmed
/// petname and with that record; any other is passed over. They come by the
/// alphabet.
pub proof fn law_contacts_read(
    files: Seq<(Option<Seq<char>>, Option<RecordView>)>,
    petname: Seq<char>,
    record: RecordView,
    i: int,
    j: int,
)
    ensures
        contacts_read(files).contains((petname, record)) <==> exists|k: int|
            0 <= k < files.len() && (#[trigger] files[k]).0 is Some && trimmed(files[k].0->0)
                == petname && files[k].1 == Some(record),
        0 <= i < j < contacts_read(files).len() ==> !text_less(
            contacts_read(files)[j].0,
            contacts_read(files)[i].0,
        ),
{
    let f = contact_file();
    let before = by_petname();
    let list = files.filter_map(f);
    lemma_read(files, f, (petname, record));
    crate::order::lemma_sorted_contains(list, before, (petname, record));
    if list.contains((petname, record)) {
        let k = choose|k: int|
            0 <= k < files.len() && f(#[trigger] files[k]) == Some((petname, record));
        assert(files[k].1 == Some(record));
    }
    if exists|k: int|
        0 <= k < files.len() && (#[trigger] files[k]).0 is Some && trimmed(files[k].0->0) == petname
            && files[k].1 == Some(record) {
        let k = choose|k: int|
            0 <= k < files.len() && (#[trigger] files[k]).0 is Some && trimmed(files[k].0->0)
                == petname && files[k].1 == Some(record);
        assert(f(files[k]) == Some((petname, record)));
    }
    assert forall|a: (Seq<char>, RecordView), b: (Seq<char>, RecordView)| #[trigger]
        before(a, b) implies !before(b, a) by {
        String::order_laws(a.0, b.0, a.0);
    }
    assert forall|
        a: (Seq<char>, RecordView),
        b: (Seq<char>, RecordView),
        d: (Seq<char>, RecordView),
    | !(#[trigger] before(a, b)) && !(#[trigger] before(b, d)) implies !before(a, d) by {
        String::order_laws(a.0, b.0, d.0);
        String::order_laws(d.0, b.0, a.0);
        String::order_laws(b.0, d.0, a.0);
        String::order_laws(a.0, d.0, b.0);
        String::order_laws(d.0, a.0, b.0);
    }
    crate::order::law_sorted_in_order(list, before);
    if 0 <= i < j < contacts_read(files).len() {
        assert(!before(contacts_read(files)[j], contacts_read(files)[i]));
    }
}

/// Every device record that lists a key is read, under its first key.
pub proof fn law_devices_read(files: Seq<Option<RecordView>>, key: PublicKey, record: RecordView)
    ensures
        devices_read(files).contains((key, record)) <==> files.contains(Some(record))
            && record.keys.len() > 0 && record.keys[0] == key,
{
    let f = device_file();
    lemma_read(files, f, (key, record));
    if devices_read(files).contains((key, record)) {
        let k = choose|k: int| 0 <= k < files.len() && f(#[trigger] files[k]) == Some((key, record));
        assert(files[k] == Some(record));
    }
    if files.contains(Some(record)) && record.keys.len() > 0 && record.keys[0] == key {
        let k = choose|k: int| 0 <= k < files.len() && files[k] == Some(record);
        assert(f(files[k]) == Some((key, record)));
    }
}

/// Every answer whose file name is a key and whose record could be read is
/// read, as that responder's, with its endorsements and its time.
pub proof fn law_answers_read(files: Seq<LearnedFilesView>, e: LearnedView)
    ensures
        answers_read(files).contains(e) <==> exists|k: int|
            0 <= k < files.len() && hex32((#[trigger] files[k]).stem) == Some(e.responder.0)
                && files[k].record == Some(e.record) && files[k].endorsements == e.endorsements
                && counter(files[k].time) == e.received_ms,
{
    let f = learned_file();
    lemma_read(files, f, e);
    if answers_read(files).contains(e) {
        let k = choose|k: int| 0 <= k < files.len() && f(#[trigger] files[k]) == Some(e);
        assert(hex32(files[k].stem) == Some(e.responder.0));
    }
    if exists|k: int|
        0 <= k < files.len() && hex32((#[trigger] files[k]).stem) == Some(e.responder.0)
            && files[k].record == Some(e.record) && files[k].endorsements == e.endorsements
            && counter(files[k].time) == e.received_ms {
        let k = choose|k: int|
            0 <= k < files.len() && hex32((#[trigger] files[k]).stem) == Some(e.responder.0)
                && files[k].record == Some(e.record) && files[k].endorsements == e.endorsements
                && counter(files[k].time) == e.received_ms;
        assert(f(files[k]) == Some(e));
    }
}

/// Every ledger file that reads back is a delivery still owed, and nothing else
/// is; the oldest comes first.
pub proof fn law_debts_read(
    files: Seq<(Seq<char>, Option<Seq<char>>)>,
    e: OutboxView,
    i: int,
    j: int,
)
    ensures
        debts_read(files).contains(e) <==> exists|k: int|
            0 <= k < files.len() && (#[trigger] files[k]).1 is Some && outbox_of_file(
                files[k].0,
                files[k].1->0,
            ) == Some(e),
        0 <= i < j < debts_read(files).len() ==> debts_read(files)[i].created_ms
            <= debts_read(files)[j].created_ms,
{
    let f = outbox_file_view();
    let before = by_age();
    let list = files.filter_map(f);
    lemma_read(files, f, e);
    crate::order::lemma_sorted_contains(list, before, e);
    if list.contains(e) {
        let k = choose|k: int| 0 <= k < files.len() && f(#[trigger] files[k]) == Some(e);
        assert(files[k].1 is Some);
    }
    if exists|k: int|
        0 <= k < files.len() && (#[trigger] files[k]).1 is Some && outbox_of_file(
            files[k].0,
            files[k].1->0,
        ) == Some(e) {
        let k = choose|k: int|
            0 <= k < files.len() && (#[trigger] files[k]).1 is Some && outbox_of_file(
                files[k].0,
                files[k].1->0,
            ) == Some(e);
        assert(f(files[k]) == Some(e));
    }
    crate::order::law_sorted_in_order(list, before);
    if 0 <= i < j < debts_read(files).len() {
        assert(!before(debts_read(files)[j], debts_read(files)[i]));
    }
}

/// A sidecar of a message that holds at least one key.
pub open spec fn confirms(file: (Seq<char>, Seq<u8>), id: MessageId) -> bool {
    hex32(file.0) == Some(id.0) && keys_in(file.1).len() > 0
}

/// The confirmations of a message are those of its last sidecar that holds any,
/// listed once and in order; a message without one has none.
pub proof fn law_confirmations_read(
    files: Seq<(Seq<char>, Seq<u8>)>,
    id: MessageId,
    keys: Seq<PublicKey>,
)
    ensures
        acks_listed(files).contains((id, keys)) <==> exists|i: int|
            0 <= i < files.len() && confirms(#[trigger] files[i], id) && lists::<PublicKey>(
                keys,
                keys_in(files[i].1).to_set(),
            ) && forall|j: int| i < j < files.len() ==> !confirms(#[trigger] files[j], id),
    decreases files.len(),
{
    if files.len() > 0 {
        let d = files.drop_last();
        let n = files.len() - 1;
        let last = files.last();
        assert(files[n] == last);
        law_confirmations_read(d, id, keys);
        let rest = acks_listed(d);
        let set = keys_in(last.1).to_set();
        vstd::seq_lib::seq_to_set_is_finite(keys_in(last.1));
        crate::order::lemma_list_exists::<PublicKey>(set);
        match hex32(last.0) {
            Some(b) => {
                let m = MessageId(b);
                let new = (m, ascending_list::<PublicKey>(set));
                crate::seqs::lemma_filter_contains(rest, other_acks(m), (id, keys));
                crate::order::lemma_push_contains(rest.filter(other_acks(m)), new, (id, keys));
            },
            None => {},
        }
        if confirms(last, id) {
            if lists::<PublicKey>(keys, set) {
                lemma_list_is::<PublicKey>(keys, set);
            }
        } else {
            if rest.contains((id, keys)) {
                let i = choose|i: int|
                    0 <= i < d.len() && confirms(#[trigger] d[i], id) && lists::<PublicKey>(
                        keys,
                        keys_in(d[i].1).to_set(),
                    ) && forall|j: int| i < j < d.len() ==> !confirms(#[trigger] d[j], id);
                assert(files[i] == d[i]);
                assert forall|j: int| i < j < files.len() implies !confirms(
                    #[trigger] files[j],
                    id,
                ) by {
                    if j < n {
                        assert(files[j] == d[j]);
                    }
                }
            }
            if exists|i: int|
                0 <= i < files.len() && confirms(#[trigger] files[i], id) && lists::<PublicKey>(
                    keys,
                    keys_in(files[i].1).to_set(),
                ) && forall|j: int| i < j < files.len() ==> !confirms(#[trigger] files[j], id) {
                let i = choose|i: int|
                    0 <= i < files.len() && confirms(#[trigger] files[i], id) && lists::<PublicKey>(
                        keys,
                        keys_in(files[i].1).to_set(),
                    ) && forall|j: int| i < j < files.len() ==> !confirms(#[trigger] files[j], id);
                assert(d[i] == files[i]);
                assert forall|j: int| i < j < d.len() implies !confirms(#[trigger] d[j], id) by {
                    assert(d[j] == files[j]);
                }
            }
        }
    }
}

} // verus!
