//! Client-side persistence: where each file of the client's state lives and
//! what it holds. Nothing here touches the disk: a `save_*` returns what to
//! write, a reader is handed what was read.
//!
//! Layout under `<key-file>.state/`:
//! - `conversations/<conversation>/<message>.env`, `.acks`, and beside them
//!   `first-seen`, `my-name`, `read-count`
//! - `participants/<fingerprint>`: the conversation of a participant set
//! - `profile.name`, `.relays`, `.revision`, `.avatar`, `.device`
//! - `contacts/<key>.record`, `.name`, `.relays`
//! - `devices/<key>.record`, `.vouch`
//! - `vouches/<key>.attestation`, `.avatar`
//! - `learned/<subject>/<responder>.record`, `.time`, `.endorsements`
//! - `persons/<id>`, `dismissed.keys`, `unreachable.keys`
//! - `blobs/<hash>`, `local-avatars/<key>`
//! - `outbox/<message>.<relay fingerprint>`
use vstd::prelude::*;
use vstd::string::{StrSliceExecFns, StringExecFns, StringSliceAdditionalSpecFns};

use crate::client::{OutboxEntry, OutboxView};
use crate::format::{all_plain, hex128, hex_digits, law_line_text_round_trip, law_joined_lines_round_trip, line_text, number128, parse128, plain, write_lines};
use crate::hex;
use crate::hex::{array_of, hex32, hex_text, law_hex32_round_trip, lemma_array_of, lemma_hex_text_plain};
use crate::ids::{BlobHash, MessageId, PublicKey};
use crate::order::{ascending, lists, set_insert, set_of};
use crate::record::{entry_of_spec, spec_of_entry, RelayEntry, RelayView};
use crate::relays::{mailbox_list, mailboxes};
use crate::seqs::{lemma_filter_map_step, lemma_map_step, lemma_take_all, lemma_take_step};
use crate::text::{concat, cut_at, decimal, decimal_text, is_trim, join, joined, lemma_decimal_digits, lemma_trim_fixed, lines, lines_of, number, parse_u64, parts, split, split_once, trim, trimmed, white_space};

verus! {

/// The BLAKE3 digest of a byte string.
pub uninterp spec fn blake3_digest(bytes: Seq<u8>) -> Seq<u8>;

/// `blake3::hash`: the digest of the bytes, a function of them alone.
#[verifier::external_body]
pub(crate) fn digest(bytes: &[u8]) -> (r: [u8; 32])
    ensures
        r@ == blake3_digest(bytes@),
{
    *blake3::hash(bytes).as_bytes()
}

/// A file to write: its path, and the text it is to hold.
#[derive(Debug)]
pub struct TextFile {
    pub path: String,
    pub text: String,
}

pub struct TextFileView {
    pub path: Seq<char>,
    pub text: Seq<char>,
}

impl DeepView for TextFile {
    type V = TextFileView;

    open spec fn deep_view(&self) -> TextFileView {
        TextFileView { path: self.path@, text: self.text@ }
    }
}

/// Where the client's state lives.
#[derive(Debug)]
pub struct ClientState {
    pub root: String,
}

// ---- paths ----

/// A path one step down.
pub open spec fn under(dir: Seq<char>, name: Seq<char>) -> Seq<char> {
    dir + "/"@ + name
}

pub open spec fn with_extension(stem: Seq<char>, extension: Seq<char>) -> Seq<char> {
    stem + "."@ + extension
}

fn step(dir: &str, name: &str) -> (r: String)
    ensures
        r@ == under(dir@, name@),
{
    let head: String = concat(dir, "/");
    concat(head.as_str(), name)
}

fn extend(stem: &str, extension: &str) -> (r: String)
    ensures
        r@ == with_extension(stem@, extension@),
{
    let head: String = concat(stem, ".");
    concat(head.as_str(), extension)
}

pub open spec fn conversation_path(root: Seq<char>, id: MessageId) -> Seq<char> {
    under(under(root, "conversations"@), hex_text(id.0@))
}

pub open spec fn contact_path(root: Seq<char>, key: PublicKey) -> Seq<char> {
    under(under(root, "contacts"@), hex_text(key.0@))
}

/// The bytes of keys, one after the other.
pub open spec fn key_concat(keys: Seq<PublicKey>) -> Seq<u8>
    decreases keys.len(),
{
    if keys.len() == 0 {
        Seq::empty()
    } else {
        key_concat(keys.drop_last()) + keys.last().0@
    }
}

/// The file that maps a participant set to its conversation: named by the
/// digest over the sorted keys, so any member computes the same name.
pub open spec fn participants_path(root: Seq<char>, sorted_keys: Seq<PublicKey>) -> Seq<char> {
    under(under(root, "participants"@), hex_text(blake3_digest(key_concat(sorted_keys))))
}

/// The ledger entry of a message and a relay: dial strings hold separators,
/// so the name holds the first 16 digits of the dial string's digest.
pub open spec fn outbox_entry_path(root: Seq<char>, message: MessageId, relay: Seq<char>) -> Seq<
    char,
> {
    under(
        under(root, "outbox"@),
        with_extension(
            hex_text(message.0@),
            hex_text(blake3_digest(vstd::utf8::encode_utf8(relay))).take(16),
        ),
    )
}

pub fn key_bytes_of(keys: &Vec<PublicKey>) -> (r: Vec<u8>)
    ensures
        r@ == key_concat(keys.deep_view()),
{
    let ghost s = keys.deep_view();
    let mut out: Vec<u8> = Vec::new();
    for i in 0..keys.len()
        invariant
            s == keys.deep_view(),
            out@ == key_concat(s.take(i as int)),
    {
        proof {
            lemma_take_step(s, i as int);
        }
        let ghost base = out@;
        let mut j: usize = 0;
        while j < 32
            invariant
                i < keys.len(),
                j <= 32,
                out@ == base + keys[i as int].0@.take(j as int),
            decreases 32 - j,
        {
            proof {
                lemma_take_step(keys[i as int].0@, j as int);
            }
            out.push(keys[i].0[j]);
            assert(out@ =~= base + keys[i as int].0@.take(j + 1));
            j += 1;
        }
        assert(keys[i as int].0@.take(32) =~= keys[i as int].0@);
    }
    proof {
        lemma_take_all(s);
    }
    out
}

impl ClientState {
    /// State lives next to the key file: `<key-file>.state/`.
    pub fn open(key_path: &str) -> (r: Self)
        ensures
            r.root@ == key_path@ + ".state"@,
    {
        ClientState { root: concat(key_path, ".state") }
    }

    pub fn conversation_dir(&self, conversation: MessageId) -> (r: String)
        ensures
            r@ == conversation_path(self.root@, conversation),
    {
        let dir: String = step(self.root.as_str(), "conversations");
        let name: String = hex::encode(conversation.0.as_slice());
        step(dir.as_str(), name.as_str())
    }

    /// One file per envelope, named by the message id.
    pub fn envelope_path(&self, conversation: MessageId, message: MessageId) -> (r: String)
        ensures
            r@ == under(
                conversation_path(self.root@, conversation),
                with_extension(hex_text(message.0@), "env"@),
            ),
    {
        let dir: String = self.conversation_dir(conversation);
        let stem: String = hex::encode(message.0.as_slice());
        let name: String = extend(stem.as_str(), "env");
        step(dir.as_str(), name.as_str())
    }

    /// The confirmations of a message, beside its envelope.
    pub fn acks_path(&self, conversation: MessageId, message: MessageId) -> (r: String)
        ensures
            r@ == under(
                conversation_path(self.root@, conversation),
                with_extension(hex_text(message.0@), "acks"@),
            ),
    {
        let dir: String = self.conversation_dir(conversation);
        let stem: String = hex::encode(message.0.as_slice());
        let name: String = extend(stem.as_str(), "acks");
        step(dir.as_str(), name.as_str())
    }

    pub fn first_seen_path(&self, conversation: MessageId) -> (r: String)
        ensures
            r@ == under(conversation_path(self.root@, conversation), "first-seen"@),
    {
        let dir: String = self.conversation_dir(conversation);
        step(dir.as_str(), "first-seen")
    }

    pub fn conversation_name_path(&self, conversation: MessageId) -> (r: String)
        ensures
            r@ == under(conversation_path(self.root@, conversation), "my-name"@),
    {
        let dir: String = self.conversation_dir(conversation);
        step(dir.as_str(), "my-name")
    }

    pub fn read_count_path(&self, conversation: MessageId) -> (r: String)
        ensures
            r@ == under(conversation_path(self.root@, conversation), "read-count"@),
    {
        let dir: String = self.conversation_dir(conversation);
        step(dir.as_str(), "read-count")
    }

    pub fn blob_path(&self, hash: &BlobHash) -> (r: String)
        ensures
            r@ == under(under(self.root@, "blobs"@), hex_text(hash.0@)),
    {
        let dir: String = step(self.root.as_str(), "blobs");
        let name: String = hex::encode(hash.0.as_slice());
        step(dir.as_str(), name.as_str())
    }

    pub fn local_avatar_path(&self, key: &PublicKey) -> (r: String)
        ensures
            r@ == under(under(self.root@, "local-avatars"@), hex_text(key.0@)),
    {
        let dir: String = step(self.root.as_str(), "local-avatars");
        let name: String = hex::encode(key.0.as_slice());
        step(dir.as_str(), name.as_str())
    }

    pub fn contact_stem(&self, key: &PublicKey) -> (r: String)
        ensures
            r@ == contact_path(self.root@, *key),
    {
        let dir: String = step(self.root.as_str(), "contacts");
        let name: String = hex::encode(key.0.as_slice());
        step(dir.as_str(), name.as_str())
    }

    /// A file under `dir/<key>` with an extension.
    pub fn keyed_path(&self, dir: &str, key: &PublicKey, extension: &str) -> (r: String)
        ensures
            r@ == with_extension(under(under(self.root@, dir@), hex_text(key.0@)), extension@),
    {
        let base: String = step(self.root.as_str(), dir);
        let name: String = hex::encode(key.0.as_slice());
        let stem: String = step(base.as_str(), name.as_str());
        extend(stem.as_str(), extension)
    }

    /// A file of an answer learned from a responder about a subject.
    pub fn learned_path(&self, subject: &PublicKey, responder: &PublicKey, extension: &str) -> (r:
        String)
        ensures
            r@ == with_extension(
                under(
                    under(under(self.root@, "learned"@), hex_text(subject.0@)),
                    hex_text(responder.0@),
                ),
                extension@,
            ),
    {
        let base: String = step(self.root.as_str(), "learned");
        let about: String = hex::encode(subject.0.as_slice());
        let dir: String = step(base.as_str(), about.as_str());
        let name: String = hex::encode(responder.0.as_slice());
        let stem: String = step(dir.as_str(), name.as_str());
        extend(stem.as_str(), extension)
    }

    pub fn person_path(&self, id: u128) -> (r: String)
        ensures
            r@ == under(under(self.root@, "persons"@), hex_digits(id as nat, 32)),
    {
        let dir: String = step(self.root.as_str(), "persons");
        let name: String = hex128(id);
        step(dir.as_str(), name.as_str())
    }

    /// The file that maps a participant set to its conversation.
    pub fn participants_file(&self, participants: &Vec<PublicKey>) -> (r: String)
        requires
            ascending::<PublicKey>(participants.deep_view()),
        ensures
            r@ == participants_path(self.root@, participants.deep_view()),
    {
        let bytes: Vec<u8> = key_bytes_of(participants);
        let fingerprint: [u8; 32] = digest(bytes.as_slice());
        let dir: String = step(self.root.as_str(), "participants");
        let name: String = hex::encode(fingerprint.as_slice());
        step(dir.as_str(), name.as_str())
    }

    /// The ledger entry of a message and a relay.
    pub fn outbox_path(&self, message: MessageId, relay: &str) -> (r: String)
        ensures
            r@ == outbox_entry_path(self.root@, message, relay@),
    {
        let fingerprint: [u8; 32] = digest(relay.as_bytes());
        let digits: String = hex::encode(fingerprint.as_slice());
        assert(digits@.len() == 64);
        let short: String = digits.as_str().substring_char(0, 16).to_owned();
        assert(short@ =~= digits@.take(16));
        let stem: String = hex::encode(message.0.as_slice());
        let name: String = extend(stem.as_str(), short.as_str());
        let dir: String = step(self.root.as_str(), "outbox");
        step(dir.as_str(), name.as_str())
    }
}

// ---- counters and single values ----

/// The text of a file, or none where it could not be read.
pub open spec fn content_of(content: Option<&str>) -> Option<Seq<char>> {
    match content {
        Some(s) => Some(s@),
        None => None,
    }
}

/// A counter file: a decimal number with white space around it; 0 where there
/// is none.
pub open spec fn counter(content: Option<Seq<char>>) -> u64 {
    match content {
        Some(s) => match number(trimmed(s)) {
            Some(n) => n,
            None => 0,
        },
        None => 0,
    }
}

/// A text file that holds one value; nothing where only white space is left.
pub open spec fn value_text(content: Option<Seq<char>>) -> Option<Seq<char>> {
    match content {
        Some(s) => if trimmed(s).len() > 0 {
            Some(trimmed(s))
        } else {
            None
        },
        None => None,
    }
}

pub fn read_counter(content: Option<&str>) -> (r: u64)
    ensures
        r == counter(content_of(content)),
{
    match content {
        Some(s) => {
            let t: String = trim(s);
            match parse_u64(t.as_str()) {
                Some(n) => n,
                None => 0,
            }
        },
        None => 0,
    }
}

pub fn read_value(content: Option<&str>) -> (r: Option<String>)
    ensures
        r.deep_view() == value_text(content_of(content)),
{
    match content {
        Some(s) => {
            let t: String = trim(s);
            if t.as_str().is_empty() {
                None
            } else {
                Some(t)
            }
        },
        None => None,
    }
}

/// A counter reads back as it was written.
pub proof fn law_counter_round_trip(n: u64)
    ensures
        counter(Some(decimal(n as nat))) == n,
{
    lemma_decimal_trim(n as nat);
    crate::text::law_decimal_round_trip(n);
}

pub proof fn lemma_decimal_trim(n: nat)
    ensures
        is_trim(decimal(n)),
        trimmed(decimal(n)) == decimal(n),
        plain(decimal(n)),
        forall|i: int| 0 <= i < decimal(n).len() ==> !white_space(#[trigger] decimal(n)[i]),
{
    lemma_decimal_digits(n);
    let s = decimal(n);
    assert forall|i: int| 0 <= i < s.len() implies !white_space(#[trigger] s[i]) && s[i] != '\n' && s[i]
        != '\r' by {
        assert(crate::text::is_digit(s[i]));
    }
    lemma_trim_fixed(s);
}

pub proof fn lemma_hex_trim(bytes: Seq<u8>)
    ensures
        is_trim(hex_text(bytes)),
        trimmed(hex_text(bytes)) == hex_text(bytes),
        plain(hex_text(bytes)),
        forall|i: int| 0 <= i < hex_text(bytes).len() ==> !white_space(#[trigger] hex_text(bytes)[i]),
{
    let s = hex_text(bytes);
    assert forall|i: int| 0 <= i < s.len() implies !white_space(#[trigger] s[i]) && s[i] != '\n' && s[i]
        != '\r' by {
        lemma_hex_text_plain(bytes, i);
    }
    lemma_trim_fixed(s);
}

impl ClientState {
    /// When this device first stored anything for a conversation, by its own
    /// clock; 0 when unrecorded.
    pub fn first_seen_ms(&self, content: Option<&str>) -> (r: u64)
        ensures
            r == counter(content_of(content)),
    {
        read_counter(content)
    }

    /// The marker to write where there is none yet.
    pub fn note_first_seen(&self, conversation: MessageId, present: bool, now: u64) -> (r: Option<
        TextFile,
    >)
        ensures
            r.deep_view() == if present {
                None
            } else {
                Some(
                    TextFileView {
                        path: under(conversation_path(self.root@, conversation), "first-seen"@),
                        text: decimal(now as nat),
                    },
                )
            },
    {
        if present {
            None
        } else {
            Some(TextFile { path: self.first_seen_path(conversation), text: decimal_text(now) })
        }
    }

    /// My local name for a conversation; `None` clears: nothing is written
    /// and the file goes.
    pub fn set_conversation_name(&self, conversation: MessageId, name: Option<&str>) -> (r: Option<
        TextFile,
    >)
        ensures
            r.deep_view() == match content_of(name) {
                Some(n) => Some(
                    TextFileView {
                        path: under(conversation_path(self.root@, conversation), "my-name"@),
                        text: n,
                    },
                ),
                None => None,
            },
    {
        match name {
            Some(n) => Some(
                TextFile { path: self.conversation_name_path(conversation), text: n.to_owned() },
            ),
            None => None,
        }
    }

    pub fn conversation_name(&self, content: Option<&str>) -> (r: Option<String>)
        ensures
            r.deep_view() == value_text(content_of(content)),
    {
        read_value(content)
    }

    /// How many of a conversation's messages had been rendered at the last
    /// read.
    pub fn set_read_count(&self, conversation: MessageId, count: u64) -> (r: TextFile)
        ensures
            r.deep_view() == (TextFileView {
                path: under(conversation_path(self.root@, conversation), "read-count"@),
                text: decimal(count as nat),
            }),
    {
        TextFile { path: self.read_count_path(conversation), text: decimal_text(count) }
    }

    pub fn read_count(&self, content: Option<&str>) -> (r: u64)
        ensures
            r == counter(content_of(content)),
    {
        read_counter(content)
    }

    pub fn profile_name(&self, content: Option<&str>) -> (r: Option<String>)
        ensures
            r.deep_view() == value_text(content_of(content)),
    {
        read_value(content)
    }

    /// The name attestation's supersession counter.
    pub fn profile_revision(&self, content: Option<&str>) -> (r: u64)
        ensures
            r == counter(content_of(content)),
    {
        read_counter(content)
    }

    pub fn save_profile_revision(&self, revision: u64) -> (r: TextFile)
        ensures
            r.deep_view() == (TextFileView {
                path: under(self.root@, "profile.revision"@),
                text: decimal(revision as nat),
            }),
    {
        TextFile {
            path: step(self.root.as_str(), "profile.revision"),
            text: decimal_text(revision),
        }
    }
}

// ---- relay lists ----

pub open spec fn entry_spec() -> spec_fn(RelayView) -> Seq<char> {
    |e: RelayView| spec_of_entry(e)
}

/// Relay entries, one spec per line.
pub open spec fn relays_text(entries: Seq<RelayView>) -> Seq<char> {
    joined(entries.map_values(entry_spec()), "\n"@)
}

pub open spec fn spec_entry() -> spec_fn(Seq<char>) -> Option<RelayView> {
    |l: Seq<char>|
        if trimmed(l).len() > 0 {
            Some(entry_of_spec(l))
        } else {
            None
        }
}

/// The entries of a relay file: its lines that are not blank.
pub open spec fn relays_of_text(content: Seq<char>) -> Seq<RelayView> {
    lines(content).filter_map(spec_entry())
}

pub open spec fn text_or_empty(content: Option<Seq<char>>) -> Seq<char> {
    match content {
        Some(s) => s,
        None => Seq::empty(),
    }
}

pub fn write_relays(entries: &Vec<RelayEntry>) -> (r: String)
    ensures
        r@ == relays_text(entries.deep_view()),
{
    let ghost s = entries.deep_view();
    let mut specs: Vec<String> = Vec::new();
    assert(specs.deep_view() =~= s.take(0).map_values(entry_spec()));
    for i in 0..entries.len()
        invariant
            s == entries.deep_view(),
            specs.deep_view() == s.take(i as int).map_values(entry_spec()),
    {
        proof {
            lemma_map_step(s, entry_spec(), i as int);
        }
        let ghost before = specs.deep_view();
        specs.push(entries[i].to_spec());
        assert(specs.deep_view() =~= before.push(spec_of_entry(s[i as int])));
    }
    proof {
        lemma_take_all(s);
    }
    join(&specs, "\n")
}

pub fn read_relays(content: &str) -> (r: Vec<RelayEntry>)
    ensures
        r.deep_view() == relays_of_text(content@),
{
    let ls: Vec<String> = lines_of(content);
    let ghost s = ls.deep_view();
    let mut out: Vec<RelayEntry> = Vec::new();
    assert(out.deep_view() =~= s.take(0).filter_map(spec_entry()));
    for i in 0..ls.len()
        invariant
            s == ls.deep_view(),
            out.deep_view() == s.take(i as int).filter_map(spec_entry()),
    {
        proof {
            lemma_filter_map_step(s, spec_entry(), i as int);
        }
        let t: String = trim(ls[i].as_str());
        if !t.as_str().is_empty() {
            let ghost before = out.deep_view();
            out.push(RelayEntry::from_spec(ls[i].as_str()));
            assert(out.deep_view() =~= before.push(entry_of_spec(s[i as int])));
        }
    }
    proof {
        lemma_take_all(s);
    }
    out
}

/// An entry whose spec survives its line.
pub open spec fn writable(e: RelayView) -> bool {
    &&& plain(spec_of_entry(e))
    &&& trimmed(spec_of_entry(e)).len() > 0
    &&& entry_of_spec(spec_of_entry(e)) == e
}

/// A relay file reads back as it was written.
pub proof fn law_relays_round_trip(entries: Seq<RelayView>)
    requires
        forall|i: int| 0 <= i < entries.len() ==> writable(#[trigger] entries[i]),
    ensures
        relays_of_text(relays_text(entries)) == entries,
{
    reveal_strlit("\n");
    assert("\n"@ =~= seq!['\n']);
    let ls = entries.map_values(entry_spec());
    assert forall|i: int| 0 <= i < ls.len() implies plain(#[trigger] ls[i]) by {
        assert(writable(entries[i]));
    }
    if ls.len() > 0 {
        assert(writable(entries[entries.len() - 1]));
        lemma_trimmed_empty(ls.last());
    }
    law_joined_lines_round_trip(ls);
    lemma_filter_map_all(ls, spec_entry(), entries);
}

proof fn lemma_trimmed_empty(s: Seq<char>)
    ensures
        s.len() == 0 ==> trimmed(s).len() == 0,
{
}

/// A filter that keeps and maps every element maps the sequence.
pub proof fn lemma_filter_map_all<A, B>(s: Seq<A>, f: spec_fn(A) -> Option<B>, t: Seq<B>)
    requires
        s.len() == t.len(),
        forall|i: int| 0 <= i < s.len() ==> f(#[trigger] s[i]) == Some(t[i]),
    ensures
        s.filter_map(f) == t,
    decreases s.len(),
{
    lemma_filter_map_prefix(s, f, t, s.len() as int);
    lemma_take_all(s);
    lemma_take_all(t);
}

proof fn lemma_filter_map_prefix<A, B>(s: Seq<A>, f: spec_fn(A) -> Option<B>, t: Seq<B>, n: int)
    requires
        s.len() == t.len(),
        0 <= n <= s.len(),
        forall|i: int| 0 <= i < s.len() ==> f(#[trigger] s[i]) == Some(t[i]),
    ensures
        s.take(n).filter_map(f) == t.take(n),
    decreases n,
{
    if n == 0 {
        assert(s.take(0).filter_map(f) =~= t.take(0));
    } else {
        lemma_filter_map_prefix(s, f, t, n - 1);
        lemma_filter_map_step(s, f, n - 1);
        lemma_take_step(t, n - 1);
    }
}

impl ClientState {
    /// The profile files: display name and home relays.
    pub fn save_profile(&self, name: &str, relays: &Vec<RelayEntry>) -> (r: (TextFile, TextFile))
        ensures
            r.deep_view() == (
                TextFileView { path: under(self.root@, "profile.name"@), text: name@ },
                TextFileView {
                    path: under(self.root@, "profile.relays"@),
                    text: relays_text(relays.deep_view()),
                },
            ),
    {
        (
            TextFile { path: step(self.root.as_str(), "profile.name"), text: name.to_owned() },
            TextFile { path: step(self.root.as_str(), "profile.relays"), text: write_relays(relays) },
        )
    }

    /// The home relay services, one spec line per entry.
    pub fn home_relay_entries(&self, content: Option<&str>) -> (r: Vec<RelayEntry>)
        ensures
            r.deep_view() == relays_of_text(text_or_empty(content_of(content))),
    {
        match content {
            Some(s) => read_relays(s),
            None => {
                let none: Vec<RelayEntry> = read_relays("");
                proof {
                    reveal_strlit("");
                    assert(""@ =~= Seq::<char>::empty());
                }
                none
            },
        }
    }

    /// The home relays' mailbox dial strings.
    pub fn home_relays(&self, content: Option<&str>) -> (r: Vec<String>)
        ensures
            r.deep_view() == mailboxes(relays_of_text(text_or_empty(content_of(content)))),
    {
        let entries: Vec<RelayEntry> = self.home_relay_entries(content);
        mailbox_list(&entries)
    }

    /// The manual relay override of a contact entry.
    pub fn save_relay_override(&self, key: &PublicKey, relays: &Vec<RelayEntry>) -> (r: TextFile)
        ensures
            r.deep_view() == (TextFileView {
                path: with_extension(contact_path(self.root@, *key), "relays"@),
                text: relays_text(relays.deep_view()),
            }),
    {
        let stem: String = self.contact_stem(key);
        TextFile { path: extend(stem.as_str(), "relays"), text: write_relays(relays) }
    }

    /// Reads an override back; `None` where it names no relay.
    pub fn relay_override(&self, content: Option<&str>) -> (r: Option<Vec<RelayEntry>>)
        ensures
            r.deep_view() == match content_of(content) {
                Some(s) => if relays_of_text(s).len() > 0 {
                    Some(relays_of_text(s))
                } else {
                    None
                },
                None => None,
            },
    {
        match content {
            Some(s) => {
                let relays: Vec<RelayEntry> = read_relays(s);
                if relays.len() > 0 {
                    Some(relays)
                } else {
                    None
                }
            },
            None => None,
        }
    }
}

// ---- line records ----

/// The avatar claim materials: ciphertext hash, content key, revision.
pub open spec fn avatar_text(hash: Seq<u8>, key: Seq<u8>, revision: u64) -> Seq<char> {
    line_text(seq![hex_text(hash), hex_text(key), decimal(revision as nat)])
}

pub open spec fn avatar_of_text(content: Seq<char>) -> Option<([u8; 32], [u8; 32], u64)> {
    let ls = lines(content);
    if ls.len() < 3 {
        None
    } else {
        match (hex32(trimmed(ls[0])), hex32(trimmed(ls[1])), number(trimmed(ls[2]))) {
            (Some(hash), Some(key), Some(revision)) => Some((hash, key, revision)),
            _ => None,
        }
    }
}

/// A device label and its revision.
pub open spec fn label_text(label: Seq<char>, revision: u64) -> Seq<char> {
    line_text(seq![label, decimal(revision as nat)])
}

pub open spec fn label_of_text(content: Seq<char>) -> Option<(Seq<char>, u64)> {
    let ls = lines(content);
    if ls.len() < 2 {
        None
    } else {
        match number(trimmed(ls[1])) {
            Some(revision) => if trimmed(ls[0]).len() > 0 {
                Some((trimmed(ls[0]), revision))
            } else {
                None
            },
            None => None,
        }
    }
}

/// A ledger entry: the relay's dial string, the conversation, the stamp.
pub open spec fn outbox_text(relay: Seq<char>, conversation: Seq<u8>, created_ms: u64) -> Seq<char> {
    line_text(seq![relay, hex_text(conversation), decimal(created_ms as nat)])
}

/// A ledger entry read back: the message id is the file name up to its first
/// dot.
pub open spec fn outbox_of_file(name: Seq<char>, content: Seq<char>) -> Option<OutboxView> {
    let ls = lines(content);
    if ls.len() < 3 {
        None
    } else {
        match (hex32(parts(name, '.')[0]), hex32(ls[1]), number(ls[2])) {
            (Some(message), Some(conversation), Some(created_ms)) => Some(
                OutboxView {
                    message: MessageId(message),
                    relay: ls[0],
                    conversation: MessageId(conversation),
                    created_ms,
                },
            ),
            _ => None,
        }
    }
}

fn hex_or_none(text: &str) -> (r: Option<[u8; 32]>)
    ensures
        r == hex32(text@),
{
    match hex::parse32(text) {
        Ok(bytes) => Some(bytes),
        Err(_) => None,
    }
}

fn three_lines(a: String, b: String, c: String) -> (r: String)
    ensures
        r@ == line_text(seq![a@, b@, c@]),
{
    let ghost model = seq![a@, b@, c@];
    let mut ls: Vec<String> = Vec::new();
    ls.push(a);
    ls.push(b);
    ls.push(c);
    assert(ls.deep_view() =~= model);
    write_lines(&ls)
}

impl ClientState {
    /// This device's avatar claim materials, as `profile.avatar`.
    pub fn save_avatar_meta(&self, hash: &BlobHash, key: &[u8; 32], revision: u64) -> (r: TextFile)
        ensures
            r.deep_view() == (TextFileView {
                path: under(self.root@, "profile.avatar"@),
                text: avatar_text(hash.0@, key@, revision),
            }),
    {
        TextFile {
            path: step(self.root.as_str(), "profile.avatar"),
            text: three_lines(
                hex::encode(hash.0.as_slice()),
                hex::encode(key.as_slice()),
                decimal_text(revision),
            ),
        }
    }

    pub fn avatar_meta(&self, content: Option<&str>) -> (r: Option<(BlobHash, [u8; 32], u64)>)
        ensures
            r == match content_of(content) {
                Some(s) => match avatar_of_text(s) {
                    Some((hash, key, revision)) => Some((BlobHash(hash), key, revision)),
                    None => None,
                },
                None => None,
            },
    {
        let text: &str = match content {
            Some(s) => s,
            None => {
                return None;
            },
        };
        let ls: Vec<String> = lines_of(text);
        let ghost model = ls.deep_view();
        if ls.len() < 3 {
            return None;
        }
        let first: String = trim(ls[0].as_str());
        let second: String = trim(ls[1].as_str());
        let third: String = trim(ls[2].as_str());
        assert(first@ == trimmed(model[0]) && second@ == trimmed(model[1]) && third@ == trimmed(
            model[2],
        ));
        match (
            hex_or_none(first.as_str()),
            hex_or_none(second.as_str()),
            parse_u64(third.as_str()),
        ) {
            (Some(hash), Some(key), Some(revision)) => Some((BlobHash(hash), key, revision)),
            _ => None,
        }
    }

    /// This device's self-claimed label and its revision, as
    /// `profile.device`.
    pub fn save_device_label(&self, label: &str, revision: u64) -> (r: TextFile)
        ensures
            r.deep_view() == (TextFileView {
                path: under(self.root@, "profile.device"@),
                text: label_text(label@, revision),
            }),
    {
        let mut ls: Vec<String> = Vec::new();
        ls.push(label.to_owned());
        ls.push(decimal_text(revision));
        assert(ls.deep_view() =~= seq![label@, decimal(revision as nat)]);
        TextFile { path: step(self.root.as_str(), "profile.device"), text: write_lines(&ls) }
    }

    pub fn device_label_meta(&self, content: Option<&str>) -> (r: Option<(String, u64)>)
        ensures
            r.deep_view() == match content_of(content) {
                Some(s) => label_of_text(s),
                None => None,
            },
    {
        let text: &str = match content {
            Some(s) => s,
            None => {
                return None;
            },
        };
        let ls: Vec<String> = lines_of(text);
        let ghost model = ls.deep_view();
        if ls.len() < 2 {
            return None;
        }
        let label: String = trim(ls[0].as_str());
        let second: String = trim(ls[1].as_str());
        assert(label@ == trimmed(model[0]) && second@ == trimmed(model[1]));
        match parse_u64(second.as_str()) {
            Some(revision) => if label.as_str().is_empty() {
                None
            } else {
                Some((label, revision))
            },
            None => None,
        }
    }

    /// The ledger entry for a delivery still owed.
    pub fn outbox_file(&self, entry: &OutboxEntry) -> (r: TextFile)
        ensures
            r.deep_view() == (TextFileView {
                path: outbox_entry_path(self.root@, entry.message, entry.relay@),
                text: outbox_text(entry.relay@, entry.conversation.0@, entry.created_ms),
            }),
    {
        TextFile {
            path: self.outbox_path(entry.message, entry.relay.as_str()),
            text: three_lines(
                entry.relay.clone(),
                hex::encode(entry.conversation.0.as_slice()),
                decimal_text(entry.created_ms),
            ),
        }
    }
}

/// Reads a ledger entry back.
pub fn parse_outbox_entry(name: &str, content: &str) -> (r: Option<OutboxEntry>)
    ensures
        r.deep_view() == outbox_of_file(name@, content@),
{
    let pieces: Vec<String> = split(name, '.');
    let ghost cut = pieces.deep_view();
    let ls: Vec<String> = lines_of(content);
    let ghost model = ls.deep_view();
    if ls.len() < 3 {
        return None;
    }
    proof {
        lemma_parts_not_empty(name@, '.');
        assert(cut[0] == pieces[0]@);
        assert(model[0] == ls[0]@ && model[1] == ls[1]@ && model[2] == ls[2]@);
    }
    match (
        hex_or_none(pieces[0].as_str()),
        hex_or_none(ls[1].as_str()),
        parse_u64(ls[2].as_str()),
    ) {
        (Some(message), Some(conversation), Some(created_ms)) => Some(
            OutboxEntry {
                message: MessageId(message),
                relay: ls[0].clone(),
                conversation: MessageId(conversation),
                created_ms,
            },
        ),
        _ => None,
    }
}

pub proof fn lemma_parts_not_empty(s: Seq<char>, c: char)
    ensures
        parts(s, c).len() > 0,
{
}

/// A name without a separator is its own first part; one with it is cut
/// there.
pub proof fn lemma_first_part(head: Seq<char>, c: char, rest: Seq<char>)
    requires
        forall|i: int| 0 <= i < head.len() ==> head[i] != c,
    ensures
        parts(head + seq![c] + rest, c)[0] == head,
{
    let s = head + seq![c] + rest;
    crate::text::lemma_index_of_char_unique(s, c, head.len() as int);
    assert(s.take(head.len() as int) =~= head);
}

/// A ledger entry reads back as it was written, whatever the relay, where its
/// dial string is one plain line.
pub proof fn law_outbox_entry_round_trip(
    message: MessageId,
    relay: Seq<char>,
    conversation: MessageId,
    created_ms: u64,
    fingerprint: Seq<char>,
)
    requires
        plain(relay),
    ensures
        outbox_of_file(
            with_extension(hex_text(message.0@), fingerprint),
            outbox_text(relay, conversation.0@, created_ms),
        ) == Some(OutboxView { message, relay, conversation, created_ms }),
{
    let ls = seq![relay, hex_text(conversation.0@), decimal(created_ms as nat)];
    lemma_hex_trim(conversation.0@);
    lemma_decimal_trim(created_ms as nat);
    assert(all_plain(ls));
    law_line_text_round_trip(ls);
    law_hex32_round_trip(conversation.0);
    law_hex32_round_trip(message.0);
    crate::text::law_decimal_round_trip(created_ms);
    reveal_strlit(".");
    let stem = hex_text(message.0@);
    assert forall|i: int| 0 <= i < stem.len() implies stem[i] != '.' by {
        lemma_hex_text_plain(message.0@, i);
    }
    assert("."@ =~= seq!['.']);
    lemma_first_part(stem, '.', fingerprint);
}

/// Avatar materials read back as they were written.
pub proof fn law_avatar_round_trip(hash: [u8; 32], key: [u8; 32], revision: u64)
    ensures
        avatar_of_text(avatar_text(hash@, key@, revision)) == Some((hash, key, revision)),
{
    let ls = seq![hex_text(hash@), hex_text(key@), decimal(revision as nat)];
    lemma_hex_trim(hash@);
    lemma_hex_trim(key@);
    lemma_decimal_trim(revision as nat);
    assert(all_plain(ls));
    law_line_text_round_trip(ls);
    law_hex32_round_trip(hash);
    law_hex32_round_trip(key);
    crate::text::law_decimal_round_trip(revision);
}

/// A trimmed, non-empty one-line label reads back as it was written.
pub proof fn law_device_label_round_trip(label: Seq<char>, revision: u64)
    requires
        plain(label),
        is_trim(label),
        label.len() > 0,
    ensures
        label_of_text(label_text(label, revision)) == Some((label, revision)),
{
    let ls = seq![label, decimal(revision as nat)];
    lemma_decimal_trim(revision as nat);
    lemma_trim_fixed(label);
    assert(all_plain(ls));
    law_line_text_round_trip(ls);
    crate::text::law_decimal_round_trip(revision);
}

// ---- key lists ----

/// Peers whose last dial got nowhere: key and stamp, one per line.
pub open spec fn unreachable_line() -> spec_fn(([u8; 32], u64)) -> Seq<char> {
    |e: ([u8; 32], u64)| hex_text(e.0@) + " "@ + decimal(e.1 as nat)
}

pub open spec fn unreachable_text(entries: Seq<([u8; 32], u64)>) -> Seq<char> {
    line_text(entries.map_values(unreachable_line()))
}

pub open spec fn unreachable_entry() -> spec_fn(Seq<char>) -> Option<([u8; 32], u64)> {
    |l: Seq<char>|
        match cut_at(trimmed(l), ' ') {
            Some((key, stamp)) => match (hex32(key), number(stamp)) {
                (Some(k), Some(at)) => Some((k, at)),
                _ => None,
            },
            None => None,
        }
}

/// Unparseable lines are skipped.
pub open spec fn unreachable_of_text(content: Seq<char>) -> Seq<([u8; 32], u64)> {
    lines(content).filter_map(unreachable_entry())
}

/// One key per line.
pub open spec fn key_line() -> spec_fn(PublicKey) -> Seq<char> {
    |k: PublicKey| hex_text(k.0@)
}

pub open spec fn keys_text(keys: Seq<PublicKey>) -> Seq<char> {
    line_text(keys.map_values(key_line()))
}

pub open spec fn line_key() -> spec_fn(Seq<char>) -> Option<PublicKey> {
    |l: Seq<char>|
        match hex32(trimmed(l)) {
            Some(k) => Some(PublicKey(k)),
            None => None,
        }
}

pub open spec fn keys_of_text(content: Seq<char>) -> Seq<PublicKey> {
    lines(content).filter_map(line_key())
}

impl ClientState {
    /// Replaces the file of recently unreachable peers wholesale.
    pub fn save_unreachable(&self, entries: &Vec<([u8; 32], u64)>) -> (r: TextFile)
        ensures
            r.deep_view() == (TextFileView {
                path: under(self.root@, "unreachable.keys"@),
                text: unreachable_text(entries@),
            }),
    {
        let ghost s = entries@;
        let ghost f = unreachable_line();
        let mut ls: Vec<String> = Vec::new();
        assert(ls.deep_view() =~= s.take(0).map_values(f));
        for i in 0..entries.len()
            invariant
                s == entries@,
                f == unreachable_line(),
                ls.deep_view() == s.take(i as int).map_values(f),
        {
            proof {
                lemma_map_step(s, f, i as int);
            }
            let mut line: String = hex::encode(entries[i].0.as_slice());
            let stamp: String = decimal_text(entries[i].1);
            line.append(" ");
            line.append(stamp.as_str());
            let ghost before = ls.deep_view();
            ls.push(line);
            assert(ls.deep_view() =~= before.push(f(s[i as int])));
        }
        proof {
            lemma_take_all(s);
        }
        TextFile { path: step(self.root.as_str(), "unreachable.keys"), text: write_lines(&ls) }
    }

    /// Reads back `save_unreachable`.
    pub fn unreachable(&self, content: Option<&str>) -> (r: Vec<([u8; 32], u64)>)
        ensures
            r@ == unreachable_of_text(text_or_empty(content_of(content))),
    {
        let mut out: Vec<([u8; 32], u64)> = Vec::new();
        let text: &str = match content {
            Some(s) => s,
            None => {
                assert(lines(Seq::<char>::empty()).filter_map(unreachable_entry()) =~= out@);
                return out;
            },
        };
        let ls: Vec<String> = lines_of(text);
        let ghost s = ls.deep_view();
        let ghost f = unreachable_entry();
        assert(out@ =~= s.take(0).filter_map(f));
        for i in 0..ls.len()
            invariant
                s == ls.deep_view(),
                f == unreachable_entry(),
                out@ == s.take(i as int).filter_map(f),
        {
            proof {
                lemma_filter_map_step(s, f, i as int);
            }
            let t: String = trim(ls[i].as_str());
            match split_once(t.as_str(), ' ') {
                Some((key, stamp)) => {
                    match (hex_or_none(key.as_str()), parse_u64(stamp.as_str())) {
                        (Some(k), Some(at)) => {
                            out.push((k, at));
                        },
                        _ => {},
                    }
                },
                None => {},
            }
        }
        proof {
            lemma_take_all(s);
        }
        out
    }

    /// The keys the user chose to ignore, ascending.
    pub fn dismissed_keys(&self, content: Option<&str>) -> (r: Vec<PublicKey>)
        ensures
            lists::<PublicKey>(
                r.deep_view(),
                keys_of_text(text_or_empty(content_of(content))).to_set(),
            ),
    {
        let mut keys: Vec<PublicKey> = Vec::new();
        assert(keys.deep_view() =~= Seq::<PublicKey>::empty());
        let text: &str = match content {
            Some(s) => s,
            None => {
                assert(lines(Seq::<char>::empty()).filter_map(line_key()) =~= Seq::<
                    PublicKey,
                >::empty());
                return keys;
            },
        };
        read_key_lines(text, 0, &mut keys);
        assert(lines(text@).skip(0) =~= lines(text@));
        set_of(&keys)
    }

    /// The file of ignored keys once `key` is among them; `None` where it
    /// already is.
    pub fn dismiss_key(&self, content: Option<&str>, key: &PublicKey) -> (r: Option<TextFile>)
        ensures
            match r {
                Some(file) => {
                    let before = keys_of_text(text_or_empty(content_of(content))).to_set();
                    &&& !before.contains(*key)
                    &&& file.path@ == under(self.root@, "dismissed.keys"@)
                    &&& file.text@ == keys_text(
                        crate::order::ascending_list::<PublicKey>(before.insert(*key)),
                    )
                },
                None => keys_of_text(text_or_empty(content_of(content))).contains(*key),
            },
    {
        let mut keys: Vec<PublicKey> = self.dismissed_keys(content);
        let ghost before = keys.deep_view();
        if !set_insert(&mut keys, *key) {
            assert(before.to_set().contains(*key));
            return None;
        }
        proof {
            assert(!before.to_set().contains(*key));
            crate::order::lemma_list_is::<PublicKey>(
                keys.deep_view(),
                before.to_set().insert(*key),
            );
        }
        Some(TextFile { path: step(self.root.as_str(), "dismissed.keys"), text: write_keys(&keys) })
    }
}

/// Keys in hex, each with its line feed.
pub fn write_keys(keys: &Vec<PublicKey>) -> (r: String)
    ensures
        r@ == keys_text(keys.deep_view()),
{
    let ghost s = keys.deep_view();
    let ghost f = key_line();
    let mut ls: Vec<String> = Vec::new();
    assert(ls.deep_view() =~= s.take(0).map_values(f));
    for i in 0..keys.len()
        invariant
            s == keys.deep_view(),
            f == key_line(),
            ls.deep_view() == s.take(i as int).map_values(f),
    {
        proof {
            lemma_map_step(s, f, i as int);
        }
        let ghost before = ls.deep_view();
        ls.push(hex::encode(keys[i].0.as_slice()));
        assert(ls.deep_view() =~= before.push(f(s[i as int])));
    }
    proof {
        lemma_take_all(s);
    }
    write_lines(&ls)
}

/// Appends the keys of a text's lines, from line `from` on.
fn read_key_lines(text: &str, from: usize, keys: &mut Vec<PublicKey>)
    requires
        old(keys).deep_view() == Seq::<PublicKey>::empty(),
    ensures
        from <= lines(text@).len() ==> final(keys).deep_view() == lines(text@).skip(
            from as int,
        ).filter_map(line_key()),
{
    let ls: Vec<String> = lines_of(text);
    let ghost whole = ls.deep_view();
    if from > ls.len() {
        return;
    }
    let ghost s = whole.skip(from as int);
    let ghost f = line_key();
    assert(keys.deep_view() =~= s.take(0).filter_map(f));
    let mut i: usize = from;
    while i < ls.len()
        invariant
            from <= i <= ls.len(),
            whole == ls.deep_view(),
            s == whole.skip(from as int),
            f == line_key(),
            keys.deep_view() == s.take(i - from).filter_map(f),
        decreases ls.len() - i,
    {
        proof {
            lemma_filter_map_step(s, f, i - from);
            assert(s[i - from] == ls[i as int]@);
        }
        let t: String = trim(ls[i].as_str());
        match hex_or_none(t.as_str()) {
            Some(k) => {
                let ghost before = keys.deep_view();
                keys.push(PublicKey(k));
                assert(keys.deep_view() =~= before.push(PublicKey(k)));
            },
            None => {},
        }
        i += 1;
    }
    proof {
        lemma_take_all(s);
    }
}

/// The unreachable peers read back exactly as they were written.
pub proof fn law_unreachable_round_trip(entries: Seq<([u8; 32], u64)>)
    ensures
        unreachable_of_text(unreachable_text(entries)) == entries,
{
    let f = unreachable_line();
    let ls = entries.map_values(f);
    assert forall|i: int| 0 <= i < ls.len() implies plain(#[trigger] ls[i]) && unreachable_entry()(ls[i])
        == Some(entries[i]) by {
        lemma_unreachable_line(entries[i].0, entries[i].1);
    }
    law_line_text_round_trip(ls);
    lemma_filter_map_all(ls, unreachable_entry(), entries);
}

proof fn lemma_unreachable_line(key: [u8; 32], at: u64)
    ensures
        plain(unreachable_line()((key, at))),
        unreachable_entry()(unreachable_line()((key, at))) == Some((key, at)),
{
    let h = hex_text(key@);
    let d = decimal(at as nat);
    let l = unreachable_line()((key, at));
    reveal_strlit(" ");
    lemma_hex_trim(key@);
    lemma_decimal_trim(at as nat);
    lemma_decimal_digits(at as nat);
    assert(l =~= h + seq![' '] + d);
    assert(l.last() == d.last());
    assert(l[0] == h[0]);
    assert forall|i: int| 0 <= i < l.len() implies l[i] != '\n' by {
        if i < h.len() {
            assert(l[i] == h[i]);
        } else if i > h.len() {
            assert(l[i] == d[i - h.len() - 1]);
        }
    }
    lemma_trim_fixed(l);
    crate::text::lemma_index_of_char_unique(l, ' ', h.len() as int);
    assert(l.take(h.len() as int) =~= h);
    assert(l.skip(h.len() as int + 1) =~= d);
    law_hex32_round_trip(key);
    crate::text::law_decimal_round_trip(at);
}

/// Keys in hex lines read back as they were written.
pub proof fn law_keys_round_trip(keys: Seq<PublicKey>)
    ensures
        keys_of_text(keys_text(keys)) == keys,
{
    let ls = keys.map_values(key_line());
    assert forall|i: int| 0 <= i < ls.len() implies plain(#[trigger] ls[i]) && line_key()(ls[i])
        == Some(keys[i]) by {
        lemma_hex_trim(keys[i].0@);
        law_hex32_round_trip(keys[i].0);
    }
    law_line_text_round_trip(ls);
    lemma_filter_map_all(ls, line_key(), keys);
}

// ---- persons ----

/// A person file: the label line, then one member key per line.
pub open spec fn person_text(label: Seq<char>, members: Seq<PublicKey>) -> Seq<char> {
    joined(seq![label] + members.map_values(key_line()), "\n"@)
}

/// A person file read back: nothing without a label; lines that hold no key
/// are skipped.
pub open spec fn person_of_text(content: Seq<char>) -> Option<(Seq<char>, Seq<PublicKey>)> {
    let ls = lines(content);
    if ls.len() > 0 && trimmed(ls[0]).len() > 0 {
        Some((trimmed(ls[0]), ls.skip(1).filter_map(line_key())))
    } else {
        None
    }
}

/// The text of a person file.
pub fn write_person(label: &str, members: &Vec<PublicKey>) -> (r: String)
    ensures
        r@ == person_text(label@, members.deep_view()),
{
    let ghost s = members.deep_view();
    let ghost f = key_line();
    let mut ls: Vec<String> = Vec::new();
    ls.push(label.to_owned());
    assert(ls.deep_view() =~= seq![label@] + s.take(0).map_values(f));
    for i in 0..members.len()
        invariant
            s == members.deep_view(),
            f == key_line(),
            ls.deep_view() == seq![label@] + s.take(i as int).map_values(f),
    {
        proof {
            lemma_map_step(s, f, i as int);
        }
        let ghost before = ls.deep_view();
        ls.push(hex::encode(members[i].0.as_slice()));
        assert(ls.deep_view() =~= before.push(f(s[i as int])));
        assert(ls.deep_view() =~= seq![label@] + s.take(i + 1).map_values(f));
    }
    proof {
        lemma_take_all(s);
    }
    join(&ls, "\n")
}

/// One person file's content: the label, then the member keys.
pub fn read_person(content: &str) -> (r: Option<(String, Vec<PublicKey>)>)
    ensures
        r.deep_view() == person_of_text(content@),
{
    let ls: Vec<String> = lines_of(content);
    let ghost model = ls.deep_view();
    if ls.len() == 0 {
        return None;
    }
    let label: String = trim(ls[0].as_str());
    assert(model[0] == ls[0]@);
    if label.as_str().is_empty() {
        return None;
    }
    let mut members: Vec<PublicKey> = Vec::new();
    assert(members.deep_view() =~= Seq::<PublicKey>::empty());
    read_key_lines(content, 1, &mut members);
    Some((label, members))
}

/// A person file's name is its id as 32 hex digits.
pub fn parse_person_id(name: &str) -> (r: Option<u128>)
    ensures
        r == number128(name@),
{
    parse128(name)
}

/// A person whose label is one trimmed, non-empty line reads back as it was
/// written.
pub proof fn law_person_round_trip(label: Seq<char>, members: Seq<PublicKey>)
    requires
        plain(label),
        is_trim(label),
        label.len() > 0,
    ensures
        person_of_text(person_text(label, members)) == Some((label, members)),
{
    reveal_strlit("\n");
    assert("\n"@ =~= seq!['\n']);
    let hexes = members.map_values(key_line());
    let ls = seq![label] + hexes;
    assert forall|i: int| 0 <= i < ls.len() implies plain(#[trigger] ls[i]) by {
        if i > 0 {
            assert(ls[i] == hexes[i - 1]);
            lemma_hex_trim(members[i - 1].0@);
        }
    }
    if members.len() > 0 {
        assert(ls.last() == hexes[members.len() - 1]);
        assert(hex_text(members[members.len() - 1].0@).len() == 64);
    }
    law_joined_lines_round_trip(ls);
    lemma_trim_fixed(label);
    assert(ls.skip(1) =~= hexes);
    assert forall|i: int| 0 <= i < hexes.len() implies line_key()(#[trigger] hexes[i]) == Some(members[i]) by {
        lemma_hex_trim(members[i].0@);
        law_hex32_round_trip(members[i].0);
    }
    lemma_filter_map_all(hexes, line_key(), members);
}

impl ClientState {
    /// A person row's file.
    pub fn save_person(&self, id: u128, label: &str, members: &Vec<PublicKey>) -> (r: TextFile)
        ensures
            r.deep_view() == (TextFileView {
                path: under(under(self.root@, "persons"@), hex_digits(id as nat, 32)),
                text: person_text(label@, members.deep_view()),
            }),
    {
        TextFile { path: self.person_path(id), text: write_person(label, members) }
    }
}

// ---- confirmations ----

/// The whole keys in a run of bytes; a damaged tail is dropped.
pub open spec fn keys_in(bytes: Seq<u8>) -> Seq<PublicKey> {
    Seq::new(
        bytes.len() / 32,
        |i: int| PublicKey(array_of(bytes.subrange(32 * i, 32 * i + 32))),
    )
}

/// The set of keys in an `.acks` sidecar, ascending.
pub fn read_keys(bytes: &[u8]) -> (r: Vec<PublicKey>)
    ensures
        lists::<PublicKey>(r.deep_view(), keys_in(bytes@).to_set()),
{
    let ghost s = keys_in(bytes@);
    let mut out: Vec<PublicKey> = Vec::new();
    let total: usize = bytes.len();
    let n: usize = total / 32;
    proof {
        assert(out.deep_view() =~= Seq::<PublicKey>::empty());
        assert(out.deep_view().to_set() =~= s.take(0).to_set());
    }
    for i in 0..n
        invariant
            total == bytes@.len(),
            n == total / 32,
            s == keys_in(bytes@),
            ascending::<PublicKey>(out.deep_view()),
            out.deep_view().to_set() == s.take(i as int).to_set(),
    {
        let mut key: [u8; 32] = [0u8; 32];
        let mut j: usize = 0;
        while j < 32
            invariant
                i < n,
                total == bytes@.len(),
                n == total / 32,
                j <= 32,
                forall|k: int| 0 <= k < j ==> #[trigger] key[k] == bytes@[32 * i + k],
            decreases 32 - j,
        {
            key[j] = bytes[32 * i + j];
            j += 1;
        }
        proof {
            assert(key@ =~= bytes@.subrange(32 * i, 32 * i + 32));
            lemma_array_of(key);
            assert(s[i as int] == PublicKey(key));
            crate::order::lemma_take_set(s, i as int);
        }
        set_insert(&mut out, PublicKey(key));
    }
    proof {
        lemma_take_all(s);
    }
    out
}

impl ClientState {
    /// The bytes of a confirmation sidecar once `keys` are in it: a union
    /// with what it held, never a replacement. `None` where there is nothing
    /// to add.
    pub fn add_acks(&self, held: &[u8], keys: &Vec<PublicKey>) -> (r: Option<Vec<u8>>)
        ensures
            match r {
                Some(bytes) => keys.len() > 0 && bytes@ == key_concat(
                    crate::order::ascending_list::<PublicKey>(
                        keys_in(held@).to_set().union(keys.deep_view().to_set()),
                    ),
                ),
                None => keys.len() == 0,
            },
    {
        if keys.len() == 0 {
            return None;
        }
        let mut all: Vec<PublicKey> = read_keys(held);
        let ghost base = keys_in(held@).to_set();
        let ghost s = keys.deep_view();
        assert(all.deep_view().to_set() =~= base.union(s.take(0).to_set()));
        for i in 0..keys.len()
            invariant
                s == keys.deep_view(),
                ascending::<PublicKey>(all.deep_view()),
                all.deep_view().to_set() == base.union(s.take(i as int).to_set()),
        {
            set_insert(&mut all, keys[i]);
            proof {
                crate::order::lemma_take_set(s, i as int);
                assert(all.deep_view().to_set() =~= base.union(s.take(i + 1).to_set()));
            }
        }
        proof {
            lemma_take_all(s);
            crate::order::lemma_list_is::<PublicKey>(all.deep_view(), base.union(s.to_set()));
        }
        Some(key_bytes_of(&all))
    }
}

pub proof fn lemma_key_concat_len(keys: Seq<PublicKey>)
    ensures
        key_concat(keys).len() == 32 * keys.len(),
    decreases keys.len(),
{
    if keys.len() > 0 {
        lemma_key_concat_len(keys.drop_last());
    }
}

proof fn lemma_key_concat_at(keys: Seq<PublicKey>, i: int)
    requires
        0 <= i < keys.len(),
    ensures
        key_concat(keys).len() == 32 * keys.len(),
        key_concat(keys).subrange(32 * i, 32 * i + 32) == keys[i].0@,
    decreases keys.len(),
{
    let d = keys.drop_last();
    lemma_key_concat_len(keys);
    lemma_key_concat_len(d);
    if i < d.len() {
        lemma_key_concat_at(d, i);
        assert(key_concat(keys).subrange(32 * i, 32 * i + 32) =~= key_concat(d).subrange(
            32 * i,
            32 * i + 32,
        ));
    } else {
        assert(key_concat(keys).subrange(32 * i, 32 * i + 32) =~= keys[i].0@);
    }
}

/// Keys written one after the other read back as they were written.
pub proof fn law_acks_round_trip(keys: Seq<PublicKey>)
    ensures
        keys_in(key_concat(keys)) == keys,
{
    lemma_key_concat_len(keys);
    let s = keys_in(key_concat(keys));
    assert(s.len() == keys.len());
    assert forall|i: int| 0 <= i < keys.len() implies s[i] == keys[i] by {
        lemma_key_concat_at(keys, i);
        lemma_array_of(keys[i].0);
    }
    assert(s =~= keys);
}

/// A later pass never erases a confirmation an earlier one earned.
pub proof fn law_acks_only_grow(held: Seq<u8>, keys: Seq<PublicKey>, key: PublicKey)
    requires
        keys_in(held).contains(key) || keys.contains(key),
    ensures
        keys_in(
            key_concat(
                crate::order::ascending_list::<PublicKey>(
                    keys_in(held).to_set().union(keys.to_set()),
                ),
            ),
        ).contains(key),
{
    let set = keys_in(held).to_set().union(keys.to_set());
    vstd::seq_lib::seq_to_set_is_finite(keys_in(held));
    vstd::seq_lib::seq_to_set_is_finite(keys);
    crate::order::lemma_list_exists::<PublicKey>(set);
    let l = crate::order::ascending_list::<PublicKey>(set);
    law_acks_round_trip(l);
    assert(set.contains(key));
    assert(l.to_set().contains(key));
}

// ---- attestation lists ----

/// A length in four bytes, the low one first.
pub open spec fn le32(n: nat) -> Seq<u8> {
    seq![
        (n % 256) as u8,
        (n / 256 % 256) as u8,
        (n / 65536 % 256) as u8,
        (n / 16777216 % 256) as u8,
    ]
}

/// The number four such bytes denote.
pub open spec fn le_value(b: Seq<u8>) -> nat {
    (b[0] + 256 * b[1] + 65536 * b[2] + 16777216 * b[3]) as nat
}

/// Each blob behind its length.
pub open spec fn framed(list: Seq<Seq<u8>>) -> Seq<u8>
    decreases list.len(),
{
    if list.len() == 0 {
        Seq::empty()
    } else {
        le32(list[0].len()) + list[0] + framed(list.skip(1))
    }
}

/// The blobs of a framed run of bytes, up to a truncated tail.
pub open spec fn unframed(bytes: Seq<u8>) -> Seq<Seq<u8>>
    decreases bytes.len(),
{
    if bytes.len() < 4 {
        Seq::empty()
    } else {
        let n = le_value(bytes) as int;
        let rest = bytes.skip(4);
        if rest.len() < n {
            Seq::empty()
        } else {
            seq![rest.take(n)] + unframed(rest.skip(n))
        }
    }
}

pub proof fn lemma_le32(n: nat)
    requires
        n <= u32::MAX,
    ensures
        le32(n).len() == 4,
        le_value(le32(n)) == n,
{
    let a = n % 256;
    let b = n / 256 % 256;
    let c = n / 65536 % 256;
    let d = n / 16777216 % 256;
    assert(n == a + 256 * b + 65536 * c + 16777216 * d);
}

/// Frames a list of encoded attestations.
pub fn encode_attestations(list: &Vec<Vec<u8>>) -> (r: Vec<u8>)
    requires
        forall|i: int| 0 <= i < list.len() ==> (#[trigger] list[i]).len() <= u32::MAX,
    ensures
        r@ == framed(list.deep_view()),
{
    let ghost s = list.deep_view();
    let mut out: Vec<u8> = Vec::new();
    let mut i: usize = 0;
    assert(out@ + framed(s.skip(0)) =~= framed(s)) by {
        assert(s.skip(0) =~= s);
    }
    while i < list.len()
        invariant
            i <= list.len(),
            s == list.deep_view(),
            forall|k: int| 0 <= k < list.len() ==> (#[trigger] list[k]).len() <= u32::MAX,
            out@ + framed(s.skip(i as int)) == framed(s),
        decreases list.len() - i,
    {
        let ghost base = out@;
        let n: u32 = list[i].len() as u32;
        assert(list[i as int].len() <= u32::MAX);
        assert(s[i as int] =~= list[i as int]@);
        out.push((n % 256) as u8);
        out.push((n / 256 % 256) as u8);
        out.push((n / 65536 % 256) as u8);
        out.push((n / 16777216 % 256) as u8);
        assert(out@ =~= base + le32(n as nat));
        let ghost head = out@;
        let mut j: usize = 0;
        while j < list[i].len()
            invariant
                i < list.len(),
                j <= list[i as int].len(),
                out@ == head + list[i as int]@.take(j as int),
            decreases list[i as int].len() - j,
        {
            proof {
                lemma_take_step(list[i as int]@, j as int);
            }
            out.push(list[i][j]);
            assert(out@ =~= head + list[i as int]@.take(j + 1));
            j += 1;
        }
        proof {
            lemma_take_all(list[i as int]@);
            let rest = s.skip(i as int);
            assert(rest[0] == s[i as int]);
            assert(rest.skip(1) =~= s.skip(i + 1));
            assert(out@ =~= base + le32(rest[0].len()) + rest[0]);
            assert(out@ + framed(s.skip(i + 1)) =~= base + framed(rest));
        }
        i += 1;
    }
    assert(out@ + framed(s.skip(i as int)) =~= out@);
    out
}

/// The blobs of a framed list; a truncated tail is dropped.
pub fn decode_attestations(bytes: &[u8]) -> (r: Vec<Vec<u8>>)
    ensures
        r.deep_view() == unframed(bytes@),
{
    let mut out: Vec<Vec<u8>> = Vec::new();
    let mut at: usize = 0;
    assert(out.deep_view() + unframed(bytes@.skip(0)) =~= unframed(bytes@)) by {
        assert(bytes@.skip(0) =~= bytes@);
    }
    while bytes.len() - at >= 4
        invariant
            at <= bytes@.len(),
            out.deep_view() + unframed(bytes@.skip(at as int)) == unframed(bytes@),
        decreases bytes@.len() - at,
    {
        let ghost rest = bytes@.skip(at as int);
        let n: u64 = bytes[at] as u64 + 256 * (bytes[at + 1] as u64) + 65536 * (bytes[at + 2] as u64)
            + 16777216 * (bytes[at + 3] as u64);
        assert(n == le_value(rest));
        at += 4;
        assert(rest.skip(4) =~= bytes@.skip(at as int));
        if ((bytes.len() - at) as u64) < n {
            assert(unframed(rest) =~= Seq::<Seq<u8>>::empty());
            assert(out.deep_view() =~= unframed(bytes@));
            return out;
        }
        let end: usize = at + n as usize;
        let mut blob: Vec<u8> = Vec::new();
        let mut j: usize = at;
        while j < end
            invariant
                at <= j <= end <= bytes@.len(),
                blob@ == bytes@.subrange(at as int, j as int),
            decreases end - j,
        {
            blob.push(bytes[j]);
            assert(blob@ =~= bytes@.subrange(at as int, j + 1));
            j += 1;
        }
        let ghost before = out.deep_view();
        let ghost piece = blob@;
        assert(blob.deep_view() =~= piece);
        out.push(blob);
        proof {
            assert(out.deep_view() =~= before.push(piece));
            assert(rest.skip(4).take(n as int) =~= piece);
            assert(rest.skip(4).skip(n as int) =~= bytes@.skip(end as int));
            assert(out.deep_view() + unframed(bytes@.skip(end as int)) =~= before + unframed(rest));
        }
        at = end;
    }
    assert(out.deep_view() + unframed(bytes@.skip(at as int)) =~= out.deep_view());
    out
}

/// A framed list reads back as it was written, and so does it in front of a
/// tail too short to hold a length.
pub proof fn law_framing_round_trip(list: Seq<Seq<u8>>, tail: Seq<u8>)
    requires
        forall|i: int| 0 <= i < list.len() ==> (#[trigger] list[i]).len() <= u32::MAX,
        tail.len() < 4,
    ensures
        unframed(framed(list) + tail) == list,
    decreases list.len(),
{
    let bytes = framed(list) + tail;
    if list.len() == 0 {
        assert(unframed(bytes) =~= list);
    } else {
        let n = list[0].len();
        assert(list[0].len() <= u32::MAX);
        lemma_le32(n);
        let more = list.skip(1);
        assert forall|i: int| 0 <= i < more.len() implies (#[trigger] more[i]).len() <= u32::MAX by {
            assert(more[i] == list[i + 1]);
        }
        law_framing_round_trip(more, tail);
        assert(bytes =~= le32(n) + (list[0] + (framed(more) + tail)));
        assert(bytes.skip(4) =~= list[0] + (framed(more) + tail));
        assert(le_value(bytes) == le_value(le32(n)));
        assert(bytes.skip(4).take(n as int) =~= list[0]);
        assert(bytes.skip(4).skip(n as int) =~= framed(more) + tail);
        assert(seq![list[0]] + more =~= list);
    }
}

// ---- learned answers ----

/// The files of a learned answer. The record itself is the caller's to encode.
#[derive(Debug)]
pub struct LearnedSave {
    pub record_path: String,
    pub endorsements_path: String,
    /// What the endorsements file holds; `None` removes it, so that a
    /// withdrawn vouch goes with the next answer.
    pub endorsements: Option<Vec<u8>>,
    pub time: TextFile,
}

pub open spec fn learned_stem(root: Seq<char>, subject: PublicKey, responder: PublicKey) -> Seq<char> {
    under(under(under(root, "learned"@), hex_text(subject.0@)), hex_text(responder.0@))
}

impl ClientState {
    /// What storing an answer writes: the latest per responder replaces the
    /// whole entry, endorsements included.
    pub fn save_learned(
        &self,
        subject: &PublicKey,
        responder: &PublicKey,
        endorsements: &Vec<Vec<u8>>,
        received_ms: u64,
    ) -> (r: LearnedSave)
        requires
            forall|i: int|
                0 <= i < endorsements.len() ==> (#[trigger] endorsements[i]).len() <= u32::MAX,
        ensures
            r.record_path@ == with_extension(
                learned_stem(self.root@, *subject, *responder),
                "record"@,
            ),
            r.endorsements_path@ == with_extension(
                learned_stem(self.root@, *subject, *responder),
                "endorsements"@,
            ),
            match r.endorsements {
                Some(bytes) => endorsements.len() > 0 && bytes@ == framed(endorsements.deep_view()),
                None => endorsements.len() == 0,
            },
            r.time.deep_view() == (TextFileView {
                path: with_extension(learned_stem(self.root@, *subject, *responder), "time"@),
                text: decimal(received_ms as nat),
            }),
    {
        let written: Option<Vec<u8>> = if endorsements.len() == 0 {
            None
        } else {
            Some(encode_attestations(endorsements))
        };
        LearnedSave {
            record_path: self.learned_path(subject, responder, "record"),
            endorsements_path: self.learned_path(subject, responder, "endorsements"),
            endorsements: written,
            time: TextFile {
                path: self.learned_path(subject, responder, "time"),
                text: decimal_text(received_ms),
            },
        }
    }
}

// ---- laws ----

proof fn lemma_under(dir: Seq<char>, a: Seq<char>, b: Seq<char>)
    requires
        under(dir, a) == under(dir, b),
    ensures
        a == b,
{
    reveal_strlit("/");
    let n = dir.len() as int + 1;
    assert(under(dir, a).skip(n) =~= a);
    assert(under(dir, b).skip(n) =~= b);
}

/// Each conversation, each contact and each person has a place of its own, and
/// so has each file beside another in one.
pub proof fn law_places_apart(
    root: Seq<char>,
    a: MessageId,
    b: MessageId,
    k: PublicKey,
    l: PublicKey,
    dir: Seq<char>,
    x: Seq<char>,
    y: Seq<char>,
)
    ensures
        conversation_path(root, a) == conversation_path(root, b) ==> a == b,
        contact_path(root, k) == contact_path(root, l) ==> k == l,
        under(dir, x) == under(dir, y) ==> x == y,
        with_extension(dir, x) == with_extension(dir, y) ==> x == y,
{
    if conversation_path(root, a) == conversation_path(root, b) {
        lemma_under(under(root, "conversations"@), hex_text(a.0@), hex_text(b.0@));
        crate::hex::law_hex32_round_trip(a.0);
        crate::hex::law_hex32_round_trip(b.0);
    }
    if contact_path(root, k) == contact_path(root, l) {
        lemma_under(under(root, "contacts"@), hex_text(k.0@), hex_text(l.0@));
        crate::hex::law_hex32_round_trip(k.0);
        crate::hex::law_hex32_round_trip(l.0);
    }
    if under(dir, x) == under(dir, y) {
        lemma_under(dir, x, y);
    }
    if with_extension(dir, x) == with_extension(dir, y) {
        reveal_strlit(".");
        let n = dir.len() as int + 1;
        assert(with_extension(dir, x).skip(n) =~= x);
        assert(with_extension(dir, y).skip(n) =~= y);
    }
}

/// What each responder answers about each subject has a place of its own.
pub proof fn law_answers_apart(
    root: Seq<char>,
    subject: PublicKey,
    responder: PublicKey,
    other: PublicKey,
    another: PublicKey,
)
    requires
        learned_stem(root, subject, responder) == learned_stem(root, other, another),
    ensures
        subject == other,
        responder == another,
{
    reveal_strlit("/");
    let base = under(root, "learned"@);
    let a = hex_text(subject.0@);
    let b = hex_text(other.0@);
    let s = learned_stem(root, subject, responder);
    let t = learned_stem(root, other, another);
    let n = base.len() as int + 1;
    assert(s.subrange(n, n + 64) =~= a);
    assert(t.subrange(n, n + 64) =~= b);
    crate::hex::law_hex32_round_trip(subject.0);
    crate::hex::law_hex32_round_trip(other.0);
    lemma_under(under(base, a), hex_text(responder.0@), hex_text(another.0@));
    crate::hex::law_hex32_round_trip(responder.0);
    crate::hex::law_hex32_round_trip(another.0);
}

/// A value is read without the white space around it; a blank file holds none.
pub proof fn law_values_read(s: Seq<char>)
    ensures
        match value_text(Some(s)) {
            Some(v) => v == trimmed(s) && v.len() > 0 && is_trim(v),
            None => trimmed(s).len() == 0,
        },
        value_text(None) is None,
        is_trim(s) && s.len() > 0 ==> value_text(Some(s)) == Some(s),
        counter(None) == 0,
{
    crate::text::law_trim_idempotent(s);
    if is_trim(s) {
        crate::text::lemma_trim_fixed(s);
    }
}

} // verus!
