//! The profile: this device's public identity. Display name, home relays, the
//! published self-record, and where a picture of somebody comes from.
use vstd::prelude::*;
use vstd::string::StringExecFns;

use crate::client::{learned_about, listing, Client, ClientView, LearnedRecord, LearnedView};
use crate::error::{around, Error, ErrorView};
use crate::ids::{BlobHash, PublicKey};
use crate::order::{copies, holds, Duplicate};
use crate::record::{entry_of_spec, Claim, ClaimView, ContactRecord, RecordView, RelayEntry, RelayView, SignedAttestation, SignedView};
use crate::relays::{mailbox_list, mailboxes};
use crate::seqs::{lemma_filter_map_step, lemma_filter_step, lemma_map_step, lemma_take_all};
use crate::state::{entry_spec, read_relays, relays_of_text, relays_text, write_relays};
use crate::text::{decimal, decimal_text, same_text, trim, trimmed};
use crate::trust::{append_copies, issued, negatives};

verus! {

/// What this device publishes of itself.
#[derive(Debug)]
pub struct Profile {
    pub name: Option<String>,
    /// The name claim's supersession counter.
    pub revision: u64,
    pub relays: Vec<RelayEntry>,
    /// The device label and its own counter.
    pub label: Option<(String, u64)>,
    /// The picture: ciphertext hash, content key, and its own counter.
    pub avatar: Option<(BlobHash, [u8; 32], u64)>,
}

pub struct ProfileView {
    pub name: Option<Seq<char>>,
    pub revision: u64,
    pub relays: Seq<RelayView>,
    pub label: Option<(Seq<char>, u64)>,
    pub avatar: Option<(BlobHash, [u8; 32], u64)>,
}

impl DeepView for Profile {
    type V = ProfileView;

    open spec fn deep_view(&self) -> ProfileView {
        ProfileView {
            name: self.name.deep_view(),
            revision: self.revision,
            relays: self.relays.deep_view(),
            label: self.label.deep_view(),
            avatar: self.avatar,
        }
    }
}

// ---- setting the profile ----

pub open spec fn from_spec() -> spec_fn(Seq<char>) -> RelayView {
    |s: Seq<char>| entry_of_spec(s)
}

/// A save renames: there was a name, and it was another.
pub open spec fn renames(p: ProfileView, name: Seq<char>) -> bool {
    p.name is Some && p.name->0 != trimmed(name)
}

/// Setting display name and home relays. Only a rename bumps the revision: a
/// receiver holding both claims then has a winner. `refused` is what a relay
/// spec is refused for.
pub open spec fn profile_set(
    p: ProfileView,
    name: Seq<char>,
    specs: Seq<Seq<char>>,
    refused: Option<ErrorView>,
) -> Result<ProfileView, ErrorView> {
    if trimmed(name).len() == 0 {
        Err(ErrorView::ProfileIncomplete("name must not be empty"@))
    } else {
        match refused {
            Some(e) => Err(e),
            None => Ok(
                ProfileView {
                    name: Some(trimmed(name)),
                    revision: if renames(p, name) {
                        (p.revision + 1) as u64
                    } else {
                        p.revision
                    },
                    relays: relays_of_text(relays_text(specs.map_values(from_spec()))),
                    ..p
                },
            ),
        }
    }
}

/// Setting the device label: its own counter, which a rename never touches.
pub open spec fn label_set(p: ProfileView, label: Seq<char>) -> Result<ProfileView, ErrorView> {
    let text = trimmed(label);
    if text.len() == 0 {
        Err(ErrorView::InvalidInput("device label must not be empty"@))
    } else {
        let revision = match p.label {
            Some((previous, revision)) => if previous == text {
                revision
            } else {
                (revision + 1) as u64
            },
            None => 0,
        };
        Ok(ProfileView { label: Some((text, revision)), ..p })
    }
}

/// The counter that setting a label bumps; `None` where it bumps none, for the
/// label is blank, unchanged, or the first.
pub open spec fn superseded_label(p: ProfileView, label: Seq<char>) -> Option<u64> {
    match p.label {
        Some((previous, revision)) => if trimmed(label).len() > 0 && previous != trimmed(label) {
            Some(revision)
        } else {
            None
        },
        None => None,
    }
}

/// The picture's counter can still be bumped.
pub open spec fn supersedable_avatar(p: ProfileView) -> bool {
    match p.avatar {
        Some((_, _, revision)) => revision < u64::MAX,
        None => true,
    }
}

/// The relay entries some specs name.
pub fn entries_of_specs(specs: &Vec<String>) -> (r: Vec<RelayEntry>)
    ensures
        r.deep_view() == specs.deep_view().map_values(from_spec()),
{
    let ghost s = specs.deep_view();
    let ghost f = from_spec();
    let mut out: Vec<RelayEntry> = Vec::new();
    assert(out.deep_view() =~= s.take(0).map_values(f));
    for i in 0..specs.len()
        invariant
            s == specs.deep_view(),
            f == from_spec(),
            out.deep_view() == s.take(i as int).map_values(f),
    {
        proof {
            lemma_map_step(s, f, i as int);
        }
        let entry: RelayEntry = RelayEntry::from_spec(specs[i].as_str());
        let ghost before = out.deep_view();
        let ghost v = entry.deep_view();
        out.push(entry);
        assert(out.deep_view() =~= before.push(v));
    }
    proof {
        lemma_take_all(s);
    }
    out
}

impl Profile {
    /// Sets this device's display name and home relays: what its record
    /// publishes and what it drains by default.
    pub fn set_profile(&mut self, name: &str, specs: &Vec<String>, refused: Option<Error>) -> (r: Result<
        (),
        Error,
    >)
        requires
            renames(old(self).deep_view(), name@) ==> old(self).revision < u64::MAX,
        ensures
            match profile_set(
                old(self).deep_view(),
                name@,
                specs.deep_view(),
                refused.deep_view(),
            ) {
                Ok(p) => r is Ok && final(self).deep_view() == p,
                Err(e) => r is Err && r->Err_0.deep_view() == e && final(self).deep_view() == old(
                    self,
                ).deep_view(),
            },
    {
        let kept: String = trim(name);
        if kept.as_str().is_empty() {
            return Err(Error::ProfileIncomplete("name must not be empty".to_owned()));
        }
        match refused {
            Some(e) => {
                return Err(e);
            },
            None => {},
        }
        let bump: bool = match &self.name {
            Some(previous) => !same_text(previous, kept.as_str()),
            None => false,
        };
        if bump {
            self.revision = self.revision + 1;
        }
        let entries: Vec<RelayEntry> = entries_of_specs(specs);
        let text: String = write_relays(&entries);
        self.relays = read_relays(text.as_str());
        self.name = Some(kept);
        Ok(())
    }

    /// Sets this device's label: the qualifier beside the name.
    pub fn set_device_label(&mut self, label: &str) -> (r: Result<(), Error>)
        requires
            superseded_label(old(self).deep_view(), label@) != Some(u64::MAX),
        ensures
            match label_set(old(self).deep_view(), label@) {
                Ok(p) => r is Ok && final(self).deep_view() == p,
                Err(e) => r is Err && r->Err_0.deep_view() == e && final(self).deep_view() == old(
                    self,
                ).deep_view(),
            },
    {
        let kept: String = trim(label);
        if kept.as_str().is_empty() {
            return Err(Error::InvalidInput("device label must not be empty".to_owned()));
        }
        let revision: u64 = match &self.label {
            Some((previous, revision)) => {
                if same_text(previous, kept.as_str()) {
                    *revision
                } else {
                    *revision + 1
                }
            },
            None => 0,
        };
        self.label = Some((kept, revision));
        Ok(())
    }

    /// The home relays' mailbox dial strings.
    pub fn home_relays(&self) -> (r: Vec<String>)
        ensures
            r.deep_view() == mailboxes(self.deep_view().relays),
    {
        mailbox_list(&self.relays)
    }

    /// The home relays as full specs, which `set_profile` takes back.
    pub fn home_relay_specs(&self) -> (r: Vec<String>)
        ensures
            r.deep_view() == self.deep_view().relays.map_values(entry_spec()),
    {
        let ghost s = self.relays.deep_view();
        let ghost f = entry_spec();
        let mut out: Vec<String> = Vec::new();
        assert(out.deep_view() =~= s.take(0).map_values(f));
        for i in 0..self.relays.len()
            invariant
                s == self.relays.deep_view(),
                f == entry_spec(),
                out.deep_view() == s.take(i as int).map_values(f),
        {
            proof {
                lemma_map_step(s, f, i as int);
            }
            let spec: String = self.relays[i].to_spec();
            let ghost before = out.deep_view();
            let ghost v = spec@;
            out.push(spec);
            assert(out.deep_view() =~= before.push(v));
        }
        proof {
            lemma_take_all(s);
        }
        out
    }
}

/// Texts of one list that another lacks.
pub open spec fn lacking(other: Seq<Seq<char>>) -> spec_fn(Seq<char>) -> bool {
    |s: Seq<char>| !other.contains(s)
}

/// The texts of a list that another lacks.
pub open spec fn lacked(list: Seq<Seq<char>>, other: Seq<Seq<char>>) -> Seq<Seq<char>> {
    list.filter(lacking(other))
}

/// The texts of a list that another lacks, in order: what a save of the home
/// relays adds to a running endpoint, and the other way round what it drops.
pub fn not_in(list: &Vec<String>, other: &Vec<String>) -> (r: Vec<String>)
    ensures
        r.deep_view() == lacked(list.deep_view(), other.deep_view()),
{
    let ghost s = list.deep_view();
    let ghost p = lacking(other.deep_view());
    let mut out: Vec<String> = Vec::new();
    proof {
        reveal(Seq::filter);
        assert(out.deep_view() =~= s.take(0).filter(p));
    }
    for i in 0..list.len()
        invariant
            s == list.deep_view(),
            p == lacking(other.deep_view()),
            out.deep_view() == s.take(i as int).filter(p),
    {
        proof {
            lemma_filter_step(s, p, i as int);
        }
        if !holds(other, &list[i]) {
            let ghost before = out.deep_view();
            out.push(list[i].clone());
            assert(out.deep_view() =~= before.push(s[i as int]));
        }
    }
    proof {
        lemma_take_all(s);
    }
    out
}

// ---- the self-record ----

pub open spec fn vouch_value() -> spec_fn((PublicKey, SignedView)) -> SignedView {
    |e: (PublicKey, SignedView)| e.1
}

/// What this device claims of itself: its name, its label, its picture.
pub open spec fn self_claims(c: ClientView, p: ProfileView) -> Seq<SignedView> {
    let name = match p.name {
        Some(n) => seq![issued(c, c.device, ClaimView::Name(n), p.revision)],
        None => Seq::empty(),
    };
    let label = match p.label {
        Some((l, revision)) => seq![issued(c, c.device, ClaimView::DeviceLabel(l), revision)],
        None => Seq::empty(),
    };
    let avatar = match p.avatar {
        Some((hash, key, revision)) => seq![
            issued(c, c.device, ClaimView::Avatar(hash, key), revision),
        ],
        None => Seq::empty(),
    };
    name + label + avatar
}

/// The self-record: key, self-attested claims, the links to siblings, the
/// disavowals issued, and the home relays. None until the profile has both a
/// name and a relay.
pub open spec fn own_record(c: ClientView, p: ProfileView) -> Option<RecordView> {
    if p.name is None || p.relays.len() == 0 {
        None
    } else {
        Some(
            RecordView {
                keys: seq![c.device],
                attestations: self_claims(c, p) + c.device_vouches.map_values(vouch_value())
                    + negatives(c),
                relays: p.relays,
                name_claim: Some((p.name->0, p.revision)),
                avatar_claim: p.avatar,
            },
        )
    }
}

/// The record this device publishes, or what its profile lacks.
pub open spec fn published(c: ClientView, p: ProfileView) -> Result<RecordView, ErrorView> {
    if p.name is None {
        Err(ErrorView::ProfileIncomplete("set a profile name first"@))
    } else {
        match own_record(c, p) {
            Some(r) => Ok(r),
            None => Err(ErrorView::ProfileIncomplete("set a home relay first"@)),
        }
    }
}

impl Client {
    fn own_claims(&self, profile: &Profile) -> (r: Vec<SignedAttestation>)
        ensures
            r.deep_view() == self_claims(self.deep_view(), profile.deep_view()),
    {
        let ghost c = self.deep_view();
        let ghost p = profile.deep_view();
        let me: PublicKey = self.device;
        let mut out: Vec<SignedAttestation> = Vec::new();
        assert(out.deep_view() =~= Seq::<SignedView>::empty());
        match &profile.name {
            Some(name) => {
                let claim: SignedAttestation = self.issue(
                    me,
                    Claim::Name(name.clone()),
                    profile.revision,
                );
                let ghost v = claim.deep_view();
                out.push(claim);
                assert(out.deep_view() =~= seq![v]);
            },
            None => {},
        }
        let ghost a = out.deep_view();
        match &profile.label {
            Some((label, revision)) => {
                let claim: SignedAttestation = self.issue(
                    me,
                    Claim::DeviceLabel(label.clone()),
                    *revision,
                );
                let ghost v = claim.deep_view();
                out.push(claim);
                assert(out.deep_view() =~= a + seq![v]);
            },
            None => {
                assert(a + Seq::<SignedView>::empty() =~= a);
            },
        }
        let ghost b = out.deep_view();
        match profile.avatar {
            Some((hash, key, revision)) => {
                let claim: SignedAttestation = self.issue(
                    me,
                    Claim::Avatar { hash, key },
                    revision,
                );
                let ghost v = claim.deep_view();
                out.push(claim);
                assert(out.deep_view() =~= b + seq![v]);
            },
            None => {
                assert(b + Seq::<SignedView>::empty() =~= b);
            },
        }
        out
    }

    /// The self-record, shared by publishing and serving so that the two
    /// cannot drift.
    pub fn build_own_record(&self, profile: &Profile) -> (r: Option<ContactRecord>)
        ensures
            r.deep_view() == own_record(self.deep_view(), profile.deep_view()),
    {
        assert(profile.relays.deep_view().len() == profile.relays.len());
        let name: String = match &profile.name {
            Some(n) => n.clone(),
            None => {
                return None;
            },
        };
        if profile.relays.len() == 0 {
            return None;
        }
        let mut attestations: Vec<SignedAttestation> = self.own_claims(profile);
        let ghost base = attestations.deep_view();
        let ghost s = self.device_vouches.deep_view();
        let ghost f = vouch_value();
        assert(attestations.deep_view() =~= base + s.take(0).map_values(f));
        for i in 0..self.device_vouches.len()
            invariant
                s == self.device_vouches.deep_view(),
                f == vouch_value(),
                attestations.deep_view() == base + s.take(i as int).map_values(f),
        {
            proof {
                lemma_map_step(s, f, i as int);
            }
            let ghost before = attestations.deep_view();
            attestations.push(self.device_vouches[i].1.duplicate());
            assert(attestations.deep_view() =~= before.push(s[i as int].1));
            assert(attestations.deep_view() =~= base + s.take(i + 1).map_values(f));
        }
        proof {
            lemma_take_all(s);
        }
        let gone: Vec<SignedAttestation> = self.issued_negatives();
        append_copies(&mut attestations, &gone);
        let mut keys: Vec<PublicKey> = Vec::new();
        keys.push(self.device);
        assert(keys@ =~= seq![self.device]);
        Some(
            ContactRecord {
                keys,
                attestations,
                relays: copies(&profile.relays),
                name_claim: Some((name, profile.revision)),
                avatar_claim: profile.avatar,
            },
        )
    }

    /// This device's record, for publishing.
    pub fn my_record(&self, profile: &Profile) -> (r: Result<ContactRecord, Error>)
        ensures
            match published(self.deep_view(), profile.deep_view()) {
                Ok(v) => r is Ok && r->Ok_0.deep_view() == v,
                Err(e) => r is Err && r->Err_0.deep_view() == e,
            },
    {
        if profile.name.is_none() {
            return Err(Error::ProfileIncomplete("set a profile name first".to_owned()));
        }
        match self.build_own_record(profile) {
            Some(record) => Ok(record),
            None => Err(Error::ProfileIncomplete("set a home relay first".to_owned())),
        }
    }
}

/// Whether other devices can reach this one by key.
#[derive(Debug, Clone, Copy, PartialEq, Eq, Structural)]
pub enum Reachable {
    /// A home relay connection is live.
    ByKey,
    /// The profile names no relay URL: there is nothing to wait for.
    NoHomeRelay,
    /// Still not connected when the deadline passed.
    NotYet,
}

pub open spec fn has_url() -> spec_fn(RelayView) -> bool {
    |r: RelayView| r.relay_url is Some
}

/// What waiting for a home relay comes to.
pub open spec fn reachable(p: ProfileView, online: bool) -> Reachable {
    if !crate::seqs::some(p.relays, has_url()) {
        Reachable::NoHomeRelay
    } else if online {
        Reachable::ByKey
    } else {
        Reachable::NotYet
    }
}

impl Profile {
    /// Whether homing can be waited for at all: some home relay names a URL.
    pub fn can_home(&self) -> (r: bool)
        ensures
            r == crate::seqs::some(self.deep_view().relays, has_url()),
    {
        let ghost s = self.relays.deep_view();
        for i in 0..self.relays.len()
            invariant
                s == self.relays.deep_view(),
                forall|k: int| 0 <= k < i ==> !has_url()(#[trigger] s[k]),
        {
            assert(s[i as int] == self.relays@[i as int].deep_view());
            if self.relays[i].relay_url.is_some() {
                assert(has_url()(s[i as int]));
                return true;
            }
        }
        false
    }

    /// What waiting for a home relay came to: `online` is whether one connected
    /// before the deadline.
    pub fn reachability(&self, online: bool) -> (r: Reachable)
        ensures
            r == reachable(self.deep_view(), online),
    {
        if !self.can_home() {
            Reachable::NoHomeRelay
        } else if online {
            Reachable::ByKey
        } else {
            Reachable::NotYet
        }
    }
}

// ---- pictures ----

/// The largest picture taken: 512 KiB.
pub const MAX_AVATAR_BYTES: usize = 524_288;

/// What a picture is refused for, by its size.
pub open spec fn avatar_refused(len: nat) -> Option<ErrorView> {
    if len == 0 {
        Some(ErrorView::InvalidInput("empty avatar image"@))
    } else if len > MAX_AVATAR_BYTES {
        Some(
            ErrorView::InvalidInput(
                "avatar too large ("@ + decimal(len) + " bytes; max 524288)"@,
            ),
        )
    } else {
        None
    }
}

/// Whether a picture can be this device's: not empty, and small enough.
pub fn check_avatar(len: usize) -> (r: Result<(), Error>)
    ensures
        match avatar_refused(len as nat) {
            Some(e) => r is Err && r->Err_0.deep_view() == e,
            None => r is Ok,
        },
{
    if len == 0 {
        return Err(Error::InvalidInput("empty avatar image".to_owned()));
    }
    if len > MAX_AVATAR_BYTES {
        let shown: String = decimal_text(len as u64);
        return Err(
            Error::InvalidInput(
                around("avatar too large (", shown.as_str(), " bytes; max 524288)"),
            ),
        );
    }
    Ok(())
}

/// Whether a picture can be a local override.
pub fn check_local_avatar(len: usize) -> (r: Result<(), Error>)
    ensures
        r is Ok <==> len <= MAX_AVATAR_BYTES,
        r is Err ==> r->Err_0.deep_view() == ErrorView::InvalidInput(
            "image too large (max 512 KiB)"@,
        ),
{
    if len > MAX_AVATAR_BYTES {
        return Err(Error::InvalidInput("image too large (max 512 KiB)".to_owned()));
    }
    Ok(())
}

/// The revision a new picture gets.
pub open spec fn picture_revision(p: ProfileView) -> u64 {
    match p.avatar {
        Some((_, _, held)) => (held + 1) as u64,
        None => 0,
    }
}

/// The profile with a new picture.
pub open spec fn picture_set(p: ProfileView, hash: BlobHash, key: [u8; 32]) -> ProfileView {
    ProfileView { avatar: Some((hash, key, picture_revision(p))), ..p }
}

impl Profile {
    /// A new picture supersedes the last: the claim's next revision.
    pub fn set_avatar(&mut self, hash: BlobHash, key: [u8; 32]) -> (revision: u64)
        requires
            supersedable_avatar(old(self).deep_view()),
        ensures
            revision == picture_revision(old(self).deep_view()),
            final(self).deep_view() == picture_set(old(self).deep_view(), hash, key),
    {
        let revision: u64 = match self.avatar {
            Some((_, _, held)) => held + 1,
            None => 0,
        };
        self.avatar = Some((hash, key, revision));
        revision
    }
}

/// A picture somebody claims, and the relays of the record that claims it.
#[derive(Debug)]
pub struct PictureClaim {
    pub hash: BlobHash,
    pub key: [u8; 32],
    pub revision: u64,
    pub relays: Vec<String>,
}

pub struct PictureView {
    pub hash: BlobHash,
    pub key: [u8; 32],
    pub revision: u64,
    pub relays: Seq<Seq<char>>,
}

impl DeepView for PictureClaim {
    type V = PictureView;

    open spec fn deep_view(&self) -> PictureView {
        PictureView {
            hash: self.hash,
            key: self.key,
            revision: self.revision,
            relays: self.relays.deep_view(),
        }
    }
}

pub open spec fn claim_in() -> spec_fn(RecordView) -> Option<PictureView> {
    |r: RecordView|
        match r.avatar_claim {
            Some((hash, key, revision)) => Some(
                PictureView { hash, key, revision, relays: mailboxes(r.relays) },
            ),
            None => None,
        }
}

pub open spec fn record_of() -> spec_fn((Seq<char>, RecordView)) -> RecordView {
    |e: (Seq<char>, RecordView)| e.1
}

pub open spec fn learned_record() -> spec_fn(LearnedView) -> RecordView {
    |e: LearnedView| e.record
}

/// Every record held about a subject: contacts' first, then what was learned.
pub open spec fn records_about(c: ClientView, subject: PublicKey) -> Seq<RecordView> {
    c.contacts.filter(listing(subject)).map_values(record_of()) + learned_about(
        c,
        subject,
    ).map_values(learned_record())
}

/// The claim of the highest revision; of several, the first.
pub open spec fn newest(s: Seq<PictureView>) -> Option<PictureView>
    decreases s.len(),
{
    if s.len() == 0 {
        None
    } else {
        match newest(s.drop_last()) {
            Some(held) => if s.last().revision > held.revision {
                Some(s.last())
            } else {
                Some(held)
            },
            None => Some(s.last()),
        }
    }
}

/// The best-believed picture of somebody.
pub open spec fn best_picture(c: ClientView, subject: PublicKey) -> Option<PictureView> {
    newest(records_about(c, subject).filter_map(claim_in()))
}

fn newest_claim(records: &Vec<ContactRecord>) -> (r: Option<PictureClaim>)
    ensures
        r.deep_view() == newest(records.deep_view().filter_map(claim_in())),
{
    let ghost s = records.deep_view();
    let ghost f = claim_in();
    let mut best: Option<PictureClaim> = None;
    assert(s.take(0).filter_map(f) =~= Seq::<PictureView>::empty());
    for i in 0..records.len()
        invariant
            s == records.deep_view(),
            f == claim_in(),
            best.deep_view() == newest(s.take(i as int).filter_map(f)),
    {
        proof {
            lemma_filter_map_step(s, f, i as int);
            assert(s[i as int] == records@[i as int].deep_view());
        }
        match records[i].avatar_claim {
            Some((hash, key, revision)) => {
                let ghost held = s.take(i as int).filter_map(f);
                let better: bool = match &best {
                    Some(b) => revision > b.revision,
                    None => true,
                };
                let claim: PictureClaim = PictureClaim {
                    hash,
                    key,
                    revision,
                    relays: mailbox_list(&records[i].relays),
                };
                proof {
                    assert(held.push(claim.deep_view()).drop_last() =~= held);
                }
                if better {
                    best = Some(claim);
                }
            },
            None => {},
        }
    }
    proof {
        lemma_take_all(s);
    }
    best
}

/// Where somebody's picture comes from.
pub open spec fn picture_source(
    c: ClientView,
    p: ProfileView,
    subject: PublicKey,
    has_local: bool,
) -> SourceView {
    if has_local {
        SourceView::Local
    } else if subject == c.device {
        match p.avatar {
            Some((hash, key, _)) => SourceView::Own(hash, key),
            None => SourceView::Nowhere,
        }
    } else {
        match best_picture(c, subject) {
            Some(claim) => SourceView::Claimed(claim),
            None => SourceView::Nowhere,
        }
    }
}

impl Client {
    fn records_of(&self, subject: &PublicKey) -> (r: Vec<ContactRecord>)
        ensures
            r.deep_view() == records_about(self.deep_view(), *subject),
    {
        let ghost s = self.contacts.deep_view();
        let ghost p = listing(*subject);
        let ghost f = record_of();
        let mut out: Vec<ContactRecord> = Vec::new();
        proof {
            reveal(Seq::filter);
            assert(out.deep_view() =~= s.take(0).filter(p).map_values(f));
        }
        for i in 0..self.contacts.len()
            invariant
                s == self.contacts.deep_view(),
                p == listing(*subject),
                f == record_of(),
                out.deep_view() == s.take(i as int).filter(p).map_values(f),
        {
            proof {
                lemma_filter_step(s, p, i as int);
            }
            if self.contacts[i].1.lists(subject) {
                let ghost before = out.deep_view();
                let ghost held = s.take(i as int).filter(p);
                out.push(self.contacts[i].1.duplicate());
                assert(out.deep_view() =~= before.push(s[i as int].1));
                assert(held.push(s[i as int]).map_values(f) =~= held.map_values(f).push(
                    s[i as int].1,
                ));
            }
        }
        let ghost base = s.filter(p).map_values(f);
        let learned: Vec<LearnedRecord> = self.learned(subject);
        let ghost t = learned.deep_view();
        let ghost g = learned_record();
        proof {
            lemma_take_all(s);
            assert(out.deep_view() =~= base + t.take(0).map_values(g));
        }
        for i in 0..learned.len()
            invariant
                t == learned.deep_view(),
                g == learned_record(),
                out.deep_view() == base + t.take(i as int).map_values(g),
        {
            proof {
                lemma_map_step(t, g, i as int);
            }
            let ghost before = out.deep_view();
            out.push(learned[i].record.duplicate());
            assert(out.deep_view() =~= before.push(t[i as int].record));
            assert(out.deep_view() =~= base + t.take(i + 1).map_values(g));
        }
        proof {
            lemma_take_all(t);
        }
        out
    }

    /// The best-believed claim to somebody's picture, across the stored and
    /// learned records.
    pub fn avatar_claim(&self, subject: &PublicKey) -> (r: Option<PictureClaim>)
        ensures
            r.deep_view() == best_picture(self.deep_view(), *subject),
    {
        let records: Vec<ContactRecord> = self.records_of(subject);
        newest_claim(&records)
    }

    /// Where somebody's picture comes from: the user's own choice wins over
    /// any claim, and this device knows its own.
    pub fn avatar_source(&self, profile: &Profile, subject: &PublicKey, has_local: bool) -> (r: AvatarSource)
        ensures
            r.deep_view() == picture_source(
                self.deep_view(),
                profile.deep_view(),
                *subject,
                has_local,
            ),
    {
        if has_local {
            return AvatarSource::Local;
        }
        if *subject == self.device {
            return match profile.avatar {
                Some((hash, key, _)) => AvatarSource::Own { hash, key },
                None => AvatarSource::Nowhere,
            };
        }
        match self.avatar_claim(subject) {
            Some(claim) => AvatarSource::Claimed(claim),
            None => AvatarSource::Nowhere,
        }
    }
}

/// Where a picture comes from.
#[derive(Debug)]
pub enum AvatarSource {
    /// A photo the user chose, on this device only.
    Local,
    /// This device's own, from its cache.
    Own { hash: BlobHash, key: [u8; 32] },
    /// A claim: the cache, else the claiming record's relays in order.
    Claimed(PictureClaim),
    Nowhere,
}

pub enum SourceView {
    Local,
    Own(BlobHash, [u8; 32]),
    Claimed(PictureView),
    Nowhere,
}

impl DeepView for AvatarSource {
    type V = SourceView;

    open spec fn deep_view(&self) -> SourceView {
        match *self {
            AvatarSource::Local => SourceView::Local,
            AvatarSource::Own { hash, key } => SourceView::Own(hash, key),
            AvatarSource::Claimed(p) => SourceView::Claimed(p.deep_view()),
            AvatarSource::Nowhere => SourceView::Nowhere,
        }
    }
}

// ---- fetching a claimed picture ----

/// What to do next for a claimed picture.
#[derive(Debug)]
pub enum AvatarStep {
    /// Open the copy in this device's cache.
    Cache,
    /// Fetch a copy from this relay, and open that.
    Relay(String),
    /// The copy opened last is the picture; one from a relay is worth caching.
    Opened,
    /// Nobody serves it: no picture, which is no error.
    Nowhere,
}

pub enum AvatarStepView {
    Cache,
    Relay(Seq<char>),
    Opened,
    Nowhere,
}

impl DeepView for AvatarStep {
    type V = AvatarStepView;

    open spec fn deep_view(&self) -> AvatarStepView {
        match *self {
            AvatarStep::Cache => AvatarStepView::Cache,
            AvatarStep::Relay(relay) => AvatarStepView::Relay(relay@),
            AvatarStep::Opened => AvatarStepView::Opened,
            AvatarStep::Nowhere => AvatarStepView::Nowhere,
        }
    }
}

/// The search for a claimed picture: the cache, then the relays of the record
/// that claims it, in order.
#[derive(Debug)]
pub struct AvatarFetch {
    pub relays: Vec<String>,
    /// The cache has been tried.
    pub cache: bool,
    /// How many relays have been tried since.
    pub at: usize,
}

/// The search: how many places have been tried, the cache among them.
pub struct AvatarFetchView {
    pub relays: Seq<Seq<char>>,
    pub tried: nat,
}

impl DeepView for AvatarFetch {
    type V = AvatarFetchView;

    open spec fn deep_view(&self) -> AvatarFetchView {
        AvatarFetchView {
            relays: self.relays.deep_view(),
            tried: if self.cache {
                self.at as nat + 1
            } else {
                0
            },
        }
    }
}

/// The step after a copy was opened or not; `None` before the first. A copy
/// that cannot be had and one that does not open are alike: the next place is
/// tried.
pub open spec fn avatar_step(v: AvatarFetchView, opened: Option<bool>) -> (
    AvatarFetchView,
    AvatarStepView,
) {
    let more = AvatarFetchView { tried: v.tried + 1, ..v };
    if opened == Some(true) {
        (v, AvatarStepView::Opened)
    } else if v.tried == 0 {
        (more, AvatarStepView::Cache)
    } else if v.tried <= v.relays.len() {
        (more, AvatarStepView::Relay(v.relays[v.tried - 1]))
    } else {
        (v, AvatarStepView::Nowhere)
    }
}

impl AvatarFetch {
    pub fn new(claim: &PictureClaim) -> (r: Self)
        ensures
            r.deep_view() == (AvatarFetchView { relays: claim.deep_view().relays, tried: 0 }),
    {
        AvatarFetch { relays: copies(&claim.relays), cache: false, at: 0 }
    }

    /// What to do next, given whether the copy tried last opened.
    pub fn next(&mut self, opened: Option<bool>) -> (r: AvatarStep)
        ensures
            (final(self).deep_view(), r.deep_view()) == avatar_step(old(self).deep_view(), opened),
    {
        assert(self.relays.deep_view().len() == self.relays.len());
        match opened {
            Some(true) => {
                return AvatarStep::Opened;
            },
            _ => {},
        }
        if !self.cache {
            self.cache = true;
            self.at = 0;
            AvatarStep::Cache
        } else if self.at < self.relays.len() {
            let relay: String = self.relays[self.at].clone();
            assert(self.relays.deep_view()[self.at as int] == relay@);
            self.at = self.at + 1;
            AvatarStep::Relay(relay)
        } else {
            AvatarStep::Nowhere
        }
    }
}

/// Where a search ends, given which places hold a copy that opens: place 0 is
/// the cache, and the relays follow from place 1 on.
pub open spec fn found_at(v: AvatarFetchView, opens: spec_fn(int) -> bool) -> Option<int>
    decreases v.relays.len() + 1 - v.tried,
{
    if v.tried > v.relays.len() {
        None
    } else {
        let (more, step) = avatar_step(v, None);
        match step {
            AvatarStepView::Nowhere => None,
            _ => if opens(v.tried as int) {
                Some(v.tried as int)
            } else {
                found_at(more, opens)
            },
        }
    }
}

// ---- laws ----

/// A picture comes from the first place whose copy opens, the cache before any
/// relay and the relays in their order; from nowhere only where none does.
pub proof fn law_first_copy_that_opens(relays: Seq<Seq<char>>, opens: spec_fn(int) -> bool, from: nat)
    ensures
        match found_at(AvatarFetchView { relays, tried: from }, opens) {
            Some(i) => from <= i <= relays.len() && opens(i) && forall|j: int|
                from <= j < i ==> !#[trigger] opens(j),
            None => forall|j: int| from <= j <= relays.len() ==> !#[trigger] opens(j),
        },
    decreases relays.len() + 1 - from,
{
    if from <= relays.len() {
        law_first_copy_that_opens(relays, opens, from + 1);
    }
}

/// No claim held about somebody is newer than the one believed.
pub proof fn law_newest_wins(s: Seq<PictureView>, i: int)
    requires
        0 <= i < s.len(),
    ensures
        newest(s) is Some,
        s[i].revision <= newest(s)->0.revision,
    decreases s.len(),
{
    if i < s.len() - 1 {
        law_newest_wins(s.drop_last(), i);
        assert(s.drop_last()[i] == s[i]);
    }
}

/// Saving the same name again never supersedes; renaming always does.
pub proof fn law_only_renames_supersede(
    p: ProfileView,
    name: Seq<char>,
    specs: Seq<Seq<char>>,
)
    requires
        trimmed(name).len() > 0,
        p.name is Some,
        p.revision < u64::MAX,
    ensures
        profile_set(p, name, specs, None) is Ok,
        trimmed(name) == p.name->0 ==> profile_set(p, name, specs, None)->Ok_0.revision
            == p.revision,
        trimmed(name) != p.name->0 ==> profile_set(p, name, specs, None)->Ok_0.revision
            > p.revision,
        profile_set(p, name, specs, None)->Ok_0.label == p.label,
{
}

/// What this device serves about itself is what it publishes.
pub proof fn law_published_is_served(c: ClientView, p: ProfileView)
    ensures
        published(c, p) is Ok <==> own_record(c, p) is Some,
        published(c, p) is Ok ==> own_record(c, p) == Some(published(c, p)->Ok_0),
        crate::sync::served_record(c, c.device, own_record(c, p)) == own_record(c, p),
{
}

/// A save sets the trimmed name, which must not be blank, and the home relays
/// that the specs name, in order; label and picture stay.
pub proof fn law_profile_is_set(
    p: ProfileView,
    name: Seq<char>,
    specs: Seq<Seq<char>>,
    refused: Option<ErrorView>,
)
    requires
        forall|i: int|
            0 <= i < specs.len() ==> crate::state::writable(
                entry_of_spec(#[trigger] specs[i]),
            ),
    ensures
        match profile_set(p, name, specs, refused) {
            Ok(q) => {
                &&& trimmed(name).len() > 0
                &&& refused is None
                &&& q.name == Some(trimmed(name))
                &&& q.label == p.label
                &&& q.avatar == p.avatar
                &&& q.relays.len() == specs.len()
                &&& forall|i: int|
                    0 <= i < specs.len() ==> #[trigger] q.relays[i] == entry_of_spec(specs[i])
            },
            Err(e) => trimmed(name).len() == 0 || refused == Some(e),
        },
{
    let entries = specs.map_values(from_spec());
    assert forall|i: int| 0 <= i < entries.len() implies crate::state::writable(
        #[trigger] entries[i],
    ) by {
        assert(entries[i] == entry_of_spec(specs[i]));
    }
    crate::state::law_relays_round_trip(entries);
}

/// A label is set trimmed, where it is not blank. A changed one supersedes, the
/// same one again does not, and all else stays.
pub proof fn law_label_is_set(p: ProfileView, label: Seq<char>)
    requires
        superseded_label(p, label) != Some(u64::MAX),
    ensures
        match label_set(p, label) {
            Ok(q) => {
                &&& trimmed(label).len() > 0
                &&& q == (ProfileView { label: q.label, ..p })
                &&& match (p.label, q.label) {
                    (Some((before, old_revision)), Some((after, revision))) => {
                        &&& after == trimmed(label)
                        &&& before == after ==> revision == old_revision
                        &&& before != after ==> revision > old_revision
                    },
                    (None, Some((after, revision))) => after == trimmed(label) && revision == 0,
                    _ => false,
                }
            },
            Err(_) => trimmed(label).len() == 0,
        },
{
}

/// A new picture supersedes the one before, and nothing else of the profile
/// changes.
pub proof fn law_new_picture_supersedes(p: ProfileView, hash: BlobHash, key: [u8; 32])
    requires
        supersedable_avatar(p),
    ensures
        ({
            let q = picture_set(p, hash, key);
            &&& q == (ProfileView { avatar: q.avatar, ..p })
            &&& match (p.avatar, q.avatar) {
                (Some((_, _, before)), Some((h, k, revision))) => h == hash && k == key && revision
                    > before,
                (None, Some((h, k, _))) => h == hash && k == key,
                _ => false,
            }
        }),
{
}

/// This device's own verified word about itself.
pub open spec fn own_word(c: ClientView, s: SignedView, claim: ClaimView, revision: u64) -> bool {
    s.verified && s.attestation.attester == c.device && s.attestation.subject == c.device
        && s.attestation.claim == claim && s.attestation.revision == revision
}

/// The self-record is there once the profile has a name and a relay. It names
/// this device alone, with the home relays, and attests exactly the name, the
/// label and the picture of the profile, the links to siblings and every
/// disavowal issued.
pub proof fn law_self_record_says_all(c: ClientView, p: ProfileView, s: SignedView)
    ensures
        match own_record(c, p) {
            Some(r) => {
                &&& p.name is Some
                &&& p.relays.len() > 0
                &&& r.keys == seq![c.device]
                &&& r.relays == p.relays
                &&& r.name_claim == Some((p.name->0, p.revision))
                &&& r.avatar_claim == p.avatar
                &&& r.attestations.contains(s) <==> {
                    ||| own_word(c, s, ClaimView::Name(p.name->0), p.revision)
                    ||| p.label is Some && own_word(
                        c,
                        s,
                        ClaimView::DeviceLabel((p.label->0).0),
                        (p.label->0).1,
                    )
                    ||| p.avatar is Some && own_word(
                        c,
                        s,
                        ClaimView::Avatar((p.avatar->0).0, (p.avatar->0).1),
                        (p.avatar->0).2,
                    )
                    ||| exists|k: PublicKey| #[trigger] c.device_vouches.contains((k, s))
                    ||| negatives(c).contains(s)
                }
            },
            None => p.name is None || p.relays.len() == 0,
        },
{
    let name = match p.name {
        Some(n) => seq![issued(c, c.device, ClaimView::Name(n), p.revision)],
        None => Seq::empty(),
    };
    let label = match p.label {
        Some((l, revision)) => seq![issued(c, c.device, ClaimView::DeviceLabel(l), revision)],
        None => Seq::empty(),
    };
    let avatar = match p.avatar {
        Some((hash, key, revision)) => seq![
            issued(c, c.device, ClaimView::Avatar(hash, key), revision),
        ],
        None => Seq::empty(),
    };
    let links = c.device_vouches.map_values(vouch_value());
    lemma_either(name, label, s);
    lemma_either(name + label, avatar, s);
    assert(self_claims(c, p) =~= name + label + avatar);
    lemma_either(self_claims(c, p), links, s);
    lemma_either(self_claims(c, p) + links, negatives(c), s);
    lemma_at_most_one(name, s);
    lemma_at_most_one(label, s);
    lemma_at_most_one(avatar, s);
    if links.contains(s) {
        let k = choose|k: int| 0 <= k < links.len() && links[k] == s;
        let key = c.device_vouches[k].0;
        assert(c.device_vouches[k] == (key, s));
        assert(c.device_vouches.contains((key, s)));
    }
    if exists|k: PublicKey| #[trigger] c.device_vouches.contains((k, s)) {
        let key = choose|k: PublicKey| #[trigger] c.device_vouches.contains((k, s));
        let k = choose|k: int| 0 <= k < c.device_vouches.len() && c.device_vouches[k] == (key, s);
        assert(links[k] == s);
    }
}

proof fn lemma_either<V>(a: Seq<V>, b: Seq<V>, v: V)
    ensures
        (a + b).contains(v) <==> a.contains(v) || b.contains(v),
{
    let all = a + b;
    if all.contains(v) {
        let k = choose|k: int| 0 <= k < all.len() && all[k] == v;
        if k < a.len() {
            assert(a[k] == v);
        } else {
            assert(b[k - a.len()] == v);
        }
    }
    if a.contains(v) {
        let k = choose|k: int| 0 <= k < a.len() && a[k] == v;
        assert(all[k] == v);
    }
    if b.contains(v) {
        let k = choose|k: int| 0 <= k < b.len() && b[k] == v;
        assert(all[a.len() + k] == v);
    }
}

proof fn lemma_at_most_one<V>(a: Seq<V>, v: V)
    requires
        a.len() <= 1,
    ensures
        a.contains(v) <==> a.len() == 1 && a[0] == v,
{
    if a.contains(v) {
        let k = choose|k: int| 0 <= k < a.len() && a[k] == v;
        assert(k == 0);
    }
    if a.len() == 1 && a[0] == v {
        assert(a.contains(a[0]));
    }
}

/// A record is held about somebody: a contact's that lists their key, or one
/// learned about them.
pub open spec fn held_about(c: ClientView, subject: PublicKey, r: RecordView) -> bool {
    ||| exists|i: int|
        0 <= i < c.contacts.len() && (#[trigger] c.contacts[i]).1 == r && r.keys.contains(subject)
    ||| exists|e: LearnedView| #[trigger] c.learned.contains((subject, e)) && e.record == r
}

proof fn lemma_held_about(c: ClientView, subject: PublicKey, r: RecordView)
    ensures
        records_about(c, subject).contains(r) <==> held_about(c, subject, r),
{
    let p = listing(subject);
    let listed = c.contacts.filter(p);
    let a = listed.map_values(record_of());
    let told = learned_about(c, subject);
    let b = told.map_values(learned_record());
    lemma_either(a, b, r);
    if a.contains(r) {
        let k = choose|k: int| 0 <= k < a.len() && a[k] == r;
        assert(listed.contains(listed[k]));
        crate::seqs::lemma_filter_contains(c.contacts, p, listed[k]);
        let i = choose|i: int| 0 <= i < c.contacts.len() && c.contacts[i] == listed[k];
        assert(c.contacts[i].1 == r);
    }
    if exists|i: int|
        0 <= i < c.contacts.len() && (#[trigger] c.contacts[i]).1 == r && r.keys.contains(subject) {
        let i = choose|i: int|
            0 <= i < c.contacts.len() && (#[trigger] c.contacts[i]).1 == r && r.keys.contains(
                subject,
            );
        assert(c.contacts.contains(c.contacts[i]));
        crate::seqs::lemma_filter_contains(c.contacts, p, c.contacts[i]);
        let k = choose|k: int| 0 <= k < listed.len() && listed[k] == c.contacts[i];
        assert(a[k] == r);
    }
    if b.contains(r) {
        let k = choose|k: int| 0 <= k < b.len() && b[k] == r;
        assert(told.contains(told[k]));
        crate::client::law_learned_about(c, subject, told[k]);
    }
    if exists|e: LearnedView| #[trigger] c.learned.contains((subject, e)) && e.record == r {
        let e = choose|e: LearnedView| #[trigger]
            c.learned.contains((subject, e)) && e.record == r;
        crate::client::law_learned_about(c, subject, e);
        let k = choose|k: int| 0 <= k < told.len() && told[k] == e;
        assert(b[k] == r);
    }
}

proof fn lemma_newest_is_one(s: Seq<PictureView>)
    ensures
        match newest(s) {
            Some(p) => s.contains(p),
            None => s.len() == 0,
        },
    decreases s.len(),
{
    if s.len() > 0 {
        let d = s.drop_last();
        lemma_newest_is_one(d);
        assert(s[s.len() - 1] == s.last());
        match newest(d) {
            Some(p) => {
                let k = choose|k: int| 0 <= k < d.len() && d[k] == p;
                assert(s[k] == p);
            },
            None => {},
        }
    }
}

/// The picture believed of somebody is one that a record held about them
/// claims, with that record's relays, and no record held claims a later one;
/// there is none only where no record claims any.
pub proof fn law_believed_picture(c: ClientView, subject: PublicKey)
    ensures
        match best_picture(c, subject) {
            Some(p) => {
                &&& exists|r: RecordView| #[trigger]
                    held_about(c, subject, r) && r.avatar_claim == Some((p.hash, p.key, p.revision))
                        && p.relays == mailboxes(r.relays)
                &&& forall|r: RecordView| #[trigger]
                    held_about(c, subject, r) && r.avatar_claim is Some ==> (r.avatar_claim->0).2
                        <= p.revision
            },
            None => forall|r: RecordView| #[trigger]
                held_about(c, subject, r) ==> r.avatar_claim is None,
        },
{
    let all = records_about(c, subject);
    let f = claim_in();
    let list = all.filter_map(f);
    lemma_newest_is_one(list);
    assert forall|r: RecordView| #[trigger]
        held_about(c, subject, r) && r.avatar_claim is Some implies newest(list) is Some && (
    r.avatar_claim->0).2 <= newest(list)->0.revision by {
        lemma_held_about(c, subject, r);
        let i = choose|i: int| 0 <= i < all.len() && all[i] == r;
        crate::seqs::lemma_filter_map_has(all, f, i);
        let v = f(all[i])->0;
        let k = choose|k: int| 0 <= k < list.len() && list[k] == v;
        law_newest_wins(list, k);
    }
    match newest(list) {
        Some(p) => {
            let k = choose|k: int| 0 <= k < list.len() && list[k] == p;
            let i = crate::seqs::lemma_filter_map_source(all, f, k);
            assert(all.contains(all[i]));
            lemma_held_about(c, subject, all[i]);
            assert(held_about(c, subject, all[i]));
        },
        None => {},
    }
}

/// A photo the user chose goes before everything; this device's own picture is
/// the profile's, and anybody else's the one believed of them.
pub proof fn law_picture_source(
    c: ClientView,
    p: ProfileView,
    subject: PublicKey,
    has_local: bool,
)
    ensures
        picture_source(c, p, subject, has_local) is Local <==> has_local,
        match picture_source(c, p, subject, has_local) {
            SourceView::Local => true,
            SourceView::Own(hash, key) => subject == c.device && p.avatar is Some && (p.avatar->0).0
                == hash && (p.avatar->0).1 == key,
            SourceView::Claimed(claim) => subject != c.device && best_picture(c, subject) == Some(
                claim,
            ),
            SourceView::Nowhere => if subject == c.device {
                p.avatar is None
            } else {
                best_picture(c, subject) is None
            },
        },
{
}

/// The search for a picture begins at the cache and goes on to the relays, each
/// in turn; it stops at a copy that opens, and ends once all were tried.
pub proof fn law_search_goes_from_place_to_place(v: AvatarFetchView, opened: Option<bool>)
    ensures
        ({
            let (w, step) = avatar_step(v, opened);
            &&& w.relays == v.relays
            &&& step is Opened <==> opened == Some(true)
            &&& step is Cache ==> v.tried == 0
            &&& match step {
                AvatarStepView::Relay(url) => 0 < v.tried <= v.relays.len() && url
                    == v.relays[v.tried - 1],
                AvatarStepView::Nowhere => v.tried > v.relays.len(),
                _ => true,
            }
            &&& (step is Cache || step is Relay) ==> w.tried == v.tried + 1
            &&& (step is Opened || step is Nowhere) ==> w == v
        }),
{
}

/// Without a relay URL there is nothing to wait for; with one, this device is
/// reachable by key exactly where a connection came up.
pub proof fn law_reachable_by_key(p: ProfileView, online: bool)
    ensures
        reachable(p, online) is NoHomeRelay <==> forall|i: int|
            0 <= i < p.relays.len() ==> (#[trigger] p.relays[i]).relay_url is None,
        reachable(p, online) is ByKey ==> online,
        reachable(p, online) is NotYet ==> !online,
{
    let q = has_url();
    if exists|i: int| 0 <= i < p.relays.len() && (#[trigger] p.relays[i]).relay_url is Some {
        let i = choose|i: int| 0 <= i < p.relays.len() && (#[trigger] p.relays[i]).relay_url is Some;
        assert(q(p.relays[i]));
    }
}

/// What a list has over another: each text of the one that the other does not
/// have.
pub proof fn law_lacked(list: Seq<Seq<char>>, other: Seq<Seq<char>>, s: Seq<char>)
    ensures
        lacked(list, other).contains(s) <==> list.contains(s) && !other.contains(s),
{
    crate::seqs::lemma_filter_contains(list, lacking(other), s);
}

/// A picture is taken exactly where it is neither empty nor over the limit.
pub proof fn law_picture_sizes(len: nat)
    ensures
        avatar_refused(len) is None <==> 0 < len <= 512 * 1024,
{
}

} // verus!
