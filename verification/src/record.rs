//! What the client reads of a contact record: its keys, the claims its
//! attestations make, and the relays it names. Signatures are checked where a
//! record is decoded; here each attestation carries the verdict.
use vstd::prelude::*;
use vstd::string::StringExecFns;

use crate::ids::{BlobHash, PublicKey};
use crate::order::{copies, copy_option, holds, Duplicate};
use crate::text::{behind, concat, cut_at, split_once, strip_prefix};

verus! {

// ---- relays ----

/// One relay service: the mailbox dial string, and the same service's relay
/// URL, which makes a device reachable by key.
#[derive(Debug)]
pub struct RelayEntry {
    pub mailbox: String,
    pub relay_url: Option<String>,
}

pub struct RelayView {
    pub mailbox: Seq<char>,
    pub relay_url: Option<Seq<char>>,
}

impl DeepView for RelayEntry {
    type V = RelayView;

    open spec fn deep_view(&self) -> RelayView {
        RelayView { mailbox: self.mailbox@, relay_url: self.relay_url.deep_view() }
    }
}

impl Duplicate for RelayEntry {
    fn duplicate(&self) -> (r: Self) {
        RelayEntry { mailbox: self.mailbox.clone(), relay_url: copy_option(&self.relay_url) }
    }
}

/// The tag in front of a scanned relay spec.
pub open spec fn scan_tag() -> Seq<char> {
    "ZINK-RELAY:"@
}

/// The entry that a spec `dial[#relay-url]` denotes; a scan tag in front of
/// it is dropped.
pub open spec fn entry_of_spec(spec: Seq<char>) -> RelayView {
    let body = match behind(spec, scan_tag()) {
        Some(rest) => rest,
        None => spec,
    };
    match cut_at(body, '#') {
        Some((mailbox, url)) => RelayView { mailbox, relay_url: Some(url) },
        None => RelayView { mailbox: body, relay_url: None },
    }
}

/// The spec of an entry: `dial[#relay-url]`.
pub open spec fn spec_of_entry(entry: RelayView) -> Seq<char> {
    match entry.relay_url {
        Some(url) => entry.mailbox + "#"@ + url,
        None => entry.mailbox,
    }
}

impl RelayEntry {
    pub fn from_spec(spec: &str) -> (r: Self)
        ensures
            r.deep_view() == entry_of_spec(spec@),
    {
        let body: String = match strip_prefix(spec, "ZINK-RELAY:") {
            Some(rest) => rest,
            None => spec.to_owned(),
        };
        match split_once(body.as_str(), '#') {
            Some((mailbox, url)) => RelayEntry { mailbox, relay_url: Some(url) },
            None => RelayEntry { mailbox: body, relay_url: None },
        }
    }

    pub fn to_spec(&self) -> (r: String)
        ensures
            r@ == spec_of_entry(self.deep_view()),
    {
        match &self.relay_url {
            Some(url) => {
                let head: String = concat(self.mailbox.as_str(), "#");
                concat(head.as_str(), url.as_str())
            },
            None => self.mailbox.clone(),
        }
    }
}

/// An entry whose dial string holds no `#` and no scan tag comes back from
/// its spec.
pub proof fn law_relay_spec_round_trip(entry: RelayView)
    requires
        forall|i: int| 0 <= i < entry.mailbox.len() ==> entry.mailbox[i] != '#',
        behind(spec_of_entry(entry), scan_tag()) is None,
    ensures
        entry_of_spec(spec_of_entry(entry)) == entry,
{
    reveal_strlit("#");
    let spec = spec_of_entry(entry);
    crate::text::lemma_index_of_char_unique(spec, '#', entry.mailbox.len() as int);
    match entry.relay_url {
        Some(url) => {
            assert(spec.take(entry.mailbox.len() as int) =~= entry.mailbox);
            assert(spec.skip(entry.mailbox.len() as int + 1) =~= url);
        },
        None => {},
    }
}

// ---- claims ----

/// What an attestation says of its subject.
#[derive(Debug)]
pub enum Claim {
    /// The subject's name.
    Name(String),
    /// The qualifier beside the name ("phone", "laptop").
    DeviceLabel(String),
    /// The subject's picture: ciphertext hash and content key.
    Avatar { hash: BlobHash, key: [u8; 32] },
    /// The subject and this key are one person.
    SamePersonAs(PublicKey),
    /// Disavowal: earlier claims about the subject are void.
    Negative,
}

pub enum ClaimView {
    Name(Seq<char>),
    DeviceLabel(Seq<char>),
    Avatar(BlobHash, [u8; 32]),
    SamePersonAs(PublicKey),
    Negative,
}

impl DeepView for Claim {
    type V = ClaimView;

    open spec fn deep_view(&self) -> ClaimView {
        match *self {
            Claim::Name(s) => ClaimView::Name(s@),
            Claim::DeviceLabel(s) => ClaimView::DeviceLabel(s@),
            Claim::Avatar { hash, key } => ClaimView::Avatar(hash, key),
            Claim::SamePersonAs(k) => ClaimView::SamePersonAs(k),
            Claim::Negative => ClaimView::Negative,
        }
    }
}

impl Duplicate for Claim {
    fn duplicate(&self) -> (r: Self) {
        match self {
            Claim::Name(s) => Claim::Name(s.clone()),
            Claim::DeviceLabel(s) => Claim::DeviceLabel(s.clone()),
            Claim::Avatar { hash, key } => Claim::Avatar { hash: *hash, key: *key },
            Claim::SamePersonAs(k) => Claim::SamePersonAs(*k),
            Claim::Negative => Claim::Negative,
        }
    }
}

/// A claim by one key about another; a higher revision supersedes.
#[derive(Debug)]
pub struct Attestation {
    pub attester: PublicKey,
    pub subject: PublicKey,
    pub claim: Claim,
    pub revision: u64,
}

pub struct AttestationView {
    pub attester: PublicKey,
    pub subject: PublicKey,
    pub claim: ClaimView,
    pub revision: u64,
}

impl DeepView for Attestation {
    type V = AttestationView;

    open spec fn deep_view(&self) -> AttestationView {
        AttestationView {
            attester: self.attester,
            subject: self.subject,
            claim: self.claim.deep_view(),
            revision: self.revision,
        }
    }
}

impl Duplicate for Attestation {
    fn duplicate(&self) -> (r: Self) {
        Attestation {
            attester: self.attester,
            subject: self.subject,
            claim: self.claim.duplicate(),
            revision: self.revision,
        }
    }
}

/// An attestation with the verdict on its signature.
#[derive(Debug)]
pub struct SignedAttestation {
    pub attestation: Attestation,
    /// The signature verifies under the attester's key.
    pub verified: bool,
}

pub struct SignedView {
    pub attestation: AttestationView,
    pub verified: bool,
}

impl DeepView for SignedAttestation {
    type V = SignedView;

    open spec fn deep_view(&self) -> SignedView {
        SignedView { attestation: self.attestation.deep_view(), verified: self.verified }
    }
}

impl Duplicate for SignedAttestation {
    fn duplicate(&self) -> (r: Self) {
        SignedAttestation { attestation: self.attestation.duplicate(), verified: self.verified }
    }
}

/// A disavowal whose signature holds.
pub open spec fn is_negative(signed: SignedView) -> bool {
    signed.verified && signed.attestation.claim is Negative
}

impl SignedAttestation {
    /// Who disavows whom, at which revision, where this is a disavowal whose
    /// signature holds.
    pub fn verified_negative(&self) -> (r: Option<(PublicKey, PublicKey, u64)>)
        ensures
            r == if is_negative(self.deep_view()) {
                Some(
                    (
                        self.deep_view().attestation.attester,
                        self.deep_view().attestation.subject,
                        self.deep_view().attestation.revision,
                    ),
                )
            } else {
                None
            },
    {
        match self.attestation.claim {
            Claim::Negative => if self.verified {
                Some(
                    (self.attestation.attester, self.attestation.subject, self.attestation.revision),
                )
            } else {
                None
            },
            _ => None,
        }
    }
}

// ---- records ----

/// A contact record. The first key is the publishing device's own; the relays
/// are where that device is reached.
#[derive(Debug)]
pub struct ContactRecord {
    pub keys: Vec<PublicKey>,
    pub attestations: Vec<SignedAttestation>,
    pub relays: Vec<RelayEntry>,
    /// The name the record's own keys verifiably claim, with its revision.
    pub name_claim: Option<(String, u64)>,
    /// The picture the record's own keys verifiably claim: ciphertext hash,
    /// content key, revision.
    pub avatar_claim: Option<(BlobHash, [u8; 32], u64)>,
}

pub struct RecordView {
    pub keys: Seq<PublicKey>,
    pub attestations: Seq<SignedView>,
    pub relays: Seq<RelayView>,
    pub name_claim: Option<(Seq<char>, u64)>,
    pub avatar_claim: Option<(BlobHash, [u8; 32], u64)>,
}

impl DeepView for ContactRecord {
    type V = RecordView;

    open spec fn deep_view(&self) -> RecordView {
        RecordView {
            keys: self.keys@,
            attestations: self.attestations.deep_view(),
            relays: self.relays.deep_view(),
            name_claim: self.name_claim.deep_view(),
            avatar_claim: self.avatar_claim,
        }
    }
}

/// A vector of keys is its own model.
pub proof fn lemma_keys_view(keys: &Vec<PublicKey>)
    ensures
        keys.deep_view() == keys@,
{
    assert(keys.deep_view() =~= keys@);
}

impl Duplicate for ContactRecord {
    fn duplicate(&self) -> (r: Self) {
        let keys: Vec<PublicKey> = copies(&self.keys);
        proof {
            lemma_keys_view(&self.keys);
            lemma_keys_view(&keys);
        }
        let name_claim: Option<(String, u64)> = match &self.name_claim {
            Some((name, revision)) => Some((name.clone(), *revision)),
            None => None,
        };
        ContactRecord {
            keys,
            attestations: copies(&self.attestations),
            relays: copies(&self.relays),
            name_claim,
            avatar_claim: self.avatar_claim,
        }
    }
}

/// The name a record claims for itself.
pub open spec fn claimed_name(record: RecordView) -> Option<Seq<char>> {
    match record.name_claim {
        Some((name, _)) => Some(name),
        None => None,
    }
}

/// The key whose relays a record names: its first.
pub open spec fn stem(record: RecordView) -> Option<PublicKey> {
    if record.keys.len() > 0 {
        Some(record.keys[0])
    } else {
        None
    }
}

/// Whether two records share a key.
pub open spec fn share_key(a: RecordView, b: RecordView) -> bool {
    exists|i: int| 0 <= i < a.keys.len() && b.keys.contains(#[trigger] a.keys[i])
}

impl ContactRecord {
    pub fn self_claimed_name(&self) -> (r: Option<String>)
        ensures
            r.deep_view() == claimed_name(self.deep_view()),
    {
        match &self.name_claim {
            Some((name, _)) => Some(name.clone()),
            None => None,
        }
    }

    /// Whether the record lists a key.
    pub fn lists(&self, key: &PublicKey) -> (r: bool)
        ensures
            r == self.deep_view().keys.contains(*key),
    {
        proof {
            lemma_keys_view(&self.keys);
        }
        holds(&self.keys, key)
    }

    pub fn first_key(&self) -> (r: Option<PublicKey>)
        ensures
            r == stem(self.deep_view()),
    {
        if self.keys.len() > 0 {
            Some(self.keys[0])
        } else {
            None
        }
    }

    /// Whether the two records list a common key.
    pub fn overlaps(&self, other: &ContactRecord) -> (r: bool)
        ensures
            r == share_key(self.deep_view(), other.deep_view()),
    {
        let mut i: usize = 0;
        while i < self.keys.len()
            invariant
                i <= self.keys.len(),
                forall|j: int|
                    0 <= j < i ==> !other.deep_view().keys.contains(
                        #[trigger] self.deep_view().keys[j],
                    ),
            decreases self.keys.len() - i,
        {
            if other.lists(&self.keys[i]) {
                assert(other.deep_view().keys.contains(self.deep_view().keys[i as int]));
                return true;
            }
            i += 1;
        }
        false
    }
}

/// Key overlap does not depend on the side it is asked from.
pub proof fn law_overlap_symmetric(a: RecordView, b: RecordView)
    ensures
        share_key(a, b) == share_key(b, a),
{
    if share_key(a, b) {
        let i = choose|i: int| 0 <= i < a.keys.len() && b.keys.contains(#[trigger] a.keys[i]);
        let j = choose|j: int| 0 <= j < b.keys.len() && b.keys[j] == a.keys[i];
        assert(a.keys.contains(b.keys[j]));
    }
    if share_key(b, a) {
        let i = choose|i: int| 0 <= i < b.keys.len() && a.keys.contains(#[trigger] b.keys[i]);
        let j = choose|j: int| 0 <= j < a.keys.len() && a.keys[j] == b.keys[i];
        assert(b.keys.contains(a.keys[j]));
    }
}

/// The name a record claims is the one its claim carries.
pub proof fn law_claimed_name(record: RecordView, name: Seq<char>, revision: u64)
    ensures
        record.name_claim == Some((name, revision)) ==> claimed_name(record) == Some(name),
        record.name_claim is None ==> claimed_name(record) is None,
        record.keys.len() > 0 ==> stem(record) == Some(record.keys[0]),
        record.keys.len() == 0 ==> stem(record) is None,
{
}

/// Two records overlap exactly where some key is in both.
pub proof fn law_overlap_is_a_common_key(a: RecordView, b: RecordView)
    ensures
        share_key(a, b) <==> exists|k: PublicKey| #[trigger] a.keys.contains(k) && b.keys.contains(k),
{
    if share_key(a, b) {
        let i = choose|i: int| 0 <= i < a.keys.len() && b.keys.contains(#[trigger] a.keys[i]);
        assert(a.keys.contains(a.keys[i]));
    }
    if exists|k: PublicKey| #[trigger] a.keys.contains(k) && b.keys.contains(k) {
        let k = choose|k: PublicKey| #[trigger] a.keys.contains(k) && b.keys.contains(k);
        let i = choose|i: int| 0 <= i < a.keys.len() && a.keys[i] == k;
        assert(b.keys.contains(a.keys[i]));
    }
}

/// A relay spec is the mailbox, and behind a `#` the URL; a tag in front of it
/// does not count.
pub proof fn law_spec_denotes(mailbox: Seq<char>, url: Seq<char>)
    requires
        !mailbox.contains('#'),
        behind(mailbox + "#"@ + url, scan_tag()) is None,
        behind(mailbox, scan_tag()) is None,
    ensures
        entry_of_spec(mailbox + "#"@ + url) == (RelayView { mailbox, relay_url: Some(url) }),
        entry_of_spec(mailbox) == (RelayView { mailbox, relay_url: None }),
        entry_of_spec(scan_tag() + mailbox) == (RelayView { mailbox, relay_url: None }),
{
    reveal_strlit("#");
    let s = mailbox + "#"@ + url;
    let n = mailbox.len() as int;
    assert(s[n] == '#');
    assert forall|i: int| 0 <= i < n implies s[i] != '#' by {
        assert(s[i] == mailbox[i]);
        assert(mailbox.contains(mailbox[i]));
    }
    crate::text::lemma_index_of_char_unique(s, '#', n);
    assert(s.take(n) =~= mailbox);
    assert(s.skip(n + 1) =~= url);
    assert forall|i: int| 0 <= i < n implies mailbox[i] != '#' by {
        assert(mailbox.contains(mailbox[i]));
    }
    crate::text::lemma_index_of_char_unique(mailbox, '#', n);
    crate::text::law_behind_the_prefix(scan_tag() + mailbox, scan_tag(), mailbox);
}

} // verus!
