#![allow(non_snake_case)]

use zink_client::client::{Client, LearnedRecord};
use zink_client::error::Error;
use zink_client::evidence::{shared_avatar_claim, LinkTier};
use zink_client::ids::{BlobHash, PublicKey};
use zink_client::names::ResolvedName;
use zink_client::profile::Profile;
use zink_client::record::{Attestation, Claim, ContactRecord, RelayEntry, SignedAttestation};
use zink_client::rng::TestMint;

fn key(byte: u8) -> PublicKey {
    PublicKey([byte; 32])
}

fn record(keys: Vec<u8>, name: &str) -> ContactRecord {
    ContactRecord {
        keys: keys.into_iter().map(key).collect(),
        attestations: vec![],
        relays: vec![RelayEntry { mailbox: "m@203.0.113.1:1".to_string(), relay_url: None }],
        name_claim: Some((name.to_string(), 0)),
        avatar_claim: None,
    }
}

fn signed(attester: u8, subject: u8, claim: Claim, revision: u64) -> SignedAttestation {
    SignedAttestation {
        attestation: Attestation { attester: key(attester), subject: key(subject), claim, revision },
        verified: true,
    }
}

fn name(n: &str) -> Claim {
    Claim::Name(n.to_string())
}

fn learn(a: &mut Client, subject: u8, responder: u8, about: ContactRecord, endorsements: Vec<SignedAttestation>, at: u64) {
    a.save_learned(
        key(subject),
        LearnedRecord { responder: key(responder), record: about, endorsements, received_ms: at },
    );
}

#[test]
fn vouch__should_persist_and_supersede_per_revision() {
    // Given
    let mut a = Client::new(key(200));
    let carol = key(84);
    a.add_contact(&record(vec![84], "Carrie"), None, &mut TestMint(1)).expect("add");

    // When / Then: the explicit act signs at revision 0; a re-vouch
    // supersedes; withdrawal removes; a non-contact errors
    assert!(!a.vouches(&carol));
    assert_eq!(a.vouch("Carrie").expect("vouch"), carol);
    let first = a.vouch_for(&carol).expect("stored");
    assert_eq!(first.attestation.revision, 0);
    assert!(matches!(&first.attestation.claim, Claim::Name(n) if n == "Carrie"));
    assert!(first.verified);
    assert!(a.vouches(&carol));
    a.vouch("Carrie").expect("re-vouch");
    assert_eq!(a.vouch_for(&carol).expect("stored").attestation.revision, 1);
    a.unvouch("Carrie").expect("unvouch");
    assert!(!a.vouches(&carol));
    assert!(a.vouch_for(&carol).is_none());
    assert!(matches!(a.vouch("nobody"), Err(Error::NotAContact(_))));
}

#[test]
fn repudiate__should_supersede_the_vouch_and_unrecognize_the_sibling() {
    // Given: a profiled phone that vouched a contact and recognized a laptop
    let mut a = Client::new(key(200));
    let mut profile =
        Profile { name: None, revision: 0, relays: vec![], label: None, avatar: None };
    profile
        .set_profile("mårten phone", &vec!["m@203.0.113.1:1".to_string()], None)
        .expect("profile");
    let (carol, laptop) = (key(90), key(91));
    a.add_contact(&record(vec![90], "Carrie"), None, &mut TestMint(1)).expect("add");
    a.vouch("Carrie").expect("vouch");
    a.recognize_device(&record(vec![91], "mårten laptop")).expect("recognize");
    assert_eq!(a.own_keys(), vec![laptop, key(200)]);
    let links = |r: &ContactRecord| {
        r.attestations
            .iter()
            .filter(|s| matches!(s.attestation.claim, Claim::SamePersonAs(k) if k == laptop))
            .count()
    };
    assert_eq!(links(&a.my_record(&profile).expect("record")), 1);

    // When: both get repudiated
    a.repudiate(carol).expect("repudiate carol");
    a.repudiate(laptop).expect("repudiate laptop");

    // Then: the negative supersedes the vouch (rev 1 over rev 0), the
    // sibling is un-recognized, and the fresh record publishes both
    let carol_stance = a.vouch_for(&carol).expect("stance");
    assert!(matches!(carol_stance.attestation.claim, Claim::Negative));
    assert_eq!(carol_stance.attestation.revision, 1);
    assert!(a.recognized_devices().is_empty());
    let fresh = a.my_record(&profile).expect("record");
    assert_eq!(
        fresh
            .attestations
            .iter()
            .filter(|signed| matches!(signed.attestation.claim, Claim::Negative))
            .count(),
        2
    );
    // …the link to the device is gone, behind a negative above it
    assert_eq!(links(&fresh), 0);
    let laptop_stance = a.vouch_for(&laptop).expect("stance");
    assert!(matches!(laptop_stance.attestation.claim, Claim::Negative));
    assert_eq!(laptop_stance.attestation.revision, 1, "above the link vouch");
    assert!(a.device_vouches.is_empty());
    assert!(a.is_disavowed(laptop));
    assert_eq!(a.issued_negatives().len(), 2);
    // …and a yet-higher re-vouch restores the contact's name stance
    a.vouch("Carrie").expect("re-vouch");
    let restored = a.vouch_for(&carol).expect("stance");
    assert_eq!(restored.attestation.revision, 2);
    assert!(matches!(restored.attestation.claim, Claim::Name(_)));
}

#[test]
fn recognize_device__should_refuse_itself_and_keyless_records() {
    let mut a = Client::new(key(200));
    assert!(a.recognize_device(&record(vec![], "x")).is_err());
    assert!(a.recognize_device(&record(vec![200], "me")).is_err());
}

#[test]
fn disavowals__should_exclude_same_person_only_and_void_endorsed_names() {
    // Given: bob's learned endorsements about carol carry a vouch superseded
    // by his own negative — but bob and carol share no entry and no link: a
    // third-party claim
    let mut a = Client::new(key(200));
    a.add_contact(&record(vec![92], "bob"), None, &mut TestMint(1)).expect("add");
    a.add_contact(&record(vec![93], "carol"), None, &mut TestMint(2)).expect("add");
    let says = vec![signed(92, 93, name("Caroline"), 0), signed(92, 93, Claim::Negative, 1)];
    learn(&mut a, 93, 92, record(vec![93], "Carol"), says, 1);

    // Then: the endorsed name is voided by its attester's negative…
    let candidates = a.learned_candidates(key(93));
    assert_eq!(candidates.len(), 1);
    assert!(
        candidates.iter().all(|(name, _)| name.endorsed_by.is_empty()),
        "a name behind the attester's higher negative must not render"
    );
    // …the disavowal renders with WHO — but as third-party it never
    // excludes
    let found = a.disavowals(key(93));
    assert_eq!(found.len(), 1);
    assert_eq!(found[0].attester_label, "bob");
    assert!(!found[0].excludes);
    assert!(!a.is_disavowed(key(93)));
}

#[test]
fn disavowals__should_exclude_a_key_its_own_person_disavows() {
    let mut a = Client::new(key(200));
    a.add_contact(&record(vec![1, 2], "bob"), None, &mut TestMint(1)).expect("add");
    a.add_contact(&record(vec![5], "carol"), None, &mut TestMint(2)).expect("add");
    // Bob's phone disavows his laptop; carol disavows it too.
    learn(&mut a, 2, 1, record(vec![2], "bob"), vec![signed(1, 2, Claim::Negative, 1)], 1);
    learn(&mut a, 2, 5, record(vec![2], "bob"), vec![signed(5, 2, Claim::Negative, 1)], 2);
    let found = a.disavowals(key(2));
    assert_eq!(found.len(), 2);
    assert!(found[0].excludes && found[0].attester == key(1));
    assert!(!found[1].excludes, "a third party only warns");
    assert_eq!(found[1].attester_label, "carol");
    assert!(a.is_disavowed(key(2)));
}

#[test]
fn disavowals__should_not_let_a_third_party_exclude() {
    let mut a = Client::new(key(200));
    a.add_contact(&record(vec![1], "bob"), None, &mut TestMint(1)).expect("add");
    a.add_contact(&record(vec![5], "carol"), None, &mut TestMint(2)).expect("add");
    learn(&mut a, 1, 5, record(vec![1], "bob"), vec![signed(5, 1, Claim::Negative, 1)], 2);
    assert!(!a.is_disavowed(key(1)));
    assert_eq!(a.disavowals(key(1)).len(), 1);
}

#[test]
fn resolve_name__should_rank_by_revision_and_group_agreement() {
    // Given: two responders hold Carol's old name (revision 0), one holds
    // the rename (revision 1) — a rename caught mid-propagation
    let mut a = Client::new(key(200));
    let mut renamed = record(vec![25], "Caroline");
    renamed.name_claim = Some(("Caroline".to_string(), 1));
    learn(&mut a, 25, 26, record(vec![25], "Carol"), vec![], 1);
    learn(&mut a, 25, 27, record(vec![25], "Carol"), vec![], 2);
    learn(&mut a, 25, 28, renamed, vec![], 3);

    // When
    let ResolvedName::Learned(names) = a.resolve_name(key(25)) else {
        panic!("expected learned names");
    };

    // Then: the rename ranks first by revision; the superseded name stays
    // surfaced with its two holders — evidence, not arbitration
    assert_eq!(names.len(), 2);
    assert_eq!((names[0].name.as_str(), names[0].revision), ("Caroline", 1));
    assert_eq!(names[1].name, "Carol");
    assert_eq!(names[1].held_by.len(), 2);
}

#[test]
fn resolve_name__should_prefer_a_petname_and_list_endorsed_names() {
    let mut a = Client::new(key(200));
    a.add_contact(&record(vec![1], "bob"), None, &mut TestMint(1)).expect("add");
    a.add_contact(&record(vec![5], "carol"), None, &mut TestMint(2)).expect("add");
    assert!(matches!(a.resolve_name(key(9)), ResolvedName::Unknown));
    assert!(matches!(a.resolve_name(key(1)), ResolvedName::Petname(n) if n == "bob"));
    let mut newer = record(vec![9], "dora");
    newer.name_claim = Some(("dora".to_string(), 3));
    learn(&mut a, 9, 1, newer, vec![], 1);
    learn(&mut a, 9, 5, record(vec![9], "dee"), vec![signed(5, 9, name("dee dee"), 0)], 2);
    match a.resolve_name(key(9)) {
        ResolvedName::Learned(names) => {
            let shown: Vec<String> = names.iter().map(|n| n.name.clone()).collect();
            assert_eq!(shown[0], "dora");
            assert!(shown.contains(&"dee".to_string()));
            assert!(shown.contains(&"dee dee".to_string()));
            assert_eq!(names[0].held_by, vec!["bob".to_string()]);
        }
        other => panic!("unexpected {other:?}"),
    }
}

#[test]
fn learned_candidates__should_pair_each_name_with_the_freshest_record() {
    // Given: two responders serve the same claimed name, but with different
    // records — the later receipt carries fresher relays
    let mut a = Client::new(key(200));
    let mut older = record(vec![25], "Carol");
    older.relays[0].mailbox = "old@203.0.113.1:1".to_string();
    let mut newer = record(vec![25], "Carol");
    newer.relays[0].mailbox = "new@203.0.113.2:2".to_string();
    learn(&mut a, 25, 26, older, vec![], 1);
    learn(&mut a, 25, 27, newer, vec![], 2);

    // When
    let candidates = a.learned_candidates(key(25));

    // Then: one group (agreement of two), paired with the freshest record —
    // the promotable payload
    assert_eq!(candidates.len(), 1);
    assert_eq!(candidates[0].0.name, "Carol");
    assert_eq!(candidates[0].0.held_by.len(), 2);
    assert_eq!(candidates[0].1.relays[0].mailbox, "new@203.0.113.2:2");
}

#[test]
fn learned_candidates__should_mark_a_name_the_subject_serves() {
    let mut a = Client::new(key(200));
    a.add_contact(&record(vec![1], "bob"), None, &mut TestMint(1)).expect("add");
    let mut old_record = record(vec![9], "dora");
    old_record.relays[0].mailbox = "old".to_string();
    let mut new_record = record(vec![9], "dora");
    new_record.relays[0].mailbox = "new".to_string();
    learn(&mut a, 9, 1, old_record, vec![], 1);
    learn(&mut a, 9, 9, new_record, vec![], 2);
    let candidates = a.learned_candidates(key(9));
    assert_eq!(candidates.len(), 1);
    assert!(candidates[0].0.confirmed_by_subject);
    assert_eq!(candidates[0].1.relays[0].mailbox, "new");
}

#[test]
fn friend_views__should_show_what_each_friend_holds() {
    let mut a = Client::new(key(200));
    a.add_contact(&record(vec![1], "bob"), None, &mut TestMint(1)).expect("add");
    let picture = Claim::Avatar { hash: BlobHash([3; 32]), key: [4; 32] };
    let says = vec![signed(1, 9, name("dora"), 2), signed(1, 9, picture, 5)];
    learn(&mut a, 9, 1, record(vec![9], "dee"), says, 7);
    learn(&mut a, 9, 9, record(vec![9], "dee"), vec![], 8);
    let views = a.friend_views(key(9));
    assert_eq!(views.len(), 1, "the subject's own answer is no friend's view");
    assert_eq!(views[0].petname, "bob");
    assert_eq!(views[0].vouched_name.as_deref(), Some("dora"));
    assert!(views[0].shares_avatar);
    let entry = &a.learned(&key(9))[0];
    assert_eq!(shared_avatar_claim(entry, key(9)), Some((BlobHash([3; 32]), [4; 32], 5)));
}

#[test]
fn claims_to_be_my_device__should_surface_the_pair_back_record_only() {
    let mut a = Client::new(key(200));
    let mut claiming = record(vec![150], "laptop");
    claiming.attestations = vec![signed(150, 150, Claim::SamePersonAs(key(200)), 0)];
    assert!(a.claims_to_be_my_device(key(150)).is_none());
    learn(&mut a, 150, 150, claiming, vec![], 1);
    assert!(a.claims_to_be_my_device(key(150)).is_some());
    a.recognize_device(&record(vec![150], "laptop")).expect("recognize");
    assert!(a.claims_to_be_my_device(key(150)).is_none(), "already paired");
}

#[test]
fn device_evidence__should_list_the_strongest_first() {
    let mut a = Client::new(key(200));
    a.add_contact(&record(vec![1], "bob"), None, &mut TestMint(1)).expect("add");
    a.add_contact(&record(vec![5], "carol"), None, &mut TestMint(2)).expect("add");
    a.add_contact(&record(vec![7], "dave"), None, &mut TestMint(3)).expect("add");
    let tiers =
        vec![LinkTier::VouchedFromTrust, LinkTier::Unlinked, LinkTier::MutuallyConfirmed];
    let found = a.device_evidence(&tiers);
    let shown: Vec<(String, u8)> = found.iter().map(|e| (e.petname.clone(), e.tier.rank())).collect();
    assert_eq!(shown, vec![("dave".to_string(), 2), ("bob".to_string(), 1)]);
}

#[test]
fn dismiss__should_remember_keys_in_order() {
    let mut a = Client::new(key(200));
    a.dismiss(key(9));
    a.dismiss(key(3));
    a.dismiss(key(9));
    assert_eq!(a.dismissed(), vec![key(3), key(9)]);
}
