#![allow(non_snake_case)]

use zink_client::client::{Client, LearnedRecord, OutboxEntry};
use zink_client::contacts::{RecordMatch, RecordUpdate};
use zink_client::error::Error;
use zink_client::ids::{MessageId, PublicKey};
use zink_client::record::{ContactRecord, RelayEntry};
use zink_client::relays::{Contact, RelaySource};
use zink_client::rng::TestMint;

fn key(byte: u8) -> PublicKey {
    PublicKey([byte; 32])
}

fn mailbox(spec: &str) -> Vec<RelayEntry> {
    vec![RelayEntry { mailbox: spec.to_string(), relay_url: None }]
}

fn record(keys: Vec<PublicKey>, name: Option<&str>, relays: Vec<RelayEntry>) -> ContactRecord {
    ContactRecord {
        keys,
        attestations: vec![],
        relays,
        name_claim: name.map(|n| (n.to_string(), 0)),
        avatar_claim: None,
    }
}

fn learned(responder: PublicKey, about: ContactRecord, received_ms: u64) -> LearnedRecord {
    LearnedRecord { responder, record: about, endorsements: vec![], received_ms }
}

#[test]
fn resolve_contact__should_take_keys_from_the_stored_record_only() {
    let mut a = Client::new(key(200));
    a.add_contact(&record(vec![key(1)], Some("bob"), mailbox("bb@203.0.113.2:2")), None, &mut TestMint(1))
        .expect("add");
    // A learned record with an extra key and fresher relays, served by bob.
    a.save_learned(
        key(1),
        learned(key(1), record(vec![key(1), key(9)], Some("bob"), mailbox("new@203.0.113.3:3")), 5),
    );
    let contact = a.resolve_contact("bob").expect("resolve");
    assert_eq!(contact.keys, vec![key(1)]);
    assert_eq!(contact.relays, vec!["new@203.0.113.3:3".to_string()]);
    assert!(matches!(a.resolve_contact("eve"), Err(Error::NotAContact(_))));
}

#[test]
fn add_contact__should_update_the_overlapping_contact_under_its_own_petname() {
    let mut a = Client::new(key(200));
    let first = record(vec![key(1)], Some("bob"), mailbox("bb@203.0.113.2:2"));
    assert!(a.add_contact(&first, None, &mut TestMint(1)).expect("add").fresh);
    let second = record(vec![key(1), key(2)], Some("bob"), mailbox("b2@203.0.113.2:3"));
    let again = a.add_contact(&second, None, &mut TestMint(2)).expect("update");
    assert!(!again.fresh);
    assert_eq!(again.petname, "bob");
    assert_eq!(a.contacts().len(), 1);
    assert_eq!(a.contacts()[0].1.keys, vec![key(1), key(2)]);
}

#[test]
fn add_contact__should_surface_an_overlap_under_a_different_petname() {
    let mut a = Client::new(key(200));
    a.add_contact(&record(vec![key(1)], Some("bob"), mailbox("bb@203.0.113.2:2")), None, &mut TestMint(1))
        .expect("add");
    let scanned = record(vec![key(1)], Some("robert"), mailbox("bb@203.0.113.2:2"));
    match a.add_contact(&scanned, None, &mut TestMint(2)) {
        Err(Error::ContactOverlap { existing }) => assert_eq!(existing, "bob"),
        other => panic!("unexpected {other:?}"),
    }
    assert_eq!(a.contacts()[0].0, "bob");
}

#[test]
fn add_contact__should_refuse_a_record_overlapping_two_contacts() {
    let mut a = Client::new(key(200));
    a.add_contact(&record(vec![key(1)], Some("bob"), mailbox("bb@203.0.113.2:2")), None, &mut TestMint(1))
        .expect("add");
    a.add_contact(&record(vec![key(2)], Some("carol"), mailbox("cc@203.0.113.3:3")), None, &mut TestMint(2))
        .expect("add");
    let both = record(vec![key(1), key(2)], Some("bob"), mailbox("bb@203.0.113.2:2"));
    match a.add_contact(&both, None, &mut TestMint(3)) {
        Err(Error::AmbiguousOverlap(names)) => assert_eq!(names, "bob, carol"),
        other => panic!("unexpected {other:?}"),
    }
    match a.preview_contact(&both) {
        RecordMatch::Ambiguous { petnames } => {
            assert_eq!(petnames, vec!["bob".to_string(), "carol".to_string()])
        }
        other => panic!("unexpected {other:?}"),
    }
    assert!(matches!(a.update_contact(&both), Err(Error::AmbiguousOverlap(_))));
}

#[test]
fn add_contact__should_reject_a_petname_collision_without_key_overlap() {
    let mut a = Client::new(key(200));
    a.add_contact(&record(vec![key(1)], Some("bob"), mailbox("bb@203.0.113.2:2")), None, &mut TestMint(1))
        .expect("add");
    let other = record(vec![key(2)], Some("bob"), mailbox("cc@203.0.113.3:3"));
    assert!(matches!(a.add_contact(&other, None, &mut TestMint(2)), Err(Error::PetnameCollision(_))));
    assert!(a.add_contact(&other, Some("bob2".to_string()), &mut TestMint(2)).is_ok());
}

#[test]
fn add_contact__should_refuse_unusable_records() {
    let mut a = Client::new(key(200));
    let keyless = record(vec![], Some("x"), mailbox("x@203.0.113.1:1"));
    let relayless = record(vec![key(1)], Some("x"), vec![]);
    let nameless = record(vec![key(1)], None, mailbox("x@203.0.113.1:1"));
    for (bad, why) in [
        (keyless, "record has no keys"),
        (relayless, "record has no relays — no way to reach them"),
        (nameless, "record has no valid self-claimed name; provide a petname"),
    ] {
        match a.add_contact(&bad, None, &mut TestMint(1)) {
            Err(Error::InvalidRecord(text)) => assert_eq!(text, why),
            other => panic!("unexpected {other:?}"),
        }
    }
}

#[test]
fn set_relay_override__should_win_until_cleared() {
    let mut a = Client::new(key(200));
    a.add_contact(&record(vec![key(1)], Some("bob"), mailbox("bb@203.0.113.2:2")), None, &mut TestMint(1))
        .expect("add");
    a.set_relay_override("bob", &vec!["mine@203.0.113.9:9#http://u".to_string()], None)
        .expect("override");
    assert_eq!(
        a.resolve_contact("bob").expect("resolve").relays,
        vec!["mine@203.0.113.9:9".to_string()]
    );
    assert_eq!(a.relay_status("bob").expect("status").source, RelaySource::Override);
    a.set_relay_override("bob", &vec![], None).expect("clear");
    assert_eq!(
        a.resolve_contact("bob").expect("resolve").relays,
        vec!["bb@203.0.113.2:2".to_string()]
    );
}

#[test]
fn set_relay_override__should_reject_an_invalid_spec() {
    let mut a = Client::new(key(200));
    a.add_contact(&record(vec![key(1)], Some("bob"), mailbox("bb@203.0.113.2:2")), None, &mut TestMint(1))
        .expect("add");
    let refused = Some(Error::InvalidInput("relay spec needs an @".to_string()));
    assert!(matches!(
        a.set_relay_override("bob", &vec!["nonsense".to_string()], refused),
        Err(Error::InvalidInput(_))
    ));
    assert_eq!(a.relay_status("bob").expect("status").source, RelaySource::Scanned);
}

#[test]
fn update_contact__should_clear_a_relay_override() {
    let mut a = Client::new(key(200));
    a.add_contact(&record(vec![key(1)], Some("bob"), mailbox("bb@203.0.113.2:2")), None, &mut TestMint(1))
        .expect("add");
    a.set_relay_override("bob", &vec!["mine@203.0.113.9:9".to_string()], None).expect("override");
    a.update_contact(&record(vec![key(1)], Some("bob"), mailbox("b3@203.0.113.4:4")))
        .expect("update");
    assert_eq!(
        a.resolve_contact("bob").expect("resolve").relays,
        vec!["b3@203.0.113.4:4".to_string()]
    );
}

#[test]
fn relay_status__should_report_provenance_and_debt() {
    let mut a = Client::new(key(200));
    a.add_contact(&record(vec![key(1)], Some("bob"), mailbox("bb@203.0.113.2:2")), None, &mut TestMint(1))
        .expect("add");
    a.add_outbox(MessageId([1; 32]), "bb@203.0.113.2:2", MessageId([9; 32]), 70);
    a.add_outbox(MessageId([2; 32]), "bb@203.0.113.2:2", MessageId([9; 32]), 50);
    a.add_outbox(MessageId([3; 32]), "elsewhere", MessageId([9; 32]), 10);
    let status = a.relay_status("bob").expect("status");
    assert_eq!(status.source, RelaySource::Scanned);
    assert_eq!(status.relays.len(), 1);
    assert_eq!(status.relays[0].owed, 2);
    assert_eq!(status.relays[0].owed_since_ms, Some(50));
    let stamps: Vec<u64> = a.outbox.iter().map(|e: &OutboxEntry| e.created_ms).collect();
    assert_eq!(stamps, vec![10, 50, 70]);
}

#[test]
fn effective_relays__should_bind_a_records_relays_to_its_first_key_only() {
    let mut a = Client::new(key(200));
    let two = record(vec![key(1), key(2)], Some("bob"), mailbox("bb@203.0.113.2:2"));
    a.add_contact(&two, None, &mut TestMint(1)).expect("add");
    assert_eq!(a.relays_of(key(1)).len(), 1);
    assert!(a.relays_of(key(2)).is_empty());
    a.save_learned(key(2), learned(key(1), record(vec![key(2)], None, mailbox("l@203.0.113.5:5")), 7));
    let hearsay = a.relay_resolution(key(2)).expect("resolved");
    assert_eq!(hearsay.source, RelaySource::Hearsay { received_ms: 7 });
    a.save_learned(key(2), learned(key(2), record(vec![key(2)], None, mailbox("s@203.0.113.6:6")), 3));
    let served = a.relay_resolution(key(2)).expect("resolved");
    assert_eq!(served.source, RelaySource::SubjectServed { received_ms: 3 });
    assert_eq!(served.relays[0].mailbox, "s@203.0.113.6:6");
}

#[test]
fn preview_contact__should_report_a_new_record_with_the_self_claim() {
    let a = Client::new(key(200));
    match a.preview_contact(&record(vec![key(1)], Some("bob"), mailbox("bb@203.0.113.2:2"))) {
        RecordMatch::New { suggested_petname } => {
            assert_eq!(suggested_petname.as_deref(), Some("bob"))
        }
        other => panic!("unexpected {other:?}"),
    }
}

#[test]
fn preview_contact__should_diff_an_update_of_one_contact() {
    let mut a = Client::new(key(200));
    a.add_contact(&record(vec![key(1)], Some("Anna"), mailbox("old@203.0.113.2:2")), None, &mut TestMint(1))
        .expect("add");
    let renamed = record(vec![key(1), key(2)], Some("Ann"), mailbox("new@203.0.113.3:3"));
    let RecordMatch::Update(update) = a.preview_contact(&renamed) else {
        panic!("expected an update match");
    };
    assert_eq!(update.petname, "Anna");
    assert_eq!(update.old_name.as_deref(), Some("Anna"));
    assert_eq!(update.new_name.as_deref(), Some("Ann"));
    assert_eq!(update.relays_added, vec!["new@203.0.113.3:3".to_string()]);
    assert_eq!(update.relays_removed, vec!["old@203.0.113.2:2".to_string()]);
    assert_eq!(update.keys_added, 1);
    assert_eq!(update.keys_removed, 0);
    assert_eq!(a.update_contact(&renamed).expect("update"), "Anna");
    assert_eq!(a.contacts()[0].1.name_claim, Some(("Ann".to_string(), 0)));
    let same = RecordUpdate::diff("Anna", &renamed, &renamed);
    assert!(same.relays_added.is_empty() && same.relays_removed.is_empty());
}

#[test]
fn update_contact__should_replace_the_record_and_keep_the_petname() {
    let mut mint = TestMint(1);
    let mut a = Client::new(key(200));
    let first = record(vec![key(1)], Some("Anna"), mailbox("old@203.0.113.2:2"));
    a.add_contact(&first, Some("sis".to_string()), &mut mint).expect("add");
    let fresh = record(vec![key(1)], Some("Ann"), mailbox("new@203.0.113.3:3"));
    assert_eq!(a.update_contact(&fresh).expect("update"), "sis");
    assert_eq!(a.contacts().len(), 1);
    assert_eq!(a.contacts()[0].0, "sis");
    assert_eq!(a.contacts()[0].1.relays[0].mailbox, "new@203.0.113.3:3");
    assert_eq!(mint.0, 2, "an update mints no person");
    assert!(a.unclaimed_entries().is_empty());
}

#[test]
fn update_contact__should_refuse_a_record_matching_no_contact() {
    let mut a = Client::new(key(200));
    match a.update_contact(&record(vec![key(1)], Some("bob"), mailbox("bb@203.0.113.2:2"))) {
        Err(Error::NotAContact(text)) => {
            assert_eq!(text, "record shares no key with a stored contact — add it instead")
        }
        other => panic!("unexpected {other:?}"),
    }
}

#[test]
fn rename__should_move_my_petname_only() {
    let mut a = Client::new(key(200));
    a.add_contact(&record(vec![key(1)], Some("bob"), mailbox("bb@203.0.113.2:2")), None, &mut TestMint(1))
        .expect("add");
    a.add_contact(&record(vec![key(2)], Some("carol"), mailbox("cc@203.0.113.3:3")), None, &mut TestMint(2))
        .expect("add");
    a.rename("bob", " bobby ", &mut TestMint(90)).expect("rename");
    assert_eq!(a.contacts()[0].0, "bobby");
    assert!(matches!(a.rename("bobby", "carol", &mut TestMint(90)), Err(Error::PetnameCollision(_))));
    assert!(matches!(a.rename("bobby", "", &mut TestMint(90)), Err(Error::InvalidInput(_))));
    assert!(matches!(a.rename("nobody", "x", &mut TestMint(90)), Err(Error::NotAContact(_))));
    assert!(a.rename("bobby", "bobby", &mut TestMint(90)).is_ok());
}

#[test]
fn contact_spec__should_parse_keys_and_relays() {
    let hex = "01".repeat(32);
    let spec = format!("{hex}@r1@203.0.113.1:1,r2@203.0.113.2:2");
    let relays = vec!["r1@203.0.113.1:1".to_string(), "r2@203.0.113.2:2".to_string()];
    assert_eq!(Contact::spec_relays(spec.as_str()), relays);
    let contact = Contact::parse(spec.as_str(), None).expect("parses");
    assert_eq!(contact.keys, vec![key(1)]);
    assert_eq!(contact.relays, relays);
    let shown = |r: Result<Contact, Error>| r.err().map(|e| e.message());
    assert_eq!(
        shown(Contact::parse("nonsense", None)),
        Some("invalid input: contact must be <pubkey>@<relay>[,<relay>...]".to_string())
    );
    assert_eq!(
        shown(Contact::parse("abc@r", None)),
        Some("invalid input: expected 64 hex chars, got 3".to_string())
    );
    let refused = Some(Error::InvalidInput("no dial string".to_string()));
    assert_eq!(
        shown(Contact::parse("abc@r", refused)),
        Some("invalid input: no dial string".to_string())
    );
}
