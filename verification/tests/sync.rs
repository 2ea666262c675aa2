#![allow(non_snake_case)]

use zink_client::client::Client;
use zink_client::history::{Dag, Envelope};
use zink_client::ids::{BlobHash, MessageId, PublicKey};
use zink_client::profile::Profile;
use zink_client::reach::ReachLedger;
use zink_client::record::{Attestation, Claim, ContactRecord, RelayEntry, SignedAttestation};
use zink_client::rng::TestMint;
use zink_client::store::Graph;
use zink_client::sync::{SyncAnswer, SyncOp};
use zink_client::who_is::WhoIsReply;

fn key(byte: u8) -> PublicKey {
    PublicKey([byte; 32])
}

fn mid(byte: u8) -> MessageId {
    MessageId([byte; 32])
}

fn record(byte: u8, name: &str) -> ContactRecord {
    ContactRecord {
        keys: vec![key(byte)],
        attestations: vec![],
        relays: vec![RelayEntry { mailbox: "m@203.0.113.1:1".to_string(), relay_url: None }],
        name_claim: Some((name.to_string(), 0)),
        avatar_claim: None,
    }
}

fn envelope(n: u8, recipients: Vec<u8>) -> Envelope {
    Envelope {
        id: mid(n),
        conversation: None,
        parents: vec![],
        recipients: recipients.into_iter().map(key).collect(),
        sender: key(1),
        seq: 0,
        logical: 0,
        timestamp_ms: 0,
        blob_refs: vec![],
        wraps: vec![],
        supported: true,
        verified: true,
        body: Ok(vec![n]),
    }
}

fn graph(n: u8) -> Graph {
    Graph {
        dag: Some(Dag {
            heads: vec![mid(n)],
            order: vec![mid(n)],
            crossed: vec![],
            next_seq: 0,
            next_logical: 1,
        }),
        fault: String::new(),
    }
}

fn serving() -> Client {
    let mut b = Client::new(key(200));
    b.add_contact(&record(1, "anna"), None, &mut TestMint(1)).expect("add");
    b.recognize_device(&record(150, "laptop")).expect("recognize");
    b.remember(envelope(10, vec![200]), graph(10), 1);
    b
}

fn deliver(e: Envelope) -> Option<SyncOp> {
    Some(SyncOp::Deliver { envelope: e, graph: graph(10) })
}

#[test]
fn serves__should_gate_on_contacts_and_own_devices() {
    let b = serving();
    assert!(b.serves(key(1)));
    assert!(b.serves(key(150)));
    assert!(b.serves(key(200)));
    assert!(!b.serves(key(66)));
    let mut reach = ReachLedger::restore(vec![], 1_000_000);
    assert!(b.greet(&mut reach, key(1), 1_000_000));
    assert!(!b.greet(&mut reach, key(66), 1_000_000));
    assert_eq!(reach.reach_of(&key(1)).seen_ms, 1_000_000);
    assert_eq!(reach.reach_of(&key(66)).seen_ms, 0);
}

#[test]
fn answer__should_serve_contacts_and_tell_strangers_nothing() {
    let mut b = serving();
    let get = |b: &mut Client, caller: PublicKey, n: u8| {
        let serves = b.serves(caller);
        b.answer(caller, serves, Some(SyncOp::Get { id: mid(n) }), None, 8, 1)
    };
    assert!(matches!(get(&mut b, key(1), 10), SyncAnswer::Envelope(e) if e.id == mid(10)));
    assert!(matches!(get(&mut b, key(1), 11), SyncAnswer::NotHeld));
    assert!(matches!(get(&mut b, key(66), 10), SyncAnswer::NotHeld));
    let children = SyncOp::GetSuccessors { id: mid(10) };
    assert!(matches!(
        b.answer(key(66), false, Some(children), None, 8, 1),
        SyncAnswer::Successors(ids) if ids.is_empty()
    ));
    assert!(matches!(b.answer(key(1), true, None, None, 8, 1), SyncAnswer::Malformed));
}

#[test]
fn who_is__should_serve_a_stored_record_to_contacts_only() {
    let mut b = serving();
    let ask = |b: &mut Client, caller: u8, subject: u8| {
        let serves = b.serves(key(caller));
        b.answer(key(caller), serves, Some(SyncOp::WhoIs { key: key(subject) }), None, 8, 1)
    };
    assert!(matches!(ask(&mut b, 1, 150), SyncAnswer::Known { record, .. } if record.keys == vec![key(150)]));
    assert!(matches!(ask(&mut b, 150, 1), SyncAnswer::Known { .. }));
    assert!(matches!(ask(&mut b, 66, 1), SyncAnswer::NotHeld));
    assert!(matches!(ask(&mut b, 1, 200), SyncAnswer::NotHeld), "no profile yet");
    // Hearsay is never served onward.
    let known = WhoIsReply::Known { record: record(77, "eve"), endorsements: vec![] };
    assert!(b.refresh_on(key(77), &known, 1));
    assert!(matches!(ask(&mut b, 1, 77), SyncAnswer::NotHeld));
}

#[test]
fn who_is__should_carry_the_responders_vouch_as_an_endorsement() {
    let mut b = serving();
    b.vouch("anna").expect("vouch");
    match b.answer(key(1), true, Some(SyncOp::WhoIs { key: key(1) }), None, 8, 1) {
        SyncAnswer::Known { endorsements, .. } => {
            assert_eq!(endorsements.len(), 1);
            assert_eq!(endorsements[0].attestation.attester, key(200));
        }
        other => panic!("unexpected {other:?}"),
    }
}

#[test]
fn who_is__should_serve_the_stance_then_the_shared_picture() {
    let mut b = serving();
    b.vouch("anna").expect("vouch");
    let claim = Claim::Avatar { hash: BlobHash([3; 32]), key: [4; 32] };
    let attestation = Attestation { attester: key(200), subject: key(1), claim, revision: 5 };
    b.save_avatar_share(&key(1), &SignedAttestation { attestation, verified: true });
    match b.answer(key(150), true, Some(SyncOp::WhoIs { key: key(1) }), None, 8, 1) {
        SyncAnswer::Known { endorsements, .. } => {
            assert_eq!(endorsements.len(), 2);
            assert!(matches!(&endorsements[0].attestation.claim, Claim::Name(n) if n == "anna"));
            assert!(matches!(
                &endorsements[1].attestation.claim,
                Claim::Avatar { hash, .. } if *hash == BlobHash([3; 32])
            ));
        }
        other => panic!("unexpected {other:?}"),
    }
    b.remove_avatar_share(&key(1));
    assert!(b.avatar_share_for(&key(1)).is_none());
    match b.answer(key(150), true, Some(SyncOp::WhoIs { key: key(1) }), None, 8, 1) {
        SyncAnswer::Known { endorsements, .. } => assert_eq!(endorsements.len(), 1),
        other => panic!("unexpected {other:?}"),
    }
}

#[test]
fn who_is__should_serve_the_fresh_self_record_for_the_own_key() {
    let mut b = serving();
    let mut profile =
        Profile { name: None, revision: 0, relays: vec![], label: None, avatar: None };
    assert!(b.build_own_record(&profile).is_none());
    profile
        .set_profile("bob", &vec!["m@203.0.113.1:1#http://u".to_string()], None)
        .expect("profile");
    let own = b.build_own_record(&profile);
    match b.answer(key(1), true, Some(SyncOp::WhoIs { key: key(200) }), own, 8, 1) {
        SyncAnswer::Known { record, .. } => {
            assert_eq!(record.keys, vec![key(200)]);
            assert_eq!(record.name_claim, Some(("bob".to_string(), 0)));
        }
        other => panic!("unexpected {other:?}"),
    }
}

#[test]
fn get_keys__should_decline_anyone_but_a_recognized_device() {
    let mut b = serving();
    let ids = vec![mid(10), mid(11), mid(10)];
    assert!(b.get_keys(key(1), &ids, 8).is_none());
    assert!(b.get_keys(key(200), &ids, 8).is_none());
    assert_eq!(b.get_keys(key(150), &ids, 8), Some(vec![mid(10), mid(10)]));
    assert_eq!(b.get_keys(key(150), &ids, 2), Some(vec![mid(10)]));
    let op = Some(SyncOp::GetKeys { ids: vec![mid(10)] });
    assert!(matches!(b.answer(key(1), true, op, None, 8, 1), SyncAnswer::NotHeld));
}

#[test]
fn deliver__should_decline_a_push_from_a_stranger() {
    let mut b = serving();
    let answer = b.answer(key(66), false, deliver(envelope(20, vec![200])), None, 8, 1);
    assert!(matches!(answer, SyncAnswer::NotHeld));
    assert!(b.find_envelope(&mid(20)).is_none());
}

#[test]
fn deliver__should_decline_an_envelope_not_addressed_to_us() {
    let mut b = serving();
    let mut unread = envelope(20, vec![200]);
    unread.supported = false;
    let mut forged = envelope(20, vec![200]);
    forged.verified = false;
    let mut sealed = envelope(20, vec![200]);
    sealed.body = Err("no key wrap".to_string());
    for e in [envelope(20, vec![3]), unread, forged, sealed] {
        let answer = b.answer(key(1), true, deliver(e), None, 8, 1);
        assert!(matches!(answer, SyncAnswer::NotHeld));
    }
    assert!(b.find_envelope(&mid(20)).is_none());
}

#[test]
fn deliver__should_store_before_it_acknowledges() {
    let mut b = serving();
    match b.answer(key(1), true, deliver(envelope(20, vec![200])), None, 8, 1) {
        SyncAnswer::Stored(m) => assert_eq!(m.relay, None),
        other => panic!("unexpected {other:?}"),
    }
    assert!(b.load_envelope(mid(20), mid(20)).is_some());
}
