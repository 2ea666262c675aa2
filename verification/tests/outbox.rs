#![allow(non_snake_case)]

use zink_client::client::{Client, LearnedRecord};
use zink_client::history::{Dag, Envelope};
use zink_client::ids::{BlobHash, MessageId, PublicKey};
use zink_client::outbox::{FlushReport, OUTBOX_GIVE_UP_MS};
use zink_client::record::{ContactRecord, RelayEntry};
use zink_client::rng::TestMint;
use zink_client::store::Graph;

fn key(byte: u8) -> PublicKey {
    PublicKey([byte; 32])
}

fn mid(byte: u8) -> MessageId {
    MessageId([byte; 32])
}

fn record(byte: u8, mailbox: &str) -> ContactRecord {
    ContactRecord {
        keys: vec![key(byte)],
        attestations: vec![],
        relays: vec![RelayEntry { mailbox: mailbox.to_string(), relay_url: None }],
        name_claim: Some((format!("n{byte}"), 0)),
        avatar_claim: None,
    }
}

fn envelope(n: u8, recipients: Vec<u8>, blobs: Vec<u8>) -> Envelope {
    Envelope {
        id: mid(n),
        conversation: None,
        parents: vec![],
        recipients: recipients.into_iter().map(key).collect(),
        sender: key(200),
        seq: 0,
        logical: 0,
        timestamp_ms: 0,
        blob_refs: blobs.into_iter().map(|b| BlobHash([b; 32])).collect(),
        wraps: vec![],
        supported: true,
        verified: true,
        body: Ok(vec![]),
    }
}

fn graph(n: u8) -> Graph {
    Graph {
        dag: Some(Dag {
            heads: vec![mid(n)],
            order: vec![mid(n)],
            crossed: vec![],
            next_seq: 0,
            next_logical: 1,
        }),
        fault: String::new(),
    }
}

const T0: u64 = 1_000_000_000_000;

fn sender() -> Client {
    let mut a = Client::new(key(200));
    a.add_contact(&record(1, "old"), None, &mut TestMint(1)).expect("add");
    a.remember(envelope(10, vec![1], vec![]), graph(10), T0);
    a.add_outbox(mid(10), "old", mid(10), T0);
    a
}

fn relays(a: &Client) -> Vec<String> {
    a.outbox.iter().map(|e| e.relay.clone()).collect()
}

#[test]
fn delivery__should_recover_when_a_dead_relay_returns() {
    let mut a = sender();
    let (due, mut report) = a.flush_outbox(T0 + 5);
    assert_eq!(due.len(), 1);
    a.note_retry(&due[0], false, &mut report);
    assert_eq!((report.delivered, report.pending), (0, 1));
    let (due, mut report) = a.flush_outbox(T0 + 10);
    a.note_retry(&due[0], true, &mut report);
    assert_eq!((report.delivered, report.pending), (1, 0));
    assert!(a.outbox.is_empty());
}

#[test]
fn flush__should_follow_the_recipient_to_their_new_relay() {
    let mut a = sender();
    a.save_learned(
        key(1),
        LearnedRecord {
            responder: key(1),
            record: record(1, "new"),
            endorsements: vec![],
            received_ms: 1,
        },
    );
    let (due, report) = a.flush_outbox(T0 + 5);
    assert_eq!(due.len(), 1);
    assert_eq!(due[0].relay, "new");
    assert_eq!(report.released, 1);
    assert_eq!(relays(&a), vec!["new".to_string()]);
}

#[test]
fn flush__should_release_the_debt_once_every_recipient_acked() {
    let mut a = sender();
    a.add_acks(mid(10), &vec![key(1)]);
    let (due, report) = a.flush_outbox(T0 + 5);
    assert!(due.is_empty() && a.outbox.is_empty());
    assert_eq!(report.released, 1);
}

#[test]
fn flush__should_keep_blob_messages_on_their_relays_despite_acks() {
    let mut a = Client::new(key(200));
    a.add_contact(&record(1, "old"), None, &mut TestMint(1)).expect("add");
    a.remember(envelope(10, vec![1], vec![3, 4]), graph(10), T0);
    a.add_outbox(mid(10), "old", mid(10), T0);
    a.add_acks(mid(10), &vec![key(1)]);
    let (due, _) = a.flush_outbox(T0 + 5);
    assert_eq!(due.len(), 1);
    let blobs = a.reload_owed(&due[0], &vec![BlobHash([4; 32])]).expect("envelope held");
    assert_eq!(blobs, vec![BlobHash([4; 32])]);
}

#[test]
fn flush__should_keep_staged_relays_for_recipients_without_a_record() {
    let mut a = Client::new(key(200));
    a.remember(envelope(10, vec![7], vec![]), graph(10), T0);
    a.add_outbox(mid(10), "staged", mid(10), T0);
    let (due, report) = a.flush_outbox(T0 + 5);
    assert_eq!(due[0].relay, "staged");
    assert_eq!(report.released, 0);
}

#[test]
fn flush__should_inherit_the_original_age_when_retargeting() {
    let mut a = sender();
    a.save_learned(
        key(1),
        LearnedRecord {
            responder: key(1),
            record: record(1, "new"),
            endorsements: vec![],
            received_ms: 1,
        },
    );
    let (due, report) = a.flush_outbox(T0 + OUTBOX_GIVE_UP_MS + 1);
    assert!(due.is_empty(), "past the give-up window");
    assert_eq!(report.expired, 1);
    assert_eq!(a.outbox[0].created_ms, T0);
    assert_eq!(a.pending_since(&mid(10)), Some(T0), "still surfaced");
}

#[test]
fn flush__should_drop_a_debt_without_its_envelope() {
    let mut a = Client::new(key(200));
    a.add_outbox(mid(10), "r", mid(10), T0);
    let (due, report) = a.flush_outbox(T0);
    assert!(due.is_empty() && a.outbox.is_empty());
    assert_eq!(report.released, 0);
    let zero = FlushReport::default();
    assert_eq!((zero.delivered, zero.pending, zero.expired, zero.released), (0, 0, 0, 0));
}

#[test]
fn flush__should_change_nothing_the_second_time() {
    let mut a = sender();
    a.save_learned(
        key(1),
        LearnedRecord {
            responder: key(1),
            record: record(1, "new"),
            endorsements: vec![],
            received_ms: 1,
        },
    );
    let (_, first) = a.flush_outbox(T0 + 5);
    let (due, second) = a.flush_outbox(T0 + 6);
    assert_eq!((first.released, second.released), (1, 0));
    assert_eq!(relays(&a), vec!["new".to_string()]);
    assert_eq!(due[0].created_ms, T0, "the age is still the message's");
}
