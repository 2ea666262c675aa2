#![allow(non_snake_case)]

use zink_client::client::Client;
use zink_client::error::Error;
use zink_client::history::{Dag, Envelope};
use zink_client::ids::{MessageId, PublicKey};
use zink_client::reach::{Reach, ReachLedger};
use zink_client::record::{ContactRecord, RelayEntry};
use zink_client::relays::{Contact, Peer, Refusal};
use zink_client::rng::TestMint;
use zink_client::send::{settle_direct, DirectOutcome, MessageDraft};
use zink_client::store::Graph;
use zink_client::time::Duration;

fn key(byte: u8) -> PublicKey {
    PublicKey([byte; 32])
}

fn mid(byte: u8) -> MessageId {
    MessageId([byte; 32])
}

fn record(byte: u8, name: &str, mailbox: &str, url: Option<&str>) -> ContactRecord {
    ContactRecord {
        keys: vec![key(byte)],
        attestations: vec![],
        relays: vec![RelayEntry {
            mailbox: mailbox.to_string(),
            relay_url: url.map(|u| u.to_string()),
        }],
        name_claim: Some((name.to_string(), 0)),
        avatar_claim: None,
    }
}

fn contact(keys: Vec<PublicKey>, relays: Vec<&str>) -> Contact {
    Contact { keys, relays: relays.into_iter().map(|r| r.to_string()).collect() }
}

fn seal(n: u8, draft: &MessageDraft, sender: PublicKey) -> Envelope {
    Envelope {
        id: mid(n),
        conversation: draft.conversation,
        parents: draft.parents.clone(),
        recipients: draft.recipients.clone(),
        sender,
        seq: draft.seq,
        logical: draft.logical,
        timestamp_ms: draft.timestamp_ms,
        blob_refs: vec![],
        wraps: draft.recipients.clone(),
        supported: true,
        verified: true,
        body: Ok(b"hi".to_vec()),
    }
}

fn graph(heads: Vec<MessageId>, next_seq: u64, next_logical: u64) -> Graph {
    Graph {
        dag: Some(Dag { order: heads.clone(), heads, crossed: vec![], next_seq, next_logical }),
        fault: String::new(),
    }
}

const ME: u8 = 200;

#[test]
fn send_draft__should_begin_then_continue_a_conversation() {
    let mut a = Client::new(key(ME));
    let contacts = vec![contact(vec![key(1)], vec!["r1"])];
    let draft = a.send_draft(&contacts, 5).expect("draft");
    assert_eq!(draft.conversation, None);
    assert_eq!(draft.recipients, vec![key(1)]);
    assert_eq!(draft.timestamp_ms, 5);
    let staged = a.stage(seal(10, &draft, key(ME)), graph(vec![mid(10)], 1, 1), 0, &contacts, 7);
    assert_eq!(staged.conversation, mid(10));
    let next = a.send_draft(&contacts, 9).expect("draft");
    assert_eq!(next.conversation, Some(mid(10)));
    assert_eq!(next.parents, vec![mid(10)]);
    assert_eq!((next.seq, next.logical), (1, 1));
    assert!(matches!(a.send_draft(&vec![], 9), Err(Error::NoRecipients)));
    assert!(matches!(a.reply_draft(mid(10), &vec![], 9), Err(Error::NoRecipients)));
    assert!(matches!(a.reply_draft(mid(77), &contacts, 9), Err(Error::Storage(_))));
}

#[test]
fn send_in__should_record_the_grown_participant_set() {
    // Given: an existing 1:1; C joins via a reply
    let mut a = Client::new(key(ME));
    let first = vec![contact(vec![key(21)], vec!["rb"])];
    let draft = a.send_draft(&first, 1).expect("draft");
    a.stage(seal(10, &draft, key(ME)), graph(vec![mid(10)], 1, 1), 0, &first, 1);

    // When: replying with C added — no relay takes it
    let both = vec![contact(vec![key(21)], vec!["rb"]), contact(vec![key(22)], vec!["rc"])];
    let draft = a.reply_draft(mid(10), &both, 2).expect("draft");
    let staged = a.stage(seal(11, &draft, key(ME)), graph(vec![mid(11)], 2, 2), 0, &both, 2);
    let deposits = a.plan_deposits(&staged, &vec![]);
    assert_eq!(deposits, vec!["rb".to_string(), "rc".to_string()]);
    let outcomes = vec![
        ("rb".to_string(), Some("down".to_string())),
        ("rc".to_string(), Some("also down".to_string())),
    ];
    match a.finish_delivery(&staged, &vec![], &outcomes) {
        Err(Error::AllRelaysPending(text)) => assert_eq!(text, "also down"),
        other => panic!("unexpected {other:?}"),
    }

    // Then: the sender's own index maps the grown set
    assert_eq!(a.conversation_for(&vec![key(21), key(22), key(ME)]), Some(mid(10)));
    assert_eq!(a.send_draft(&both, 3).expect("draft").conversation, Some(mid(10)));
}

#[test]
fn stage_send__should_store_and_ledger_before_any_delivery() {
    let mut a = Client::new(key(ME));
    let contacts = vec![
        contact(vec![key(1), key(2)], vec!["r1", "r2"]),
        contact(vec![key(3)], vec!["r2", "r3"]),
    ];
    let draft = a.send_draft(&contacts, 1).expect("draft");
    let staged = a.stage(seal(10, &draft, key(ME)), graph(vec![mid(10)], 1, 1), 0, &contacts, 42);
    assert_eq!(staged.relays, vec!["r1".to_string(), "r2".to_string(), "r3".to_string()]);
    assert_eq!(a.outbox.len(), 3);
    assert_eq!(a.pending_since(&mid(10)), Some(42));
    assert!(a.load_envelope(mid(10), mid(10)).is_some());
    let history = a.history(mid(10)).expect("history");
    assert!(history[0].pending);
}

#[test]
fn send_to_self__should_append_recognized_devices_and_not_fork() {
    let mut a = Client::new(key(ME));
    a.recognize_device(&record(150, "laptop", "ll@203.0.113.5:5", None)).expect("recognize");
    let contacts = vec![contact(vec![key(1)], vec!["r1"])];
    let mut draft = a.send_draft(&contacts, 1).expect("draft");
    let mut everyone = vec![contact(vec![key(1)], vec!["r1"])];
    a.include_devices(&mut draft, &mut everyone);
    assert_eq!(draft.recipients, vec![key(1), key(150)]);
    assert_eq!(everyone.len(), 2);
    assert_eq!(everyone[1].relays, vec!["ll@203.0.113.5:5".to_string()]);
    a.stage(seal(10, &draft, key(ME)), graph(vec![mid(10)], 1, 1), 0, &everyone, 1);
    assert_eq!(a.send_draft(&contacts, 2).expect("draft").conversation, Some(mid(10)));
    // Once addressed, a device is not appended again.
    let mut again = a.genesis_draft(vec![key(150)], 1);
    a.include_devices(&mut again, &mut Vec::new());
    assert_eq!(again.recipients, vec![key(150)]);
}

#[test]
fn send__should_not_skip_a_relay_hosting_a_recipient_that_did_not_ack() {
    let mut a = Client::new(key(ME));
    let contacts = vec![
        contact(vec![key(1)], vec!["shared", "own1"]),
        contact(vec![key(2)], vec!["shared"]),
    ];
    let draft = a.send_draft(&contacts, 1).expect("draft");
    let staged = a.stage(seal(10, &draft, key(ME)), graph(vec![mid(10)], 1, 1), 0, &contacts, 1);
    let direct = vec![key(1)];
    assert_eq!(a.plan_deposits(&staged, &direct), vec!["shared".to_string()]);
    assert_eq!(a.acks_of(&mid(10)), vec![key(1)]);
    assert_eq!(a.outbox.len(), 1, "own1 is discharged");
    let receipt = a
        .finish_delivery(&staged, &direct, &vec![("shared".to_string(), None)])
        .expect("delivered");
    assert_eq!(receipt.relay_count, 2);
    assert_eq!(receipt.skipped_relays, 1);
    assert_eq!(receipt.pending_relays, 0);
    assert_eq!(receipt.direct_recipients, 1);
    assert!(a.outbox.is_empty());
}

#[test]
fn send__should_keep_blob_messages_on_their_relays() {
    let mut a = Client::new(key(ME));
    let contacts = vec![contact(vec![key(1)], vec!["r1"])];
    let draft = a.send_draft(&contacts, 1).expect("draft");
    let staged = a.stage(seal(10, &draft, key(ME)), graph(vec![mid(10)], 1, 1), 2, &contacts, 1);
    assert_eq!(a.plan_deposits(&staged, &vec![key(1)]), vec!["r1".to_string()]);
}

#[test]
fn send__should_succeed_where_only_the_peer_took_it() {
    let mut a = Client::new(key(ME));
    let contacts = vec![contact(vec![key(1)], vec!["r1"]), contact(vec![key(2)], vec!["r2"])];
    let draft = a.send_draft(&contacts, 1).expect("draft");
    let staged = a.stage(seal(10, &draft, key(ME)), graph(vec![mid(10)], 1, 1), 0, &contacts, 1);
    let direct = vec![key(1)];
    a.plan_deposits(&staged, &direct);
    let outcomes = vec![("r2".to_string(), Some("down".to_string()))];
    let receipt = a.finish_delivery(&staged, &direct, &outcomes).expect("partly delivered");
    assert_eq!(receipt.pending_relays, 1);
    assert_eq!(a.outbox.len(), 1);
    assert_eq!(a.outbox[0].relay, "r2");
}

#[test]
fn direct_targets__should_need_a_route_and_evidence() {
    let mut a = Client::new(key(ME));
    a.add_contact(&record(1, "b", "bb", Some("http://b")), None, &mut TestMint(1)).expect("add");
    a.add_contact(&record(2, "c", "cc", None), None, &mut TestMint(2)).expect("add");
    a.add_contact(&record(3, "d", "dd", Some("http://d")), None, &mut TestMint(3)).expect("add");
    let now = 1_000_000;
    let mut reach = ReachLedger::restore(vec![([3; 32], now)], now);
    reach.note_seen(&key(1), now);
    let timeout = Duration::from_secs(10);
    let targets = a.direct_targets(&reach, &vec![key(1), key(2), key(3), key(ME)], now, timeout, &vec![]);
    assert_eq!(targets.len(), 1);
    assert_eq!(targets[0].peer.key, key(1));
    assert_eq!(targets[0].peer.relays, vec!["http://b".to_string()]);
    assert_eq!(targets[0].budget, Duration::from_secs(3));
}

#[test]
fn direct_targets__should_leave_out_whom_the_transport_refuses() {
    let mut a = Client::new(key(ME));
    a.add_contact(&record(1, "b", "bb", Some("not a url")), None, &mut TestMint(1)).expect("add");
    let now = 1_000_000;
    let mut reach = ReachLedger::restore(vec![], now);
    reach.note_seen(&key(1), now);
    let timeout = Duration::from_secs(10);
    let refused = vec![Refusal {
        peer: Peer { key: key(1), relays: vec!["not a url".to_string()] },
        why: Error::InvalidInput("bad relay url".to_string()),
    }];
    assert_eq!(a.direct_targets(&reach, &vec![key(1)], now, timeout, &vec![]).len(), 1);
    assert!(a.direct_targets(&reach, &vec![key(1)], now, timeout, &refused).is_empty());
}

#[test]
fn settle_direct__should_note_each_outcome_and_list_who_acked() {
    let now = 1_000_000;
    let mut reach = ReachLedger::restore(vec![([2; 32], now - 1)], now);
    let acked = settle_direct(
        &mut reach,
        &vec![
            (key(5), DirectOutcome::Stored),
            (key(2), DirectOutcome::NotHeld),
            (key(3), DirectOutcome::Failed),
            (key(1), DirectOutcome::Stored),
        ],
        now,
    );
    assert_eq!(acked, vec![key(1), key(5)]);
    assert_eq!(reach.reach_of(&key(5)), Reach { seen_ms: now, failed_ms: 0 });
    assert_eq!(reach.reach_of(&key(2)), Reach { seen_ms: now, failed_ms: now - 1 });
    assert_eq!(reach.reach_of(&key(3)), Reach { seen_ms: 0, failed_ms: now });
}

#[test]
fn reply_contacts__should_seal_for_members_without_a_route() {
    let mut a = Client::new(key(ME));
    a.add_contact(&record(1, "b", "bb", None), None, &mut TestMint(1)).expect("add");
    a.add_contact(&record(3, "lost", "dd", None), None, &mut TestMint(3)).expect("add");
    a.repudiate(key(3)).expect("repudiate");
    let draft = a.genesis_draft(vec![key(1), key(2), key(3)], 1);
    a.remember(seal(10, &draft, key(ME)), graph(vec![mid(10)], 1, 1), 1);
    let reply = a.reply_contacts(mid(10)).expect("reply");
    let keys: Vec<PublicKey> = reply.contacts.iter().map(|c| c.keys[0]).collect();
    assert_eq!(keys, vec![key(1), key(2)]);
    assert_eq!(reply.contacts[0].relays, vec!["bb".to_string()]);
    assert_eq!(reply.unknown, vec![key(2)]);
    assert_eq!(reply.disavowed, vec![key(3)]);
    assert!(matches!(a.reply_contacts(mid(99)), Err(Error::Storage(_))));
}

#[test]
fn add_acks__should_union_so_a_later_pass_cannot_erase_a_confirmation() {
    let mut a = Client::new(key(ME));
    a.add_acks(mid(1), &vec![key(5)]);
    a.add_acks(mid(1), &vec![]);
    a.add_acks(mid(1), &vec![key(3), key(5)]);
    assert_eq!(a.acks_of(&mid(1)), vec![key(3), key(5)]);
    assert!(a.acks_of(&mid(2)).is_empty());
}
