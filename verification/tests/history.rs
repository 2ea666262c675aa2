#![allow(non_snake_case)]

use zink_client::client::Client;
use zink_client::error::Error;
use zink_client::history::{build_dag, membership_delta, missing_ancestors, triage, ConversationSummary, Dag, Envelope, MAX_MESSAGE_REQUESTS};
use zink_client::ids::{MessageId, PublicKey};
use zink_client::record::{ContactRecord, RelayEntry};
use zink_client::rng::TestMint;
use zink_client::store::Graph;

fn key(byte: u8) -> PublicKey {
    PublicKey([byte; 32])
}

fn mid(byte: u8) -> MessageId {
    MessageId([byte; 32])
}

fn record(byte: u8, name: &str) -> ContactRecord {
    ContactRecord {
        keys: vec![key(byte)],
        attestations: vec![],
        relays: vec![RelayEntry { mailbox: "m@203.0.113.1:1".to_string(), relay_url: None }],
        name_claim: Some((name.to_string(), 0)),
        avatar_claim: None,
    }
}

fn envelope(n: u8, genesis: Option<u8>, parents: Vec<u8>, sender: u8, recipients: Vec<u8>) -> Envelope {
    Envelope {
        id: mid(n),
        conversation: genesis.map(mid),
        parents: parents.into_iter().map(mid).collect(),
        recipients: recipients.into_iter().map(key).collect(),
        sender: key(sender),
        seq: 0,
        logical: 0,
        timestamp_ms: n as u64,
        blob_refs: vec![],
        wraps: vec![],
        supported: true,
        verified: true,
        body: Ok(vec![n]),
    }
}

fn graph(heads: Vec<u8>, order: Vec<u8>, crossed: Vec<u8>) -> Graph {
    Graph {
        dag: Some(Dag {
            heads: heads.into_iter().map(mid).collect(),
            order: order.into_iter().map(mid).collect(),
            crossed: crossed.into_iter().map(mid).collect(),
            next_seq: 0,
            next_logical: 0,
        }),
        fault: String::new(),
    }
}

fn summary(n: u8, known: bool, first_seen_ms: u64) -> ConversationSummary {
    ConversationSummary {
        id: mid(n),
        participants: vec![],
        message_count: 1,
        last_timestamp_ms: 0,
        known,
        first_seen_ms,
    }
}

#[test]
fn triage__should_split_on_the_contributing_contact_rule() {
    // Given: one conversation a contact has written in, one nobody known has
    let inbox = triage(vec![summary(1, true, 10), summary(2, false, 20)]);

    // Then
    assert_eq!(inbox.conversations.len(), 1);
    assert_eq!(inbox.conversations[0].id, MessageId([1; 32]));
    assert_eq!(inbox.requests.len(), 1);
    assert_eq!(inbox.requests[0].id, MessageId([2; 32]));
    assert_eq!(inbox.dropped, 0);
}

#[test]
fn triage__should_order_requests_by_our_clock_not_the_senders() {
    // Given: three requests seen locally in a known order. Their
    // `last_timestamp_ms` is a sender-chosen hint and is deliberately left
    // at 0 — nothing here may depend on it.
    let inbox = triage(vec![
        summary(1, false, 100),
        summary(2, false, 300),
        summary(3, false, 200),
    ]);

    // Then: newest-first by first-seen, so a stranger cannot pin itself
    // to the top of the queue by dating a message in the future.
    let order: Vec<u8> = inbox.requests.iter().map(|s| s.id.0[0]).collect();
    assert_eq!(order, vec![2, 3, 1]);
}

#[test]
fn triage__should_cap_the_requests_queue_and_report_what_it_dropped() {
    // Given: more requests than the queue holds, oldest first
    let flood: Vec<ConversationSummary> = (0..MAX_MESSAGE_REQUESTS + 5)
        .map(|i| summary(i as u8, false, i as u64))
        .collect();

    // When
    let inbox = triage(flood);

    // Then: bounded, newest kept, and the overflow is *counted* rather
    // than silently swallowed
    assert_eq!(inbox.requests.len(), MAX_MESSAGE_REQUESTS);
    assert_eq!(inbox.dropped, 5);
    assert_eq!(
        inbox.requests[0].first_seen_ms,
        (MAX_MESSAGE_REQUESTS + 4) as u64,
        "the newest request survives the cap"
    );
}

#[test]
fn conversations__should_quarantine_a_stranger_until_a_contact_speaks() {
    let mut a = Client::new(key(200));
    a.remember(envelope(1, None, vec![], 81, vec![200]), graph(vec![1], vec![1], vec![]), 5);
    let inbox = triage(a.conversations());
    assert!(inbox.conversations.is_empty());
    assert_eq!(inbox.requests.len(), 1);
    a.add_contact(&record(81, "stranger"), None, &mut TestMint(1)).expect("promote");
    let inbox = triage(a.conversations());
    assert_eq!(inbox.conversations.len(), 1);
    assert!(inbox.requests.is_empty());
    assert_eq!(
        a.history(mid(1)).expect("history").len(),
        1,
        "the message was never withheld from storage"
    );
    assert!(a.has_contributing_contact(mid(1)).expect("stored"));
    assert!(matches!(a.has_contributing_contact(mid(7)), Err(Error::Storage(_))));
}

#[test]
fn membership__should_follow_the_heads_not_the_full_history() {
    // Given: A→{B}; A adds C; A stops including C
    let mut viewer = Client::new(key(200));
    viewer.remember(envelope(11, None, vec![], 1, vec![2]), graph(vec![11], vec![11], vec![]), 1);
    viewer.remember(
        envelope(12, Some(11), vec![11], 1, vec![2, 3]),
        graph(vec![12], vec![11, 12], vec![]),
        1,
    );
    viewer.remember(
        envelope(13, Some(11), vec![12], 1, vec![2]),
        graph(vec![13], vec![11, 12, 13], vec![]),
        1,
    );

    // Then: the sole head excludes C — membership shrank (a full-history
    // union could never)
    assert_eq!(viewer.membership(mid(11)).expect("membership"), vec![key(1), key(2)]);

    // When: a concurrent head (B replying off the add) still holds C
    viewer.remember(
        envelope(14, Some(11), vec![12], 2, vec![1, 3]),
        graph(vec![13, 14], vec![11, 12, 13, 14], vec![14]),
        1,
    );

    // Then: heads union — honest over-inclusion until the fork merges
    assert_eq!(viewer.membership(mid(11)).expect("membership"), vec![key(1), key(2), key(3)]);
    assert!(matches!(viewer.membership(mid(9)), Err(Error::Storage(_))));
}

#[test]
fn history__should_derive_membership_deltas_from_signed_cores() {
    // Given: A→{B}, then C added, then C stop-included
    let mut viewer = Client::new(key(200));
    viewer.remember(envelope(11, None, vec![], 1, vec![2]), graph(vec![11], vec![11], vec![]), 1);
    viewer.remember(
        envelope(12, Some(11), vec![11], 1, vec![2, 3]),
        graph(vec![12], vec![11, 12], vec![]),
        1,
    );
    viewer.remember(
        envelope(13, Some(11), vec![12], 1, vec![2]),
        graph(vec![13], vec![11, 12, 13], vec![]),
        1,
    );

    // When
    let history = viewer.history(mid(11)).expect("history");

    // Then: deltas derive per message — genesis has none, the add joined C,
    // the stop-include left C
    assert!(history[0].joined.is_empty() && history[0].left.is_empty());
    assert_eq!(history[1].joined, vec![key(3)]);
    assert!(history[1].left.is_empty());
    assert_eq!(history[2].left, vec![key(3)]);
    assert!(history[2].joined.is_empty());
    assert_eq!(history[2].body.as_deref(), Ok(&[13u8][..]));
}

#[test]
fn history__should_mark_crossed_and_merged_messages() {
    let mut a = Client::new(key(200));
    a.remember(envelope(1, None, vec![], 1, vec![200]), graph(vec![1], vec![1], vec![]), 1);
    a.remember(envelope(2, Some(1), vec![1], 200, vec![1]), graph(vec![2], vec![1, 2], vec![]), 1);
    a.remember(
        envelope(3, Some(1), vec![1], 1, vec![200]),
        graph(vec![2, 3], vec![1, 2, 3], vec![3]),
        1,
    );
    a.remember(
        envelope(4, Some(1), vec![2, 3], 1, vec![200]),
        graph(vec![4], vec![1, 2, 3, 4], vec![3]),
        1,
    );
    let history = a.history(mid(1)).expect("history");
    let crossed: Vec<bool> = history.iter().map(|m| m.crossed).collect();
    let merged: Vec<bool> = history.iter().map(|m| m.merged).collect();
    assert_eq!(crossed, vec![false, false, true, false]);
    assert_eq!(merged, vec![false, false, false, true]);
}

#[test]
fn history__should_report_no_confirmation_rather_than_a_failure() {
    // Given: a recipient nobody can reach — no peer to ack, no mailbox to
    // deposit in: the relay is still owed
    let mut a = Client::new(key(200));
    let mut sent = envelope(1, None, vec![], 200, vec![62]);
    sent.body = Ok(b"into the void".to_vec());
    a.remember(sent, graph(vec![1], vec![1], vec![]), 1);
    a.add_outbox(mid(1), "3e@203.0.113.9:1", mid(1), 5);

    // Then: no confirmation is claimed, and `pending` — not the empty
    // confirmation — carries the honest "we still owe a relay"
    let history = a.history(mid(1)).expect("history");
    assert!(history[0].confirmed.is_empty(), "nothing acked, so nothing is claimed");
    assert!(history[0].pending, "the ledger still owes the delivery");
    assert_eq!(
        history[0].body.as_deref(),
        Ok(b"into the void".as_slice()),
        "and the message renders regardless"
    );

    // And: an ack is the confirmation, and a settled debt ends the pending
    a.add_acks(mid(1), &vec![key(62)]);
    a.clear_outbox(mid(1), "3e@203.0.113.9:1");
    let history = a.history(mid(1)).expect("history");
    assert_eq!(history[0].confirmed, vec![key(62)]);
    assert!(!history[0].pending);
}

#[test]
fn build_dag__should_put_the_genesis_first() {
    let all = vec![
        envelope(3, Some(1), vec![1], 1, vec![]),
        envelope(1, None, vec![], 1, vec![]),
        envelope(2, Some(1), vec![1], 1, vec![]),
    ];
    assert_eq!(build_dag(&all, mid(1)).expect("order"), vec![1, 0, 2]);
    let orphans = vec![envelope(3, Some(1), vec![1], 1, vec![])];
    match build_dag(&orphans, mid(1)) {
        Err(Error::Conversation(text)) => {
            assert_eq!(text, format!("conversation {} has no genesis on disk", "01".repeat(32)))
        }
        other => panic!("unexpected {other:?}"),
    }
    assert_eq!(missing_ancestors(&orphans), vec![mid(1)]);
    assert!(missing_ancestors(&all).is_empty());
}

#[test]
fn membership_delta__should_ignore_a_message_without_held_parents() {
    let alone = envelope(3, Some(1), vec![1], 1, vec![2]);
    let all = vec![envelope(3, Some(1), vec![1], 1, vec![2])];
    let (joined, left) = membership_delta(&alone, &all);
    assert!(joined.is_empty() && left.is_empty());
}

#[test]
fn successors__should_name_known_children_once() {
    let mut a = Client::new(key(200));
    a.remember(envelope(1, None, vec![], 1, vec![200]), graph(vec![1], vec![1], vec![]), 1);
    a.remember(envelope(3, Some(1), vec![1], 1, vec![200]), graph(vec![3], vec![1, 3], vec![]), 1);
    a.remember(
        envelope(2, Some(1), vec![1], 1, vec![200]),
        graph(vec![2, 3], vec![1, 2, 3], vec![]),
        1,
    );
    assert_eq!(a.successors(mid(1)), vec![mid(2), mid(3)]);
    assert_eq!(a.find_envelope(&mid(3)).map(|e| e.id), Some(mid(3)));
    assert!(a.find_envelope(&mid(8)).is_none());
}

#[test]
fn participant_labels__should_collapse_a_contacts_device_keys_to_one_label() {
    let mut a = Client::new(key(200));
    let mut two = record(1, "bob");
    two.keys = vec![key(1), key(2)];
    a.add_contact(&two, None, &mut TestMint(1)).expect("add");
    a.recognize_device(&record(150, "laptop")).expect("recognize");
    let labels = a.participant_labels(&vec![key(2), key(9), key(1), key(150)]);
    assert_eq!(
        labels,
        vec!["bob".to_string(), "09090909".to_string(), "laptop".to_string()]
    );
}

#[test]
fn remember__should_keep_the_first_seen_stamp() {
    let mut a = Client::new(key(200));
    a.remember(envelope(5, None, vec![], 1, vec![200]), graph(vec![5], vec![5], vec![]), 10);
    a.remember(envelope(6, Some(5), vec![5], 1, vec![200]), graph(vec![6], vec![5, 6], vec![]), 20);
    a.remember(envelope(2, None, vec![], 1, vec![200, 3]), graph(vec![2], vec![2], vec![]), 30);
    let stamps: Vec<(MessageId, Option<u64>)> =
        a.conversations.iter().map(|x| (x.id, x.first_seen_ms)).collect();
    assert_eq!(stamps, vec![(mid(2), Some(30)), (mid(5), Some(10))]);
    assert_eq!(a.conversations[1].envelopes.len(), 2);
    // Storing a message again does not double it.
    a.remember(envelope(6, Some(5), vec![5], 1, vec![200]), graph(vec![6], vec![5, 6], vec![]), 40);
    assert_eq!(a.conversations[1].envelopes.len(), 2);
    assert_eq!(a.conversation_for(&vec![key(1), key(200)]), Some(mid(5)));
}

#[test]
fn remember__should_keep_a_first_seen_stamp_of_zero() {
    let mut a = Client::new(key(200));
    a.remember(envelope(5, None, vec![], 1, vec![200]), graph(vec![5], vec![5], vec![]), 0);
    assert_eq!(a.conversations[0].first_seen_ms, Some(0));
    a.remember(envelope(6, Some(5), vec![5], 1, vec![200]), graph(vec![6], vec![5, 6], vec![]), 20);
    assert_eq!(a.conversations[0].first_seen_ms, Some(0));
    assert_eq!(a.conversations()[0].first_seen_ms, 0);
}

#[test]
fn participant_labels__should_label_a_recognized_device_by_its_self_claim() {
    // Given
    let mut a = Client::new(key(200));
    a.recognize_device(&record(55, "mårten laptop")).expect("recognize");

    // When / Then: the device labels by its self-claim, and the own cluster
    // covers both keys
    assert_eq!(a.participant_labels(&vec![key(55)]), vec!["mårten laptop".to_string()]);
    assert!(a.own_keys().contains(&key(55)));
    assert!(a.own_keys().contains(&a.public_key()));
}

#[test]
fn history__should_say_why_a_body_does_not_open() {
    let mut a = Client::new(key(200));
    let mut sealed = envelope(1, None, vec![], 1, vec![200]);
    sealed.body = Err("no key wrap".to_string());
    a.remember(sealed, graph(vec![1], vec![1], vec![]), 1);
    let history = a.history(mid(1)).expect("history");
    assert_eq!(history[0].body, Err("no key wrap".to_string()));
}
