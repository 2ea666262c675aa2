#![allow(non_snake_case)]

use zink_client::client::Client;
use zink_client::error::Error;
use zink_client::history::{Dag, Envelope};
use zink_client::ids::{MessageId, PublicKey};
use zink_client::recv::{collect_drains, Drain, MailItem, PageStep, Received, RelayFailure};
use zink_client::store::Graph;

fn key(byte: u8) -> PublicKey {
    PublicKey([byte; 32])
}

fn mid(byte: u8) -> MessageId {
    MessageId([byte; 32])
}

fn envelope(n: u8, opened: bool) -> Envelope {
    Envelope {
        id: mid(n),
        conversation: None,
        parents: vec![],
        recipients: vec![key(200)],
        sender: key(9),
        seq: 0,
        logical: 0,
        timestamp_ms: 0,
        blob_refs: vec![],
        wraps: vec![key(200)],
        supported: true,
        verified: true,
        body: if opened { Ok(vec![n]) } else { Err("no key wrap".to_string()) },
    }
}

fn item(cursor: u64, envelope: Envelope) -> MailItem {
    let id = envelope.id;
    let dag = Dag { heads: vec![id], order: vec![id], crossed: vec![], next_seq: 0, next_logical: 1 };
    MailItem { cursor, envelope, graph: Graph { dag: Some(dag), fault: String::new() } }
}

#[test]
fn drain_page__should_dedup_open_remember_and_ack() {
    let mut a = Client::new(key(200));
    let mut seen = vec![mid(5)];
    let mut received = Vec::new();
    let mut future = envelope(4, true);
    future.supported = false;
    let page = vec![
        item(3, envelope(1, true)),
        item(9, envelope(2, false)),
        item(4, envelope(5, true)),
        item(5, future),
        item(6, envelope(1, true)),
    ];
    let step = a.drain_page("relay", 2, &page, &mut seen, &mut received, 77);
    assert_eq!(step, PageStep::Ack(9));
    let ids: Vec<MessageId> = received.iter().map(|m: &Received| m.envelope.id).collect();
    assert_eq!(ids, vec![mid(1), mid(2)]);
    assert_eq!(received[0].relay.as_deref(), Some("relay"));
    assert_eq!(seen, vec![mid(1), mid(2), mid(5)]);
    assert_eq!(a.conversations.len(), 1, "only what opened is remembered");
    assert_eq!(a.conversations[0].first_seen_ms, Some(77));
    assert_eq!(a.conversation_for(&vec![key(9), key(200)]), Some(mid(1)));
}

#[test]
fn drain_page__should_abandon_a_page_that_does_not_advance() {
    let mut a = Client::new(key(200));
    let mut seen = Vec::new();
    let mut received = Vec::new();
    let page = vec![item(3, envelope(1, true))];
    assert_eq!(a.drain_page("r", 3, &page, &mut seen, &mut received, 1), PageStep::Stuck);
    assert!(received.is_empty() && a.conversations.is_empty());
    assert_eq!(a.drain_page("r", 3, &vec![], &mut seen, &mut received, 1), PageStep::Drained);
}

#[test]
fn recv__should_drain_the_healthy_relay_when_another_is_unreachable() {
    // Given: one relay down, mail on the other
    let down = |relay: &str| {
        Drain::Failed(RelayFailure {
            relay: relay.to_string(),
            error: Error::Unreachable(format!("connect to {relay}: timed out")),
        })
    };
    let mail = Received { envelope: envelope(1, true), relay: Some("up".to_string()) };
    let drains = vec![down("dead"), Drain::Done { relay: "up".to_string(), batch: vec![mail] }];

    // Then: a partial view that says so
    let report = collect_drains(drains).expect("partial drain succeeds");
    assert_eq!(report.received.len(), 1);
    assert!(report.received[0].envelope.body.is_ok());
    assert_eq!(report.failed.len(), 1, "the dead relay is named");
    assert_eq!(report.failed[0].relay, "dead");

    // And: nothing drained anywhere is the first failure
    match collect_drains(vec![down("dead"), down("other")]) {
        Err(Error::Unreachable(text)) => assert_eq!(text, "connect to dead: timed out"),
        other => panic!("unexpected {:?}", other.is_ok()),
    }
    assert!(collect_drains(vec![]).is_ok());
}
