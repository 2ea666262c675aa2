#![allow(non_snake_case)]

use zink_client::backfill::{chunks, Backward, Forward, ForwardStep, Rewrap, RewrapStep};
use zink_client::client::Client;
use zink_client::error::Error;
use zink_client::history::{Dag, Envelope};
use zink_client::ids::{MessageId, PublicKey};
use zink_client::record::{ContactRecord, RelayEntry};
use zink_client::recv::Received;
use zink_client::relays::{Peer, Refusal};
use zink_client::rng::TestMint;
use zink_client::store::Graph;

fn key(byte: u8) -> PublicKey {
    PublicKey([byte; 32])
}

fn mid(byte: u8) -> MessageId {
    MessageId([byte; 32])
}

fn record(byte: u8, url: Option<&str>) -> ContactRecord {
    ContactRecord {
        keys: vec![key(byte)],
        attestations: vec![],
        relays: vec![RelayEntry {
            mailbox: "m@203.0.113.1:1".to_string(),
            relay_url: url.map(|u| u.to_string()),
        }],
        name_claim: Some((format!("n{byte}"), 0)),
        avatar_claim: None,
    }
}

/// Message `n` of a chain that begins with message 1.
fn link(n: u8) -> Envelope {
    Envelope {
        id: mid(n),
        conversation: if n == 1 { None } else { Some(mid(1)) },
        parents: if n == 1 { vec![] } else { vec![mid(n - 1)] },
        recipients: vec![key(200)],
        sender: key(9),
        seq: n as u64,
        logical: n as u64,
        timestamp_ms: 0,
        blob_refs: vec![],
        wraps: vec![],
        supported: true,
        verified: true,
        body: Err("no key wrap".to_string()),
    }
}

fn graph(n: u8) -> Graph {
    Graph {
        dag: Some(Dag {
            heads: vec![mid(n)],
            order: vec![mid(n)],
            crossed: vec![],
            next_seq: 0,
            next_logical: n as u64,
        }),
        fault: String::new(),
    }
}

#[test]
fn backfill__should_walk_a_conversation_back_to_its_genesis() {
    // Given: a three-message chain of which only the latest is held
    let mut b = Client::new(key(200));
    b.remember(link(3), graph(3), 1);
    assert!(b.conversations[0].graph().is_err(), "no genesis before backfill");

    // When: a peer serves each message asked for
    let mut walk = Backward::new(mid(1), 100);
    let mut asked = Vec::new();
    while let Some(id) = walk.next(&b) {
        asked.push(id);
        let stored = b.accept_fetched(id, mid(1), link(id.0[0]), graph(3), 1);
        walk.note(stored);
    }

    // Then: the two missing ancestors, in order
    assert_eq!(asked, vec![mid(2), mid(1)]);
    assert_eq!(walk.fetched, 2);
    let dag = b.conversations[0].graph().expect("builds after backfill");
    assert_eq!(dag.heads, vec![mid(3)]);
}

#[test]
fn backfill__should_stop_when_the_peer_lacks_the_ancestors() {
    let mut b = Client::new(key(200));
    b.remember(link(5), graph(5), 1);
    let mut walk = Backward::new(mid(1), 100);
    assert_eq!(walk.next(&b), Some(mid(4)));
    walk.note(false);
    assert_eq!(walk.next(&b), None);
}

#[test]
fn backfill__should_stop_at_the_budget() {
    let mut b = Client::new(key(200));
    b.remember(link(9), graph(9), 1);
    let mut walk = Backward::new(mid(1), 2);
    while let Some(id) = walk.next(&b) {
        let stored = b.accept_fetched(id, mid(1), link(id.0[0]), graph(9), 1);
        walk.note(stored);
    }
    assert_eq!(walk.fetched, 2);
}

#[test]
fn accept_fetched__should_trust_a_peer_no_more_than_a_relay() {
    let mut b = Client::new(key(200));
    let mut unverified = link(2);
    unverified.verified = false;
    let mut unread = link(2);
    unread.supported = false;
    assert!(!b.accept_fetched(mid(2), mid(1), link(3), graph(1), 1), "a mismatched id");
    assert!(!b.accept_fetched(mid(2), mid(1), unverified, graph(1), 1));
    assert!(!b.accept_fetched(mid(2), mid(1), unread, graph(1), 1));
    assert!(!b.accept_fetched(mid(2), mid(7), link(2), graph(1), 1), "another conversation");
    assert!(b.conversations.is_empty());
    assert!(b.accept_fetched(mid(2), mid(1), link(2), graph(1), 1));
}

#[test]
fn backfill__should_pull_forward_successors_after_the_backward_walk() {
    // Given: the genesis is held; the peer knows the chain 1 → 2 → 3
    let children = |id: MessageId| match id.0[0] {
        1 => vec![mid(1), mid(2)],
        2 => vec![mid(3)],
        _ => vec![],
    };
    let mut walk = Forward::new(&vec![mid(1)], 100);
    let mut fetched = Vec::new();
    loop {
        match walk.next() {
            ForwardStep::Successors(id) => walk.note_successors(children(id)),
            ForwardStep::Fetch(id) => {
                fetched.push(id);
                walk.note_fetched(true);
            }
            ForwardStep::Done => break,
        }
    }
    assert_eq!(fetched, vec![mid(2), mid(3)]);
    assert_eq!(walk.fetched, 2);
}

#[test]
fn forward__should_stop_at_the_budget_and_skip_what_a_peer_declines() {
    let mut walk = Forward::new(&vec![mid(1)], 1);
    assert!(matches!(walk.next(), ForwardStep::Successors(_)));
    walk.note_successors(vec![mid(5), mid(6), mid(7)]);
    assert!(matches!(walk.next(), ForwardStep::Fetch(id) if id == mid(5)));
    walk.note_fetched(false);
    assert!(matches!(walk.next(), ForwardStep::Fetch(id) if id == mid(6)));
    walk.note_fetched(true);
    assert!(matches!(walk.next(), ForwardStep::Done));
}

#[test]
fn auto_sync__should_heal_an_orphaned_conversation_from_its_sender() {
    let mut b = Client::new(key(200));
    b.remember(link(3), graph(3), 1);
    let mut own = link(4);
    own.sender = key(200);
    let received = vec![
        Received { envelope: own, relay: None },
        Received { envelope: link(3), relay: None },
    ];
    assert_eq!(b.sync_targets(&received), vec![(mid(1), key(9))]);
    b.remember(link(2), graph(3), 1);
    b.remember(link(1), graph(3), 1);
    assert!(b.sync_targets(&received).is_empty(), "ancestor-closed: nothing to heal");
}

#[test]
fn backfill_by_key__should_fail_plainly_without_a_relay_url_in_the_record() {
    let mut b = Client::new(key(200));
    match b.backfill_peer(key(9), &vec![]) {
        Err(Error::NotAContact(text)) => assert_eq!(text, "no stored record for that key"),
        other => panic!("unexpected {other:?}"),
    }
    b.add_contact(&record(9, None), None, &mut TestMint(1)).expect("add");
    assert!(matches!(b.backfill_peer(key(9), &vec![]), Err(Error::NoRelayUrl)));
    b.update_contact(&record(9, Some("http://u"))).expect("update");
    assert_eq!(b.backfill_peer(key(9), &vec![]).expect("peer").relays, vec!["http://u".to_string()]);
}

#[test]
fn rewrap__should_make_pre_pairing_history_readable_on_the_paired_device() {
    let mut b = Client::new(key(200));
    b.recognize_device(&record(150, Some("http://l"))).expect("recognize");
    b.remember(link(1), graph(1), 1);
    b.remember(link(2), graph(2), 1);
    let mut pending = b.unopenable_in(mid(1));
    assert_eq!(pending, vec![mid(1), mid(2)]);
    assert_eq!(b.rewrap_peers(&vec![]).len(), 1);
    // A wrap for somebody else, one that does not open, one nobody asked for.
    let body = Some(b"hi".to_vec());
    assert!(!b.accept_wrap(mid(1), mid(1), key(7), body.clone(), graph(2), &mut pending, 1));
    assert!(!b.accept_wrap(mid(1), mid(1), key(200), None, graph(2), &mut pending, 1));
    assert!(!b.accept_wrap(mid(1), mid(8), key(200), body.clone(), graph(2), &mut pending, 1));
    // The real one.
    assert!(b.accept_wrap(mid(1), mid(1), key(200), body, graph(2), &mut pending, 1));
    assert_eq!(pending, vec![mid(2)]);
    assert_eq!(b.unopenable_in(mid(1)), vec![mid(2)]);
    let healed = b.load_envelope(mid(1), mid(1)).expect("held");
    assert_eq!(healed.body.as_deref(), Ok(&b"hi"[..]));
    assert!(b.unopenable_in(mid(9)).is_empty());
}

/// This device with three sealed messages and three paired devices, one of
/// them without a route.
fn before_pairing() -> Client {
    let mut b = Client::new(key(200));
    b.recognize_device(&record(150, Some("http://p"))).expect("recognize");
    b.recognize_device(&record(151, None)).expect("recognize");
    b.recognize_device(&record(152, Some("http://l"))).expect("recognize");
    for n in 1..=3 {
        b.remember(link(n), graph(n), 1);
    }
    b
}

fn dials(walk: &Rewrap) -> u8 {
    match walk.next() {
        RewrapStep::Dial(peer) => peer.key.0[0],
        other => panic!("unexpected {other:?}"),
    }
}

fn asks(walk: &Rewrap) -> Vec<MessageId> {
    match walk.next() {
        RewrapStep::Ask(ids) => ids,
        other => panic!("unexpected {other:?}"),
    }
}

#[test]
fn rewrap_walk__should_ask_each_device_for_what_is_still_wanted() {
    let mut b = before_pairing();
    let body = || Some(b"hi".to_vec());
    let mut walk = Rewrap::new(&b, mid(1), &vec![]);

    // The first device answers one request and declines the next: nothing
    // more is asked of it
    assert_eq!(dials(&walk), 150);
    walk.note_dialed(true, 2);
    assert_eq!(asks(&walk), vec![mid(1), mid(2)]);
    assert!(walk.wants(&b, mid(1), key(200), true));
    assert!(walk.take(&mut b, mid(1), key(200), body(), graph(3), 1));
    assert!(!walk.wants(&b, mid(1), key(200), true));
    assert!(!walk.take(&mut b, mid(1), key(200), body(), graph(3), 1), "no longer wanted");
    assert!(!walk.take(&mut b, mid(2), key(7), body(), graph(3), 1), "for somebody else");
    assert!(!walk.take(&mut b, mid(2), key(200), None, graph(3), 1), "does not open");
    walk.note_answer(true);
    assert_eq!(asks(&walk), vec![mid(3)]);
    walk.note_answer(false);

    // The next with a route is asked for the rest
    assert_eq!(dials(&walk), 152);
    walk.note_dialed(true, 1);
    assert_eq!(asks(&walk), vec![mid(2)]);
    assert!(walk.take(&mut b, mid(2), key(200), body(), graph(3), 1));
    walk.note_answer(true);
    assert_eq!(asks(&walk), vec![mid(3)]);
    walk.note_answer(true);
    assert!(matches!(walk.next(), RewrapStep::Done(2)));
    assert_eq!(b.unopenable_in(mid(1)), vec![mid(3)]);
}

#[test]
fn rewrap_walk__should_stop_once_nothing_is_wanted() {
    // A device that cannot be reached is skipped; none is dialed once every
    // message is readable
    let mut b = before_pairing();
    let mut walk = Rewrap::new(&b, mid(1), &vec![]);
    walk.note_dialed(false, 8);
    assert_eq!(dials(&walk), 152);
    let mut walk = Rewrap::new(&b, mid(1), &vec![]);
    walk.note_dialed(true, 8);
    for n in 1..=3 {
        assert!(walk.take(&mut b, mid(n), key(200), Some(vec![n]), graph(3), 1));
    }
    walk.note_answer(true);
    assert!(matches!(walk.next(), RewrapStep::Done(3)));
    assert!(matches!(Rewrap::new(&b, mid(1), &vec![]).next(), RewrapStep::Done(0)));
}

#[test]
fn rewrap__should_skip_a_device_the_transport_refuses() {
    let mut b = Client::new(key(200));
    b.recognize_device(&record(150, Some("not a url"))).expect("recognize");
    b.add_contact(&record(9, Some("not a url")), None, &mut TestMint(1)).expect("add");
    b.remember(link(1), graph(1), 1);
    let refuse = |n: u8| Refusal {
        peer: Peer { key: key(n), relays: vec!["not a url".to_string()] },
        why: Error::InvalidInput("bad relay url".to_string()),
    };
    let refused = vec![refuse(9), refuse(150)];
    assert!(b.rewrap_peers(&refused).is_empty());
    assert!(matches!(Rewrap::new(&b, mid(1), &refused).next(), RewrapStep::Done(0)));
    match b.backfill_peer(key(9), &refused) {
        Err(Error::InvalidInput(text)) => assert_eq!(text, "bad relay url"),
        other => panic!("unexpected {other:?}"),
    }
}

#[test]
fn rewrap_targets__should_be_free_for_a_single_device() {
    let mut b = Client::new(key(200));
    let received = vec![Received { envelope: link(3), relay: None }];
    assert!(b.rewrap_targets(&received).is_empty());
    b.recognize_device(&record(150, None)).expect("recognize");
    assert_eq!(b.rewrap_targets(&received), vec![mid(1)]);
}

#[test]
fn chunks__should_cover_every_id_once() {
    let ids: Vec<MessageId> = (1..=5).map(mid).collect();
    let pieces = chunks(&ids, 2);
    assert_eq!(pieces, vec![vec![mid(1), mid(2)], vec![mid(3), mid(4)], vec![mid(5)]]);
    assert!(chunks(&Vec::new(), 2).is_empty());
    assert!(chunks(&ids, 0).is_empty());
    assert_eq!(chunks(&ids, 5).len(), 1);
}
