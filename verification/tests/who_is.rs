#![allow(non_snake_case)]

use zink_client::client::Client;
use zink_client::error::Error;
use zink_client::history::{Dag, Envelope};
use zink_client::ids::{MessageId, PublicKey};
use zink_client::record::{Attestation, Claim, ContactRecord, RelayEntry, SignedAttestation};
use zink_client::recv::Received;
use zink_client::relays::{Peer, Refusal, RelaySource};
use zink_client::rng::TestMint;
use zink_client::store::Graph;
use zink_client::time::Duration;
use zink_client::who_is::{touched_conversations, valid_endorsements, who_is_timeout, AskedOnce, RefreshLedger, RouteStep, RouteWalk, SubjectAsk, WhoIsReply, REFRESH_INTERVAL_MS, REFRESH_SICK_FLOOR_MS};

fn key(byte: u8) -> PublicKey {
    PublicKey([byte; 32])
}

fn mid(byte: u8) -> MessageId {
    MessageId([byte; 32])
}

fn record(byte: u8, name: &str, mailbox: &str, url: Option<&str>) -> ContactRecord {
    ContactRecord {
        keys: vec![key(byte)],
        attestations: vec![],
        relays: vec![RelayEntry {
            mailbox: mailbox.to_string(),
            relay_url: url.map(|u| u.to_string()),
        }],
        name_claim: Some((name.to_string(), 0)),
        avatar_claim: None,
    }
}

fn claim(attester: u8, subject: u8, verified: bool) -> SignedAttestation {
    SignedAttestation {
        attestation: Attestation {
            attester: key(attester),
            subject: key(subject),
            claim: Claim::Name("Carol".to_string()),
            revision: 0,
        },
        verified,
    }
}

fn arrival(n: u8, conversation: Option<MessageId>, sender: u8, recipients: Vec<u8>) -> Received {
    Received {
        envelope: Envelope {
            id: mid(n),
            conversation,
            parents: vec![],
            recipients: recipients.into_iter().map(key).collect(),
            sender: key(sender),
            seq: 0,
            logical: 0,
            timestamp_ms: 0,
            blob_refs: vec![],
            wraps: vec![],
            supported: true,
            verified: true,
            body: Ok(vec![]),
        },
        relay: None,
    }
}

fn graph(n: u8) -> Graph {
    Graph {
        dag: Some(Dag {
            heads: vec![mid(n)],
            order: vec![mid(n)],
            crossed: vec![],
            next_seq: 0,
            next_logical: 1,
        }),
        fault: String::new(),
    }
}

#[test]
fn refresh_ledger__should_gate_daily_and_floor_when_sick() {
    // Given
    let mut ledger = RefreshLedger::new();
    let subject = key(1);

    // When / Then: the first ask is always due; healthy re-asks wait
    // out the daily interval, and a granted ask restarts the clock
    assert!(ledger.due(&subject, 1_000, false));
    assert!(!ledger.due(&subject, 1_000 + REFRESH_INTERVAL_MS - 1, false));
    assert!(ledger.due(&subject, 1_000 + REFRESH_INTERVAL_MS, false));

    // And: sickness swaps in the eager floor — sooner than a day, but
    // still a floor, so arrivals can't turn into an ask storm
    let stamped = 1_000 + REFRESH_INTERVAL_MS;
    assert!(!ledger.due(&subject, stamped + REFRESH_SICK_FLOOR_MS - 1, true));
    assert!(ledger.due(&subject, stamped + REFRESH_SICK_FLOOR_MS, true));
}

#[test]
fn valid_endorsements__should_keep_only_the_responders_own_claims() {
    // Given: responder R answering about subject S — a genuine vouch, a
    // relayed third-party vouch, a forged one, and one about a different
    // subject
    let relayed = claim(81, 82, true);
    let forged = claim(80, 82, false);
    let off_subject = claim(80, 83, true);

    // When
    let kept = valid_endorsements(
        key(80),
        key(82),
        &vec![relayed, forged, off_subject, claim(80, 82, true)],
    );

    // Then: only the responder's own, correctly-subjected, verified claim
    assert_eq!(kept.len(), 1);
    assert_eq!(format!("{:?}", kept[0]), format!("{:?}", claim(80, 82, true)));
}

#[test]
fn who_is__should_cap_the_dial() {
    assert_eq!(who_is_timeout(Duration::from_secs(10)), Duration::from_secs(5));
    assert_eq!(who_is_timeout(Duration::from_millis(300)), Duration::from_millis(300));
}

#[test]
fn who_is__should_learn_a_record_from_a_contact_without_touching_the_contact_store() {
    let mut a = Client::new(key(200));
    a.add_contact(&record(1, "bob", "bb", Some("http://b")), None, &mut TestMint(1)).expect("add");
    a.add_contact(&record(2, "mute", "mm", None), None, &mut TestMint(2)).expect("add");
    a.recognize_device(&record(150, "laptop", "ll", Some("http://l"))).expect("recognize");
    let responders = a.who_is_responders();
    assert_eq!(responders, vec![key(1), key(2), key(150)]);
    let targets = a.ask_targets(&responders, &vec![]);
    let names: Vec<String> = targets.iter().map(|t| t.petname.clone()).collect();
    assert_eq!(names, vec!["bob".to_string(), "96969696".to_string()]);
    let known = WhoIsReply::Known {
        record: record(82, "Carol", "cc", None),
        endorsements: vec![claim(1, 82, true), claim(9, 82, true)],
    };
    let outcome = a.settle_who_is(key(82), &targets, &vec![known, WhoIsReply::Unreachable], 12);
    assert_eq!((outcome.asked, outcome.unreachable), (2, 1));
    assert_eq!(outcome.answers.len(), 1);
    assert_eq!(outcome.answers[0].responder_petname, "bob");
    assert_eq!(outcome.answers[0].endorsements.len(), 1);
    let learned = a.learned(&key(82));
    assert_eq!(learned.len(), 1);
    assert_eq!(learned[0].received_ms, 12);
    assert_eq!(a.contacts().len(), 2);
}

#[test]
fn who_is__the_subjects_own_answer_should_win_relay_resolution() {
    let mut a = Client::new(key(200));
    a.add_contact(&record(1, "bob", "stale", None), None, &mut TestMint(1)).expect("add");
    let hearsay = WhoIsReply::Known { record: record(1, "bob", "hearsay", None), endorsements: vec![] };
    let own = WhoIsReply::Known { record: record(1, "bob", "fresh", None), endorsements: vec![] };
    let targets = vec![];
    a.settle_who_is(key(1), &targets, &vec![], 1);
    assert!(a.refresh_on(key(1), &own, 5));
    let contact = a.resolve_contact("bob").expect("resolve");
    assert_eq!(contact.relays, vec!["fresh".to_string()]);
    assert_eq!(
        a.relay_status("bob").expect("status").source,
        RelaySource::SubjectServed { received_ms: 5 }
    );
    // A later answer of the subject replaces the earlier one.
    assert!(a.refresh_on(key(1), &hearsay, 6));
    assert_eq!(a.learned(&key(1)).len(), 1);
}

#[test]
fn ask_subject__should_learn_answers_and_drop_forged_ones() {
    let mut a = Client::new(key(200));
    assert_eq!(a.ask_subject(key(41), None, 1), SubjectAsk::Unreachable);
    let forged = WhoIsReply::Known { record: record(42, "x", "x", None), endorsements: vec![] };
    assert_eq!(a.ask_subject(key(41), Some(&forged), 1), SubjectAsk::Nothing);
    assert_eq!(a.ask_subject(key(41), Some(&WhoIsReply::Nothing), 1), SubjectAsk::Nothing);
    assert!(a.learned_candidates(key(41)).is_empty());
    let served = WhoIsReply::Known { record: record(41, "anna", "aa", None), endorsements: vec![] };
    assert_eq!(a.ask_subject(key(41), Some(&served), 1), SubjectAsk::Answered);
    let candidates = a.learned_candidates(key(41));
    assert_eq!(candidates.len(), 1);
    assert_eq!(candidates[0].0.name, "anna");
    assert!(candidates[0].0.confirmed_by_subject);
    let stored = a.add_contact(&candidates[0].1, None, &mut TestMint(4)).expect("add");
    assert_eq!(stored.petname, "anna");
}

#[test]
fn auto_refresh__should_ask_once_and_only_contacts() {
    let mut a = Client::new(key(200));
    a.add_contact(&record(1, "anna", "stale", Some("http://a")), None, &mut TestMint(1)).expect("add");
    let received = vec![arrival(1, None, 77, vec![200]), arrival(2, None, 1, vec![200])];
    assert_eq!(a.refresh_senders(&received), vec![key(1)]);
    let mut ledger = RefreshLedger::new();
    let plan = a.refresh_plan(&mut ledger, key(1), &a.owed_relays(), &vec![], 100).expect("due");
    assert!(!plan.sick);
    assert_eq!(plan.routes.len(), 2);
    assert!(plan.routes[0].relays.is_empty(), "the bare key first");
    assert_eq!(plan.routes[1].relays, vec!["http://a".to_string()]);
    assert!(a.refresh_plan(&mut ledger, key(1), &a.owed_relays(), &vec![], 200).is_none());
    assert!(a.refresh_plan(&mut ledger, key(77), &a.owed_relays(), &vec![], 200).is_none());
    // Deposits owed to the relay make the ask eager.
    a.add_outbox(mid(1), "stale", mid(1), 1);
    let later = 100 + REFRESH_SICK_FLOOR_MS;
    let eager = a.refresh_plan(&mut ledger, key(1), &a.owed_relays(), &vec![], later).expect("eager");
    assert!(eager.sick);
    assert_eq!(a.ask_routes(key(99), &vec![]).len(), 1);
}

#[test]
fn auto_who_is__should_learn_unknown_members_from_the_conversations_participants() {
    let mut a = Client::new(key(200));
    a.add_contact(&record(1, "bob", "bb", Some("http://b")), None, &mut TestMint(1)).expect("add");
    let message = arrival(10, None, 1, vec![200, 3, 4]);
    a.remember(message.envelope, graph(10), 1);
    let mut asked = AskedOnce::new();
    assert!(asked.is_empty());
    let plan = a.auto_ask(&mut asked, mid(10)).expect("contributed");
    assert_eq!(plan.responders, vec![key(1), key(3), key(4)]);
    assert_eq!(plan.subjects, vec![key(3), key(4)]);
    let again = a.auto_ask(&mut asked, mid(10)).expect("contributed");
    assert!(again.subjects.is_empty(), "once per run");
    assert!(!asked.first(key(3), mid(10)));
    assert!(asked.first(key(3), mid(11)));
}

#[test]
fn auto_who_is__should_stay_silent_without_a_contributing_contact() {
    let mut a = Client::new(key(200));
    a.add_contact(&record(1, "bob", "bb", None), None, &mut TestMint(1)).expect("add");
    let message = arrival(10, None, 66, vec![200, 1, 3]);
    a.remember(message.envelope, graph(10), 1);
    let mut asked = AskedOnce::new();
    assert!(a.auto_ask(&mut asked, mid(10)).is_none());
    assert!(a.auto_ask(&mut asked, mid(99)).is_none());
    assert!(asked.is_empty());
}

#[test]
fn touched_conversations__should_name_each_once_in_order() {
    let received = vec![
        arrival(9, None, 1, vec![]),
        arrival(3, Some(mid(9)), 1, vec![]),
        arrival(2, None, 1, vec![]),
    ];
    assert_eq!(touched_conversations(&received), vec![mid(2), mid(9)]);
}

fn refuse(byte: u8, relays: Vec<&str>) -> Refusal {
    Refusal {
        peer: Peer { key: key(byte), relays: relays.into_iter().map(|r| r.to_string()).collect() },
        why: Error::InvalidInput("bad relay url".to_string()),
    }
}

#[test]
fn peer_addr_for__should_pass_on_what_the_transport_refuses() {
    let mut a = Client::new(key(200));
    a.add_contact(&record(1, "bob", "bb", Some("not a url")), None, &mut TestMint(1)).expect("add");
    let bob = record(1, "bob", "bb", Some("not a url"));
    let refused = vec![refuse(1, vec!["not a url"])];
    match a.peer_addr_for(key(1), Some(&bob), &refused) {
        Err(Error::InvalidInput(text)) => assert_eq!(text, "bad relay url"),
        other => panic!("unexpected {other:?}"),
    }
    // Another key, another list of relays: nothing is refused.
    let others = vec![refuse(2, vec!["not a url"]), refuse(1, vec![]), refuse(1, vec!["b"])];
    let peer = a.peer_addr_for(key(1), Some(&bob), &others).expect("peer");
    assert_eq!(peer.relays, vec!["not a url".to_string()]);
    assert!(matches!(a.peer_addr_for(key(9), None, &others), Err(Error::NoRelayUrl)));
}

#[test]
fn ask_targets__should_leave_out_whom_the_transport_refuses() {
    let mut a = Client::new(key(200));
    a.add_contact(&record(1, "bob", "bb", Some("not a url")), None, &mut TestMint(1)).expect("add");
    a.add_contact(&record(2, "eve", "ee", Some("http://e")), None, &mut TestMint(2)).expect("add");
    let responders = a.who_is_responders();
    assert_eq!(a.ask_targets(&responders, &vec![]).len(), 2);
    let targets = a.ask_targets(&responders, &vec![refuse(1, vec!["not a url"])]);
    assert_eq!(targets.len(), 1);
    assert_eq!(targets[0].peer.key, key(2));
    // Whoever is refused is not counted as asked.
    let outcome = a.settle_who_is(key(82), &targets, &vec![WhoIsReply::Unreachable], 1);
    assert_eq!((outcome.asked, outcome.unreachable), (1, 1));
}

#[test]
fn routes__should_leave_out_what_the_transport_refuses() {
    let mut a = Client::new(key(200));
    a.add_contact(&record(1, "anna", "aa", Some("not a url")), None, &mut TestMint(1)).expect("add");
    let bare = refuse(1, vec![]);
    let routed = refuse(1, vec!["not a url"]);
    let mut ledger = RefreshLedger::new();
    let plan = a.refresh_plan(&mut ledger, key(1), &vec![], &vec![routed], 100).expect("due");
    assert_eq!(plan.routes.len(), 1);
    assert!(plan.routes[0].relays.is_empty());
    assert!(a.ask_routes(key(1), &vec![bare]).is_empty());
}

#[test]
fn ways__should_list_every_peer_a_key_may_be_dialed_as() {
    let mut a = Client::new(key(200));
    a.add_contact(&record(1, "bob", "bb", Some("http://b")), None, &mut TestMint(1)).expect("add");
    a.recognize_device(&record(150, "laptop", "ll", Some("http://l"))).expect("recognize");
    let ways: Vec<(u8, Vec<String>)> = a
        .ways(&vec![key(1), key(9), key(150)])
        .into_iter()
        .map(|peer| (peer.key.0[0], peer.relays))
        .collect();
    let expected = vec![
        (1, vec![]),
        (1, vec!["http://b".to_string()]),
        (9, vec![]),
        (150, vec![]),
        (150, vec!["http://l".to_string()]),
    ];
    assert_eq!(ways, expected);
}

#[test]
fn route_walk__should_ask_over_the_first_route_that_connects() {
    let route = |relay: &str| Peer { key: key(1), relays: vec![relay.to_string()] };
    let dialed = |step: RouteStep| match step {
        RouteStep::Dial(peer) => peer.relays[0].clone(),
        other => panic!("unexpected {other:?}"),
    };
    let mut walk = RouteWalk::new(vec![route("a"), route("b"), route("c")]);
    assert_eq!(dialed(walk.next(false)), "a");
    assert_eq!(dialed(walk.next(false)), "b");
    assert!(matches!(walk.next(true), RouteStep::Ask));
    // None connects
    let mut walk = RouteWalk::new(vec![route("a")]);
    assert_eq!(dialed(walk.next(false)), "a");
    assert!(matches!(walk.next(false), RouteStep::Unreachable));
    assert!(matches!(RouteWalk::new(vec![]).next(false), RouteStep::Unreachable));
}
