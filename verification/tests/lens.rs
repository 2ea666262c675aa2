#![allow(non_snake_case)]

use zink_client::client::Client;
use zink_client::error::Error;
use zink_client::frames::{is_op_frame, op_body, parse_op, LensOp};
use zink_client::history::{Dag, Envelope};
use zink_client::ids::{MessageId, PublicKey};
use zink_client::lens::{ancestors_of, label_op};
use zink_client::record::{ContactRecord, RelayEntry};
use zink_client::rng::TestMint;
use zink_client::store::Graph;

fn key(byte: u8) -> PublicKey {
    PublicKey([byte; 32])
}

fn mid(byte: u8) -> MessageId {
    MessageId([byte; 32])
}

fn record(byte: u8, name: &str) -> ContactRecord {
    ContactRecord {
        keys: vec![key(byte)],
        attestations: vec![],
        relays: vec![RelayEntry { mailbox: "cc@203.0.113.9:9".to_string(), relay_url: None }],
        name_claim: Some((name.to_string(), 0)),
        avatar_claim: None,
    }
}

fn envelope(
    n: u8,
    conversation: Option<MessageId>,
    parents: Vec<MessageId>,
    sender: PublicKey,
    body: Option<Vec<u8>>,
) -> Envelope {
    Envelope {
        id: mid(n),
        conversation,
        parents,
        recipients: vec![],
        sender,
        seq: 0,
        logical: 0,
        timestamp_ms: 0,
        blob_refs: vec![],
        wraps: vec![],
        supported: true,
        verified: true,
        body: body.ok_or_else(|| "no key wrap".to_string()),
    }
}

fn graph(order: Vec<MessageId>) -> Graph {
    let heads = vec![order[order.len() - 1]];
    Graph {
        dag: Some(Dag { heads, order, crossed: vec![], next_seq: 0, next_logical: 0 }),
        fault: String::new(),
    }
}

const PHONE: u8 = 1;
const LAPTOP: u8 = 2;
const CAROL: u8 = 70;

/// The laptop, recognizing the phone as one of its own devices.
fn laptop() -> Client {
    let mut b = Client::new(key(LAPTOP));
    b.recognize_device(&record(PHONE, "phone")).expect("recognize");
    b
}

/// The phone's lens channel: a hello, then the given ops in a row.
fn seed(b: &mut Client, ops: Vec<LensOp>) {
    let mut order = vec![mid(100)];
    let hello = envelope(100, None, vec![], key(PHONE), Some(op_body(&LensOp::Hello)));
    b.store_envelope(mid(100), hello, graph(order.clone()), 1);
    for (i, op) in ops.into_iter().enumerate() {
        let n = 101 + i as u8;
        let parent = order[order.len() - 1];
        order.push(mid(n));
        let e = envelope(n, Some(mid(100)), vec![parent], key(PHONE), Some(op_body(&op)));
        b.store_envelope(mid(100), e, graph(order.clone()), 1);
    }
}

fn rename(label: &str) -> LensOp {
    LensOp::LabelPerson { members: vec![key(CAROL)], label: label.to_string() }
}

#[test]
fn op_frames__should_round_trip_and_refuse_everything_else() {
    let offer = LensOp::OfferContact { record: vec![1, 2, 3], petname: "carøl".to_string() };
    for op in [LensOp::Hello, rename("carrie"), offer] {
        let body = op_body(&op);
        assert!(is_op_frame(&body));
        assert_eq!(format!("{:?}", parse_op(&body)), format!("{:?}", Some(op)));
        // Truncated, and with a byte too many: nothing this build speaks.
        assert!(parse_op(&body[..body.len() - 1]).is_none());
        let mut longer = body.clone();
        longer.push(0);
        assert!(parse_op(&longer).is_none());
        // A later version is not spoken either.
        let mut later = body.clone();
        later[4] = 2;
        assert!(parse_op(&later).is_none());
        assert!(is_op_frame(&later));
    }
    assert!(!is_op_frame(b"zop"));
    assert!(!is_op_frame(b"hello"));
    assert!(parse_op(b"zop\0\x01\0\x09").is_none());
}

#[test]
fn op_frames__should_be_laid_out_in_borsh() {
    let mut expected = b"zop\0\x01\0\x01".to_vec();
    expected.extend([1, 0, 0, 0]);
    expected.extend([CAROL; 32]);
    expected.extend([6, 0, 0, 0]);
    expected.extend(b"carrie");
    assert_eq!(op_body(&rename("carrie")), expected);
    assert_eq!(op_body(&LensOp::Hello), b"zop\0\x01\0\x00".to_vec());
    // A label that is no UTF-8 is refused.
    let last = expected.len() - 1;
    expected[last] = 0xff;
    assert!(parse_op(&expected).is_none());
}

#[test]
fn ancestors_of__should_follow_parents_only() {
    let all = vec![
        envelope(1, None, vec![], key(9), None),
        envelope(2, Some(mid(1)), vec![mid(1)], key(9), None),
        envelope(3, Some(mid(1)), vec![mid(1), mid(7)], key(9), None),
        envelope(4, Some(mid(1)), vec![mid(2), mid(3)], key(9), None),
    ];
    assert_eq!(ancestors_of(&all, mid(4)), vec![mid(1), mid(2), mid(3), mid(7)]);
    assert_eq!(ancestors_of(&all, mid(2)), vec![mid(1)]);
    assert!(ancestors_of(&all, mid(1)).is_empty());
}

#[test]
fn adopt__should_converge_a_rename_made_while_apart() {
    // Given: the laptop holds carol; the phone renames her while it is away
    let mut b = laptop();
    b.add_contact(&record(CAROL, "carol"), None, &mut TestMint(1)).expect("laptop adds");
    seed(&mut b, vec![rename("carrie")]);

    // When
    b.replay_lens(&vec![], &mut TestMint(90)).expect("replay");

    // Then: converged, no conflict, and the channel never reaches the inbox
    assert_eq!(b.person_by_label("carrie", &mut TestMint(90)).expect("adopted").label, "carrie");
    assert!(b.lens_conflicts().is_empty());
    assert_eq!(b.lens_conversation, Some(mid(100)));
    assert!(b.conversations().iter().all(|summary| summary.id != mid(100)));
}

#[test]
fn adopt__should_keep_mine_and_surface_theirs_on_concurrent_renames() {
    // Given: both rename carol while apart; the laptop's own channel holds
    // its op
    let mut b = laptop();
    b.add_contact(&record(CAROL, "carol"), None, &mut TestMint(1)).expect("laptop adds");
    let on_b = b.person_by_label("carol", &mut TestMint(90)).expect("person");
    b.rename_person(on_b.id, "caz", &mut TestMint(90)).expect("laptop rename");
    let person = b.person_by_label("caz", &mut TestMint(90)).expect("person");
    let mine = op_body(&label_op(&person));
    let hello = envelope(50, None, vec![], key(LAPTOP), Some(op_body(&LensOp::Hello)));
    b.store_envelope(mid(50), hello, graph(vec![mid(50)]), 1);
    b.open_lens_channel(mid(50), mid(50));
    let op = envelope(51, Some(mid(50)), vec![mid(50)], key(LAPTOP), Some(mine));
    b.store_envelope(mid(50), op, graph(vec![mid(50), mid(51)]), 1);
    b.add_lens_applied(mid(51));
    seed(&mut b, vec![rename("carrie")]);

    // When
    b.replay_lens(&vec![], &mut TestMint(90)).expect("replay");

    // Then: the laptop keeps its label and surfaces the phone's
    assert!(b.person_by_label("caz", &mut TestMint(90)).is_ok());
    let conflicts = b.lens_conflicts();
    assert_eq!(conflicts.len(), 1);
    assert_eq!(conflicts[0].theirs, "carrie");
    assert_eq!(conflicts[0].author, key(PHONE));

    // And: my next rename supersedes and clears the surface
    b.rename_person(on_b.id, "carrie", &mut TestMint(90)).expect("take theirs");
    assert!(b.lens_conflicts().is_empty());
    // Emission converges on the smallest channel.
    assert_eq!(b.lens_conversation, Some(mid(50)));
}

#[test]
fn adopt__should_take_a_later_rename_that_saw_mine() {
    // Given: the laptop's rename sits in the phone's channel, before the
    // phone's own
    let mut b = laptop();
    b.add_contact(&record(CAROL, "caz"), None, &mut TestMint(1)).expect("laptop adds");
    let person = b.person_by_label("caz", &mut TestMint(90)).expect("person");
    let mine = op_body(&label_op(&person));
    let order = vec![mid(100), mid(101), mid(102)];
    let hello = envelope(100, None, vec![], key(PHONE), Some(op_body(&LensOp::Hello)));
    b.store_envelope(mid(100), hello, graph(vec![mid(100)]), 1);
    let op = envelope(101, Some(mid(100)), vec![mid(100)], key(LAPTOP), Some(mine));
    b.store_envelope(mid(100), op, graph(vec![mid(100), mid(101)]), 1);
    let theirs = op_body(&rename("carrie"));
    let op = envelope(102, Some(mid(100)), vec![mid(101)], key(PHONE), Some(theirs));
    b.store_envelope(mid(100), op, graph(order), 1);

    b.replay_lens(&vec![], &mut TestMint(90)).expect("replay");
    assert!(b.person_by_label("carrie", &mut TestMint(90)).is_ok());
    assert!(b.lens_conflicts().is_empty());
}

#[test]
fn adopt__should_surface_a_label_somebody_else_goes_by() {
    let mut b = laptop();
    b.add_contact(&record(CAROL, "carol"), None, &mut TestMint(1)).expect("add");
    b.add_contact(&record(71, "dave"), None, &mut TestMint(2)).expect("add");
    seed(&mut b, vec![rename("dave")]);
    b.replay_lens(&vec![], &mut TestMint(90)).expect("replay");
    assert!(b.person_by_label("carol", &mut TestMint(90)).is_ok());
    assert_eq!(b.lens_conflicts()[0].theirs, "dave");
}

#[test]
fn adopt__should_offer_a_sibling_contact_add_and_accept_explicitly() {
    // Given: the phone adds carol; the laptop has never met her
    let mut b = laptop();
    let add = LensOp::OfferContact { record: vec![7], petname: "carol".to_string() };
    seed(&mut b, vec![add]);
    assert_eq!(b.offered_records(), vec![(mid(101), vec![7])]);

    // When: the laptop replays the phone's channel
    b.replay_lens(&vec![(mid(101), record(CAROL, "carol"))], &mut TestMint(90)).expect("replay");

    // Then: an offer with provenance, and no contact write
    let offers = b.lens_offers();
    assert_eq!(offers.len(), 1);
    assert_eq!(offers[0].petname, "carol");
    assert_eq!(offers[0].author, key(PHONE));
    assert!(b.person_by_label("carol", &mut TestMint(90)).is_err());

    // When: the explicit accept
    let stored = b.accept_offer(&key(CAROL), &mut TestMint(5)).expect("accept");

    // Then: stored under the offered petname, and the offer is gone
    assert_eq!(stored.petname, "carol");
    assert!(b.person_by_label("carol", &mut TestMint(90)).is_ok());
    assert!(b.lens_offers().is_empty());
    // A second offer of the same contact is a no-op: already held.
    b.adopt_offer(key(PHONE), &record(CAROL, "carol"), "carol");
    assert!(b.offers.is_empty());
    match b.accept_offer(&key(CAROL), &mut TestMint(6)) {
        Err(Error::InvalidInput(text)) => assert_eq!(text, "no pending offer for that key"),
        other => panic!("unexpected {other:?}"),
    }
}

#[test]
fn decline_offer__should_drop_it_without_a_stance() {
    let mut b = laptop();
    b.adopt_offer(key(PHONE), &record(CAROL, "carol"), "carol");
    b.adopt_offer(key(PHONE), &record(CAROL, "carol"), "carrie");
    assert_eq!(b.lens_offers().len(), 1, "the latest per subject");
    assert_eq!(b.lens_offers()[0].petname, "carrie");
    b.decline_offer(&key(CAROL));
    assert!(b.offers.is_empty());
    assert!(b.vouch_for(&key(CAROL)).is_none());
}

#[test]
fn repudiate__should_void_the_siblings_pending_offers() {
    // Given: a pending offer from the phone
    let mut b = laptop();
    b.adopt_offer(key(PHONE), &record(CAROL, "carol"), "carol");
    assert_eq!(b.lens_offers().len(), 1);

    // When: the laptop repudiates the phone
    b.repudiate(key(PHONE)).expect("repudiate");

    // Then
    assert!(b.lens_offers().is_empty());
    assert!(b.offers.is_empty(), "removed, not merely filtered");
}

#[test]
fn adopt__should_ignore_ops_from_non_siblings() {
    // Given: a stranger's conversation that begins with a hello and renames
    // the laptop's carol
    let mut b = laptop();
    b.add_contact(&record(CAROL, "carol"), None, &mut TestMint(1)).expect("add");
    let hello = envelope(66, None, vec![], key(66), Some(op_body(&LensOp::Hello)));
    b.store_envelope(mid(66), hello, graph(vec![mid(66)]), 1);
    let op = envelope(67, Some(mid(66)), vec![mid(66)], key(66), Some(op_body(&rename("x"))));
    b.store_envelope(mid(66), op, graph(vec![mid(66), mid(67)]), 1);

    // When
    b.replay_lens(&vec![], &mut TestMint(90)).expect("replay");

    // Then: no effect, no conflict, and no channel
    assert!(b.person_by_label("carol", &mut TestMint(90)).is_ok());
    assert!(b.lens_conflicts().is_empty());
    assert!(!b.lens_channels.contains(&mid(66)));
}

#[test]
fn replay__should_be_idempotent_and_leave_unopened_messages_for_later() {
    let mut b = laptop();
    b.add_contact(&record(CAROL, "carol"), None, &mut TestMint(1)).expect("add");
    seed(&mut b, vec![rename("carrie")]);
    let sealed = envelope(110, Some(mid(100)), vec![mid(101)], key(PHONE), None);
    let order = vec![mid(100), mid(101), mid(110)];
    b.store_envelope(mid(100), sealed, graph(order), 1);
    b.replay_lens(&vec![], &mut TestMint(90)).expect("replay");
    assert_eq!(b.lens_applied, vec![mid(100), mid(101)]);
    // The user's own rename afterwards is not undone by a replay.
    let carol = b.person_by_label("carrie", &mut TestMint(90)).expect("carol").id;
    b.rename_person(carol, "cee", &mut TestMint(90)).expect("rename");
    b.replay_lens(&vec![], &mut TestMint(90)).expect("again");
    assert!(b.person_by_label("cee", &mut TestMint(90)).is_ok());
    assert_eq!(b.lens_applied, vec![mid(100), mid(101)]);
}

#[test]
fn replay__should_stop_at_a_channel_without_a_graph() {
    let mut b = laptop();
    let hello = envelope(100, None, vec![], key(PHONE), Some(op_body(&LensOp::Hello)));
    let broken = Graph { dag: None, fault: "bad parent".to_string() };
    b.store_envelope(mid(100), hello, broken, 1);
    match b.replay_lens(&vec![], &mut TestMint(90)) {
        Err(Error::Conversation(text)) => assert_eq!(text, "stored genesis invalid: bad parent"),
        other => panic!("unexpected {other:?}"),
    }
    assert_eq!(b.lens_channels, vec![mid(100)]);
}

/// The laptop with carol in its contact store and no person for her yet.
fn laptop_with_an_unclaimed_carol() -> Client {
    let mut b = laptop();
    b.save_contact("carol", &record(CAROL, "carol")).expect("saved");
    b
}

#[test]
fn replay__should_look_at_the_people_only_where_a_label_is_reached() {
    // Given: a label in a channel whose graph cannot be built, and one that
    // the graph leaves out
    let mut b = laptop_with_an_unclaimed_carol();
    seed(&mut b, vec![rename("carrie")]);
    let late = envelope(102, Some(mid(100)), vec![mid(101)], key(PHONE), None);
    let broken = Graph { dag: None, fault: "bad parent".to_string() };
    b.store_envelope(mid(100), late, broken, 1);
    let mut rng = TestMint(90);
    assert!(b.replay_lens(&vec![], &mut rng).is_err());
    assert!(b.persons.is_empty());
    assert_eq!(rng.0, 90);

    let mut b = laptop_with_an_unclaimed_carol();
    seed(&mut b, vec![rename("carrie")]);
    let late = envelope(102, Some(mid(100)), vec![mid(101)], key(PHONE), None);
    b.store_envelope(mid(100), late, graph(vec![mid(100), mid(102)]), 1);
    b.replay_lens(&vec![], &mut rng).expect("replay");
    assert!(b.persons.is_empty());
    assert_eq!(rng.0, 90);

    // When: the label is reached
    let mut b = laptop_with_an_unclaimed_carol();
    seed(&mut b, vec![rename("carrie")]);
    b.replay_lens(&vec![], &mut rng).expect("replay");

    // Then: carol has a person, under the sibling's label, and one token is
    // spent
    assert_eq!(rng.0, 91);
    assert_eq!(b.persons.len(), 1);
    assert_eq!(b.persons[0].id, 90);
    assert_eq!(b.persons[0].label, "carrie");

    // And: a second replay looks at nobody and changes nothing
    let before = format!("{:?}", b.persons);
    b.save_contact("dave", &record(71, "dave")).expect("saved");
    b.replay_lens(&vec![], &mut rng).expect("again");
    assert_eq!(rng.0, 91);
    assert_eq!(format!("{:?}", b.persons), before);
    assert!(b.offers.is_empty() && b.conflicts.is_empty());
}

#[test]
fn replay__should_not_look_at_the_people_where_a_channel_is_gone() {
    let mut b = laptop_with_an_unclaimed_carol();
    seed(&mut b, vec![rename("carrie")]);
    b.lens_channels.push(mid(200));
    let mut rng = TestMint(90);
    match b.replay_lens(&vec![], &mut rng) {
        Err(Error::Storage(text)) => assert_eq!(text, "no such conversation"),
        other => panic!("unexpected {other:?}"),
    }
    assert!(b.persons.is_empty());
    assert_eq!(rng.0, 90);
    assert_eq!(b.lens_channels, vec![mid(100), mid(200)]);
}

#[test]
fn replay__should_count_only_what_siblings_said() {
    // Given: a stranger's label and this device's own, inside the phone's
    // channel
    let mut b = laptop_with_an_unclaimed_carol();
    seed(&mut b, vec![]);
    let order = vec![mid(100), mid(101), mid(102)];
    let theirs = op_body(&rename("x"));
    let op = envelope(101, Some(mid(100)), vec![mid(100)], key(66), Some(theirs));
    b.store_envelope(mid(100), op, graph(vec![mid(100), mid(101)]), 1);
    let mine = op_body(&rename("y"));
    let op = envelope(102, Some(mid(100)), vec![mid(101)], key(LAPTOP), Some(mine));
    b.store_envelope(mid(100), op, graph(order.clone()), 1);

    // When
    let mut rng = TestMint(90);
    b.replay_lens(&vec![], &mut rng).expect("replay");

    // Then: noted, and nothing else
    assert_eq!(b.lens_applied, order);
    assert!(b.persons.is_empty() && b.offers.is_empty() && b.conflicts.is_empty());
    assert_eq!(rng.0, 90);
    assert_eq!(b.contacts.len(), 1);
}
