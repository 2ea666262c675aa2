#![allow(non_snake_case)]

use zink_client::client::{Client, LearnedRecord};
use zink_client::error::Error;
use zink_client::ids::{BlobHash, PublicKey};
use zink_client::keystore::{create_seed, parse_seed, seed_text, unreadable, unwritable};
use zink_client::net::{all_registered, blob_relays, register, relay_unreachable, BlobFetch, Deposit, DepositEvent, DialError, DialFailure, FetchEvent, RegisterReply};
use zink_client::profile::{check_avatar, check_local_avatar, not_in, AvatarFetch, AvatarSource, PictureClaim, Profile, Reachable, MAX_AVATAR_BYTES};
use zink_client::record::{Claim, ContactRecord, RelayEntry};
use zink_client::rng::TestMint;

fn key(byte: u8) -> PublicKey {
    PublicKey([byte; 32])
}

fn empty() -> Profile {
    Profile { name: None, revision: 0, relays: vec![], label: None, avatar: None }
}

fn specs(list: &[&str]) -> Vec<String> {
    list.iter().map(|s| s.to_string()).collect()
}

fn text(e: Error) -> String {
    e.message()
}

#[test]
fn set_profile__should_bump_the_name_attestation_revision_on_rename_only() {
    let a = Client::new(key(200));
    let mut p = empty();
    let relay = specs(&["abc@203.0.113.1:1"]);
    let revision = |p: &Profile| a.my_record(p).expect("record").name_claim.expect("claim").1;

    // When / Then: first profile starts at 0; a re-save of the same name
    // doesn't bump; a rename supersedes
    p.set_profile("alice", &relay, None).expect("set");
    assert_eq!(revision(&p), 0);
    p.set_profile(" alice ", &relay, None).expect("re-set");
    assert_eq!(revision(&p), 0);
    p.set_profile("alicia", &relay, None).expect("rename");
    assert_eq!(revision(&p), 1);
    p.set_profile("alicia", &specs(&["other@203.0.113.2:2"]), None).expect("move");
    assert_eq!(revision(&p), 1);
}

#[test]
fn set_profile__should_refuse_blank_names_and_bad_relays() {
    let mut p = empty();
    assert_eq!(
        p.set_profile("  ", &vec![], None).map_err(text),
        Err("name must not be empty".to_string())
    );
    let refused = Some(Error::InvalidInput("bad dial".to_string()));
    assert_eq!(
        p.set_profile("x", &specs(&["bad"]), refused).map_err(text),
        Err("invalid input: bad dial".to_string())
    );
    assert_eq!(p.name, None);
}

#[test]
fn my_record__should_need_a_name_and_a_relay() {
    let a = Client::new(key(200));
    let mut p = empty();
    assert_eq!(
        a.my_record(&p).err().map(text),
        Some("set a profile name first".to_string())
    );
    p.set_profile("alice", &vec![], None).expect("set");
    assert_eq!(a.my_record(&p).err().map(text), Some("set a home relay first".to_string()));
}

#[test]
fn home_relay_specs__should_round_trip_the_url() {
    let mut p = empty();
    let list = specs(&["a@203.0.113.1:1#http://u", "b@203.0.113.2:2"]);
    p.set_profile("alice", &list, None).expect("set");
    assert_eq!(p.home_relay_specs(), list);
    assert_eq!(p.home_relays(), specs(&["a@203.0.113.1:1", "b@203.0.113.2:2"]));
    assert_eq!(p.reachability(true), Reachable::ByKey);
    assert_eq!(p.reachability(false), Reachable::NotYet);
    p.set_profile("alice", &specs(&["b@203.0.113.2:2"]), None).expect("set");
    assert!(!p.can_home());
    assert_eq!(p.reachability(true), Reachable::NoHomeRelay);
    assert_eq!(not_in(&specs(&["x", "y", "z"]), &specs(&["y"])), specs(&["x", "z"]));
}

#[test]
fn set_device_label__should_supersede_independently_of_the_name() {
    let a = Client::new(key(200));
    let mut p = empty();
    p.set_profile("alice", &specs(&["a@203.0.113.1:1"]), None).expect("set");
    p.set_device_label("phone").expect("label");
    assert_eq!(p.label, Some(("phone".to_string(), 0)));
    p.set_device_label(" phone ").expect("same");
    assert_eq!(p.label, Some(("phone".to_string(), 0)));
    p.set_profile("alicia", &specs(&["a@203.0.113.1:1"]), None).expect("rename");
    p.set_device_label("tablet").expect("relabel");
    assert_eq!(p.label, Some(("tablet".to_string(), 1)));
    assert_eq!(p.revision, 1);
    assert_eq!(
        p.set_device_label("").map_err(text),
        Err("invalid input: device label must not be empty".to_string())
    );
    let record = a.my_record(&p).expect("record");
    assert!(matches!(&record.attestations[1].attestation.claim, Claim::DeviceLabel(l) if l == "tablet"));
    assert_eq!(record.attestations[1].attestation.revision, 1);
}

#[test]
fn my_record__should_carry_links_and_disavowals() {
    let mut a = Client::new(key(200));
    let mut p = empty();
    p.set_profile("alice", &specs(&["a@203.0.113.1:1"]), None).expect("set");
    assert_eq!(p.set_avatar(BlobHash([7; 32]), [8; 32]), 0);
    assert_eq!(p.set_avatar(BlobHash([9; 32]), [8; 32]), 1);
    let sibling = ContactRecord {
        keys: vec![key(150)],
        attestations: vec![],
        relays: vec![RelayEntry { mailbox: "l".to_string(), relay_url: None }],
        name_claim: None,
        avatar_claim: None,
    };
    a.recognize_device(&sibling).expect("recognize");
    let record = a.my_record(&p).expect("record");
    assert_eq!(record.attestations.len(), 3);
    assert!(matches!(record.attestations[2].attestation.claim, Claim::SamePersonAs(_)));
    assert_eq!(record.avatar_claim, Some((BlobHash([9; 32]), [8; 32], 1)));
    a.repudiate(key(150)).expect("repudiate");
    let record = a.my_record(&p).expect("record");
    assert_eq!(record.attestations.len(), 3);
    assert!(matches!(record.attestations[2].attestation.claim, Claim::Negative));
}

#[test]
fn set_avatar__should_bound_the_picture() {
    assert_eq!(check_avatar(0).map_err(text), Err("invalid input: empty avatar image".to_string()));
    assert!(check_avatar(MAX_AVATAR_BYTES).is_ok());
    assert_eq!(
        check_avatar(MAX_AVATAR_BYTES + 1).map_err(text),
        Err("invalid input: avatar too large (524289 bytes; max 524288)".to_string())
    );
    assert!(check_local_avatar(0).is_ok());
    assert_eq!(
        check_local_avatar(MAX_AVATAR_BYTES + 1).map_err(text),
        Err("invalid input: image too large (max 512 KiB)".to_string())
    );
}

#[test]
fn avatar__should_prefer_my_choice_then_the_highest_revision() {
    let mut a = Client::new(key(200));
    let mut p = empty();
    let claiming = |byte: u8, revision: u64, relay: &str| ContactRecord {
        keys: vec![key(1)],
        attestations: vec![],
        relays: vec![RelayEntry { mailbox: relay.to_string(), relay_url: None }],
        name_claim: Some(("bob".to_string(), 0)),
        avatar_claim: Some((BlobHash([byte; 32]), [byte; 32], revision)),
    };
    a.add_contact(&claiming(1, 4, "stored"), None, &mut TestMint(1)).expect("add");
    for (byte, revision, relay) in [(2u8, 4u64, "tie"), (3, 9, "newest"), (4, 8, "older")] {
        a.save_learned(
            key(1),
            LearnedRecord {
                responder: key(byte),
                record: claiming(byte, revision, relay),
                endorsements: vec![],
                received_ms: 1,
            },
        );
    }
    let best = a.avatar_claim(&key(1)).expect("claimed");
    assert_eq!((best.revision, best.relays), (9, specs(&["newest"])));
    assert!(matches!(a.avatar_source(&p, &key(1), true), AvatarSource::Local));
    assert!(matches!(a.avatar_source(&p, &key(200), false), AvatarSource::Nowhere));
    p.set_avatar(BlobHash([7; 32]), [8; 32]);
    assert!(matches!(a.avatar_source(&p, &key(200), false), AvatarSource::Own { .. }));
    assert!(matches!(a.avatar_source(&p, &key(9), false), AvatarSource::Nowhere));
}

#[test]
fn avatar_fetch__should_stop_at_the_first_copy_that_opens() {
    let claim = PictureClaim {
        hash: BlobHash([1; 32]),
        key: [2; 32],
        revision: 0,
        relays: specs(&["r1", "r2"]),
    };
    let walk = |outcomes: Vec<bool>| {
        let mut fetch = AvatarFetch::new(&claim);
        let mut shown = vec![format!("{:?}", fetch.next(None))];
        for opened in outcomes {
            shown.push(format!("{:?}", fetch.next(Some(opened))));
        }
        shown
    };
    assert_eq!(walk(vec![true]), specs(&["Cache", "Opened"]));
    assert_eq!(
        walk(vec![false, false, true]),
        specs(&["Cache", "Relay(\"r1\")", "Relay(\"r2\")", "Opened"])
    );
    assert_eq!(
        walk(vec![false, false, false]),
        specs(&["Cache", "Relay(\"r1\")", "Relay(\"r2\")", "Nowhere"])
    );
}

#[test]
fn set_device_label__should_keep_a_label_of_the_last_revision() {
    let mut p = empty();
    p.label = Some(("phone".to_string(), u64::MAX));
    p.set_device_label(" phone ").expect("unchanged");
    assert_eq!(p.label, Some(("phone".to_string(), u64::MAX)));
    assert!(p.set_device_label("  ").is_err());
    assert_eq!(p.label, Some(("phone".to_string(), u64::MAX)));
}

#[test]
fn keystore__should_round_trip_a_seed() {
    let (seed, file) = create_seed();
    assert_eq!(file.len(), 64);
    assert_eq!(parse_seed(format!(" {file}\n").as_str()).expect("parses"), seed);
    assert_ne!(create_seed().0, seed, "seeds are drawn, not fixed");
    assert_eq!(seed_text(&[0xab; 32]), "ab".repeat(32));
    assert_eq!(
        parse_seed("abc").err().map(text),
        Some("keystore: invalid input: expected 64 hex chars, got 3".to_string())
    );
    assert_eq!(text(unreadable("k", "gone")), "keystore: read key file k: gone");
    assert_eq!(text(unwritable("k", "full")), "keystore: write k: full");
}

#[test]
fn deposit__should_retry_broken_round_trips_only() {
    let broken = || DepositEvent::Broken(Error::Transport("reset".to_string()));
    let mut deposit = Deposit::new("r");
    assert!(deposit.note(broken()).is_none());
    assert!(deposit.note(broken()).is_none());
    assert_eq!(
        deposit.note(broken()).expect("over").err().map(text),
        Some("transport: deposit to r failed after 3 attempts: transport: reset".to_string())
    );
    let mut deposit = Deposit::new("r");
    let down = relay_unreachable("r", &DialFailure::TimedOut);
    assert_eq!(
        deposit.note(DepositEvent::Down(down)).expect("over").err().map(text),
        Some("unreachable: connect to r: unreachable: timed out".to_string())
    );
    let refused = relay_unreachable("r", &DialFailure::Refused(DialError("no route".to_string())));
    assert_eq!(text(refused), "unreachable: connect to r: unreachable: no route");
    let mut deposit = Deposit::new("r");
    assert!(deposit.note(broken()).is_none());
    assert!(matches!(deposit.note(DepositEvent::Deposited), Some(Ok(()))));
    assert_eq!(
        deposit.note(DepositEvent::Other("Nope".to_string())).expect("over").err().map(text),
        Some("unexpected response: from r: Nope".to_string())
    );
}

#[test]
fn register__should_surface_a_refusal() {
    assert!(register(&RegisterReply::Registered, "r").is_ok());
    assert_eq!(
        register(&RegisterReply::Refused, "r").err().map(text),
        Some("mailbox refused: r".to_string())
    );
    assert_eq!(
        register(&RegisterReply::Other("Huh".to_string()), "r").err().map(text),
        Some("unexpected response: register at r: Huh".to_string())
    );
    assert!(all_registered(vec![None, None]).is_ok());
    let outcomes = vec![
        None,
        Some(Error::MailboxRefused("b".to_string())),
        Some(Error::MailboxRefused("c".to_string())),
    ];
    assert_eq!(all_registered(outcomes).err().map(text), Some("mailbox refused: b".to_string()));
}

#[test]
fn blob_fetch__should_try_each_relay_and_report_the_last_failure() {
    let home = specs(&["h1", "h2"]);
    assert_eq!(blob_relays(&Some("via".to_string()), &home), specs(&["via"]));
    assert_eq!(blob_relays(&None, &home), home);
    assert_eq!(text(BlobFetch::new().unavailable()), "blob fetch failed: no relay to fetch from");
    let mut fetch = BlobFetch::new();
    assert!(fetch.note(FetchEvent::Failed(Error::Transport("gone".to_string()))).is_none());
    assert!(matches!(fetch.note(FetchEvent::Opened), Some(Ok(()))));
    assert_eq!(
        fetch.note(FetchEvent::Unopened("hash".to_string())).expect("over").err().map(text),
        Some("open: hash".to_string())
    );
    assert_eq!(text(fetch.unavailable()), "blob fetch failed: transport: gone");
}
