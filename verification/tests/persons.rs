#![allow(non_snake_case)]

use zink_client::client::Client;
use zink_client::error::Error;
use zink_client::ids::PublicKey;
use zink_client::persons::PersonId;
use zink_client::record::{ContactRecord, RelayEntry};
use zink_client::rng::{Mint, SystemRng, TestMint};

fn key(byte: u8) -> PublicKey {
    PublicKey([byte; 32])
}

fn id(n: u128) -> PersonId {
    PersonId::from_storage(n)
}

fn relay(n: u8) -> RelayEntry {
    RelayEntry { mailbox: format!("r{n}@203.0.113.{n}:{n}"), relay_url: None }
}

fn named(byte: u8, name: &str, relays: Vec<RelayEntry>) -> ContactRecord {
    ContactRecord {
        keys: vec![key(byte)],
        attestations: vec![],
        relays,
        name_claim: Some((name.to_string(), 0)),
        avatar_claim: None,
    }
}

/// Alice's two devices as two contact entries with distinct relay sets.
fn two_contacts(mint: &mut TestMint) -> Client {
    let mut a = Client::new(key(200));
    a.add_contact(&named(1, "Alice", vec![relay(1)]), None, mint).expect("add phone");
    a.add_contact(&named(2, "alice-laptop", vec![relay(2)]), None, mint).expect("add laptop");
    a
}

fn id_of(a: &mut Client, label: &str, mint: &mut TestMint) -> PersonId {
    a.person_by_label(label, mint).expect("person by label").id
}

/// The two entries under one person.
fn merged(mint: &mut TestMint) -> Client {
    let mut a = two_contacts(mint);
    let (phone, laptop) = (id_of(&mut a, "Alice", mint), id_of(&mut a, "alice-laptop", mint));
    a.merge_persons(phone, laptop, mint).expect("merge");
    a
}

#[test]
fn person_id__should_mint_distinct_ids_that_roundtrip_the_boundary() {
    // Given: a scripted mint
    let mut mint = TestMint(0);

    // When
    let a = PersonId::mint(&mut mint);
    let b = PersonId::mint(&mut mint);

    // Then: distinct; the typed `person:<32 hex>` form parses back to
    // itself; anything else — bare hex included — refuses at the boundary
    assert_ne!(a, b);
    let shown = a.to_text();
    assert!(shown.starts_with("person:"), "typed, not bare hex: {shown}");
    assert_eq!(shown.len(), "person:".len() + 32);
    assert_eq!(shown.parse::<PersonId>().expect("roundtrip"), a);
    assert!(shown.trim_start_matches("person:").parse::<PersonId>().is_err());
    assert!("not-an-id".parse::<PersonId>().is_err());
    assert!("p1".parse::<PersonId>().is_err());
}

#[test]
fn system_mint__should_not_repeat_itself() {
    let mut rng = SystemRng;
    assert_ne!(rng.token128(), rng.token128());
}

#[test]
fn add_contact__should_create_one_person_per_entry() {
    // Given / When: two ordinary contact adds — the eager invariant
    let mut mint = TestMint(10);
    let mut a = Client::new(key(200));
    a.add_contact(&named(1, "alice-phone", vec![relay(1)]), None, &mut mint).expect("add");
    a.add_contact(&named(2, "bob", vec![relay(2)]), None, &mut mint).expect("add");

    // Then: one person row per entry, labeled by its petname
    assert_eq!(a.persons.len(), 2, "rows stored at add time");
    let labels: Vec<(String, usize)> = a
        .persons(&mut mint)
        .iter()
        .map(|person| (person.label.clone(), person.members.len()))
        .collect();
    assert_eq!(labels, vec![("alice-phone".to_string(), 1), ("bob".to_string(), 1)]);
    assert_eq!(id_of(&mut a, "bob", &mut mint), id(11));
}

#[test]
fn persons__should_claim_an_entry_that_bypassed_the_add_act() {
    // Given: an entry written below the add act (a crash gap, or a store
    // from before the eager invariant) — no person row
    let mut mint = TestMint(77);
    let mut a = Client::new(key(200));
    a.save_contact("carol", &named(3, "carol", vec![relay(3)])).expect("save");
    assert_eq!(a.persons.len(), 0);

    // When: any read runs
    let persons = a.persons(&mut mint);

    // Then: the invariant self-healed — claimed, rendered, persisted
    assert_eq!(persons.len(), 1);
    assert_eq!(persons[0].label, "carol");
    assert_eq!(persons[0].id, id(77));
    assert_eq!(persons[0].keys(), vec![key(3)]);
    assert_eq!(a.persons.len(), 1);

    // And: the next look shows the same, and mints nothing
    let again = a.persons(&mut mint);
    assert_eq!(format!("{again:?}"), format!("{persons:?}"));
    assert_eq!(mint.0, 78);
}

#[test]
fn acts__should_see_an_entry_that_bypassed_the_add_act() {
    let unclaimed = || {
        let mut a = Client::new(key(200));
        a.add_contact(&named(1, "Alice", vec![relay(1)]), None, &mut TestMint(10)).expect("add");
        a.save_contact("carol", &named(3, "carol", vec![relay(3)])).expect("save");
        a
    };
    let alice = id(10);
    let taken = |r: Result<(), Error>| assert!(matches!(r, Err(Error::PetnameCollision(_))));

    // Its name is taken for everybody else…
    let mut mint = TestMint(50);
    taken(unclaimed().ensure_label_free("carol", None, &mut mint));
    taken(unclaimed().rename_person(alice, "carol", &mut mint).map(|_| ()));
    taken(unclaimed().rename("Alice", "carol", &mut mint));
    let namesake = named(4, "carol", vec![relay(4)]);
    taken(unclaimed().add_contact(&namesake, None, &mut mint).map(|_| ()));

    // …and it is a person to merge, to rename and to address
    let mut mint = TestMint(50);
    let mut a = unclaimed();
    let carol = id_of(&mut a, "carol", &mut mint);
    assert_eq!(carol, id(50));
    assert_eq!(a.person_by_id(carol, &mut mint).expect("by id").label, "carol");
    let both = a.merge_persons(alice, carol, &mut mint).expect("merge");
    assert_eq!(both.member_stems(), vec![key(1), key(3)]);
    assert_eq!(unclaimed().resolve_person("carol", &mut mint).expect("resolve").len(), 1);
    assert!(matches!(
        unclaimed().split_person("carol", &mut mint),
        Err(Error::InvalidInput(_))
    ));
}

#[test]
fn heal_persons__should_mint_one_row_per_unclaimed_entry() {
    let mut a = Client::new(key(200));
    a.save_contact("dora", &named(4, "dora", vec![relay(4)])).expect("save");
    a.save_contact("emil", &named(5, "emil", vec![relay(5)])).expect("save");
    let names: Vec<String> = a.unclaimed_entries().into_iter().map(|(name, _)| name).collect();
    assert_eq!(names, vec!["dora".to_string(), "emil".to_string()]);
    a.heal_persons(&vec![8, 7]);
    assert!(a.unclaimed_entries().is_empty());
    let rows: Vec<(u128, String)> = a.persons.iter().map(|r| (r.id, r.label.clone())).collect();
    assert_eq!(rows, vec![(7, "emil".to_string()), (8, "dora".to_string())]);
}

#[test]
fn merge_persons__should_cluster_and_resolve_per_entry_relays() {
    // Given: Alice's two devices as two contact entries with distinct relay
    // sets
    let mut mint = TestMint(10);
    let mut a = two_contacts(&mut mint);
    let phone = id_of(&mut a, "Alice", &mut mint);
    let laptop = id_of(&mut a, "alice-laptop", &mut mint);

    // When: the explicit clustering act
    let merged = a.merge_persons(phone, laptop, &mut mint).expect("merge");

    // Then: one person, two member entries; addressing the person reaches
    // both keys, each riding its own entry's relays
    assert_eq!(merged.members.len(), 2);
    assert_eq!(merged.label, "Alice");
    assert!(a.unclaimed_entries().is_empty());
    assert_eq!(a.persons(&mut mint).len(), 1);
    let contacts = a.resolve_person("Alice", &mut mint).expect("resolve");
    assert_eq!(contacts.len(), 2);
    assert_eq!(contacts[0].keys, vec![key(1)]);
    assert_eq!(contacts[1].keys, vec![key(2)]);
    assert_eq!(contacts[0].relays, vec!["r1@203.0.113.1:1".to_string()]);
    assert_eq!(contacts[1].relays, vec!["r2@203.0.113.2:2".to_string()]);
    // The per-device layer stays addressable underneath
    let device_only = a.resolve_person("alice-laptop", &mut mint).expect("member");
    assert_eq!(device_only.len(), 1);
    assert_eq!(device_only[0].keys, vec![key(2)]);
    assert!(matches!(a.merge_persons(phone, phone, &mut mint), Err(Error::InvalidInput(_))));
    assert!(matches!(a.merge_persons(phone, laptop, &mut mint), Err(Error::NotAContact(_))));
}

#[test]
fn split_person__should_return_a_member_to_its_own_person() {
    // Given
    let mut mint = TestMint(10);
    let mut a = merged(&mut mint);
    let phone = id_of(&mut a, "Alice", &mut mint);

    // When
    let split = a.split_person("alice-laptop", &mut TestMint(30)).expect("split");

    // Then: two persons again, nothing dangling
    assert_eq!(split.label, "alice-laptop");
    assert_eq!(split.members.len(), 1);
    assert_eq!(split.id, id(30));
    let persons = a.persons(&mut mint);
    assert_eq!(persons.len(), 2);
    assert!(persons.iter().all(|person| !person.members.is_empty()));
    assert_eq!(id_of(&mut a, "Alice", &mut mint), phone);
    assert!(a.unclaimed_entries().is_empty());
    let rows: Vec<(u128, String, Vec<PublicKey>)> =
        a.persons.iter().map(|r| (r.id, r.label.clone(), r.members.clone())).collect();
    assert_eq!(
        rows,
        vec![
            (10, "Alice".to_string(), vec![key(1)]),
            (30, "alice-laptop".to_string(), vec![key(2)]),
        ],
        "what the merge had joined is apart again"
    );
    assert!(matches!(a.split_person("Alice", &mut mint), Err(Error::InvalidInput(_))));
    assert!(matches!(a.split_person("nobody", &mut mint), Err(Error::NotAContact(_))));
}

#[test]
fn split_person__should_refuse_a_split_that_would_twin_the_source_label() {
    // Given: a merged person labeled by one member's petname
    let mut mint = TestMint(10);
    let mut a = merged(&mut mint);

    // When: splitting the namesake member out
    let result = a.split_person("Alice", &mut mint);

    // Then: refused — labels stay unique, addressing stays unambiguous
    assert!(matches!(result, Err(Error::PetnameCollision(_))));
    let persons = a.persons(&mut mint);
    assert_eq!(persons.len(), 1);
    assert_eq!(persons[0].members.len(), 2);
}

#[test]
fn rename_person__should_move_the_label_and_refuse_collisions() {
    // Given
    let mut mint = TestMint(10);
    let mut a = Client::new(key(200));
    a.add_contact(&named(1, "alice-phone", vec![relay(1)]), None, &mut mint).expect("add");
    a.add_contact(&named(2, "bob", vec![relay(2)]), None, &mut mint).expect("add");

    // When: rename by id — the id survives the label move
    let alice = id_of(&mut a, "alice-phone", &mut mint);
    a.rename_person(alice, "Alice", &mut mint).expect("rename");

    // Then: resolution follows the new label at the same id; collisions
    // refuse
    assert!(a.unclaimed_entries().is_empty());
    assert_eq!(id_of(&mut a, "Alice", &mut mint), alice);
    assert_eq!(a.resolve_person("Alice", &mut mint).expect("resolve").len(), 1);
    assert!(matches!(a.rename_person(alice, "bob", &mut mint), Err(Error::PetnameCollision(_))));
    assert!(matches!(a.rename_person(alice, "  ", &mut mint), Err(Error::InvalidInput(_))));
    assert!(matches!(a.rename_person(id(99), "x", &mut mint), Err(Error::NotAContact(_))));
    // …and a new contact can't take a person label either
    assert!(matches!(
        a.add_contact(&named(3, "Alice", vec![relay(3)]), None, &mut mint),
        Err(Error::PetnameCollision(_))
    ));
}

#[test]
fn update_contact__should_keep_a_rekeyed_member_clustered() {
    // Given: a merged person whose laptop entry is about to re-key — the
    // fresh record leads with the new key, listing the old one
    let mut mint = TestMint(10);
    let mut a = merged(&mut mint);
    let mut rekeyed = named(3, "alice laptop", vec![relay(2)]);
    rekeyed.keys.push(key(2));

    // When: the explicit update act moves the entry's stem
    assert_eq!(a.update_contact(&rekeyed).expect("update"), "alice-laptop");

    // Then: the membership followed the stem — nothing dangles
    assert!(a.unclaimed_entries().is_empty());
    let persons = a.persons(&mut mint);
    assert_eq!(persons.len(), 1, "the cluster held");
    assert_eq!(persons[0].label, "Alice");
    assert_eq!(persons[0].members.len(), 2);
    assert_eq!(persons[0].keys(), vec![key(1), key(2), key(3)]);
    assert_eq!(persons[0].member_stems(), vec![key(1), key(3)]);
}

#[test]
fn person_labels__should_be_stored_as_they_read_back() {
    let mut a = Client::new(key(200));
    a.save_contact("dora", &named(4, "dora", vec![relay(4)])).expect("save");
    a.save_person(5, "dora\nthe explorer", &vec![key(4)]);
    assert_eq!(a.persons(&mut TestMint(90))[0].label, "dora");
}

#[test]
fn person_rows__should_be_filed_by_id() {
    let mut a = Client::new(key(200));
    for (n, label) in [(7, "g"), (3, "c"), (7, "gee"), (5, "e")] {
        a.save_person(n, label, &vec![key(1)]);
    }
    let rows: Vec<(u128, String)> = a.persons.iter().map(|r| (r.id, r.label.clone())).collect();
    assert_eq!(rows, vec![(3, "c".to_string()), (5, "e".to_string()), (7, "gee".to_string())]);
    a.remove_person(5);
    assert_eq!(a.persons.len(), 2);
}
