#![allow(non_snake_case)]

use zink_client::client::OutboxEntry;
use zink_client::error::Error;
use zink_client::format::{hex128, parse128, write_lines};
use zink_client::hex::{encode, parse32};
use zink_client::ids::{BlobHash, MessageId, PublicKey};
use zink_client::load::LearnedFiles;
use zink_client::record::{ContactRecord, RelayEntry};
use zink_client::state::{decode_attestations, encode_attestations, parse_outbox_entry, parse_person_id, read_keys, read_person, write_person, ClientState};
use zink_client::text::{join, lines_of, parse_u64, split, split_once, strip_prefix, trim};

fn key(byte: u8) -> PublicKey {
    PublicKey([byte; 32])
}

fn mid(byte: u8) -> MessageId {
    MessageId([byte; 32])
}

fn state() -> ClientState {
    ClientState::open("k")
}

fn record(byte: u8) -> ContactRecord {
    ContactRecord {
        keys: vec![key(byte)],
        attestations: vec![],
        relays: vec![],
        name_claim: None,
        avatar_claim: None,
    }
}

#[test]
fn hex__should_round_trip_and_refuse() {
    assert_eq!(encode(&[0, 0xab, 0xff]), "00abff");
    assert_eq!(parse32("0f".repeat(32).as_str()).expect("parses"), [0x0f; 32]);
    assert_eq!(parse32("0F".repeat(32).as_str()).expect("upper case"), [0x0f; 32]);
    let shown = |s: &str| parse32(s).err().map(|e| e.message());
    assert_eq!(shown("ab"), Some("invalid input: expected 64 hex chars, got 2".to_string()));
    assert_eq!(
        shown("zz".repeat(32).as_str()),
        Some("invalid input: invalid hex: invalid digit found in string".to_string())
    );
    // A sign is no digit.
    assert_eq!(
        shown("+0".repeat(32).as_str()),
        Some("invalid input: invalid hex: invalid digit found in string".to_string())
    );
}

#[test]
fn errors__should_show_one_sentence_each() {
    let t = || "x".to_string();
    let shown: Vec<String> = vec![
        Error::Keystore(t()),
        Error::Storage(t()),
        Error::Conversation(t()),
        Error::InvalidInput(t()),
        Error::InvalidRecord(t()),
        Error::PetnameCollision("a\"b".to_string()),
        Error::ContactOverlap { existing: t() },
        Error::AmbiguousOverlap(t()),
        Error::NoRecipients,
        Error::ProfileIncomplete(t()),
        Error::NotAContact(t()),
        Error::NoRelayUrl,
        Error::Unreachable(t()),
        Error::Transport(t()),
        Error::UnexpectedResponse(t()),
        Error::AllRelaysPending(t()),
        Error::BlobUnavailable(t()),
        Error::Crypto(t()),
        Error::Open(t()),
        Error::Decode(t()),
    ]
    .into_iter()
    .map(|e| e.message())
    .collect();
    assert_eq!(
        shown,
        vec![
            "keystore: x",
            "storage: x",
            "conversation not threadable: x",
            "invalid input: x",
            "unusable record: x",
            "a different contact is already named \"a\\\"b\"",
            "record shares a key with your contact \"x\" — add it under that petname to update their entry",
            "record shares keys with multiple contacts (x) — not stored",
            "at least one recipient required",
            "x",
            "no stored contact: x",
            "contact record has no relay url — re-exchange records to enable dial-by-key",
            "unreachable: x",
            "transport: x",
            "unexpected response: x",
            "no relay took the deposit — message queued for retry (x)",
            "blob fetch failed: x",
            "crypto: x",
            "open: x",
            "decode: x",
        ]
    );
}

#[test]
fn text__should_cut_and_join() {
    assert_eq!(trim(" \t a b \u{3000}\n"), "a b");
    assert_eq!(split_once("k=v=w", '='), Some(("k".to_string(), "v=w".to_string())));
    assert_eq!(split("a,,b", ','), vec!["a", "", "b"]);
    assert_eq!(lines_of("a\r\nb\n\nc"), vec!["a", "b", "", "c"]);
    assert_eq!(strip_prefix("person:1", "person:"), Some("1".to_string()));
    assert_eq!(strip_prefix("p", "person:"), None);
    assert_eq!(join(&vec!["a".to_string(), "b".to_string()], ", "), "a, b");
    assert_eq!(parse_u64("18446744073709551615"), Some(u64::MAX));
    assert_eq!(parse_u64("18446744073709551616"), None);
    assert_eq!(parse_u64("-1"), None);
    assert_eq!(parse_u64(""), None);
    assert_eq!(write_lines(&vec!["x".to_string(), "y".to_string()]), "x\ny\n");
}

#[test]
fn relay_specs__should_round_trip() {
    let e = RelayEntry::from_spec("ZINK-RELAY:a@203.0.113.1:1#http://u#x");
    assert_eq!(e.mailbox, "a@203.0.113.1:1");
    assert_eq!(e.relay_url.as_deref(), Some("http://u#x"));
    assert_eq!(e.to_spec(), "a@203.0.113.1:1#http://u#x");
    assert_eq!(RelayEntry::from_spec("plain").relay_url, None);
}

#[test]
fn paths__should_be_content_addressed() {
    let s = state();
    let two = vec![key(1), key(2)];
    // The digest of the 64 key bytes names the file.
    let bytes: Vec<u8> = [[1u8; 32], [2u8; 32]].concat();
    let digest = blake3::hash(&bytes);
    let file = s.participants_file(&two);
    assert!(file.ends_with(encode(digest.as_bytes()).as_str()), "{file}");
    assert_ne!(file, s.participants_file(&vec![key(1)]));
    assert_ne!(s.outbox_path(mid(1), "a"), s.outbox_path(mid(1), "b"));
    assert!(s.envelope_path(mid(1), mid(2)).ends_with(".env"));
    assert!(s.acks_path(mid(1), mid(2)).ends_with(".acks"));
}

#[test]
fn counters_and_values__should_read_what_was_written() {
    let s = state();
    assert_eq!(s.save_profile_revision(7).text, "7");
    assert_eq!(s.profile_revision(Some("7\n")), 7);
    assert_eq!(s.profile_revision(Some("seven")), 0);
    assert_eq!(s.profile_revision(None), 0);
    assert_eq!(s.profile_name(Some("  \n")), None);
    let (name, relays) = s.save_profile(
        "alice",
        &vec![RelayEntry { mailbox: "m".to_string(), relay_url: Some("u".to_string()) }],
    );
    assert_eq!(s.profile_name(Some(name.text.as_str())).as_deref(), Some("alice"));
    let entries = s.home_relay_entries(Some(relays.text.as_str()));
    assert_eq!(entries[0].to_spec(), "m#u");
    assert_eq!(s.home_relays(Some(relays.text.as_str())), vec!["m"]);
    let file = s.save_device_label("phone", 3);
    assert_eq!(s.device_label_meta(Some(file.text.as_str())), Some(("phone".to_string(), 3)));
    let file = s.save_avatar_meta(&BlobHash([1; 32]), &[2; 32], 9);
    assert_eq!(s.avatar_meta(Some(file.text.as_str())), Some((BlobHash([1; 32]), [2; 32], 9)));
    assert!(s.note_first_seen(mid(1), true, 5).is_none());
    assert_eq!(s.note_first_seen(mid(1), false, 5).expect("written").text, "5");
    assert_eq!(s.set_read_count(mid(1), 4).text, "4");
    assert!(s.set_conversation_name(mid(1), None).is_none());
    let file = s.set_conversation_name(mid(1), Some("trip")).expect("set");
    assert_eq!(s.conversation_name(Some(file.text.as_str())).as_deref(), Some("trip"));
    let file = s.dismiss_key(None, &key(9)).expect("new");
    assert_eq!(s.dismissed_keys(Some(file.text.as_str())), vec![key(9)]);
    assert!(s.dismiss_key(Some(file.text.as_str()), &key(9)).is_none());
}

#[test]
fn persons_and_outbox__should_round_trip_through_their_files() {
    let text = write_person("Alice", &vec![key(1), key(2)]);
    assert_eq!(read_person(text.as_str()), Some(("Alice".to_string(), vec![key(1), key(2)])));
    assert_eq!(read_person(""), None);
    assert_eq!(hex128(0x1f), "0000000000000000000000000000001f");
    assert_eq!(parse128(hex128(u128::MAX).as_str()), Some(u128::MAX));
    assert_eq!(parse_person_id("zz"), None);
    assert_eq!(parse_person_id(hex128(5).as_str()), Some(5));
    let s = state();
    let entry = OutboxEntry {
        message: mid(1),
        relay: "r@203.0.113.1:1".to_string(),
        conversation: mid(2),
        created_ms: 77,
    };
    let file = s.outbox_file(&entry);
    let stem = file.path.rsplit('/').next().expect("name").to_string();
    let read = parse_outbox_entry(stem.as_str(), file.text.as_str()).expect("parses");
    assert_eq!((read.message, read.conversation, read.created_ms), (mid(1), mid(2), 77));
    assert_eq!(read.relay, entry.relay);
    assert!(parse_outbox_entry("nonsense", file.text.as_str()).is_none());
}

#[test]
fn acks__should_union_and_read_back() {
    let s = state();
    assert!(s.add_acks(&[], &vec![]).is_none());
    let bytes = s.add_acks(&[], &vec![key(5)]).expect("written");
    let bytes = s.add_acks(&bytes, &vec![key(3)]).expect("written");
    assert_eq!(read_keys(&bytes), vec![key(3), key(5)]);
    let files = vec![
        ("01".repeat(32), bytes),
        ("02".repeat(32), vec![]),
        ("nonsense".to_string(), [5u8; 32].to_vec()),
    ];
    assert_eq!(s.acks_in(&files), vec![(mid(1), vec![key(3), key(5)])]);
}

#[test]
fn attestation_lists__should_drop_a_truncated_tail() {
    let list = vec![vec![1, 2, 3], vec![], vec![9]];
    let bytes = encode_attestations(&list);
    assert_eq!(decode_attestations(&bytes), list);
    assert_eq!(decode_attestations(&bytes[..bytes.len() - 1]), vec![vec![1, 2, 3], vec![]]);
    let save = state().save_learned(&key(1), &key(2), &vec![vec![7]], 12);
    assert_eq!(save.endorsements, Some(vec![1, 0, 0, 0, 7]));
    assert_eq!(save.time.text, "12");
    assert!(save.record_path.ends_with(".record"));
    assert_eq!(state().save_learned(&key(1), &key(2), &vec![], 12).endorsements, None);
}

#[test]
fn loading__should_skip_what_is_damaged() {
    let s = state();
    let names = vec!["02".repeat(32), "junk".to_string(), "01".repeat(32)];
    assert_eq!(s.conversations(&names), vec![mid(1), mid(2)]);
    let rows = s.persons(&vec![
        (hex128(9), Some("b\n".to_string())),
        (hex128(3), Some("a\n".to_string())),
        ("junk".to_string(), Some("c\n".to_string())),
        (hex128(4), None),
    ]);
    let labels: Vec<String> = rows.iter().map(|r| r.label.clone()).collect();
    assert_eq!(labels, vec!["a", "b"]);
    let contacts = s.contacts(&vec![
        (Some("zoe\n".to_string()), Some(record(2))),
        (Some("adam".to_string()), Some(record(1))),
        (None, Some(record(3))),
        (Some("lost".to_string()), None),
    ]);
    let petnames: Vec<String> = contacts.iter().map(|e| e.0.clone()).collect();
    assert_eq!(petnames, vec!["adam", "zoe"]);
    let learned = s.learned(&vec![
        LearnedFiles {
            stem: "05".repeat(32),
            record: Some(record(1)),
            time: Some("44".to_string()),
            endorsements: vec![],
        },
        LearnedFiles { stem: "06".repeat(32), record: None, time: None, endorsements: vec![] },
    ]);
    assert_eq!(learned.len(), 1);
    assert_eq!((learned[0].responder, learned[0].received_ms), (key(5), 44));
}

#[test]
fn trim__should_leave_a_trimmed_text_alone() {
    let once = trim(" \t a b\u{3000}\n");
    assert_eq!(once, "a b");
    assert_eq!(trim(once.as_str()), once);
}
