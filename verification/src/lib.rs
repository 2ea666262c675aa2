//! The client core of a zink messenger.
pub mod backfill;
pub mod client;
pub mod contacts;
pub mod error;
pub mod evidence;
pub mod format;
pub mod frames;
pub mod hex;
pub mod history;
pub mod ids;
pub mod keystore;
pub mod lens;
pub mod load;
pub mod names;
pub mod net;
pub mod order;
pub mod outbox;
pub mod persons;
pub mod profile;
pub mod reach;
pub mod record;
pub mod recv;
pub mod relays;
pub mod rng;
pub mod send;
pub mod seqs;
pub mod state;
pub mod store;
pub mod sync;
pub mod text;
pub mod time;
pub mod trust;
pub mod who_is;
