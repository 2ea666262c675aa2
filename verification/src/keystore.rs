//! Device-key storage: a hex-encoded seed in a file.
use vstd::prelude::*;

use crate::error::{around, error_text, Error, ErrorView};
use crate::hex;
use crate::hex::{hex32, hex_error, hex_text};
use crate::rng::os_bytes;
use crate::text::{concat, trim, trimmed};

verus! {

/// The seed a key file holds, or why it holds none.
pub fn parse_seed(content: &str) -> (r: Result<[u8; 32], Error>)
    ensures
        match hex32(trimmed(content@)) {
            Some(seed) => r == Ok::<[u8; 32], Error>(seed),
            None => r is Err && r->Err_0.deep_view() == ErrorView::Keystore(
                error_text(hex_error(trimmed(content@))),
            ),
        },
{
    let digits: String = trim(content);
    match hex::parse32(digits.as_str()) {
        Ok(seed) => Ok(seed),
        Err(e) => Err(Error::Keystore(e.message())),
    }
}

/// What a key file holds for a seed.
pub fn seed_text(seed: &[u8; 32]) -> (r: String)
    ensures
        r@ == hex_text(seed@),
{
    hex::encode(seed.as_slice())
}

/// A fresh seed and the file text for it.
pub fn create_seed() -> (r: ([u8; 32], String))
    ensures
        r.1@ == hex_text(r.0@),
{
    let seed: [u8; 32] = os_bytes();
    let text: String = seed_text(&seed);
    (seed, text)
}

/// A key file that could not be read.
pub fn unreadable(path: &str, cause: &str) -> (r: Error)
    ensures
        r.deep_view() == ErrorView::Keystore("read key file "@ + path@ + ": "@ + cause@),
{
    let head: String = around("read key file ", path, ": ");
    Error::Keystore(concat(head.as_str(), cause))
}

/// A key file that could not be written.
pub fn unwritable(path: &str, cause: &str) -> (r: Error)
    ensures
        r.deep_view() == ErrorView::Keystore("write "@ + path@ + ": "@ + cause@),
{
    let head: String = around("write ", path, ": ");
    Error::Keystore(concat(head.as_str(), cause))
}

/// The seed written is the seed read back.
pub proof fn law_seed_round_trip(seed: [u8; 32])
    ensures
        hex32(trimmed(hex_text(seed@))) == Some(seed),
{
    crate::hex::law_hex32_round_trip(seed);
    let s = hex_text(seed@);
    crate::hex::lemma_hex_text_plain(seed@, 0);
    crate::hex::lemma_hex_text_plain(seed@, s.len() - 1);
    crate::text::lemma_trim_fixed(s);
}

} // verus!
