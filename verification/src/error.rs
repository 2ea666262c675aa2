//! The client error type: one enum for the crate. Variants an edge branches
//! on have a type of their own; failures only ever shown to a person are
//! grouped by kind, with the detail as payload.
use vstd::prelude::*;

use crate::order::Duplicate;
use crate::text::{concat, quote, quoted};

verus! {

#[derive(Debug)]
pub enum Error {
    /// Device-key file could not be read, parsed, or created.
    Keystore(String),
    /// Client state on disk failed (read, write, decode).
    Storage(String),
    /// A stored conversation cannot produce a message graph, so nothing can
    /// be threaded into it.
    Conversation(String),
    /// Malformed user-supplied value (hex id or key, relay spec, contact
    /// spec).
    InvalidInput(String),
    /// A scanned or pasted record that cannot be used as a contact.
    InvalidRecord(String),
    /// The chosen petname already names a different contact.
    PetnameCollision(String),
    /// The record shares a key with a contact stored under another petname:
    /// updating that entry must be explicit.
    ContactOverlap { existing: String },
    /// The record shares keys with two or more contacts; merging is never
    /// silent.
    AmbiguousOverlap(String),
    /// A send needs someone to send to.
    NoRecipients,
    /// The profile is missing what this operation needs.
    ProfileIncomplete(String),
    /// No stored contact matches the petname or key.
    NotAContact(String),
    /// The stored record carries no relay URL: dial-by-key is impossible.
    NoRelayUrl,
    /// Could not reach the other side (connect failed or timed out).
    Unreachable(String),
    /// A connection or stream failed mid-operation.
    Transport(String),
    /// The relay or peer answered outside the protocol.
    UnexpectedResponse(String),
    /// The relay's operator does not take a mailbox for this key.
    MailboxRefused(String),
    /// No relay accepted the deposit; the message is queued and will retry.
    AllRelaysPending(String),
    /// The blob is in no reachable cache.
    BlobUnavailable(String),
    /// Sealing failed.
    Crypto(String),
    /// An envelope or blob did not open.
    Open(String),
    /// Bytes off the wire did not decode.
    Decode(String),
}

/// What an error holds, with text as a sequence of characters.
pub enum ErrorView {
    Keystore(Seq<char>),
    Storage(Seq<char>),
    Conversation(Seq<char>),
    InvalidInput(Seq<char>),
    InvalidRecord(Seq<char>),
    PetnameCollision(Seq<char>),
    ContactOverlap(Seq<char>),
    AmbiguousOverlap(Seq<char>),
    NoRecipients,
    ProfileIncomplete(Seq<char>),
    NotAContact(Seq<char>),
    NoRelayUrl,
    Unreachable(Seq<char>),
    Transport(Seq<char>),
    UnexpectedResponse(Seq<char>),
    MailboxRefused(Seq<char>),
    AllRelaysPending(Seq<char>),
    BlobUnavailable(Seq<char>),
    Crypto(Seq<char>),
    Open(Seq<char>),
    Decode(Seq<char>),
}

impl DeepView for Error {
    type V = ErrorView;

    open spec fn deep_view(&self) -> ErrorView {
        match *self {
            Error::Keystore(s) => ErrorView::Keystore(s@),
            Error::Storage(s) => ErrorView::Storage(s@),
            Error::Conversation(s) => ErrorView::Conversation(s@),
            Error::InvalidInput(s) => ErrorView::InvalidInput(s@),
            Error::InvalidRecord(s) => ErrorView::InvalidRecord(s@),
            Error::PetnameCollision(s) => ErrorView::PetnameCollision(s@),
            Error::ContactOverlap { existing } => ErrorView::ContactOverlap(existing@),
            Error::AmbiguousOverlap(s) => ErrorView::AmbiguousOverlap(s@),
            Error::NoRecipients => ErrorView::NoRecipients,
            Error::ProfileIncomplete(s) => ErrorView::ProfileIncomplete(s@),
            Error::NotAContact(s) => ErrorView::NotAContact(s@),
            Error::NoRelayUrl => ErrorView::NoRelayUrl,
            Error::Unreachable(s) => ErrorView::Unreachable(s@),
            Error::Transport(s) => ErrorView::Transport(s@),
            Error::UnexpectedResponse(s) => ErrorView::UnexpectedResponse(s@),
            Error::MailboxRefused(s) => ErrorView::MailboxRefused(s@),
            Error::AllRelaysPending(s) => ErrorView::AllRelaysPending(s@),
            Error::BlobUnavailable(s) => ErrorView::BlobUnavailable(s@),
            Error::Crypto(s) => ErrorView::Crypto(s@),
            Error::Open(s) => ErrorView::Open(s@),
            Error::Decode(s) => ErrorView::Decode(s@),
        }
    }
}

impl Duplicate for Error {
    fn duplicate(&self) -> (r: Self) {
        match self {
            Error::Keystore(s) => Error::Keystore(s.clone()),
            Error::Storage(s) => Error::Storage(s.clone()),
            Error::Conversation(s) => Error::Conversation(s.clone()),
            Error::InvalidInput(s) => Error::InvalidInput(s.clone()),
            Error::InvalidRecord(s) => Error::InvalidRecord(s.clone()),
            Error::PetnameCollision(s) => Error::PetnameCollision(s.clone()),
            Error::ContactOverlap { existing } => Error::ContactOverlap {
                existing: existing.clone(),
            },
            Error::AmbiguousOverlap(s) => Error::AmbiguousOverlap(s.clone()),
            Error::NoRecipients => Error::NoRecipients,
            Error::ProfileIncomplete(s) => Error::ProfileIncomplete(s.clone()),
            Error::NotAContact(s) => Error::NotAContact(s.clone()),
            Error::NoRelayUrl => Error::NoRelayUrl,
            Error::Unreachable(s) => Error::Unreachable(s.clone()),
            Error::Transport(s) => Error::Transport(s.clone()),
            Error::UnexpectedResponse(s) => Error::UnexpectedResponse(s.clone()),
            Error::MailboxRefused(s) => Error::MailboxRefused(s.clone()),
            Error::AllRelaysPending(s) => Error::AllRelaysPending(s.clone()),
            Error::BlobUnavailable(s) => Error::BlobUnavailable(s.clone()),
            Error::Crypto(s) => Error::Crypto(s.clone()),
            Error::Open(s) => Error::Open(s.clone()),
            Error::Decode(s) => Error::Decode(s.clone()),
        }
    }
}

/// The sentence an error is shown as.
pub open spec fn error_text(e: ErrorView) -> Seq<char> {
    match e {
        ErrorView::Keystore(s) => "keystore: "@ + s,
        ErrorView::Storage(s) => "storage: "@ + s,
        ErrorView::Conversation(s) => "conversation not threadable: "@ + s,
        ErrorView::InvalidInput(s) => "invalid input: "@ + s,
        ErrorView::InvalidRecord(s) => "unusable record: "@ + s,
        ErrorView::PetnameCollision(s) => "a different contact is already named "@ + quoted(s),
        ErrorView::ContactOverlap(s) => "record shares a key with your contact "@ + quoted(s)
            + " — add it under that petname to update their entry"@,
        ErrorView::AmbiguousOverlap(s) => "record shares keys with multiple contacts ("@ + s
            + ") — not stored"@,
        ErrorView::NoRecipients => "at least one recipient required"@,
        ErrorView::ProfileIncomplete(s) => s,
        ErrorView::NotAContact(s) => "no stored contact: "@ + s,
        ErrorView::NoRelayUrl =>
            "contact record has no relay url — re-exchange records to enable dial-by-key"@,
        ErrorView::Unreachable(s) => "unreachable: "@ + s,
        ErrorView::Transport(s) => "transport: "@ + s,
        ErrorView::UnexpectedResponse(s) => "unexpected response: "@ + s,
        ErrorView::MailboxRefused(s) => "mailbox refused: "@ + s,
        ErrorView::AllRelaysPending(s) =>
            "no relay took the deposit — message queued for retry ("@ + s + ")"@,
        ErrorView::BlobUnavailable(s) => "blob fetch failed: "@ + s,
        ErrorView::Crypto(s) => "crypto: "@ + s,
        ErrorView::Open(s) => "open: "@ + s,
        ErrorView::Decode(s) => "decode: "@ + s,
    }
}

/// `before`, `middle` and `after` in one string.
pub(crate) fn around(before: &str, middle: &str, after: &str) -> (r: String)
    ensures
        r@ == before@ + middle@ + after@,
{
    let head: String = concat(before, middle);
    concat(head.as_str(), after)
}

impl Error {
    /// The sentence the error is shown as.
    pub fn message(&self) -> (r: String)
        ensures
            r@ == error_text(self.deep_view()),
    {
        match self {
            Error::Keystore(s) => concat("keystore: ", s.as_str()),
            Error::Storage(s) => concat("storage: ", s.as_str()),
            Error::Conversation(s) => concat("conversation not threadable: ", s.as_str()),
            Error::InvalidInput(s) => concat("invalid input: ", s.as_str()),
            Error::InvalidRecord(s) => concat("unusable record: ", s.as_str()),
            Error::PetnameCollision(s) => {
                let name: String = quote(s.as_str());
                concat("a different contact is already named ", name.as_str())
            },
            Error::ContactOverlap { existing } => {
                let name: String = quote(existing.as_str());
                around(
                    "record shares a key with your contact ",
                    name.as_str(),
                    " — add it under that petname to update their entry",
                )
            },
            Error::AmbiguousOverlap(s) => around(
                "record shares keys with multiple contacts (",
                s.as_str(),
                ") — not stored",
            ),
            Error::NoRecipients => "at least one recipient required".to_owned(),
            Error::ProfileIncomplete(s) => s.as_str().to_owned(),
            Error::NotAContact(s) => concat("no stored contact: ", s.as_str()),
            Error::NoRelayUrl => "contact record has no relay url — re-exchange records to enable dial-by-key".to_owned(),
            Error::Unreachable(s) => concat("unreachable: ", s.as_str()),
            Error::Transport(s) => concat("transport: ", s.as_str()),
            Error::UnexpectedResponse(s) => concat("unexpected response: ", s.as_str()),
            Error::MailboxRefused(s) => concat("mailbox refused: ", s.as_str()),
            Error::AllRelaysPending(s) => around(
                "no relay took the deposit — message queued for retry (",
                s.as_str(),
                ")",
            ),
            Error::BlobUnavailable(s) => concat("blob fetch failed: ", s.as_str()),
            Error::Crypto(s) => concat("crypto: ", s.as_str()),
            Error::Open(s) => concat("open: ", s.as_str()),
            Error::Decode(s) => concat("decode: ", s.as_str()),
        }
    }
}

} // verus!
