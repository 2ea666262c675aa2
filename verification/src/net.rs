//! What the network round-trips decide: what a relay's answer to a
//! registration means, when a deposit is tried again, and how failures are
//! reported. The round-trips themselves belong to the edge.
use vstd::prelude::*;

use crate::error::{around, error_text, Error, ErrorView};
use crate::text::concat;

verus! {

/// A dial failed. Opaque on purpose: nothing branches on the reason.
#[derive(Debug)]
pub struct DialError(pub String);

/// An operation on an established connection failed. Says nothing about
/// whether the remote processed anything.
#[derive(Debug)]
pub struct ConnError(pub String);

/// A relay URL that cannot be parsed.
#[derive(Debug)]
pub struct InvalidRelayUrl(pub String);

/// How a dial ended without a connection.
#[derive(Debug)]
pub enum DialFailure {
    /// The deadline passed first.
    TimedOut,
    Refused(DialError),
}

/// "timed out", or what the dial says.
pub open spec fn dial_text(f: DialFailure) -> Seq<char> {
    match f {
        DialFailure::TimedOut => "timed out"@,
        DialFailure::Refused(e) => e.0@,
    }
}

/// A peer that could not be reached.
pub fn peer_unreachable(failure: &DialFailure) -> (r: Error)
    ensures
        r.deep_view() == ErrorView::Unreachable(dial_text(*failure)),
{
    match failure {
        DialFailure::TimedOut => Error::Unreachable("timed out".to_owned()),
        DialFailure::Refused(e) => Error::Unreachable(e.0.clone()),
    }
}

/// A relay that could not be reached: which one, and why.
pub open spec fn relay_down(relay: Seq<char>, cause: ErrorView) -> ErrorView {
    ErrorView::Unreachable("connect to "@ + relay + ": "@ + error_text(cause))
}

/// A relay that could not be reached.
pub fn relay_unreachable(relay: &str, failure: &DialFailure) -> (r: Error)
    ensures
        r.deep_view() == relay_down(relay@, ErrorView::Unreachable(dial_text(*failure))),
{
    let cause: Error = peer_unreachable(failure);
    let shown: String = cause.message();
    let head: String = around("connect to ", relay, ": ");
    Error::Unreachable(concat(head.as_str(), shown.as_str()))
}

// ---- registering ----

/// A relay's answer, as far as a registration reads it.
#[derive(Debug)]
pub enum RegisterReply {
    Registered,
    /// The operator does not take a mailbox for this key.
    Refused,
    /// Anything else, as it is shown.
    Other(String),
}

/// A registration: a refusal is surfaced, never walked past.
pub open spec fn registration(reply: RegisterReply, relay: Seq<char>) -> Result<(), ErrorView> {
    match reply {
        RegisterReply::Registered => Ok(()),
        RegisterReply::Refused => Err(ErrorView::MailboxRefused(relay)),
        RegisterReply::Other(shown) => Err(
            ErrorView::UnexpectedResponse("register at "@ + relay + ": "@ + shown@),
        ),
    }
}

/// What a relay's answer to a registration means.
pub fn register(reply: &RegisterReply, relay: &str) -> (r: Result<(), Error>)
    ensures
        match registration(*reply, relay@) {
            Ok(()) => r is Ok,
            Err(e) => r is Err && r->Err_0.deep_view() == e,
        },
{
    match reply {
        RegisterReply::Registered => Ok(()),
        RegisterReply::Refused => Err(Error::MailboxRefused(relay.to_owned())),
        RegisterReply::Other(shown) => {
            let head: String = around("register at ", relay, ": ");
            Err(Error::UnexpectedResponse(concat(head.as_str(), shown.as_str())))
        },
    }
}

// ---- depositing ----

/// How often a deposit is tried.
pub const DEPOSIT_ATTEMPTS: u32 = 3;

/// How one attempt at a deposit went.
#[derive(Debug)]
pub enum DepositEvent {
    /// The relay could not be reached.
    Down(Error),
    Deposited,
    /// An answer outside the protocol, as it is shown.
    Other(String),
    /// The round-trip broke after the connection stood.
    Broken(Error),
}

/// A deposit being tried: deposits dedup by message id on the relay, so trying
/// again is always safe.
#[derive(Debug)]
pub struct Deposit {
    pub relay: String,
    /// Attempts that broke so far.
    pub broken: u32,
}

/// What becomes of a deposit after an attempt.
pub enum DepositView {
    Done,
    Failed(ErrorView),
    Again,
}

/// An unreachable relay is not tried again here: healing over time is the
/// outbox's job. Only a round-trip that broke is, up to three attempts.
pub open spec fn deposit_step(relay: Seq<char>, broken: u32, event: DepositEvent) -> DepositView {
    match event {
        DepositEvent::Deposited => DepositView::Done,
        DepositEvent::Down(e) => DepositView::Failed(e.deep_view()),
        DepositEvent::Other(shown) => DepositView::Failed(
            ErrorView::UnexpectedResponse("from "@ + relay + ": "@ + shown@),
        ),
        DepositEvent::Broken(e) => if broken + 1 < DEPOSIT_ATTEMPTS {
            DepositView::Again
        } else {
            DepositView::Failed(
                ErrorView::Transport(
                    "deposit to "@ + relay + " failed after 3 attempts: "@ + error_text(
                        e.deep_view(),
                    ),
                ),
            )
        },
    }
}

impl Deposit {
    pub fn new(relay: &str) -> (r: Self)
        ensures
            r.relay@ == relay@,
            r.broken == 0,
    {
        Deposit { relay: relay.to_owned(), broken: 0 }
    }

    /// Takes an attempt into account: the deposit's result, or `None` to try
    /// again on a fresh connection.
    pub fn note(&mut self, event: DepositEvent) -> (r: Option<Result<(), Error>>)
        requires
            old(self).broken < DEPOSIT_ATTEMPTS,
        ensures
            final(self).relay@ == old(self).relay@,
            match deposit_step(old(self).relay@, old(self).broken, event) {
                DepositView::Done => r == Some(Ok::<(), Error>(())) && final(self).broken == old(
                    self,
                ).broken,
                DepositView::Failed(e) => r is Some && r->0 is Err && r->0->Err_0.deep_view() == e
                    && final(self).broken == old(self).broken,
                DepositView::Again => r is None && final(self).broken == old(self).broken + 1,
            },
    {
        match event {
            DepositEvent::Deposited => Some(Ok(())),
            DepositEvent::Down(e) => Some(Err(e)),
            DepositEvent::Other(shown) => {
                let head: String = around("from ", self.relay.as_str(), ": ");
                Some(Err(Error::UnexpectedResponse(concat(head.as_str(), shown.as_str()))))
            },
            DepositEvent::Broken(e) => {
                if self.broken + 1 < DEPOSIT_ATTEMPTS {
                    self.broken += 1;
                    None
                } else {
                    let shown: String = e.message();
                    let head: String = around(
                        "deposit to ",
                        self.relay.as_str(),
                        " failed after 3 attempts: ",
                    );
                    Some(Err(Error::Transport(concat(head.as_str(), shown.as_str()))))
                }
            },
        }
    }
}

/// A deposit ends after at most three attempts, whatever they come to.
pub proof fn law_deposit_ends(relay: Seq<char>, event: DepositEvent)
    ensures
        !(deposit_step(relay, (DEPOSIT_ATTEMPTS - 1) as u32, event) is Again),
{
}

/// An unreachable relay is never tried twice in one deposit.
pub proof fn law_unreachable_is_not_retried(relay: Seq<char>, broken: u32, e: Error)
    ensures
        deposit_step(relay, broken, DepositEvent::Down(e)) == DepositView::Failed(e.deep_view()),
{
}

// ---- registering everywhere ----

/// A relay's registration failed.
pub open spec fn failed() -> spec_fn(Option<ErrorView>) -> bool {
    |o: Option<ErrorView>| o is Some
}

/// What the first relay that failed says, in the relays' order.
pub open spec fn first_failure(outcomes: Seq<Option<ErrorView>>) -> Option<ErrorView> {
    match crate::seqs::first(outcomes, failed()) {
        Some(e) => e,
        None => None,
    }
}

/// Every home relay has a mailbox exactly where none failed; else what is
/// reported is what the first that failed says.
pub proof fn law_registered_everywhere_or_not(outcomes: Seq<Option<ErrorView>>)
    ensures
        match first_failure(outcomes) {
            Some(e) => exists|i: int|
                0 <= i < outcomes.len() && #[trigger] outcomes[i] == Some(e) && forall|j: int|
                    0 <= j < i ==> (#[trigger] outcomes[j]) is None,
            None => forall|i: int| 0 <= i < outcomes.len() ==> (#[trigger] outcomes[i]) is None,
        },
{
    let p = failed();
    if exists|i: int| 0 <= i < outcomes.len() && (#[trigger] outcomes[i]) is Some {
        let w = choose|i: int| 0 <= i < outcomes.len() && (#[trigger] outcomes[i]) is Some;
        assert(p(outcomes[w]));
        let i = crate::client::lemma_least(outcomes, p);
        crate::seqs::lemma_first_is(outcomes, p, i);
        assert forall|j: int| 0 <= j < i implies (#[trigger] outcomes[j]) is None by {
            assert(!p(outcomes[j]));
        }
        assert(outcomes[i] == Some(first_failure(outcomes)->0));
    } else {
        crate::seqs::lemma_first(outcomes, p);
    }
}

/// Registering at every home relay: the first failure, in the relays' order.
/// Publishing a record that names a relay without a mailbox would be a lie.
pub fn all_registered(outcomes: Vec<Option<Error>>) -> (r: Result<(), Error>)
    ensures
        match first_failure(outcomes.deep_view()) {
            Some(e) => r is Err && r->Err_0.deep_view() == e,
            None => r is Ok,
        },
{
    let ghost s = outcomes.deep_view();
    let ghost p = failed();
    let mut rest: Vec<Option<Error>> = outcomes;
    let mut i: usize = 0;
    while i < rest.len()
        invariant
            i <= rest.len(),
            s == outcomes.deep_view(),
            s == rest.deep_view(),
            p == failed(),
            crate::seqs::first(s.take(i as int), p) is None,
        decreases rest.len() - i,
    {
        proof {
            crate::seqs::lemma_first_step(s, p, i as int);
            assert(s[i as int] == rest@[i as int].deep_view());
        }
        if rest[i].is_some() {
            proof {
                crate::seqs::lemma_first_found(s, p, i + 1);
            }
            match rest.remove(i) {
                Some(e) => {
                    return Err(e);
                },
                None => {
                    return Ok(());
                },
            }
        }
        i += 1;
    }
    proof {
        crate::seqs::lemma_take_all(s);
    }
    Ok(())
}

// ---- fetching a blob ----

/// How a fetch of a blob from one relay went.
#[derive(Debug)]
pub enum FetchEvent {
    /// The relay did not serve it.
    Failed(Error),
    /// What it served does not open: why not.
    Unopened(String),
    /// What it served opened, and is worth caching.
    Opened,
}

/// A blob being fetched, relay by relay, once the cache had nothing that
/// opens.
#[derive(Debug)]
pub struct BlobFetch {
    pub last_error: String,
}

/// What becomes of a fetch after one relay.
pub enum FetchView {
    Done,
    Failed(ErrorView),
    /// The next relay, with this as the last error.
    Next(Seq<char>),
}

/// A relay that does not serve the blob is passed over; bytes that do not open
/// end the fetch.
pub open spec fn fetch_step(event: FetchEvent) -> FetchView {
    match event {
        FetchEvent::Opened => FetchView::Done,
        FetchEvent::Unopened(why) => FetchView::Failed(ErrorView::Open(why@)),
        FetchEvent::Failed(e) => FetchView::Next(error_text(e.deep_view())),
    }
}

impl BlobFetch {
    pub fn new() -> (r: Self)
        ensures
            r.last_error@ == "no relay to fetch from"@,
    {
        BlobFetch { last_error: "no relay to fetch from".to_owned() }
    }

    /// Takes one relay into account: the fetch's result, or `None` for the
    /// next relay.
    pub fn note(&mut self, event: FetchEvent) -> (r: Option<Result<(), Error>>)
        ensures
            match fetch_step(event) {
                FetchView::Done => r == Some(Ok::<(), Error>(())) && final(self).last_error@ == old(
                    self,
                ).last_error@,
                FetchView::Failed(e) => r is Some && r->0 is Err && r->0->Err_0.deep_view() == e
                    && final(self).last_error@ == old(self).last_error@,
                FetchView::Next(shown) => r is None && final(self).last_error@ == shown,
            },
    {
        match event {
            FetchEvent::Opened => Some(Ok(())),
            FetchEvent::Unopened(why) => Some(Err(Error::Open(why))),
            FetchEvent::Failed(e) => {
                self.last_error = e.message();
                None
            },
        }
    }

    /// No relay is left.
    pub fn unavailable(self) -> (r: Error)
        ensures
            r.deep_view() == ErrorView::BlobUnavailable(self.last_error@),
    {
        Error::BlobUnavailable(self.last_error)
    }
}

/// The relay a message came through, or the home relays.
pub open spec fn blob_sources(relay: Option<Seq<char>>, home: Seq<Seq<char>>) -> Seq<Seq<char>> {
    match relay {
        Some(one) => seq![one],
        None => home,
    }
}

/// The blobs of a message that came through a relay are asked of that relay
/// alone; those of a direct arrival of every home relay, in order.
pub proof fn law_blobs_are_asked_where_they_are(
    relay: Option<Seq<char>>,
    home: Seq<Seq<char>>,
    url: Seq<char>,
)
    ensures
        blob_sources(relay, home).contains(url) <==> match relay {
            Some(one) => url == one,
            None => home.contains(url),
        },
        relay is None ==> blob_sources(relay, home) == home,
        relay is Some ==> blob_sources(relay, home).len() == 1,
{
    match relay {
        Some(one) => {
            assert(blob_sources(relay, home)[0] == one);
        },
        None => {},
    }
}

/// Where the blobs of a received message are fetched: the relay it came
/// through, or for a direct arrival the home relays, where senders push them.
pub fn blob_relays(relay: &Option<String>, home: &Vec<String>) -> (r: Vec<String>)
    ensures
        r.deep_view() == blob_sources((*relay).deep_view(), home.deep_view()),
{
    match relay {
        Some(one) => {
            let mut out: Vec<String> = Vec::new();
            out.push(one.clone());
            assert(out.deep_view() =~= seq![one@]);
            out
        },
        None => crate::order::copies(home),
    }
}

/// A mailbox is taken as registered on the relay's word alone; a refusal names
/// the relay, and any other answer is an error.
pub proof fn law_registered_on_the_relays_word(reply: RegisterReply, relay: Seq<char>)
    ensures
        registration(reply, relay) is Ok <==> reply is Registered,
        registration(reply, relay) == Err::<(), ErrorView>(ErrorView::MailboxRefused(relay)) <==> reply is Refused,
        reply is Other ==> registration(reply, relay)->Err_0 is UnexpectedResponse,
{
}

/// A deposit is done on the relay's word alone, and is tried again exactly
/// where the round-trip broke and attempts are left.
pub proof fn law_deposit_outcomes(relay: Seq<char>, broken: u32, event: DepositEvent)
    requires
        broken < DEPOSIT_ATTEMPTS,
    ensures
        deposit_step(relay, broken, event) is Done <==> event is Deposited,
        deposit_step(relay, broken, event) is Again <==> event is Broken && broken + 1 < 3,
        match (event, deposit_step(relay, broken, event)) {
            (DepositEvent::Down(e), DepositView::Failed(f)) => f == e.deep_view(),
            (DepositEvent::Other(_), DepositView::Failed(f)) => f is UnexpectedResponse,
            (DepositEvent::Broken(_), DepositView::Failed(f)) => f is Transport,
            (DepositEvent::Deposited, DepositView::Failed(_)) => false,
            _ => true,
        },
{
}

/// A blob is had once what a relay served opens; bytes that do not open end
/// the fetch, and a relay that serves nothing leads to the next one.
pub proof fn law_fetch_outcomes(event: FetchEvent)
    ensures
        fetch_step(event) is Done <==> event is Opened,
        fetch_step(event) is Failed <==> event is Unopened,
        match event {
            FetchEvent::Failed(e) => fetch_step(event) == FetchView::Next(
                error_text(e.deep_view()),
            ),
            FetchEvent::Unopened(why) => fetch_step(event) == FetchView::Failed(
                ErrorView::Open(why@),
            ),
            FetchEvent::Opened => true,
        },
{
}

/// A dial that was refused is reported in its own words.
pub proof fn law_dial_is_reported(f: DialFailure)
    ensures
        match f {
            DialFailure::Refused(e) => dial_text(f) == e.0@,
            DialFailure::TimedOut => dial_text(f) == "timed out"@,
        },
{
}

} // verus!
