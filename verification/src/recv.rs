//! Receiving: what a page of a relay's mailbox does (dedup, remember, ack),
//! what a pass over several relays reports, and how a subscription backs off.
//! One relay that cannot be reached costs its own mail and nothing else.
use vstd::prelude::*;

use crate::client::{Client, ClientView};
use crate::error::{Error, ErrorView};
use crate::history::{Envelope, EnvelopeView};
use crate::ids::MessageId;
use crate::order::{ascending, set_insert, Duplicate};
use crate::rng::Draw;
use crate::seqs::{gathered, lemma_filter_map_step, lemma_gathered_step, lemma_take_all, lemma_take_step};
use crate::outbox::stored_envelope;
use crate::store::{remembered, thread_of, Graph, GraphView};
use crate::time::{drawn_delay, initial_backoff, jittered, least, next_backoff, Duration};

verus! {

/// A nudge is an empty stream; more than this is not read of one.
pub const MAX_NUDGE_BYTES: usize = 64;

/// One message that arrived: opened where this device could, in which case
/// the envelope holds its body.
#[derive(Debug)]
pub struct Received {
    pub envelope: Envelope,
    /// The relay it came through; `None` for a direct arrival.
    pub relay: Option<String>,
}

pub struct ReceivedView {
    pub envelope: EnvelopeView,
    pub relay: Option<Seq<char>>,
}

impl DeepView for Received {
    type V = ReceivedView;

    open spec fn deep_view(&self) -> ReceivedView {
        ReceivedView { envelope: self.envelope.deep_view(), relay: self.relay.deep_view() }
    }
}

// ---- a page of a mailbox ----

/// One item of a fetched page, with the graph its conversation has once it is
/// stored.
#[derive(Debug)]
pub struct MailItem {
    pub cursor: u64,
    pub envelope: Envelope,
    pub graph: Graph,
}

pub struct MailView {
    pub cursor: u64,
    pub envelope: EnvelopeView,
    pub graph: GraphView,
}

impl DeepView for MailItem {
    type V = MailView;

    open spec fn deep_view(&self) -> MailView {
        MailView {
            cursor: self.cursor,
            envelope: self.envelope.deep_view(),
            graph: self.graph.deep_view(),
        }
    }
}

/// The highest cursor on a page.
pub open spec fn page_cursor(items: Seq<MailView>) -> u64
    decreases items.len(),
{
    if items.len() == 0 {
        0
    } else {
        let rest = page_cursor(items.drop_last());
        if items.last().cursor > rest {
            items.last().cursor
        } else {
            rest
        }
    }
}

/// What a page does: the client after it, the messages seen, and what it
/// brought.
pub struct PageView {
    pub client: ClientView,
    pub seen: Set<MessageId>,
    pub received: Seq<ReceivedView>,
}

/// One item: a format this client does not read is skipped, and a message
/// seen before too; what opens is remembered, and all of it is reported.
pub open spec fn took_item(v: PageView, item: MailView, relay: Seq<char>, now: u64) -> PageView {
    let e = item.envelope;
    if !e.supported || v.seen.contains(e.id) {
        v
    } else {
        PageView {
            client: if e.body is Ok {
                remembered(v.client, e, item.graph, now)
            } else {
                v.client
            },
            seen: v.seen.insert(e.id),
            received: v.received.push(ReceivedView { envelope: e, relay: Some(relay) }),
        }
    }
}

/// The items of a page, in order.
pub open spec fn took_page(v: PageView, items: Seq<MailView>, relay: Seq<char>, now: u64) -> PageView
    decreases items.len(),
{
    if items.len() == 0 {
        v
    } else {
        took_item(took_page(v, items.drop_last(), relay, now), items.last(), relay, now)
    }
}

/// What a drain does after a page.
#[derive(Debug, Clone, Copy, PartialEq, Eq, Structural)]
pub enum PageStep {
    /// The mailbox is empty.
    Drained,
    /// The page does not advance: a hostile or broken relay, abandoned.
    Stuck,
    /// Acknowledge up to here, then fetch what follows.
    Ack(u64),
}

/// A page that is not empty and advances is taken and acknowledged at its own
/// cursor; any other ends the drain.
pub open spec fn page_step(items: Seq<MailView>, after: u64) -> PageStep {
    if items.len() == 0 {
        PageStep::Drained
    } else if page_cursor(items) <= after {
        PageStep::Stuck
    } else {
        PageStep::Ack(page_cursor(items))
    }
}

fn highest_cursor(items: &Vec<MailItem>) -> (r: u64)
    ensures
        r == page_cursor(items.deep_view()),
{
    let ghost s = items.deep_view();
    let mut top: u64 = 0;
    for i in 0..items.len()
        invariant
            s == items.deep_view(),
            top == page_cursor(s.take(i as int)),
    {
        proof {
            lemma_take_step(s, i as int);
        }
        if items[i].cursor > top {
            top = items[i].cursor;
        }
    }
    proof {
        lemma_take_all(s);
    }
    top
}

impl Duplicate for Graph {
    fn duplicate(&self) -> (r: Self) {
        Graph { dag: crate::order::copy_option(&self.dag), fault: self.fault.clone() }
    }
}

impl Client {
    /// Takes one fetched page: `after` is the cursor it was asked behind, and
    /// `seen` the messages drained before, through any relay, ascending.
    pub fn drain_page(
        &mut self,
        relay: &str,
        after: u64,
        items: &Vec<MailItem>,
        seen: &mut Vec<MessageId>,
        received: &mut Vec<Received>,
        now: u64,
    ) -> (r: PageStep)
        requires
            ascending::<MessageId>(old(seen).deep_view()),
        ensures
            r == page_step(items.deep_view(), after),
            ascending::<MessageId>(final(seen).deep_view()),
            ({
                let before = PageView {
                    client: old(self).deep_view(),
                    seen: old(seen).deep_view().to_set(),
                    received: old(received).deep_view(),
                };
                let then = after_page(before, items.deep_view(), after, relay@, now);
                &&& final(self).deep_view() == then.client
                &&& final(seen).deep_view().to_set() == then.seen
                &&& final(received).deep_view() == then.received
            }),
    {
        assert(items.deep_view().len() == items.len());
        if items.len() == 0 {
            return PageStep::Drained;
        }
        let cursor: u64 = highest_cursor(items);
        if cursor <= after {
            return PageStep::Stuck;
        }
        let ghost s = items.deep_view();
        let ghost before = PageView {
            client: self.deep_view(),
            seen: seen.deep_view().to_set(),
            received: received.deep_view(),
        };
        for i in 0..items.len()
            invariant
                s == items.deep_view(),
                ascending::<MessageId>(seen.deep_view()),
                self.deep_view() == took_page(before, s.take(i as int), relay@, now).client,
                seen.deep_view().to_set() == took_page(before, s.take(i as int), relay@, now).seen,
                received.deep_view() == took_page(before, s.take(i as int), relay@, now).received,
        {
            proof {
                lemma_take_step(s, i as int);
                assert(s[i as int] == items@[i as int].deep_view());
            }
            let ghost held = seen.deep_view();
            if items[i].envelope.supported {
                let id: MessageId = items[i].envelope.id;
                let fresh: bool = set_insert(seen, id);
                assert(fresh == !held.to_set().contains(id));
                if fresh {
                    let envelope: Envelope = items[i].envelope.duplicate();
                    if envelope.body.is_ok() {
                        self.remember(items[i].envelope.duplicate(), items[i].graph.duplicate(), now);
                    }
                    let item: Received = Received { envelope, relay: Some(relay.to_owned()) };
                    let ghost v = item.deep_view();
                    let ghost list = received.deep_view();
                    received.push(item);
                    assert(received.deep_view() =~= list.push(v));
                }
            }
        }
        proof {
            lemma_take_all(s);
        }
        PageStep::Ack(cursor)
    }
}

// ---- a pass over several relays ----

/// One relay that could not be drained.
#[derive(Debug)]
pub struct RelayFailure {
    pub relay: String,
    pub error: Error,
}

pub struct FailureView {
    pub relay: Seq<char>,
    pub error: ErrorView,
}

impl DeepView for RelayFailure {
    type V = FailureView;

    open spec fn deep_view(&self) -> FailureView {
        FailureView { relay: self.relay@, error: self.error.deep_view() }
    }
}

/// What one pass drained, and from where it got nothing.
#[derive(Debug)]
pub struct RecvReport {
    pub received: Vec<Received>,
    pub failed: Vec<RelayFailure>,
}

/// How one relay's drain ended.
#[derive(Debug)]
pub enum Drain {
    Done { relay: String, batch: Vec<Received> },
    Failed(RelayFailure),
}

pub enum DrainView {
    Done(Seq<char>, Seq<ReceivedView>),
    Failed(FailureView),
}

impl DeepView for Drain {
    type V = DrainView;

    open spec fn deep_view(&self) -> DrainView {
        match *self {
            Drain::Done { relay, batch } => DrainView::Done(relay@, batch.deep_view()),
            Drain::Failed(f) => DrainView::Failed(f.deep_view()),
        }
    }
}

pub open spec fn batch_of() -> spec_fn(DrainView) -> Seq<ReceivedView> {
    |d: DrainView|
        match d {
            DrainView::Done(_, batch) => batch,
            DrainView::Failed(_) => Seq::empty(),
        }
}

pub open spec fn failure_of() -> spec_fn(DrainView) -> Option<FailureView> {
    |d: DrainView|
        match d {
            DrainView::Done(_, _) => None,
            DrainView::Failed(f) => Some(f),
        }
}

pub struct ReportView {
    pub received: Seq<ReceivedView>,
    pub failed: Seq<FailureView>,
}

/// What a pass comes to.
pub open spec fn collected(s: Seq<DrainView>) -> Result<ReportView, ErrorView> {
    let failed = s.filter_map(failure_of());
    if failed.len() > 0 && failed.len() == s.len() {
        Err(failed[0].error)
    } else {
        Ok(ReportView { received: gathered(s, batch_of()), failed })
    }
}

/// What the pass reports: the mail of the relays that answered, in order, and
/// those that did not. Nothing drained anywhere is the first failure.
pub fn collect_drains(drains: Vec<Drain>) -> (r: Result<RecvReport, Error>)
    ensures
        match collected(drains.deep_view()) {
            Ok(v) => r is Ok && r->Ok_0.received.deep_view() == v.received
                && r->Ok_0.failed.deep_view() == v.failed,
            Err(e) => r is Err && r->Err_0.deep_view() == e,
        },
{
    let ghost s = drains.deep_view();
    let ghost f = batch_of();
    let ghost g = failure_of();
    let total: usize = drains.len();
    let mut rest: Vec<Drain> = drains;
    let mut received: Vec<Received> = Vec::new();
    let mut failed: Vec<RelayFailure> = Vec::new();
    let ghost n: int = 0;
    proof {
        assert(rest.deep_view() =~= s.skip(0));
        assert(received.deep_view() =~= gathered(s.take(0), f));
        assert(failed.deep_view() =~= s.take(0).filter_map(g));
    }
    while rest.len() > 0
        invariant
            0 <= n <= s.len(),
            s.len() == total,
            f == batch_of(),
            g == failure_of(),
            rest.deep_view() == s.skip(n),
            received.deep_view() == gathered(s.take(n), f),
            failed.deep_view() == s.take(n).filter_map(g),
        decreases rest.len(),
    {
        let ghost held = rest@;
        assert(rest.deep_view().len() == rest.len());
        assert forall|k: int| 0 <= k < held.len() implies #[trigger] held[k].deep_view() == s.skip(n)[k] by {
            assert(rest.deep_view()[k] == held[k].deep_view());
        }
        let drain: Drain = rest.remove(0);
        let ghost v = drain.deep_view();
        proof {
            assert(held[0].deep_view() == s.skip(n)[0]);
            assert(v == s[n]);
            assert(rest@ == held.remove(0));
            assert forall|k: int| 0 <= k < rest@.len() implies #[trigger] rest@[k].deep_view() == s[n + 1 + k] by {
                assert(held[k + 1].deep_view() == s.skip(n)[k + 1]);
            }
            assert(rest.deep_view() =~= s.skip(n + 1));
            lemma_gathered_step(s, f, n);
            lemma_filter_map_step(s, g, n);
        }
        match drain {
            Drain::Done { relay: _, batch } => {
                let mut more: Vec<Received> = batch;
                let ghost a = received@;
                let ghost b = more@;
                let ghost before = received.deep_view();
                let ghost added = more.deep_view();
                received.append(&mut more);
                assert(received@ == a + b);
                assert(received.deep_view() =~= before + added);
            },
            Drain::Failed(failure) => {
                let ghost before = failed.deep_view();
                let ghost w = failure.deep_view();
                failed.push(failure);
                assert(failed.deep_view() =~= before.push(w));
                assert(received.deep_view() + Seq::<ReceivedView>::empty() =~= received.deep_view());
            },
        }
        proof {
            n = n + 1;
        }
    }
    proof {
        lemma_take_all(s);
        assert(s.skip(n).len() == rest.deep_view().len());
        assert(n == s.len());
        assert(failed.len() == failed.deep_view().len());
    }
    if failed.len() > 0 && failed.len() == total {
        assert(failed.deep_view()[0] == failed@[0].deep_view());
        let head: RelayFailure = failed.remove(0);
        return Err(head.error);
    }
    Ok(RecvReport { received, failed })
}

// ---- subscribing ----

/// How a subscription to one relay waits between sessions.
#[derive(Debug)]
pub struct Backoff {
    pub current: Duration,
}

impl Backoff {
    pub fn new() -> (r: Self)
        ensures
            r.current.length() == 1_000_000_000,
    {
        Backoff { current: initial_backoff() }
    }

    /// A session registered and drained: only that proves the relay usable,
    /// and starts over.
    pub fn reset(&mut self)
        ensures
            final(self).current.length() == 1_000_000_000,
    {
        self.current = initial_backoff();
    }

    /// A session ended: how long to wait before the next, and a longer wait
    /// after it.
    pub fn next_delay<R: Draw>(&mut self, rng: &R) -> (r: Duration)
        ensures
            drawn_delay(old(self).current, rng, r.length()),
            final(self).current.length() == least(2 * old(self).current.length(), 60_000_000_000),
    {
        let delay: Duration = jittered(self.current, rng);
        self.current = next_backoff(self.current);
        delay
    }
}

// ---- laws ----

/// No message is reported twice by a drain, whatever the relays send.
pub proof fn law_drained_once(v: PageView, items: Seq<MailView>, relay: Seq<char>, now: u64, i: int, j: int)
    requires
        0 <= i < j < took_page(v, items, relay, now).received.len(),
        v.received.len() <= j,
        forall|k: int|
            0 <= k < v.received.len() ==> v.seen.contains((#[trigger] v.received[k]).envelope.id),
    ensures
        took_page(v, items, relay, now).received[i].envelope.id != took_page(
            v,
            items,
            relay,
            now,
        ).received[j].envelope.id,
    decreases items.len(),
{
    lemma_reported_is_seen(v, items, relay, now);
    if items.len() > 0 {
        let before = took_page(v, items.drop_last(), relay, now);
        lemma_reported_is_seen(v, items.drop_last(), relay, now);
        if j < before.received.len() {
            law_drained_once(v, items.drop_last(), relay, now, i, j);
        } else {
            assert(before.seen.contains(before.received[i].envelope.id));
        }
    }
}

proof fn lemma_reported_is_seen(v: PageView, items: Seq<MailView>, relay: Seq<char>, now: u64)
    requires
        forall|k: int|
            0 <= k < v.received.len() ==> v.seen.contains((#[trigger] v.received[k]).envelope.id),
    ensures
        v.received.len() <= took_page(v, items, relay, now).received.len(),
        forall|k: int|
            0 <= k < took_page(v, items, relay, now).received.len() ==> took_page(
                v,
                items,
                relay,
                now,
            ).seen.contains((#[trigger] took_page(v, items, relay, now).received[k]).envelope.id),
    decreases items.len(),
{
    if items.len() > 0 {
        lemma_reported_is_seen(v, items.drop_last(), relay, now);
        let before = took_page(v, items.drop_last(), relay, now);
        let after = took_page(v, items, relay, now);
        assert forall|k: int| 0 <= k < after.received.len() implies after.seen.contains((#[trigger] after.received[k]).envelope.id) by {
            if k < before.received.len() {
                assert(before.seen.contains(before.received[k].envelope.id));
            }
        }
    }
}

/// A relay cannot spin a drain: every acknowledged page advances the cursor.
pub proof fn law_drain_advances(items: Seq<MailView>, after: u64, up_to: u64)
    requires
        page_step(items, after) == PageStep::Ack(up_to),
    ensures
        up_to > after,
{
}

/// How many messages the drains brought.
pub open spec fn brought(s: Seq<DrainView>) -> nat
    decreases s.len(),
{
    if s.len() == 0 {
        0
    } else {
        brought(s.drop_last()) + match s.last() {
            DrainView::Done(_, batch) => batch.len(),
            DrainView::Failed(_) => 0,
        }
    }
}

proof fn lemma_gathered_mail(s: Seq<DrainView>)
    ensures
        gathered(s, batch_of()).len() == brought(s),
    decreases s.len(),
{
    if s.len() > 0 {
        lemma_gathered_mail(s.drop_last());
    }
}

proof fn lemma_gathered_batches(s: Seq<DrainView>, i: int)
    requires
        0 <= i < s.len(),
    ensures
        gathered(s, batch_of()).len() == brought(s),
        match s[i] {
            DrainView::Done(_, batch) => brought(s.take(i)) + batch.len() <= brought(s) && gathered(
                s,
                batch_of(),
            ).subrange(
                brought(s.take(i)) as int,
                (brought(s.take(i)) + batch.len()) as int,
            ) == batch,
            DrainView::Failed(_) => true,
        },
    decreases s.len(),
{
    let d = s.drop_last();
    let g = gathered(s, batch_of());
    lemma_gathered_mail(s);
    lemma_gathered_mail(d);
    if i < d.len() {
        lemma_gathered_batches(d, i);
    }
    assert(s.take(i) =~= if i < d.len() { d.take(i) } else { d });
    match s[i] {
        DrainView::Done(_, batch) => {
            let from = brought(s.take(i)) as int;
            let part = g.subrange(from, from + batch.len());
            if i < d.len() {
                assert(d[i] == s[i]);
                assert(gathered(d, batch_of()).subrange(from, from + batch.len()) == batch);
                assert forall|k: int| 0 <= k < batch.len() implies #[trigger] part[k] == batch[k] by {
                    assert(gathered(d, batch_of()).subrange(from, from + batch.len())[k] == batch[k]);
                }
                assert(part =~= batch);
            } else {
                assert(part =~= batch);
            }
        },
        DrainView::Failed(_) => {},
    }
}

/// No mail is lost: what a relay brought is in the report whole, behind all
/// that the relays before it brought, and the report holds nothing else.
pub proof fn law_all_mail_is_reported(
    s: Seq<DrainView>,
    i: int,
    relay: Seq<char>,
    batch: Seq<ReceivedView>,
)
    requires
        0 <= i < s.len(),
        s[i] == DrainView::Done(relay, batch),
    ensures
        match collected(s) {
            Ok(v) => {
                let before = brought(s.take(i)) as int;
                &&& v.received.len() == brought(s)
                &&& v.received.subrange(before, before + batch.len()) == batch
            },
            Err(_) => false,
        },
{
    let g = failure_of();
    let p = |d: DrainView| g(d) is Some;
    crate::seqs::lemma_filter_map_len(s, g, p);
    if s.filter_map(g).len() == s.len() {
        lemma_filter_short(s, p, i);
    }
    lemma_gathered_batches(s, i);
}

/// A filter that leaves an element out is shorter.
pub proof fn lemma_filter_short<V>(s: Seq<V>, p: spec_fn(V) -> bool, i: int)
    requires
        0 <= i < s.len(),
        !p(s[i]),
    ensures
        s.filter(p).len() < s.len(),
    decreases s.len(),
{
    reveal(Seq::filter);
    let d = s.drop_last();
    crate::seqs::lemma_filter(d, p);
    if i < d.len() {
        assert(d[i] == s[i]);
        lemma_filter_short(d, p, i);
    }
}

/// A relay that could not be drained is reported with its error, and no other
/// is; the pass fails only where there are relays and each of them failed,
/// and then with the first one's error.
pub proof fn law_failed_relays_are_reported(s: Seq<DrainView>)
    ensures
        match collected(s) {
            Ok(v) => {
                &&& forall|i: int|
                    0 <= i < s.len() ==> match #[trigger] s[i] {
                        DrainView::Failed(f) => v.failed.contains(f),
                        DrainView::Done(_, _) => true,
                    }
                &&& forall|k: int|
                    0 <= k < v.failed.len() ==> s.contains(
                        DrainView::Failed(#[trigger] v.failed[k]),
                    )
            },
            Err(e) => {
                &&& s.len() > 0
                &&& forall|i: int| 0 <= i < s.len() ==> #[trigger] s[i] is Failed
                &&& match s[0] {
                    DrainView::Failed(f) => f.error == e,
                    DrainView::Done(_, _) => false,
                }
            },
        },
        s.len() > 0 && (forall|i: int| 0 <= i < s.len() ==> #[trigger] s[i] is Failed) ==> collected(
            s,
        ) is Err,
{
    let g = failure_of();
    let p = |d: DrainView| g(d) is Some;
    crate::seqs::lemma_filter_map_len(s, g, p);
    let failed = s.filter_map(g);
    assert forall|i: int| 0 <= i < s.len() implies match #[trigger] s[i] {
        DrainView::Failed(f) => failed.contains(f),
        DrainView::Done(_, _) => true,
    } by {
        if g(s[i]) is Some {
            crate::seqs::lemma_filter_map_has(s, g, i);
        }
    }
    assert forall|k: int| 0 <= k < failed.len() implies s.contains(
        DrainView::Failed(#[trigger] failed[k]),
    ) by {
        let i = crate::seqs::lemma_filter_map_source(s, g, k);
        assert(s[i] == DrainView::Failed(failed[k]));
    }
    if failed.len() == s.len() && s.len() > 0 {
        assert forall|i: int| 0 <= i < s.len() implies #[trigger] s[i] is Failed by {
            if !p(s[i]) {
                lemma_filter_short(s, p, i);
            }
        }
        lemma_filter_map_step(s, g, 0);
        assert(s.take(0).filter_map(g).len() == 0);
        lemma_filter_map_grows(s, g, 1);
        assert(s[0] is Failed);
    }
    if s.len() > 0 && (forall|i: int| 0 <= i < s.len() ==> #[trigger] s[i] is Failed) {
        crate::seqs::lemma_filter_all(s, p);
    }
}

/// What a prefix maps to begins what the whole maps to.
proof fn lemma_filter_map_grows<A, B>(s: Seq<A>, f: spec_fn(A) -> Option<B>, n: int)
    requires
        0 <= n <= s.len(),
    ensures
        s.take(n).filter_map(f).is_prefix_of(s.filter_map(f)),
    decreases s.len() - n,
{
    if n < s.len() {
        lemma_filter_map_step(s, f, n);
        lemma_filter_map_grows(s, f, n + 1);
        let a = s.take(n).filter_map(f);
        let b = s.take(n + 1).filter_map(f);
        assert(a.is_prefix_of(b));
    } else {
        lemma_take_all(s);
    }
}

/// The cursor acknowledged is the page's highest: no item of the page is left
/// behind it, and none beyond the page is given up. A page ends the drain only
/// where it is empty or lies wholly behind what was asked for.
pub proof fn law_whole_page_is_acknowledged(items: Seq<MailView>, after: u64)
    ensures
        match page_step(items, after) {
            PageStep::Drained => items.len() == 0,
            PageStep::Stuck => items.len() > 0 && forall|i: int|
                0 <= i < items.len() ==> (#[trigger] items[i]).cursor <= after,
            PageStep::Ack(up_to) => {
                &&& up_to > after
                &&& forall|i: int| 0 <= i < items.len() ==> (#[trigger] items[i]).cursor <= up_to
                &&& exists|i: int| 0 <= i < items.len() && (#[trigger] items[i]).cursor == up_to
            },
        },
{
    lemma_page_cursor(items);
}

proof fn lemma_page_cursor(items: Seq<MailView>)
    ensures
        forall|i: int| 0 <= i < items.len() ==> (#[trigger] items[i]).cursor <= page_cursor(items),
        page_cursor(items) > 0 ==> exists|i: int|
            0 <= i < items.len() && (#[trigger] items[i]).cursor == page_cursor(items),
    decreases items.len(),
{
    if items.len() > 0 {
        let d = items.drop_last();
        lemma_page_cursor(d);
        assert forall|i: int| 0 <= i < items.len() implies (#[trigger] items[i]).cursor
            <= page_cursor(items) by {
            if i < d.len() {
                assert(d[i] == items[i]);
            }
        }
        if page_cursor(items) > 0 {
            if items.last().cursor > page_cursor(d) {
                assert(items[items.len() - 1].cursor == page_cursor(items));
            } else {
                let i = choose|i: int| 0 <= i < d.len() && (#[trigger] d[i]).cursor == page_cursor(d);
                assert(items[i].cursor == page_cursor(items));
            }
        }
    }
}

/// What a page reports is in the page: each message comes from a readable item
/// with its envelope as it is, through the relay drained, in the page's order.
pub proof fn law_page_reports_its_items(
    v: PageView,
    items: Seq<MailView>,
    relay: Seq<char>,
    now: u64,
)
    ensures
        v.received.is_prefix_of(took_page(v, items, relay, now).received),
        forall|k: int|
            v.received.len() <= k < took_page(v, items, relay, now).received.len() ==> {
                let m = #[trigger] took_page(v, items, relay, now).received[k];
                &&& m.relay == Some(relay)
                &&& m.envelope.supported
                &&& !v.seen.contains(m.envelope.id)
                &&& exists|i: int| 0 <= i < items.len() && #[trigger] items[i].envelope == m.envelope
            },
    decreases items.len(),
{
    if items.len() > 0 {
        let d = items.drop_last();
        law_page_reports_its_items(v, d, relay, now);
        lemma_seen_grows(v, d, relay, now);
        let w = took_page(v, d, relay, now);
        let u = took_page(v, items, relay, now);
        assert forall|k: int| v.received.len() <= k < u.received.len() implies {
            let m = #[trigger] u.received[k];
            &&& m.relay == Some(relay)
            &&& m.envelope.supported
            &&& !v.seen.contains(m.envelope.id)
            &&& exists|i: int| 0 <= i < items.len() && #[trigger] items[i].envelope == m.envelope
        } by {
            if k < w.received.len() {
                assert(u.received[k] == w.received[k]);
                let i = choose|i: int|
                    0 <= i < d.len() && #[trigger] d[i].envelope == w.received[k].envelope;
                assert(items[i].envelope == u.received[k].envelope);
            } else {
                assert(items[items.len() - 1].envelope == u.received[k].envelope);
            }
        }
    }
}

proof fn lemma_seen_grows(v: PageView, items: Seq<MailView>, relay: Seq<char>, now: u64)
    ensures
        forall|m: MessageId| #[trigger]
            took_page(v, items, relay, now).seen.contains(m) <==> v.seen.contains(m) || exists|i: int|
                0 <= i < items.len() && (#[trigger] items[i]).envelope.supported
                    && items[i].envelope.id == m,
        v.received.is_prefix_of(took_page(v, items, relay, now).received),
    decreases items.len(),
{
    if items.len() > 0 {
        let d = items.drop_last();
        lemma_seen_grows(v, d, relay, now);
        let w = took_page(v, d, relay, now);
        let u = took_page(v, items, relay, now);
        assert forall|m: MessageId| #[trigger] u.seen.contains(m) <==> v.seen.contains(m) || exists|
            i: int,
        |
            0 <= i < items.len() && (#[trigger] items[i]).envelope.supported && items[i].envelope.id
                == m by {
            let last = items[items.len() - 1];
            if u.seen.contains(m) && !v.seen.contains(m) {
                if w.seen.contains(m) {
                    let i = choose|i: int|
                        0 <= i < d.len() && (#[trigger] d[i]).envelope.supported && d[i].envelope.id
                            == m;
                    assert(items[i].envelope.id == m);
                } else {
                    assert(last.envelope.id == m);
                }
            }
            if exists|i: int|
                0 <= i < items.len() && (#[trigger] items[i]).envelope.supported
                    && items[i].envelope.id == m {
                let i = choose|i: int|
                    0 <= i < items.len() && (#[trigger] items[i]).envelope.supported
                        && items[i].envelope.id == m;
                if i < d.len() {
                    assert(d[i].envelope.id == m);
                    assert(w.seen.contains(m));
                }
            }
        }
    }
}

/// No message of a page is lost: a readable item whose message was not seen
/// before, in this page or any other, is reported; and where it opens, it is
/// stored under its conversation as it came.
pub proof fn law_fresh_mail_is_kept(
    v: PageView,
    items: Seq<MailView>,
    relay: Seq<char>,
    now: u64,
    i: int,
)
    requires
        0 <= i < items.len(),
        items[i].envelope.supported,
        !v.seen.contains(items[i].envelope.id),
        forall|j: int|
            0 <= j < i ==> !((#[trigger] items[j]).envelope.supported && items[j].envelope.id
                == items[i].envelope.id),
    ensures
        ({
            let e = items[i].envelope;
            let after = took_page(v, items, relay, now);
            &&& after.received.contains(ReceivedView { envelope: e, relay: Some(relay) })
            &&& after.seen.contains(e.id)
            &&& e.body is Ok ==> stored_envelope(after.client, thread_of(e), e.id) == Some(e)
        }),
    decreases items.len(),
{
    let d = items.drop_last();
    let e = items[i].envelope;
    let w = took_page(v, d, relay, now);
    let after = took_page(v, items, relay, now);
    let m = ReceivedView { envelope: e, relay: Some(relay) };
    lemma_seen_grows(v, d, relay, now);
    if i < d.len() {
        assert(d[i] == items[i]);
        assert forall|j: int| 0 <= j < i implies !((#[trigger] d[j]).envelope.supported
            && d[j].envelope.id == e.id) by {
            assert(d[j] == items[j]);
        }
        law_fresh_mail_is_kept(v, d, relay, now, i);
        let k = choose|k: int| 0 <= k < w.received.len() && w.received[k] == m;
        assert(after.received[k] == m);
        let last = items.last();
        if last.envelope.supported && !w.seen.contains(last.envelope.id) && last.envelope.body is Ok {
            assert(last.envelope.id != e.id);
            crate::store::law_remembering_keeps_the_rest(
                w.client,
                last.envelope,
                last.graph,
                now,
                thread_of(e),
                e.id,
            );
        }
    } else {
        assert(!w.seen.contains(e.id)) by {
            if w.seen.contains(e.id) {
                let j = choose|j: int|
                    0 <= j < d.len() && (#[trigger] d[j]).envelope.supported && d[j].envelope.id
                        == e.id;
                assert(items[j].envelope.id == e.id);
            }
        }
        assert(after.received[after.received.len() - 1] == m);
        if e.body is Ok {
            crate::store::law_remembered_is_found(w.client, e, items[i].graph, now);
        }
    }
}

/// Where a drain stands after a page: further where the page is acknowledged,
/// as before where it is not.
pub open spec fn after_page(
    v: PageView,
    items: Seq<MailView>,
    after: u64,
    relay: Seq<char>,
    now: u64,
) -> PageView {
    if page_step(items, after) is Ack {
        took_page(v, items, relay, now)
    } else {
        v
    }
}

/// A page is taken exactly where it is acknowledged.
pub proof fn law_taken_is_acknowledged(
    v: PageView,
    items: Seq<MailView>,
    after: u64,
    relay: Seq<char>,
    now: u64,
)
    ensures
        page_step(items, after) is Ack ==> after_page(v, items, after, relay, now) == took_page(
            v,
            items,
            relay,
            now,
        ),
        !(page_step(items, after) is Ack) ==> after_page(v, items, after, relay, now) == v,
{
}

} // verus!
