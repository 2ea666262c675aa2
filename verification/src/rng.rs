//! Chance, behind ports: draws for timing, tokens for local ids. Not where
//! cryptographic randomness comes from.
use rand_core::{OsRng, RngCore};
use vstd::prelude::*;

verus! {

/// `OsRng.next_u64`: any number may come out, so nothing is said of it. It
/// panics where the operating system has no entropy source to read.
#[verifier::external_body]
fn os_number() -> (r: u64) {
    OsRng.next_u64()
}

/// `OsRng.fill_bytes` on 32 bytes: any bytes may come out, so nothing is said
/// of them. It panics where the operating system has no entropy source to
/// read.
#[verifier::external_body]
pub(crate) fn os_bytes() -> (r: [u8; 32]) {
    let mut bytes = [0u8; 32];
    OsRng.fill_bytes(&mut bytes);
    bytes
}

/// Draw a number below `bound`: randomness enough for timing decisions, never
/// for secrets.
pub trait Draw {
    /// What the source may draw below a bound.
    spec fn may_draw(&self, bound: u64, r: u64) -> bool;

    fn draw(&self, bound: u64) -> (r: u64)
        requires
            bound >= 1,
        ensures
            r < bound,
            self.may_draw(bound, r),
    ;
}

/// Mint an arbitrary 128-bit token: distinctness is the whole contract.
pub trait Mint: Sized {
    /// What the mint may give, and what it is afterwards.
    spec fn gives(before: Self, after: Self, token: u128) -> bool;

    fn token128(&mut self) -> (r: u128)
        ensures
            Self::gives(*old(self), *final(self), r),
    ;
}

/// Tokens a mint gave in turn.
pub open spec fn gave<M: Mint>(before: M, after: M, tokens: Seq<u128>) -> bool
    decreases tokens.len(),
{
    if tokens.len() == 0 {
        after == before
    } else {
        exists|mid: M|
            gave(before, mid, tokens.drop_last()) && #[trigger] M::gives(mid, after, tokens.last())
    }
}

/// As many tokens as are wanted, in turn.
pub fn tokens_of<M: Mint>(rng: &mut M, n: usize) -> (r: Vec<u128>)
    ensures
        r.len() == n,
        gave(*old(rng), *final(rng), r@),
{
    let mut out: Vec<u128> = Vec::new();
    let ghost before = *rng;
    for i in 0..n
        invariant
            before == *old(rng),
            out.len() == i,
            gave(before, *rng, out@),
    {
        let ghost mid = *rng;
        let ghost held = out@;
        let token: u128 = rng.token128();
        out.push(token);
        proof {
            assert(out@.drop_last() =~= held);
            assert(gave(before, mid, out@.drop_last()) && M::gives(mid, *rng, out@.last()));
        }
    }
    out
}

/// Tokens given in turn, and more after them.
pub proof fn lemma_gave_more<M: Mint>(before: M, mid: M, after: M, tokens: Seq<u128>, more: Seq<u128>)
    requires
        gave(before, mid, tokens),
        gave(mid, after, more),
    ensures
        gave(before, after, tokens + more),
    decreases more.len(),
{
    let all = tokens + more;
    if more.len() == 0 {
        assert(all =~= tokens);
    } else {
        let m = choose|m: M|
            gave(mid, m, more.drop_last()) && #[trigger] M::gives(m, after, more.last());
        lemma_gave_more(before, mid, m, tokens, more.drop_last());
        assert(all.drop_last() =~= tokens + more.drop_last());
        assert(all.last() == more.last());
        assert(gave(before, m, all.drop_last()) && M::gives(m, after, all.last()));
    }
}

/// Two numbers side by side, the first in the high half.
pub open spec fn joined(high: u64, low: u64) -> int {
    high * 0x1_0000_0000_0000_0000 + low
}

/// The token that two drawn numbers make.
pub fn token_of(high: u64, low: u64) -> (r: u128)
    ensures
        r == joined(high, low),
{
    high as u128 * 0x1_0000_0000_0000_0000 + low as u128
}

/// Tokens are as distinct as the draws they are made of: two are equal only
/// where both numbers are.
pub proof fn law_tokens_are_distinct(a: (u64, u64), b: (u64, u64))
    ensures
        joined(a.0, a.1) == joined(b.0, b.1) <==> a == b,
{
}

/// The real entropy source.
#[derive(Debug, Clone, Copy)]
pub struct SystemRng;

impl Default for SystemRng {
    fn default() -> (r: Self)
        ensures
            r == SystemRng,
    {
        SystemRng
    }
}

impl Draw for SystemRng {
    /// Chance decides.
    open spec fn may_draw(&self, bound: u64, r: u64) -> bool {
        r < bound
    }

    /// A modulo bias is harmless at timing-jitter stakes.
    fn draw(&self, bound: u64) -> (r: u64) {
        os_number() % bound
    }
}

impl Mint for SystemRng {
    /// Chance decides.
    open spec fn gives(before: Self, after: Self, token: u128) -> bool {
        true
    }

    /// Chance decides which token comes out: `token_of` says what each pair
    /// of draws makes.
    fn token128(&mut self) -> (r: u128) {
        let high: u64 = os_number();
        let low: u64 = os_number();
        token_of(high, low)
    }
}

/// The draw double: yields its value clamped into the caller's bound, so 0 is
/// the low extreme and `u64::MAX` the high one.
#[derive(Debug, Clone, Copy)]
pub struct TestDraw(pub u64);

impl Draw for TestDraw {
    open spec fn may_draw(&self, bound: u64, r: u64) -> bool {
        r == if self.0 < bound {
            self.0 as int
        } else {
            bound - 1
        }
    }

    fn draw(&self, bound: u64) -> (r: u64) {
        if self.0 < bound {
            self.0
        } else {
            bound - 1
        }
    }
}

/// The mint double: counts up from its value.
#[derive(Debug, Clone, Copy)]
pub struct TestMint(pub u128);

impl Mint for TestMint {
    open spec fn gives(before: Self, after: Self, token: u128) -> bool {
        &&& token == before.0
        &&& after.0 == if before.0 == u128::MAX {
            0
        } else {
            before.0 + 1
        }
    }

    fn token128(&mut self) -> (r: u128) {
        let token: u128 = self.0;
        self.0 = if token == u128::MAX {
            0
        } else {
            token + 1
        };
        token
    }
}

} // verus!
