//! Identifiers: 32-byte public keys, message ids and blob hashes, in the
//! order of their bytes.
use vstd::prelude::*;

use crate::order::{Duplicate, Ranked};
use crate::text::{lemma_lex_irreflexive, lemma_lex_total, lemma_lex_transitive, lex_less, parts_at};

verus! {

/// Byte-wise equality of two 32-byte arrays.
pub fn same_bytes(a: &[u8; 32], b: &[u8; 32]) -> (r: bool)
    ensures
        r == (*a == *b),
{
    let mut i: usize = 0;
    while i < 32
        invariant
            0 <= i <= 32,
            forall|j: int| 0 <= j < i ==> a[j] == b[j],
        decreases 32 - i,
    {
        if a[i] != b[i] {
            return false;
        }
        i += 1;
    }
    assert(*a =~= *b);
    true
}

/// The bytes of an array as numbers.
pub open spec fn byte_values(a: [u8; 32]) -> Seq<int> {
    Seq::new(32, |i: int| a[i] as int)
}

/// The order of 32-byte values: byte by byte, the first byte first.
pub open spec fn bytes_less(a: [u8; 32], b: [u8; 32]) -> bool {
    lex_less(byte_values(a), byte_values(b))
}

proof fn lemma_byte_values_injective(a: [u8; 32], b: [u8; 32])
    requires
        byte_values(a) == byte_values(b),
    ensures
        a == b,
{
    assert forall|i: int| 0 <= i < 32 implies a[i] == b[i] by {
        assert(byte_values(a)[i] == a[i] as int);
        assert(byte_values(b)[i] == b[i] as int);
    }
    assert(a =~= b);
}

proof fn lemma_bytes_order(a: [u8; 32], b: [u8; 32], c: [u8; 32])
    ensures
        !bytes_less(a, a),
        bytes_less(a, b) && bytes_less(b, c) ==> bytes_less(a, c),
        a == b || bytes_less(a, b) || bytes_less(b, a),
{
    lemma_lex_irreflexive(byte_values(a));
    if bytes_less(a, b) && bytes_less(b, c) {
        lemma_lex_transitive(byte_values(a), byte_values(b), byte_values(c));
    }
    lemma_lex_total(byte_values(a), byte_values(b));
    if byte_values(a) == byte_values(b) {
        lemma_byte_values_injective(a, b);
    }
}

/// Whether `a` comes before `b` in the order of their bytes.
pub fn bytes_before(a: &[u8; 32], b: &[u8; 32]) -> (r: bool)
    ensures
        r == bytes_less(*a, *b),
{
    let mut i: usize = 0;
    while i < 32
        invariant
            0 <= i <= 32,
            forall|j: int| 0 <= j < i ==> a[j] == b[j],
        decreases 32 - i,
    {
        if a[i] != b[i] {
            let r: bool = a[i] < b[i];
            proof {
                let x = byte_values(*a);
                let y = byte_values(*b);
                if r {
                    assert(parts_at(x, y, i as int));
                } else {
                    assert(x[i as int] > y[i as int]);
                    assert(!lex_less(x, y));
                }
            }
            return r;
        }
        i += 1;
    }
    proof {
        assert(*a =~= *b);
        lemma_lex_irreflexive(byte_values(*a));
    }
    false
}

/// A device's public key: its identity.
#[derive(Clone, Copy, Eq, Debug)]
pub struct PublicKey(pub [u8; 32]);

impl PartialEq for PublicKey {
    fn eq(&self, other: &Self) -> (r: bool) {
        same_bytes(&self.0, &other.0)
    }
}

impl vstd::std_specs::cmp::PartialEqSpecImpl for PublicKey {
    open spec fn obeys_eq_spec() -> bool {
        true
    }

    open spec fn eq_spec(&self, other: &Self) -> bool {
        *self == *other
    }
}

impl DeepView for PublicKey {
    type V = PublicKey;

    open spec fn deep_view(&self) -> PublicKey {
        *self
    }
}

impl Duplicate for PublicKey {
    fn duplicate(&self) -> (r: Self) {
        *self
    }
}

impl Ranked for PublicKey {
    open spec fn below(a: PublicKey, b: PublicKey) -> bool {
        bytes_less(a.0, b.0)
    }

    fn before(&self, other: &Self) -> (r: bool) {
        bytes_before(&self.0, &other.0)
    }

    fn same(&self, other: &Self) -> (r: bool) {
        same_bytes(&self.0, &other.0)
    }

    proof fn order_laws(a: PublicKey, b: PublicKey, c: PublicKey) {
        lemma_bytes_order(a.0, b.0, c.0);
    }
}

/// A message's content address.
#[derive(Clone, Copy, Eq, Debug)]
pub struct MessageId(pub [u8; 32]);

impl PartialEq for MessageId {
    fn eq(&self, other: &Self) -> (r: bool) {
        same_bytes(&self.0, &other.0)
    }
}

impl vstd::std_specs::cmp::PartialEqSpecImpl for MessageId {
    open spec fn obeys_eq_spec() -> bool {
        true
    }

    open spec fn eq_spec(&self, other: &Self) -> bool {
        *self == *other
    }
}

impl DeepView for MessageId {
    type V = MessageId;

    open spec fn deep_view(&self) -> MessageId {
        *self
    }
}

impl Duplicate for MessageId {
    fn duplicate(&self) -> (r: Self) {
        *self
    }
}

impl Ranked for MessageId {
    open spec fn below(a: MessageId, b: MessageId) -> bool {
        bytes_less(a.0, b.0)
    }

    fn before(&self, other: &Self) -> (r: bool) {
        bytes_before(&self.0, &other.0)
    }

    fn same(&self, other: &Self) -> (r: bool) {
        same_bytes(&self.0, &other.0)
    }

    proof fn order_laws(a: MessageId, b: MessageId, c: MessageId) {
        lemma_bytes_order(a.0, b.0, c.0);
    }
}

/// An encrypted blob's content address.
#[derive(Clone, Copy, Eq, Debug)]
pub struct BlobHash(pub [u8; 32]);

impl PartialEq for BlobHash {
    fn eq(&self, other: &Self) -> (r: bool) {
        same_bytes(&self.0, &other.0)
    }
}

impl vstd::std_specs::cmp::PartialEqSpecImpl for BlobHash {
    open spec fn obeys_eq_spec() -> bool {
        true
    }

    open spec fn eq_spec(&self, other: &Self) -> bool {
        *self == *other
    }
}

impl DeepView for BlobHash {
    type V = BlobHash;

    open spec fn deep_view(&self) -> BlobHash {
        *self
    }
}

impl Duplicate for BlobHash {
    fn duplicate(&self) -> (r: Self) {
        *self
    }
}

impl Ranked for BlobHash {
    open spec fn below(a: BlobHash, b: BlobHash) -> bool {
        bytes_less(a.0, b.0)
    }

    fn before(&self, other: &Self) -> (r: bool) {
        bytes_before(&self.0, &other.0)
    }

    fn same(&self, other: &Self) -> (r: bool) {
        same_bytes(&self.0, &other.0)
    }

    proof fn order_laws(a: BlobHash, b: BlobHash, c: BlobHash) {
        lemma_bytes_order(a.0, b.0, c.0);
    }
}

/// Keys, messages and blobs are ordered by the first byte in which they
/// differ.
pub proof fn law_first_byte_decides(a: [u8; 32], b: [u8; 32], k: int)
    requires
        0 <= k < 32,
        forall|i: int| 0 <= i < k ==> a[i] == b[i],
        a[k] < b[k],
    ensures
        bytes_less(a, b),
        PublicKey::below(PublicKey(a), PublicKey(b)),
        MessageId::below(MessageId(a), MessageId(b)),
        BlobHash::below(BlobHash(a), BlobHash(b)),
{
    assert(crate::text::parts_at(byte_values(a), byte_values(b), k));
}

} // verus!
