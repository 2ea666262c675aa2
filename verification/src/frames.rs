//! Op frames: the bodies that carry lens ops between a person's own devices.
//! A body that begins with the magic is a frame; what this build does not
//! decode is an op it does not speak, ignored and never an error.
use vstd::prelude::*;
use vstd::utf8::encode_utf8;

use crate::hex::lemma_array_of;
use crate::ids::PublicKey;
use crate::seqs::{lemma_take_all, lemma_take_step};
use crate::state::{key_bytes_of, key_concat, keys_in, law_acks_round_trip, le32, le_value, lemma_key_concat_len, lemma_le32};

verus! {

/// A text as borsh writes it: the length of its UTF-8 in four bytes, the low
/// one first, then the UTF-8.
pub open spec fn borsh_text(s: Seq<char>) -> Seq<u8> {
    le32(encode_utf8(s).len()) + encode_utf8(s)
}

/// `borsh::to_vec` on a string: its length and its UTF-8. Longer than four
/// bytes can count, it would fail.
#[verifier::external_body]
fn write_text(s: &str) -> (r: Vec<u8>)
    requires
        encode_utf8(s@).len() <= u32::MAX,
    ensures
        r@ == borsh_text(s@),
{
    borsh::to_vec(s).expect("a string of countable length is written")
}

/// `borsh::from_slice` for a `String`: the text these bytes are the encoding
/// of, all of them; an error, here `None`, where they are none.
#[verifier::external_body]
fn read_text(bytes: &[u8]) -> (r: Option<String>)
    ensures
        match r {
            Some(s) => encode_utf8(s@).len() <= u32::MAX && bytes@ == borsh_text(s@),
            None => forall|s: Seq<char>|
                encode_utf8(s).len() <= u32::MAX ==> bytes@ != #[trigger] borsh_text(s),
        },
{
    borsh::from_slice::<String>(bytes).ok()
}

/// The op vocabulary: keys, never person ids, so devices that cluster
/// differently each apply an op in their own world.
#[derive(Debug)]
pub enum LensOp {
    /// The channel genesis marker.
    Hello,
    /// Label the person whose cluster overlaps these keys.
    LabelPerson { members: Vec<PublicKey>, label: String },
    /// "This device added a contact": an offer, never a write.
    OfferContact { record: Vec<u8>, petname: String },
}

pub enum OpView {
    Hello,
    LabelPerson(Seq<PublicKey>, Seq<char>),
    OfferContact(Seq<u8>, Seq<char>),
}

impl DeepView for LensOp {
    type V = OpView;

    open spec fn deep_view(&self) -> OpView {
        match *self {
            LensOp::Hello => OpView::Hello,
            LensOp::LabelPerson { members, label } => OpView::LabelPerson(
                members.deep_view(),
                label@,
            ),
            LensOp::OfferContact { record, petname } => OpView::OfferContact(record@, petname@),
        }
    }
}

/// The version of the frame this build writes, and the last it reads.
pub const CURRENT: u16 = 1;

/// The frame magic.
pub open spec fn magic() -> Seq<u8> {
    seq![0x7au8, 0x6fu8, 0x70u8, 0x00u8]
}

/// The four-byte counts of an op can hold its lengths.
pub open spec fn fits(op: OpView) -> bool {
    match op {
        OpView::Hello => true,
        OpView::LabelPerson(members, label) => members.len() <= u32::MAX && encode_utf8(label).len()
            <= u32::MAX,
        OpView::OfferContact(record, petname) => record.len() <= u32::MAX && encode_utf8(
            petname,
        ).len() <= u32::MAX,
    }
}

/// An op: its kind, then its fields.
pub open spec fn op_bytes(op: OpView) -> Seq<u8> {
    match op {
        OpView::Hello => seq![0u8],
        OpView::LabelPerson(members, label) => seq![1u8] + le32(members.len()) + key_concat(
            members,
        ) + borsh_text(label),
        OpView::OfferContact(record, petname) => seq![2u8] + le32(record.len()) + record
            + borsh_text(petname),
    }
}

pub open spec fn le16(n: nat) -> Seq<u8> {
    seq![(n % 256) as u8, (n / 256 % 256) as u8]
}

/// A frame: the magic, the version, the op.
pub open spec fn frame(version: nat, op: OpView) -> Seq<u8> {
    magic() + le16(version) + op_bytes(op)
}

/// A body is a frame of an op, in a version this build reads.
pub open spec fn frames(body: Seq<u8>, op: OpView) -> bool {
    exists|version: nat| version <= CURRENT && body == #[trigger] frame(version, op)
}

/// The op a body is a frame of, where it is one.
pub open spec fn op_of(body: Seq<u8>) -> Option<OpView> {
    if exists|op: OpView| fits(op) && frames(body, op) {
        Some(choose|op: OpView| fits(op) && frames(body, op))
    } else {
        None
    }
}

/// The body begins with the magic.
pub open spec fn has_magic(body: Seq<u8>) -> bool {
    body.len() >= 4 && body.take(4) == magic()
}

/// Whether a body is an op frame: frames render as nothing in chat, whatever
/// the author, decodable or not.
pub fn is_op_frame(body: &[u8]) -> (r: bool)
    ensures
        r == has_magic(body@),
{
    if body.len() < 4 {
        return false;
    }
    let r: bool = body[0] == 0x7a && body[1] == 0x6f && body[2] == 0x70 && body[3] == 0;
    proof {
        let head = body@.take(4);
        if r {
            assert(head =~= magic());
        } else if head == magic() {
            assert(head[0] == 0x7a && head[1] == 0x6f && head[2] == 0x70 && head[3] == 0);
        }
    }
    r
}

fn push_all(out: &mut Vec<u8>, more: &[u8])
    ensures
        final(out)@ == old(out)@ + more@,
{
    let ghost base = out@;
    let mut j: usize = 0;
    while j < more.len()
        invariant
            j <= more@.len(),
            out@ == base + more@.take(j as int),
        decreases more@.len() - j,
    {
        proof {
            lemma_take_step(more@, j as int);
        }
        out.push(more[j]);
        assert(out@ =~= base + more@.take(j + 1));
        j += 1;
    }
    proof {
        lemma_take_all(more@);
    }
}

fn push_count(out: &mut Vec<u8>, n: u32)
    ensures
        final(out)@ == old(out)@ + le32(n as nat),
{
    let ghost base = out@;
    out.push((n % 256) as u8);
    out.push((n / 256 % 256) as u8);
    out.push((n / 65536 % 256) as u8);
    out.push((n / 16777216 % 256) as u8);
    assert(out@ =~= base + le32(n as nat));
}

/// Encodes an op as a sealed-body payload.
pub fn op_body(op: &LensOp) -> (r: Vec<u8>)
    requires
        fits(op.deep_view()),
    ensures
        r@ == frame(CURRENT as nat, op.deep_view()),
{
    let mut body: Vec<u8> = Vec::new();
    body.push(0x7a);
    body.push(0x6f);
    body.push(0x70);
    body.push(0x00);
    body.push(1);
    body.push(0);
    let ghost head = body@;
    assert(head =~= magic() + le16(CURRENT as nat));
    match op {
        LensOp::Hello => {
            body.push(0);
        },
        LensOp::LabelPerson { members, label } => {
            body.push(1);
            push_count(&mut body, members.len() as u32);
            let keys: Vec<u8> = key_bytes_of(members);
            push_all(&mut body, keys.as_slice());
            let text: Vec<u8> = write_text(label.as_str());
            push_all(&mut body, text.as_slice());
        },
        LensOp::OfferContact { record, petname } => {
            body.push(2);
            push_count(&mut body, record.len() as u32);
            push_all(&mut body, record.as_slice());
            let text: Vec<u8> = write_text(petname.as_str());
            push_all(&mut body, text.as_slice());
        },
    }
    assert(body@ =~= head + op_bytes(op.deep_view()));
    body
}

/// The count in the four bytes from `at` on.
fn count_at(bytes: &[u8], at: usize) -> (r: u64)
    requires
        at + 4 <= bytes@.len(),
    ensures
        r == le_value(bytes@.skip(at as int)),
        r <= u32::MAX,
{
    bytes[at] as u64 + 256 * (bytes[at + 1] as u64) + 65536 * (bytes[at + 2] as u64) + 16777216 * (
    bytes[at + 3] as u64)
}

fn slice_vec(bytes: &[u8], from: usize, to: usize) -> (r: Vec<u8>)
    requires
        from <= to <= bytes@.len(),
    ensures
        r@ == bytes@.subrange(from as int, to as int),
{
    let mut out: Vec<u8> = Vec::new();
    let mut j: usize = from;
    while j < to
        invariant
            from <= j <= to <= bytes@.len(),
            out@ == bytes@.subrange(from as int, j as int),
        decreases to - j,
    {
        out.push(bytes[j]);
        assert(out@ =~= bytes@.subrange(from as int, j + 1));
        j += 1;
    }
    out
}

/// The keys that whole runs of 32 bytes are.
fn keys_from(bytes: &Vec<u8>, n: usize) -> (r: Vec<PublicKey>)
    requires
        bytes.len() == 32 * n,
    ensures
        r.deep_view() == keys_in(bytes@),
        key_concat(r.deep_view()) == bytes@,
        r.len() == n,
{
    let ghost s = keys_in(bytes@);
    let mut out: Vec<PublicKey> = Vec::new();
    assert(out.deep_view() =~= s.take(0));
    assert(key_concat(out.deep_view()) =~= bytes@.take(0));
    for i in 0..n
        invariant
            bytes.len() == 32 * n,
            s == keys_in(bytes@),
            s.len() == n,
            out.len() == i,
            out.deep_view() == s.take(i as int),
            key_concat(out.deep_view()) == bytes@.take(32 * i),
    {
        let mut key: [u8; 32] = [0u8; 32];
        let mut j: usize = 0;
        while j < 32
            invariant
                i < n,
                bytes.len() == 32 * n,
                j <= 32,
                forall|k: int| 0 <= k < j ==> #[trigger] key[k] == bytes@[32 * i + k],
            decreases 32 - j,
        {
            key[j] = bytes[32 * i + j];
            j += 1;
        }
        let ghost before = out.deep_view();
        proof {
            assert(key@ =~= bytes@.subrange(32 * i, 32 * i + 32));
            lemma_array_of(key);
            assert(s[i as int] == PublicKey(key));
            lemma_take_step(s, i as int);
        }
        out.push(PublicKey(key));
        proof {
            assert(out.deep_view() =~= before.push(PublicKey(key)));
            assert(out.deep_view().drop_last() =~= before);
            assert(key_concat(out.deep_view()) =~= bytes@.take(32 * (i + 1)));
        }
    }
    proof {
        lemma_take_all(s);
        assert(bytes@.take(32 * n) =~= bytes@);
    }
    out
}

/// Decodes a frame this build speaks; anything else (a later version, an
/// unknown op, truncated or hostile bytes) is `None`.
pub fn parse_op(body: &[u8]) -> (r: Option<LensOp>)
    ensures
        r.deep_view() == op_of(body@),
{
    let r: Option<LensOp> = decode_op(body);
    proof {
        match &r {
            Some(op) => {
                assert(frames(body@, op.deep_view()));
                lemma_one_op(body@, op.deep_view());
            },
            None => {},
        }
    }
    r
}

fn decode_op(body: &[u8]) -> (r: Option<LensOp>)
    ensures
        match r {
            Some(op) => fits(op.deep_view()) && frames(body@, op.deep_view()),
            None => forall|version: nat, op: OpView|
                version <= CURRENT && fits(op) ==> body@ != #[trigger] frame(version, op),
        },
{
    let ghost b = body@;
    if !is_op_frame(body) || body.len() < 7 {
        proof {
            assert forall|version: nat, op: OpView| version <= CURRENT && fits(op) implies b != #[trigger] frame(version, op) by {
                let f = frame(version, op);
                assert(f.take(4) =~= magic());
                assert(op_bytes(op).len() >= 1);
            }
        }
        return None;
    }
    proof {
        assert(b.take(4)[0] == b[0] && b.take(4)[1] == b[1] && b.take(4)[2] == b[2] && b.take(4)[3]
            == b[3]);
    }
    if body[5] != 0 || body[4] > 1 {
        proof {
            assert forall|version: nat, op: OpView| version <= CURRENT && fits(op) implies b != #[trigger] frame(version, op) by {
                let f = frame(version, op);
                assert(f[4] == (version % 256) as u8);
                assert(f[5] == (version / 256 % 256) as u8);
            }
        }
        return None;
    }
    let ghost v = body[4] as nat;
    let ghost rest = b.skip(6);
    proof {
        assert(b.take(6) =~= magic() + le16(v));
        assert(b =~= b.take(6) + rest);
        assert forall|op: OpView| b == #[trigger] frame(v, op) <==> rest == op_bytes(op) by {
            if b == frame(v, op) {
                assert(rest =~= op_bytes(op));
            }
            if rest == op_bytes(op) {
                assert(b =~= frame(v, op));
            }
        }
        assert forall|version: nat, op: OpView| version <= CURRENT && b == #[trigger] frame(version, op) implies version == v by {
            let f = frame(version, op);
            assert(f[4] == (version % 256) as u8);
        }
        assert(rest[0] == body[6]);
    }
    let op: Option<LensOp> = parse_fields(body);
    proof {
        match &op {
            Some(found) => {
                assert(b == frame(v, found.deep_view()));
            },
            None => {
                assert forall|version: nat, o: OpView| version <= CURRENT && fits(o) implies b != #[trigger] frame(version, o) by {
                    if b == frame(version, o) {
                        assert(version == v);
                        assert(rest == op_bytes(o));
                    }
                }
            },
        }
    }
    op
}

/// Decodes the op behind the magic and the version.
fn parse_fields(body: &[u8]) -> (r: Option<LensOp>)
    requires
        body@.len() >= 7,
    ensures
        match r {
            Some(op) => fits(op.deep_view()) && body@.skip(6) == op_bytes(op.deep_view()),
            None => forall|op: OpView| fits(op) ==> body@.skip(6) != #[trigger] op_bytes(op),
        },
{
    let ghost rest = body@.skip(6);
    let total: usize = body.len();
    let tag: u8 = body[6];
    assert(rest[0] == tag);
    proof {
        assert forall|op: OpView| rest == #[trigger] op_bytes(op) implies tag == tag_of(op) by {
            assert(op_bytes(op)[0] == tag_of(op));
        }
    }
    if tag == 0 {
        if total == 7 {
            assert(rest =~= seq![0u8]);
            assert(op_bytes(OpView::Hello) == seq![0u8]);
            return Some(LensOp::Hello);
        }
        assert(op_bytes(OpView::Hello).len() == 1);
        return None;
    }
    if tag == 1 {
        return parse_label(body);
    }
    if tag == 2 {
        return parse_offer(body);
    }
    None
}

/// The byte that says which op follows.
pub open spec fn tag_of(op: OpView) -> u8 {
    match op {
        OpView::Hello => 0u8,
        OpView::LabelPerson(_, _) => 1u8,
        OpView::OfferContact(_, _) => 2u8,
    }
}

/// Decodes a label op.
fn parse_label(body: &[u8]) -> (r: Option<LensOp>)
    requires
        body@.len() >= 7,
        body@[6] == 1,
    ensures
        match r {
            Some(op) => fits(op.deep_view()) && body@.skip(6) == op_bytes(op.deep_view()),
            None => forall|op: OpView|
                fits(op) && op is LabelPerson ==> body@.skip(6) != #[trigger] op_bytes(op),
        },
{
    let ghost rest = body@.skip(6);
    let total: usize = body.len();
    proof {
        assert forall|op: OpView| fits(op) && op is LabelPerson && rest == #[trigger] op_bytes(op) implies label_reads(rest, op) by {
            lemma_label_reads(op);
        }
    }
    if total < 11 {
        return None;
    }
    let n: u64 = count_at(body, 7);
    assert(body@.skip(7) =~= rest.skip(1));
    let whole: u64 = (total - 11) as u64;
    if whole / 32 < n {
        return None;
    }
    let end: usize = 11 + 32 * (n as usize);
    let blob: Vec<u8> = slice_vec(body, 11, end);
    let members: Vec<PublicKey> = keys_from(&blob, n as usize);
    let tail: Vec<u8> = slice_vec(body, end, total);
    assert(tail@ =~= rest.skip(end - 6));
    match read_text(tail.as_slice()) {
        Some(label) => {
            proof {
                lemma_le_bytes(rest.skip(1));
                assert(rest.take(1) =~= seq![1u8]);
                assert(rest =~= rest.take(1) + rest.skip(1).take(4) + blob@ + tail@);
            }
            Some(LensOp::LabelPerson { members, label })
        },
        None => None,
    }
}

/// Decodes an offer op.
fn parse_offer(body: &[u8]) -> (r: Option<LensOp>)
    requires
        body@.len() >= 7,
        body@[6] == 2,
    ensures
        match r {
            Some(op) => fits(op.deep_view()) && body@.skip(6) == op_bytes(op.deep_view()),
            None => forall|op: OpView|
                fits(op) && op is OfferContact ==> body@.skip(6) != #[trigger] op_bytes(op),
        },
{
    let ghost rest = body@.skip(6);
    let total: usize = body.len();
    proof {
        assert forall|op: OpView| fits(op) && op is OfferContact && rest == #[trigger] op_bytes(op) implies offer_reads(rest, op) by {
            lemma_offer_reads(op);
        }
    }
    if total < 11 {
        return None;
    }
    let n: u64 = count_at(body, 7);
    assert(body@.skip(7) =~= rest.skip(1));
    let whole: u64 = (total - 11) as u64;
    if whole < n {
        return None;
    }
    let end: usize = 11 + n as usize;
    let record: Vec<u8> = slice_vec(body, 11, end);
    let tail: Vec<u8> = slice_vec(body, end, total);
    assert(tail@ =~= rest.skip(end - 6));
    match read_text(tail.as_slice()) {
        Some(petname) => {
            proof {
                lemma_le_bytes(rest.skip(1));
                assert(rest.take(1) =~= seq![2u8]);
                assert(rest =~= rest.take(1) + rest.skip(1).take(4) + record@ + tail@);
            }
            Some(LensOp::OfferContact { record, petname })
        },
        None => None,
    }
}

/// What a reader finds in the bytes of a label op.
spec fn label_reads(b: Seq<u8>, op: OpView) -> bool {
    match op {
        OpView::LabelPerson(members, label) => {
            &&& b.len() >= 5 + 32 * members.len()
            &&& le_value(b.skip(1)) == members.len()
            &&& b.subrange(5, 5 + 32 * members.len() as int) == key_concat(members)
            &&& b.skip(5 + 32 * members.len() as int) == borsh_text(label)
        },
        _ => true,
    }
}

/// What a reader finds in the bytes of an offer.
spec fn offer_reads(b: Seq<u8>, op: OpView) -> bool {
    match op {
        OpView::OfferContact(record, petname) => {
            &&& b.len() >= 5 + record.len()
            &&& le_value(b.skip(1)) == record.len()
            &&& b.subrange(5, 5 + record.len() as int) == record
            &&& b.skip(5 + record.len() as int) == borsh_text(petname)
        },
        _ => true,
    }
}

proof fn lemma_label_reads(op: OpView)
    requires
        fits(op),
    ensures
        label_reads(op_bytes(op), op),
{
    if let OpView::LabelPerson(members, label) = op {
        let b = op_bytes(op);
        let n = members.len();
        lemma_key_concat_len(members);
        lemma_le_prefix(n, key_concat(members) + borsh_text(label), le32(n) + (key_concat(members) + borsh_text(label)));
        assert(b.skip(1) =~= le32(n) + (key_concat(members) + borsh_text(label)));
        assert(b.subrange(5, 5 + 32 * n as int) =~= key_concat(members));
        assert(b.skip(5 + 32 * n as int) =~= borsh_text(label));
    }
}

proof fn lemma_offer_reads(op: OpView)
    requires
        fits(op),
    ensures
        offer_reads(op_bytes(op), op),
{
    if let OpView::OfferContact(record, petname) = op {
        let b = op_bytes(op);
        let n = record.len();
        lemma_le_prefix(n, record + borsh_text(petname), le32(n) + (record + borsh_text(petname)));
        assert(b.skip(1) =~= le32(n) + (record + borsh_text(petname)));
        assert(b.subrange(5, 5 + n as int) =~= record);
        assert(b.skip(5 + n as int) =~= borsh_text(petname));
    }
}

/// A count in front of anything reads back.
proof fn lemma_le_prefix(n: nat, more: Seq<u8>, whole: Seq<u8>)
    requires
        n <= u32::MAX,
        whole == le32(n) + more,
    ensures
        le_value(whole) == n,
        whole.skip(4) == more,
        whole.len() == 4 + more.len(),
{
    lemma_le32(n);
    assert(le_value(whole) == le_value(le32(n)));
    assert(whole.skip(4) =~= more);
}

/// Four bytes are the count they denote.
proof fn lemma_le_bytes(b: Seq<u8>)
    requires
        b.len() >= 4,
    ensures
        b.take(4) == le32(le_value(b)),
{
    let n = le_value(b);
    assert(n % 256 == b[0]);
    assert(n / 256 % 256 == b[1]);
    assert(n / 65536 % 256 == b[2]);
    assert(n / 16777216 % 256 == b[3]);
    assert(b.take(4) =~= le32(n));
}

// ---- laws ----

/// A text's encoding denotes one text.
pub proof fn lemma_borsh_text_injective(a: Seq<char>, b: Seq<char>)
    requires
        borsh_text(a) == borsh_text(b),
        encode_utf8(a).len() <= u32::MAX,
        encode_utf8(b).len() <= u32::MAX,
    ensures
        a == b,
{
    lemma_le_prefix(encode_utf8(a).len(), encode_utf8(a), borsh_text(a));
    lemma_le_prefix(encode_utf8(b).len(), encode_utf8(b), borsh_text(b));
    vstd::utf8::encode_utf8_decode_utf8(a);
    vstd::utf8::encode_utf8_decode_utf8(b);
}

/// What `op_body` wrote, `parse_op` reads back.
pub proof fn law_op_round_trip(op: OpView)
    requires
        fits(op),
    ensures
        op_of(frame(CURRENT as nat, op)) == Some(op),
        has_magic(frame(CURRENT as nat, op)),
{
    let body = frame(CURRENT as nat, op);
    assert(frames(body, op));
    lemma_one_op(body, op);
    assert(body.take(4) =~= magic());
}

proof fn lemma_one_op(body: Seq<u8>, op: OpView)
    requires
        fits(op),
        frames(body, op),
    ensures
        op_of(body) == Some(op),
{
    let other = choose|o: OpView| fits(o) && frames(body, o);
    assert(fits(other) && frames(body, other));
    let v = choose|v: nat| v <= CURRENT && body == #[trigger] frame(v, op);
    let w = choose|w: nat| w <= CURRENT && body == #[trigger] frame(w, other);
    law_frames_unambiguous(v, op, w, other);
}

/// Frames are unambiguous: two that are the same bytes are the same version
/// of the same op.
pub proof fn law_frames_unambiguous(v: nat, a: OpView, w: nat, b: OpView)
    requires
        fits(a),
        fits(b),
        v <= u16::MAX,
        w <= u16::MAX,
        frame(v, a) == frame(w, b),
    ensures
        v == w,
        a == b,
{
    let f = frame(v, a);
    let g = frame(w, b);
    assert(f[4] == (v % 256) as u8 && f[5] == (v / 256 % 256) as u8);
    assert(g[4] == (w % 256) as u8 && g[5] == (w / 256 % 256) as u8);
    assert(f.skip(6) =~= op_bytes(a));
    assert(g.skip(6) =~= op_bytes(b));
    lemma_ops_unambiguous(a, b);
}

proof fn lemma_ops_unambiguous(a: OpView, b: OpView)
    requires
        fits(a),
        fits(b),
        op_bytes(a) == op_bytes(b),
    ensures
        a == b,
{
    assert(op_bytes(a)[0] == tag_of(a));
    assert(op_bytes(b)[0] == tag_of(b));
    lemma_label_reads(a);
    lemma_label_reads(b);
    lemma_offer_reads(a);
    lemma_offer_reads(b);
    match (a, b) {
        (OpView::LabelPerson(m, l), OpView::LabelPerson(n, k)) => {
            law_acks_round_trip(m);
            law_acks_round_trip(n);
            lemma_borsh_text_injective(l, k);
        },
        (OpView::OfferContact(_, p), OpView::OfferContact(_, q)) => {
            lemma_borsh_text_injective(p, q);
        },
        _ => {},
    }
}

} // verus!
