//! The line formats the client's files are written in.
use vstd::prelude::*;
use vstd::string::StringExecFns;

use crate::hex::{digit_value, hex_char, hex_value, lemma_hex_value, nibble};
use crate::seqs::lemma_take_all;
use crate::text::{chars_of, joined, lemma_lines_last, lemma_lines_step, lines};

verus! {

/// Lines, each with its line feed.
pub open spec fn line_text(ls: Seq<Seq<char>>) -> Seq<char>
    decreases ls.len(),
{
    if ls.len() == 0 {
        Seq::empty()
    } else {
        ls[0] + seq!['\n'] + line_text(ls.skip(1))
    }
}

/// A line that reading gives back as it was written.
pub open spec fn plain(line: Seq<char>) -> bool {
    &&& forall|i: int| 0 <= i < line.len() ==> line[i] != '\n'
    &&& line.len() > 0 ==> line.last() != '\r'
}

pub open spec fn all_plain(ls: Seq<Seq<char>>) -> bool {
    forall|i: int| 0 <= i < ls.len() ==> plain(#[trigger] ls[i])
}

/// Writes lines, each with its line feed.
pub fn write_lines(ls: &Vec<String>) -> (r: String)
    ensures
        r@ == line_text(ls.deep_view()),
{
    let ghost s = ls.deep_view();
    let mut out: String = String::new();
    let mut i: usize = 0;
    assert(out@ + line_text(s.skip(0)) =~= line_text(s)) by {
        assert(s.skip(0) =~= s);
    }
    while i < ls.len()
        invariant
            i <= ls.len(),
            s == ls.deep_view(),
            out@ + line_text(s.skip(i as int)) == line_text(s),
        decreases ls.len() - i,
    {
        let ghost before = out@;
        out.append(ls[i].as_str());
        out.push('\n');
        proof {
            let rest = s.skip(i as int);
            assert(rest[0] == ls[i as int]@);
            assert(rest.skip(1) =~= s.skip(i + 1));
            assert(out@ =~= before + rest[0] + seq!['\n']);
            assert(out@ + line_text(s.skip(i + 1)) =~= before + line_text(rest));
        }
        i += 1;
    }
    assert(out@ + line_text(s.skip(i as int)) =~= out@);
    out
}

/// Reading lines that were written with their line feeds gives them back.
pub proof fn law_line_text_round_trip(ls: Seq<Seq<char>>)
    requires
        all_plain(ls),
    ensures
        lines(line_text(ls)) == ls,
    decreases ls.len(),
{
    if ls.len() == 0 {
        assert(lines(line_text(ls)) =~= ls);
    } else {
        let rest = ls.skip(1);
        assert forall|i: int| 0 <= i < rest.len() implies plain(#[trigger] rest[i]) by {
            assert(rest[i] == ls[i + 1]);
        }
        law_line_text_round_trip(rest);
        assert(plain(ls[0]));
        lemma_lines_step(ls[0], line_text(rest));
        assert(seq![ls[0]] + rest =~= ls);
    }
}

/// Lines followed by a last one without its line feed read back as they were
/// written, where the last one is not empty.
pub proof fn lemma_open_ended_lines(ls: Seq<Seq<char>>, last: Seq<char>)
    requires
        all_plain(ls),
        last.len() > 0,
        forall|i: int| 0 <= i < last.len() ==> last[i] != '\n',
    ensures
        lines(line_text(ls) + last) == ls.push(last),
    decreases ls.len(),
{
    if ls.len() == 0 {
        assert(line_text(ls) + last =~= last);
        lemma_lines_last(last);
        assert(seq![last] =~= ls.push(last));
    } else {
        let rest = ls.skip(1);
        assert forall|i: int| 0 <= i < rest.len() implies plain(#[trigger] rest[i]) by {
            assert(rest[i] == ls[i + 1]);
        }
        lemma_open_ended_lines(rest, last);
        assert(plain(ls[0]));
        lemma_lines_step(ls[0], line_text(rest) + last);
        assert(line_text(ls) + last =~= ls[0] + seq!['\n'] + (line_text(rest) + last));
        assert(seq![ls[0]] + rest.push(last) =~= ls.push(last));
    }
}

pub proof fn lemma_line_text_push(ls: Seq<Seq<char>>, x: Seq<char>)
    ensures
        line_text(ls.push(x)) == line_text(ls) + x + seq!['\n'],
    decreases ls.len(),
{
    let p = ls.push(x);
    if ls.len() == 0 {
        assert(p.skip(1) =~= Seq::<Seq<char>>::empty());
        assert(p[0] == x);
        assert(line_text(p.skip(1)) =~= Seq::<char>::empty());
        assert(line_text(p) =~= line_text(ls) + x + seq!['\n']);
    } else {
        lemma_line_text_push(ls.skip(1), x);
        assert(p.skip(1) =~= ls.skip(1).push(x));
        assert(line_text(p) =~= line_text(ls) + x + seq!['\n']);
    }
}

/// Joining with line feeds leaves the last line without one.
pub proof fn lemma_joined_lines(ls: Seq<Seq<char>>)
    requires
        ls.len() > 0,
    ensures
        joined(ls, seq!['\n']) == line_text(ls.drop_last()) + ls.last(),
    decreases ls.len(),
{
    let d = ls.drop_last();
    if ls.len() == 1 {
        assert(line_text(d) + ls.last() =~= ls[0]);
    } else {
        lemma_joined_lines(d);
        lemma_line_text_push(d.drop_last(), d.last());
        assert(d =~= d.drop_last().push(d.last()));
        assert(joined(ls, seq!['\n']) =~= line_text(d) + ls.last());
    }
}

/// Joined lines read back as they were, where the last one is not empty.
pub proof fn law_joined_lines_round_trip(ls: Seq<Seq<char>>)
    requires
        all_plain(ls),
        ls.len() > 0 ==> ls.last().len() > 0,
    ensures
        lines(joined(ls, seq!['\n'])) == ls,
{
    if ls.len() == 0 {
        assert(lines(joined(ls, seq!['\n'])) =~= ls);
    } else {
        lemma_joined_lines(ls);
        let d = ls.drop_last();
        assert forall|i: int| 0 <= i < d.len() implies plain(#[trigger] d[i]) by {
            assert(d[i] == ls[i]);
        }
        assert(plain(ls[ls.len() - 1]));
        lemma_open_ended_lines(d, ls.last());
        assert(d.push(ls.last()) =~= ls);
    }
}

// ---- 128-bit numbers in hex ----

/// The last `k` hex digits of a number, leading zeros included.
pub open spec fn hex_digits(n: nat, k: nat) -> Seq<char>
    decreases k,
{
    if k == 0 {
        Seq::empty()
    } else {
        hex_digits(n / 16, (k - 1) as nat).push(hex_char((n % 16) as int))
    }
}

/// The number that hex digits denote.
pub open spec fn hex_number(s: Seq<char>) -> nat
    decreases s.len(),
{
    if s.len() == 0 {
        0
    } else {
        let v = hex_value(s.last());
        (hex_number(s.drop_last()) * 16 + (if v is Some {
            v->0
        } else {
            0
        })) as nat
    }
}

pub open spec fn all_hex(s: Seq<char>) -> bool {
    forall|i: int| 0 <= i < s.len() ==> hex_value(#[trigger] s[i]) is Some
}

/// Sixteen to the power of `k`.
pub open spec fn pow16(k: nat) -> nat
    decreases k,
{
    if k == 0 {
        1
    } else {
        16 * pow16((k - 1) as nat)
    }
}

proof fn lemma_hex_number_bound(s: Seq<char>)
    ensures
        hex_number(s) < pow16(s.len()),
    decreases s.len(),
{
    if s.len() > 0 {
        lemma_hex_number_bound(s.drop_last());
    }
}

proof fn lemma_pow16_128()
    ensures
        pow16(32) == 0x1_0000_0000_0000_0000_0000_0000_0000_0000int,
{
    reveal_with_fuel(pow16, 17);
    assert(pow16(16) == 0x1_0000_0000_0000_0000int);
    assert(pow16(32) == 0x1_0000_0000_0000_0000int * pow16(16));
}

pub proof fn lemma_hex_digits(n: nat, k: nat)
    requires
        n < pow16(k),
    ensures
        hex_digits(n, k).len() == k,
        all_hex(hex_digits(n, k)),
        hex_number(hex_digits(n, k)) == n,
    decreases k,
{
    let d = hex_digits(n, k);
    if k > 0 {
        assert(n / 16 < pow16((k - 1) as nat));
        lemma_hex_digits(n / 16, (k - 1) as nat);
        lemma_hex_value((n % 16) as int);
        let e = hex_digits(n / 16, (k - 1) as nat);
        assert(d.drop_last() =~= e);
        assert forall|i: int| 0 <= i < d.len() implies hex_value(#[trigger] d[i]) is Some by {
            if i < e.len() {
                assert(d[i] == e[i]);
            }
        }
    }
}

/// The number 32 hex digits denote.
pub open spec fn number128(s: Seq<char>) -> Option<u128> {
    if s.len() == 32 && all_hex(s) {
        Some(hex_number(s) as u128)
    } else {
        None
    }
}

/// A 128-bit number as 32 hex digits.
pub fn hex128(n: u128) -> (r: String)
    ensures
        r@ == hex_digits(n as nat, 32),
{
    hex_tail(n, 32)
}

fn hex_tail(n: u128, k: u8) -> (r: String)
    ensures
        r@ == hex_digits(n as nat, k as nat),
    decreases k,
{
    if k == 0 {
        let out: String = String::new();
        assert(out@ =~= hex_digits(n as nat, 0));
        out
    } else {
        let mut out: String = hex_tail(n / 16, k - 1);
        out.push(nibble((n % 16) as u8));
        out
    }
}

/// Reads 32 hex digits as a 128-bit number.
pub fn parse128(s: &str) -> (r: Option<u128>)
    ensures
        r == number128(s@),
{
    let x: Vec<char> = chars_of(s);
    if x.len() != 32 {
        return None;
    }
    let mut value: u128 = 0;
    let mut i: usize = 0;
    while i < 32
        invariant
            x@ == s@,
            x.len() == 32,
            i <= 32,
            value == hex_number(x@.take(i as int)),
            forall|j: int| 0 <= j < i ==> hex_value(#[trigger] x@[j]) is Some,
        decreases 32 - i,
    {
        proof {
            crate::seqs::lemma_take_step(x@, i as int);
            lemma_hex_number_bound(x@.take(i as int));
            lemma_pow16_mono(i as nat, 31);
            lemma_pow16_128();
        }
        match digit_value(x[i]) {
            Some(v) => {
                value = value * 16 + v as u128;
            },
            None => {
                assert(hex_value(s@[i as int]) is None);
                return None;
            },
        }
        i += 1;
    }
    proof {
        lemma_take_all(x@);
    }
    Some(value)
}

proof fn lemma_pow16_mono(a: nat, b: nat)
    requires
        a <= b,
    ensures
        pow16(a) <= pow16(b),
    decreases b,
{
    if a < b {
        lemma_pow16_mono(a, (b - 1) as nat);
    }
}

/// Reading the hex form of a 128-bit number gives the number back.
pub proof fn law_hex128_round_trip(n: u128)
    ensures
        number128(hex_digits(n as nat, 32)) == Some(n),
{
    lemma_pow16_128();
    lemma_hex_digits(n as nat, 32);
}

} // verus!
