//! Text: the small vocabulary of string operations the client's formats are
//! written in, each over the sequence of characters a string holds.
use vstd::prelude::*;
use vstd::string::StringExecFns;

verus! {

/// `String::push` appends one character.
pub assume_specification[ String::push ](s: &mut String, c: char)
    ensures
        final(s)@ == old(s)@.push(c),
;

/// What `{:?}` renders for a string: quotes around the escaped text.
pub uninterp spec fn quoted(text: Seq<char>) -> Seq<char>;

/// The `Debug` rendering of a string, as std's `{:?}` gives it. Which
/// characters it escapes, and how, is left to the name `quoted`.
#[verifier::external_body]
pub(crate) fn quote(text: &str) -> (r: String)
    ensures
        r@ == quoted(text@),
{
    format!("{text:?}")
}

/// The characters of a string, in order.
pub fn chars_of(text: &str) -> (r: Vec<char>)
    ensures
        r@ == text@,
{
    let mut out: Vec<char> = Vec::new();
    for c in it: text.chars()
        invariant
            it.seq() == text@,
            out@ == text@.take(it.index() as int),
    {
        assert(text@.take(it.index() as int + 1) =~= text@.take(it.index() as int).push(c));
        out.push(c);
    }
    assert(text@.take(text@.len() as int) =~= text@);
    out
}

/// The string holding `chars[from..to]`.
pub fn slice_text(chars: &Vec<char>, from: usize, to: usize) -> (r: String)
    requires
        from <= to <= chars.len(),
    ensures
        r@ == chars@.subrange(from as int, to as int),
{
    let mut out: String = String::new();
    let mut i: usize = from;
    while i < to
        invariant
            from <= i <= to <= chars.len(),
            out@ == chars@.subrange(from as int, i as int),
        decreases to - i,
    {
        assert(chars@.subrange(from as int, i + 1) =~= chars@.subrange(from as int, i as int).push(
            chars@[i as int],
        ));
        out.push(chars[i]);
        i += 1;
    }
    out
}

/// `a` followed by `b`.
pub fn concat(a: &str, b: &str) -> (r: String)
    ensures
        r@ == a@ + b@,
{
    let mut out: String = a.to_owned();
    out.append(b);
    out
}

/// A fresh string with the same characters.
pub fn text(s: &str) -> (r: String)
    ensures
        r@ == s@,
{
    s.to_owned()
}

/// Whether two strings hold the same characters.
pub fn same_text(a: &String, b: &str) -> (r: bool)
    ensures
        r == (a@ == b@),
{
    *a == b.to_owned()
}

// ---- order ----

/// Lexicographic order of two number sequences.
pub open spec fn lex_less(a: Seq<int>, b: Seq<int>) -> bool {
    exists|k: int| #[trigger] parts_at(a, b, k)
}

/// `a` and `b` agree below `k`, and at `k` either `a` has ended or its number
/// is the smaller one.
pub open spec fn parts_at(a: Seq<int>, b: Seq<int>, k: int) -> bool {
    &&& 0 <= k <= a.len()
    &&& k < b.len()
    &&& forall|i: int| 0 <= i < k ==> a[i] == b[i]
    &&& k == a.len() || a[k] < b[k]
}

pub proof fn lemma_lex_irreflexive(a: Seq<int>)
    ensures
        !lex_less(a, a),
{
}

pub proof fn lemma_lex_transitive(a: Seq<int>, b: Seq<int>, c: Seq<int>)
    requires
        lex_less(a, b),
        lex_less(b, c),
    ensures
        lex_less(a, c),
{
    let j = choose|k: int| parts_at(a, b, k);
    let l = choose|k: int| parts_at(b, c, k);
    let m = if j <= l { j } else { l };
    assert(parts_at(a, c, m));
}

pub proof fn lemma_lex_total(a: Seq<int>, b: Seq<int>)
    ensures
        a == b || lex_less(a, b) || lex_less(b, a),
{
    if a != b {
        let k = first_difference(a, b, 0);
        lemma_first_difference(a, b, 0);
        if k < a.len() && k < b.len() {
            if a[k] < b[k] {
                assert(parts_at(a, b, k));
            } else {
                assert(parts_at(b, a, k));
            }
        } else if k < b.len() {
            assert(parts_at(a, b, k));
        } else if k < a.len() {
            assert(parts_at(b, a, k));
        } else {
            assert(a =~= b);
        }
    }
}

/// The first index from `from` on at which the two differ or one has ended.
pub open spec fn first_difference(a: Seq<int>, b: Seq<int>, from: int) -> int
    decreases a.len() - from,
{
    if from < 0 || from >= a.len() || from >= b.len() || a[from] != b[from] {
        from
    } else {
        first_difference(a, b, from + 1)
    }
}

proof fn lemma_first_difference(a: Seq<int>, b: Seq<int>, from: int)
    requires
        0 <= from <= a.len(),
        from <= b.len(),
        forall|i: int| 0 <= i < from ==> a[i] == b[i],
    ensures
        ({
            let k = first_difference(a, b, from);
            &&& from <= k <= a.len()
            &&& k <= b.len()
            &&& forall|i: int| 0 <= i < k ==> a[i] == b[i]
            &&& k < a.len() && k < b.len() ==> a[k] != b[k]
            &&& k == a.len() || k == b.len() || a[k] != b[k]
        }),
    decreases a.len() - from,
{
    if from < a.len() && from < b.len() && a[from] == b[from] {
        lemma_first_difference(a, b, from + 1);
    }
}

/// The code points of a text.
pub open spec fn points(s: Seq<char>) -> Seq<int> {
    Seq::new(s.len(), |i: int| s[i] as int)
}

/// Alphabetical order: by code point, which is also the order of the UTF-8
/// bytes.
pub open spec fn text_less(a: Seq<char>, b: Seq<char>) -> bool {
    lex_less(points(a), points(b))
}

pub proof fn lemma_points_injective(a: Seq<char>, b: Seq<char>)
    requires
        points(a) == points(b),
    ensures
        a == b,
{
    assert(a.len() == points(a).len());
    assert(b.len() == points(b).len());
    assert forall|i: int| 0 <= i < a.len() implies a[i] == b[i] by {
        assert(points(a)[i] == a[i] as int);
        assert(points(b)[i] == b[i] as int);
    }
    assert(a =~= b);
}

/// Whether `a` comes before `b` in alphabetical order.
pub fn comes_before(a: &str, b: &str) -> (r: bool)
    ensures
        r == text_less(a@, b@),
{
    let x: Vec<char> = chars_of(a);
    let y: Vec<char> = chars_of(b);
    let mut i: usize = 0;
    while i < x.len() && i < y.len()
        invariant
            x@ == a@,
            y@ == b@,
            i <= x.len(),
            i <= y.len(),
            forall|j: int| 0 <= j < i ==> x[j] == y[j],
        decreases x.len() - i,
    {
        if x[i] != y[i] {
            let r: bool = x[i] < y[i];
            proof {
                if r {
                    assert(parts_at(points(a@), points(b@), i as int));
                } else {
                    assert(parts_at(points(b@), points(a@), i as int));
                    assert(points(b@)[i as int] < points(a@)[i as int]);
                    assert(!lex_less(points(a@), points(b@)));
                }
            }
            return r;
        }
        i += 1;
    }
    proof {
        if i < y.len() {
            assert(parts_at(points(a@), points(b@), i as int));
        }
    }
    i < y.len()
}

// ---- white space ----

/// The characters with Unicode's `White_Space` property.
pub open spec fn white_space(c: char) -> bool {
    ||| '\u{9}' <= c <= '\u{d}'
    ||| c == '\u{20}'
    ||| c == '\u{85}'
    ||| c == '\u{a0}'
    ||| c == '\u{1680}'
    ||| '\u{2000}' <= c <= '\u{200a}'
    ||| c == '\u{2028}'
    ||| c == '\u{2029}'
    ||| c == '\u{202f}'
    ||| c == '\u{205f}'
    ||| c == '\u{3000}'
}

pub fn is_white_space(c: char) -> (r: bool)
    ensures
        r == white_space(c),
{
    ('\u{9}' <= c && c <= '\u{d}') || c == '\u{20}' || c == '\u{85}' || c == '\u{a0}' || c
        == '\u{1680}' || ('\u{2000}' <= c && c <= '\u{200a}') || c == '\u{2028}' || c == '\u{2029}'
        || c == '\u{202f}' || c == '\u{205f}' || c == '\u{3000}'
}

pub open spec fn trim_start(s: Seq<char>) -> Seq<char>
    decreases s.len(),
{
    if s.len() > 0 && white_space(s[0]) {
        trim_start(s.skip(1))
    } else {
        s
    }
}

pub open spec fn trim_end(s: Seq<char>) -> Seq<char>
    decreases s.len(),
{
    if s.len() > 0 && white_space(s.last()) {
        trim_end(s.drop_last())
    } else {
        s
    }
}

/// A text without the white space at its two ends.
pub open spec fn trimmed(s: Seq<char>) -> Seq<char> {
    trim_end(trim_start(s))
}

/// A text that trimming leaves as it is.
pub open spec fn is_trim(s: Seq<char>) -> bool {
    s.len() > 0 ==> !white_space(s[0]) && !white_space(s.last())
}

pub proof fn lemma_trim_fixed(s: Seq<char>)
    requires
        is_trim(s),
    ensures
        trimmed(s) == s,
{
}

proof fn lemma_trim_end_head(s: Seq<char>)
    ensures
        trim_end(s).len() <= s.len(),
        trim_end(s) == s.take(trim_end(s).len() as int),
        trim_end(s).len() > 0 ==> !white_space(trim_end(s).last()),
    decreases s.len(),
{
    if s.len() > 0 && white_space(s.last()) {
        lemma_trim_end_head(s.drop_last());
        assert(s.drop_last().take(trim_end(s).len() as int) =~= s.take(trim_end(s).len() as int));
    } else {
        assert(s.take(s.len() as int) =~= s);
    }
}

proof fn lemma_trim_start_head(s: Seq<char>)
    ensures
        trim_start(s).len() > 0 ==> !white_space(trim_start(s)[0]),
    decreases s.len(),
{
    if s.len() > 0 && white_space(s[0]) {
        lemma_trim_start_head(s.skip(1));
    }
}

/// Trimming is idempotent: what it returns has no white space at its ends.
pub proof fn law_trim_idempotent(s: Seq<char>)
    ensures
        is_trim(trimmed(s)),
        trimmed(trimmed(s)) == trimmed(s),
{
    lemma_trim_start_head(s);
    lemma_trim_end_head(trim_start(s));
    lemma_trim_fixed(trimmed(s));
}

/// The text without the white space at its two ends.
pub fn trim(s: &str) -> (r: String)
    ensures
        r@ == trimmed(s@),
{
    let x: Vec<char> = chars_of(s);
    let mut from: usize = 0;
    assert(x@.skip(0) =~= x@);
    while from < x.len() && is_white_space(x[from])
        invariant
            x@ == s@,
            from <= x.len(),
            trim_start(s@) == trim_start(x@.skip(from as int)),
        decreases x.len() - from,
    {
        assert(x@.skip(from as int).skip(1) =~= x@.skip(from + 1));
        from += 1;
    }
    let mut to: usize = x.len();
    assert(x@.subrange(from as int, to as int) =~= x@.skip(from as int));
    while from < to && is_white_space(x[to - 1])
        invariant
            x@ == s@,
            from <= to <= x.len(),
            trimmed(s@) == trim_end(x@.subrange(from as int, to as int)),
        decreases to,
    {
        assert(x@.subrange(from as int, to as int).drop_last() =~= x@.subrange(
            from as int,
            to - 1,
        ));
        to -= 1;
    }
    slice_text(&x, from, to)
}

// ---- cutting ----

/// The index of the first `c` in `s`, or `s.len()` where there is none.
pub open spec fn index_of_char(s: Seq<char>, c: char) -> int
    decreases s.len(),
{
    if s.len() == 0 || s[0] == c {
        0
    } else {
        1 + index_of_char(s.skip(1), c)
    }
}

pub proof fn lemma_index_of_char(s: Seq<char>, c: char)
    ensures
        0 <= index_of_char(s, c) <= s.len(),
        forall|i: int| 0 <= i < index_of_char(s, c) ==> s[i] != c,
        index_of_char(s, c) < s.len() ==> s[index_of_char(s, c)] == c,
    decreases s.len(),
{
    if s.len() > 0 && s[0] != c {
        lemma_index_of_char(s.skip(1), c);
        assert forall|i: int| 0 <= i < index_of_char(s, c) implies s[i] != c by {
            if i > 0 {
                assert(s.skip(1)[i - 1] == s[i]);
            }
        }
    }
}

/// An index with the properties of the first occurrence is the first
/// occurrence.
pub proof fn lemma_index_of_char_unique(s: Seq<char>, c: char, k: int)
    requires
        0 <= k <= s.len(),
        forall|i: int| 0 <= i < k ==> s[i] != c,
        k < s.len() ==> s[k] == c,
    ensures
        index_of_char(s, c) == k,
{
    lemma_index_of_char(s, c);
    let m = index_of_char(s, c);
    if m < k {
        assert(s[m] == c);
    }
    if k < m {
        assert(s[k] == c);
    }
}

fn find_char(x: &Vec<char>, from: usize, c: char) -> (r: usize)
    requires
        from <= x.len(),
    ensures
        from <= r <= x.len(),
        r - from == index_of_char(x@.skip(from as int), c),
{
    let mut i: usize = from;
    while i < x.len() && x[i] != c
        invariant
            from <= i <= x.len(),
            forall|j: int| from <= j < i ==> x[j] != c,
        decreases x.len() - i,
    {
        i += 1;
    }
    proof {
        let rest = x@.skip(from as int);
        assert(forall|j: int| 0 <= j < i - from ==> rest[j] == x[j + from]);
        lemma_index_of_char_unique(rest, c, i - from);
    }
    i
}

/// A text cut in two at the first `c`, which neither part keeps; `None`
/// without a `c`.
pub open spec fn cut_at(s: Seq<char>, c: char) -> Option<(Seq<char>, Seq<char>)> {
    let k = index_of_char(s, c);
    if k < s.len() {
        Some((s.take(k), s.skip(k + 1)))
    } else {
        None
    }
}

pub fn split_once(s: &str, c: char) -> (r: Option<(String, String)>)
    ensures
        r.deep_view() == cut_at(s@, c),
{
    let x: Vec<char> = chars_of(s);
    let k: usize = find_char(&x, 0, c);
    assert(x@.skip(0) =~= x@);
    if k < x.len() {
        assert(x@.subrange(0, k as int) =~= x@.take(k as int));
        assert(x@.subrange(k + 1, x.len() as int) =~= x@.skip(k + 1));
        Some((slice_text(&x, 0, k), slice_text(&x, k + 1, x.len())))
    } else {
        None
    }
}

/// The parts of a text between the `c`s: one more than there are `c`s.
pub open spec fn parts(s: Seq<char>, c: char) -> Seq<Seq<char>>
    decreases s.len(),
{
    let k = index_of_char(s, c);
    if 0 <= k < s.len() {
        seq![s.take(k)] + parts(s.skip(k + 1), c)
    } else {
        seq![s]
    }
}

pub fn split(s: &str, c: char) -> (r: Vec<String>)
    ensures
        r.deep_view() == parts(s@, c),
{
    let x: Vec<char> = chars_of(s);
    let mut out: Vec<String> = Vec::new();
    let mut from: usize = 0;
    assert(x@.skip(0) =~= x@);
    assert(out.deep_view() + parts(s@, c) =~= parts(s@, c));
    loop
        invariant
            x@ == s@,
            from <= x.len(),
            out.deep_view() + parts(x@.skip(from as int), c) == parts(s@, c),
        decreases x.len() - from,
    {
        let k: usize = find_char(&x, from, c);
        let piece: String = slice_text(&x, from, k);
        let ghost before = out.deep_view();
        let ghost rest = x@.skip(from as int);
        out.push(piece);
        assert(out.deep_view() =~= before.push(piece@));
        assert(piece@ =~= rest.take(k - from));
        if k == x.len() {
            assert(piece@ =~= rest);
            assert(out.deep_view() =~= before + parts(rest, c));
            return out;
        }
        assert(rest.skip(k - from + 1) =~= x@.skip(k + 1));
        assert(out.deep_view() + parts(x@.skip(k + 1), c) =~= before + parts(rest, c));
        from = k + 1;
    }
}

/// A line without the carriage return before its line feed.
pub open spec fn without_cr(s: Seq<char>) -> Seq<char> {
    if s.len() > 0 && s.last() == '\r' {
        s.drop_last()
    } else {
        s
    }
}

/// The lines of a text: each ends at a line feed, or at a carriage return and
/// a line feed; the ending of the last line may be missing.
pub open spec fn lines(s: Seq<char>) -> Seq<Seq<char>>
    decreases s.len(),
{
    let k = index_of_char(s, '\n');
    if s.len() == 0 {
        Seq::empty()
    } else if 0 <= k < s.len() {
        seq![without_cr(s.take(k))] + lines(s.skip(k + 1))
    } else {
        seq![s]
    }
}

pub fn lines_of(s: &str) -> (r: Vec<String>)
    ensures
        r.deep_view() == lines(s@),
{
    let x: Vec<char> = chars_of(s);
    let mut out: Vec<String> = Vec::new();
    let mut from: usize = 0;
    assert(x@.skip(0) =~= x@);
    assert(out.deep_view() + lines(s@) =~= lines(s@));
    while from < x.len()
        invariant
            x@ == s@,
            from <= x.len(),
            out.deep_view() + lines(x@.skip(from as int)) == lines(s@),
        decreases x.len() - from,
    {
        let k: usize = find_char(&x, from, '\n');
        let ghost before = out.deep_view();
        let ghost rest = x@.skip(from as int);
        if k == x.len() {
            let piece: String = slice_text(&x, from, k);
            out.push(piece);
            assert(piece@ =~= rest);
            assert(out.deep_view() =~= before.push(piece@));
            assert(lines(x@.skip(k as int)) =~= Seq::<Seq<char>>::empty());
            assert(out.deep_view() + lines(x@.skip(k as int)) =~= before + lines(rest));
            from = k;
        } else {
            let to: usize = if k > from && x[k - 1] == '\r' {
                k - 1
            } else {
                k
            };
            let piece: String = slice_text(&x, from, to);
            out.push(piece);
            assert(rest.take(k - from) =~= x@.subrange(from as int, k as int));
            assert(piece@ =~= without_cr(rest.take(k - from)));
            assert(out.deep_view() =~= before.push(piece@));
            assert(rest.skip(k - from + 1) =~= x@.skip(k + 1));
            assert(out.deep_view() + lines(x@.skip(k + 1)) =~= before + lines(rest));
            from = k + 1;
        }
    }
    assert(lines(x@.skip(from as int)) =~= Seq::<Seq<char>>::empty());
    assert(out.deep_view() + lines(x@.skip(from as int)) =~= out.deep_view());
    out
}

/// The first line of a text that starts with a line and a line feed.
pub proof fn lemma_lines_step(line: Seq<char>, rest: Seq<char>)
    requires
        forall|i: int| 0 <= i < line.len() ==> line[i] != '\n',
        line.len() > 0 ==> line.last() != '\r',
    ensures
        lines(line + seq!['\n'] + rest) == seq![line] + lines(rest),
{
    let s = line + seq!['\n'] + rest;
    lemma_index_of_char_unique(s, '\n', line.len() as int);
    assert(s.take(line.len() as int) =~= line);
    assert(s.skip(line.len() as int + 1) =~= rest);
}

/// A text without a line feed is one line, or none where it is empty.
pub proof fn lemma_lines_last(line: Seq<char>)
    requires
        forall|i: int| 0 <= i < line.len() ==> line[i] != '\n',
    ensures
        lines(line) == if line.len() == 0 {
            Seq::<Seq<char>>::empty()
        } else {
            seq![line]
        },
{
    lemma_index_of_char_unique(line, '\n', line.len() as int);
}

/// The text behind a prefix; `None` where it does not start with it.
pub open spec fn behind(s: Seq<char>, prefix: Seq<char>) -> Option<Seq<char>> {
    if prefix.len() <= s.len() && s.take(prefix.len() as int) == prefix {
        Some(s.skip(prefix.len() as int))
    } else {
        None
    }
}

pub fn strip_prefix(s: &str, prefix: &str) -> (r: Option<String>)
    ensures
        r.deep_view() == behind(s@, prefix@),
{
    let x: Vec<char> = chars_of(s);
    let p: Vec<char> = chars_of(prefix);
    if x.len() < p.len() {
        return None;
    }
    let mut i: usize = 0;
    while i < p.len()
        invariant
            x@ == s@,
            p@ == prefix@,
            i <= p.len() <= x.len(),
            forall|j: int| 0 <= j < i ==> x[j] == p[j],
        decreases p.len() - i,
    {
        if x[i] != p[i] {
            assert(s@.take(p.len() as int)[i as int] != prefix@[i as int]);
            return None;
        }
        i += 1;
    }
    assert(s@.take(p.len() as int) =~= prefix@);
    assert(x@.subrange(p.len() as int, x.len() as int) =~= s@.skip(p.len() as int));
    Some(slice_text(&x, p.len(), x.len()))
}

/// Whether a text's first character is `c`.
pub fn starts_with(s: &str, c: char) -> (r: bool)
    ensures
        r == (s@.len() > 0 && s@[0] == c),
{
    let x: Vec<char> = chars_of(s);
    x.len() > 0 && x[0] == c
}

/// The parts in order with `sep` between each two.
pub open spec fn joined(parts: Seq<Seq<char>>, sep: Seq<char>) -> Seq<char>
    decreases parts.len(),
{
    if parts.len() == 0 {
        Seq::empty()
    } else if parts.len() == 1 {
        parts[0]
    } else {
        joined(parts.drop_last(), sep) + sep + parts.last()
    }
}

pub fn join(parts: &Vec<String>, sep: &str) -> (r: String)
    ensures
        r@ == joined(parts.deep_view(), sep@),
{
    let mut out: String = String::new();
    let mut i: usize = 0;
    let ghost all = parts.deep_view();
    while i < parts.len()
        invariant
            all == parts.deep_view(),
            i <= parts.len(),
            out@ == joined(all.take(i as int), sep@),
        decreases parts.len() - i,
    {
        assert(all.take(i + 1).drop_last() =~= all.take(i as int));
        assert(all.take(i + 1).last() == all[i as int]);
        if i > 0 {
            out.append(sep);
        }
        out.append(parts[i].as_str());
        assert(out@ =~= joined(all.take(i + 1), sep@));
        i += 1;
    }
    assert(all.take(parts.len() as int) =~= all);
    out
}

// ---- numbers ----

/// The digit character of a number below ten.
pub open spec fn digit_char(d: nat) -> char {
    ('0' as int + d) as char
}

/// A number in decimal, without leading zeros.
pub open spec fn decimal(n: nat) -> Seq<char>
    decreases n,
{
    if n < 10 {
        seq![digit_char(n)]
    } else {
        decimal(n / 10).push(digit_char(n % 10))
    }
}

fn digit(d: u64) -> (c: char)
    requires
        d < 10,
    ensures
        c == digit_char(d as nat),
{
    if d == 0 {
        '0'
    } else if d == 1 {
        '1'
    } else if d == 2 {
        '2'
    } else if d == 3 {
        '3'
    } else if d == 4 {
        '4'
    } else if d == 5 {
        '5'
    } else if d == 6 {
        '6'
    } else if d == 7 {
        '7'
    } else if d == 8 {
        '8'
    } else {
        '9'
    }
}

/// The decimal form of a number.
pub fn decimal_text(n: u64) -> (r: String)
    ensures
        r@ == decimal(n as nat),
    decreases n,
{
    if n < 10 {
        let mut out: String = String::new();
        out.push(digit(n));
        assert(out@ =~= decimal(n as nat));
        out
    } else {
        let mut out: String = decimal_text(n / 10);
        out.push(digit(n % 10));
        out
    }
}

pub open spec fn is_digit(c: char) -> bool {
    '0' <= c <= '9'
}

/// The number that a run of decimal digits denotes.
pub open spec fn digits_value(s: Seq<char>) -> nat
    decreases s.len(),
{
    if s.len() == 0 {
        0
    } else {
        (digits_value(s.drop_last()) * 10 + (s.last() as int - '0' as int)) as nat
    }
}

pub open spec fn all_digits(s: Seq<char>) -> bool {
    forall|i: int| 0 <= i < s.len() ==> is_digit(s[i])
}

/// A text without a leading plus sign.
pub open spec fn unsigned(s: Seq<char>) -> Seq<char> {
    if s.len() > 0 && s[0] == '+' {
        s.skip(1)
    } else {
        s
    }
}

/// The number a text denotes: decimal digits, at least one, behind an
/// optional plus sign, that fit in 64 bits.
pub open spec fn number(s: Seq<char>) -> Option<u64> {
    let d = unsigned(s);
    if d.len() > 0 && all_digits(d) && digits_value(d) <= u64::MAX {
        Some(digits_value(d) as u64)
    } else {
        None
    }
}

proof fn lemma_digits_value_monotone(s: Seq<char>, k: int)
    requires
        0 <= k <= s.len(),
        all_digits(s),
    ensures
        digits_value(s.take(k)) <= digits_value(s),
    decreases s.len(),
{
    if k < s.len() {
        lemma_digits_value_monotone(s.drop_last(), k);
        assert(s.drop_last().take(k) =~= s.take(k));
        assert(is_digit(s.last()));
    } else {
        assert(s.take(k) =~= s);
    }
}

/// Reads a decimal number.
pub fn parse_u64(s: &str) -> (r: Option<u64>)
    ensures
        r == number(s@),
{
    let x: Vec<char> = chars_of(s);
    let from: usize = if x.len() > 0 && x[0] == '+' {
        1
    } else {
        0
    };
    let ghost d = unsigned(s@);
    assert(d =~= x@.skip(from as int));
    if from == x.len() {
        return None;
    }
    let mut value: u64 = 0;
    let mut i: usize = from;
    while i < x.len()
        invariant
            x@ == s@,
            d == unsigned(s@),
            d =~= x@.skip(from as int),
            from <= i <= x.len(),
            from < x.len(),
            value == digits_value(d.take(i - from)),
            forall|j: int| 0 <= j < i - from ==> is_digit(d[j]),
        decreases x.len() - i,
    {
        let c: char = x[i];
        assert(d[i - from] == c);
        if !('0' <= c && c <= '9') {
            return None;
        }
        let ghost k = i - from;
        assert(d.take(k + 1).drop_last() =~= d.take(k));
        assert(d.take(k + 1).last() == c);
        let v: u64 = (c as u32 - '0' as u32) as u64;
        assert(digits_value(d.take(k + 1)) == value * 10 + v);
        if value > (u64::MAX - v) / 10 {
            proof {
                assert(value * 10 + v > u64::MAX);
                if all_digits(d) {
                    lemma_digits_value_monotone(d, k + 1);
                }
            }
            return None;
        }
        value = value * 10 + v;
        i += 1;
    }
    assert(d.take(i - from) =~= d);
    Some(value)
}

pub proof fn lemma_decimal_digits(n: nat)
    ensures
        decimal(n).len() > 0,
        all_digits(decimal(n)),
        digits_value(decimal(n)) == n,
    decreases n,
{
    reveal_with_fuel(digits_value, 3);
    if n < 10 {
        assert(decimal(n).drop_last() =~= Seq::<char>::empty());
    } else {
        lemma_decimal_digits(n / 10);
        assert(decimal(n).drop_last() =~= decimal(n / 10));
    }
}

/// Reading a number's decimal form gives the number back.
pub proof fn law_decimal_round_trip(n: u64)
    ensures
        number(decimal(n as nat)) == Some(n),
{
    lemma_decimal_digits(n as nat);
    let s = decimal(n as nat);
    assert(is_digit(s[0]));
}

// ---- laws ----

/// Texts are ordered by the first character in which they differ; a text comes
/// before what it begins.
pub proof fn law_first_difference_decides(a: Seq<char>, b: Seq<char>, k: int)
    requires
        0 <= k <= a.len(),
        k < b.len(),
        forall|i: int| 0 <= i < k ==> a[i] == b[i],
        k == a.len() || (a[k] as int) < (b[k] as int),
    ensures
        text_less(a, b),
        !text_less(b, a),
{
    let p = points(a);
    let q = points(b);
    assert(parts_at(p, q, k));
    if lex_less(q, p) {
        lemma_lex_transitive(p, q, p);
        lemma_lex_irreflexive(p);
    }
}

/// Trimming takes the white space from the two ends and nothing else.
pub proof fn law_trimming_takes_the_ends(s: Seq<char>)
    ensures
        exists|i: int, j: int| #[trigger] is_inside(s, i, j) && trimmed(s) == s.subrange(i, j),
        is_trim(trimmed(s)),
{
    law_trim_idempotent(s);
    let i = lemma_trim_start_cut(s);
    let t = trim_start(s);
    let n = lemma_trim_end_cut(t);
    let j = i + n;
    assert(t == s.skip(i));
    assert(t.take(n) =~= s.subrange(i, j));
    assert forall|k: int| j <= k < s.len() implies white_space(#[trigger] s[k]) by {
        assert(t[k - i] == s[k]);
    }
    assert(is_inside(s, i, j));
}

/// All that lies outside of a stretch of a text is white space.
pub open spec fn is_inside(s: Seq<char>, i: int, j: int) -> bool {
    &&& 0 <= i <= j <= s.len()
    &&& forall|k: int| 0 <= k < i ==> white_space(#[trigger] s[k])
    &&& forall|k: int| j <= k < s.len() ==> white_space(#[trigger] s[k])
}

proof fn lemma_trim_start_cut(s: Seq<char>) -> (i: int)
    ensures
        0 <= i <= s.len(),
        trim_start(s) == s.skip(i),
        forall|k: int| 0 <= k < i ==> white_space(#[trigger] s[k]),
    decreases s.len(),
{
    if s.len() > 0 && white_space(s[0]) {
        let t = s.skip(1);
        let i = lemma_trim_start_cut(t);
        assert(t.skip(i) =~= s.skip(i + 1));
        assert forall|k: int| 0 <= k < i + 1 implies white_space(#[trigger] s[k]) by {
            if k > 0 {
                assert(t[k - 1] == s[k]);
            }
        }
        i + 1
    } else {
        assert(s.skip(0) =~= s);
        0
    }
}

proof fn lemma_trim_end_cut(s: Seq<char>) -> (n: int)
    ensures
        0 <= n <= s.len(),
        trim_end(s) == s.take(n),
        forall|k: int| n <= k < s.len() ==> white_space(#[trigger] s[k]),
    decreases s.len(),
{
    if s.len() > 0 && white_space(s.last()) {
        let t = s.drop_last();
        let n = lemma_trim_end_cut(t);
        assert(t.take(n) =~= s.take(n));
        assert forall|k: int| n <= k < s.len() implies white_space(#[trigger] s[k]) by {
            if k < t.len() {
                assert(t[k] == s[k]);
            }
        }
        n
    } else {
        assert(s.take(s.len() as int) =~= s);
        s.len() as int
    }
}

/// A cut loses nothing but the separator: the two parts with it between them
/// are the text, and the first part holds none.
pub proof fn law_cut_loses_nothing(s: Seq<char>, c: char)
    ensures
        match cut_at(s, c) {
            Some((a, b)) => s == a.push(c) + b && !a.contains(c),
            None => !s.contains(c),
        },
{
    lemma_index_of_char(s, c);
    let k = index_of_char(s, c);
    match cut_at(s, c) {
        Some((a, b)) => {
            assert(s =~= a.push(c) + b);
        },
        None => {},
    }
}

/// Some parts, each but the last with a separator behind it.
pub open spec fn strung(parts: Seq<Seq<char>>, c: char) -> Seq<char>
    decreases parts.len(),
{
    if parts.len() == 0 {
        Seq::empty()
    } else if parts.len() == 1 {
        parts[0]
    } else {
        parts[0].push(c) + strung(parts.skip(1), c)
    }
}

/// Splitting loses nothing but the separators: the parts strung together again
/// are the text, and no part holds one.
pub proof fn law_split_loses_nothing(s: Seq<char>, c: char)
    ensures
        parts(s, c).len() >= 1,
        strung(parts(s, c), c) == s,
        forall|i: int| 0 <= i < parts(s, c).len() ==> !(#[trigger] parts(s, c)[i]).contains(c),
    decreases s.len(),
{
    lemma_index_of_char(s, c);
    let k = index_of_char(s, c);
    let all = parts(s, c);
    if k < s.len() {
        let rest = s.skip(k + 1);
        law_split_loses_nothing(rest, c);
        let more = parts(rest, c);
        assert(all =~= seq![s.take(k)] + more);
        assert(all.skip(1) =~= more);
        assert(all[0] == s.take(k));
        assert(s.take(k).push(c) + rest =~= s);
        assert forall|i: int| 0 <= i < all.len() implies !(#[trigger] all[i]).contains(c) by {
            if i > 0 {
                assert(all[i] == more[i - 1]);
            }
        }
    } else {
        assert(all =~= seq![s]);
    }
}

/// What is behind a prefix is the rest of the text.
pub proof fn law_behind_the_prefix(s: Seq<char>, prefix: Seq<char>, rest: Seq<char>)
    ensures
        behind(s, prefix) == Some(rest) <==> s == prefix + rest,
{
    if s == prefix + rest {
        assert(s.take(prefix.len() as int) =~= prefix);
        assert(s.skip(prefix.len() as int) =~= rest);
    }
    if behind(s, prefix) == Some(rest) {
        assert(s =~= s.take(prefix.len() as int) + s.skip(prefix.len() as int));
    }
}

} // verus!
