//! Text as sequences of characters: whitespace, pieces, decimal numerals.

use vstd::prelude::*;
use vstd::string::*;

verus! {

// ── Reading characters ─────────────────────────────────────────────────────

/// The characters of `s`, in order.
pub fn chars_of(s: &str) -> (v: Vec<char>)
    ensures
        v@ == s@,
{
    let mut v: Vec<char> = Vec::new();
    for c in it: s.chars()
        invariant
            v@ == it.seq().take(it.index()),
            it.seq() == s@,
    {
        v.push(c);
        assert(it.seq().take(it.index() + 1) =~= it.seq().take(it.index()).push(c));
    }
    assert(s@.take(s@.len() as int) =~= s@);
    v
}

/// `c` has the Unicode `White_Space` property.
pub open spec fn is_space(c: char) -> bool {
    let u = c as u32;
    ||| 0x09 <= u <= 0x0D
    ||| u == 0x20
    ||| u == 0x85
    ||| u == 0xA0
    ||| u == 0x1680
    ||| 0x2000 <= u <= 0x200A
    ||| u == 0x2028
    ||| u == 0x2029
    ||| u == 0x202F
    ||| u == 0x205F
    ||| u == 0x3000
}

fn space(c: char) -> (r: bool)
    ensures
        r == is_space(c),
{
    let u = c as u32;
    (0x09 <= u && u <= 0x0D) || u == 0x20 || u == 0x85 || u == 0xA0 || u == 0x1680 || (0x2000 <= u
        && u <= 0x200A) || u == 0x2028 || u == 0x2029 || u == 0x202F || u == 0x205F || u == 0x3000
}

/// `s` without its leading whitespace.
pub open spec fn trim_start(s: Seq<char>) -> Seq<char>
    decreases s.len(),
{
    if s.len() > 0 && is_space(s[0]) {
        trim_start(s.drop_first())
    } else {
        s
    }
}

/// `s` without its trailing whitespace.
pub open spec fn trim_end(s: Seq<char>) -> Seq<char>
    decreases s.len(),
{
    if s.len() > 0 && is_space(s.last()) {
        trim_end(s.drop_last())
    } else {
        s
    }
}

/// `s` without whitespace at either end.
pub open spec fn trimmed(s: Seq<char>) -> Seq<char> {
    trim_end(trim_start(s))
}

/// The bounds of the text between `lo` and `hi` once trimmed.
pub fn trim_bounds(v: &Vec<char>, lo: usize, hi: usize) -> (r: (usize, usize))
    requires
        lo <= hi <= v@.len(),
    ensures
        lo <= r.0 <= r.1 <= hi,
        v@.subrange(r.0 as int, r.1 as int) == trimmed(v@.subrange(lo as int, hi as int)),
{
    let mut a: usize = lo;
    while a < hi && space(v[a])
        invariant
            lo <= a <= hi <= v@.len(),
            trim_start(v@.subrange(a as int, hi as int)) == trim_start(
                v@.subrange(lo as int, hi as int),
            ),
        decreases hi - a,
    {
        assert(v@.subrange(a as int, hi as int).drop_first() =~= v@.subrange(a + 1, hi as int));
        a = a + 1;
    }
    let mut b: usize = hi;
    while a < b && space(v[b - 1])
        invariant
            a <= b <= hi <= v@.len(),
            trim_end(v@.subrange(a as int, b as int)) == trim_end(
                v@.subrange(a as int, hi as int),
            ),
        decreases b,
    {
        assert(v@.subrange(a as int, b as int).drop_last() =~= v@.subrange(a as int, b - 1));
        b = b - 1;
    }
    (a, b)
}

/// `s` without whitespace at either end.
pub fn trim(s: &str) -> (r: String)
    ensures
        r@ == trimmed(s@),
{
    let v = chars_of(s);
    let (a, b) = trim_bounds(&v, 0, v.len());
    assert(v@.subrange(0, v@.len() as int) =~= v@);
    s.substring_char(a, b).to_owned()
}

// ── Pieces ─────────────────────────────────────────────────────────────────

/// The stretches of `s` between separators, empty ones too.
pub open spec fn pieces(s: Seq<char>, sep: spec_fn(char) -> bool) -> Seq<Seq<char>>
    decreases s.len(),
{
    if s.len() == 0 {
        seq![Seq::empty()]
    } else {
        let rest = pieces(s.drop_last(), sep);
        if sep(s.last()) {
            rest.push(Seq::empty())
        } else {
            rest.drop_last().push(rest.last().push(s.last()))
        }
    }
}

/// A comma.
pub open spec fn comma() -> spec_fn(char) -> bool {
    |c: char| c == ','
}

/// Whitespace.
pub open spec fn blank() -> spec_fn(char) -> bool {
    |c: char| is_space(c)
}

/// The whitespace-delimited words of `s`.
pub open spec fn words(s: Seq<char>) -> Seq<Seq<char>> {
    pieces(s, blank()).filter(|w: Seq<char>| w.len() > 0)
}

/// The stretches of `v` that the bounds `b` enclose.
pub open spec fn spans(v: Seq<char>, b: Seq<(usize, usize)>) -> Seq<Seq<char>> {
    b.map_values(|p: (usize, usize)| v.subrange(p.0 as int, p.1 as int))
}

/// Each bound lies in order and within a text of length `len`.
pub open spec fn bounds_within(b: Seq<(usize, usize)>, len: nat) -> bool {
    forall|k: int| 0 <= k < b.len() ==> (#[trigger] b[k]).0 <= b[k].1 <= len
}

/// The bounds of the pieces of `v` from `lo` on, between commas.
pub fn comma_bounds(v: &Vec<char>, lo: usize) -> (r: Vec<(usize, usize)>)
    requires
        lo <= v@.len(),
    ensures
        bounds_within(r@, v@.len()),
        spans(v@, r@) == pieces(v@.skip(lo as int), comma()),
{
    let mut done: Vec<(usize, usize)> = Vec::new();
    let mut start: usize = lo;
    let ghost s = v@.skip(lo as int);
    let len = v.len();
    assert(s.take(0) =~= Seq::<char>::empty());
    assert(v@.subrange(lo as int, lo as int) =~= Seq::empty());
    assert(spans(v@, done@).push(v@.subrange(lo as int, lo as int)) =~= seq![Seq::empty()]);
    for i in lo..len
        invariant
            lo <= start <= i,
            lo <= len == v@.len(),
            s == v@.skip(lo as int),
            bounds_within(done@, v@.len()),
            spans(v@, done@).push(v@.subrange(start as int, i as int)) == pieces(
                s.take(i - lo),
                comma(),
            ),
    {
        let ghost cur = v@.subrange(start as int, i as int);
        let ghost next = s.take(i + 1 - lo);
        let ghost done0 = done@;
        assert(next.drop_last() =~= s.take(i - lo));
        assert(next.last() == v@[i as int]);
        if v[i] == ',' {
            done.push((start, i));
            start = i + 1;
            proof {
                assert(spans(v@, done@) =~= spans(v@, done0).push(cur));
                assert(v@.subrange(start as int, i + 1) =~= Seq::empty());
            }
        } else {
            proof {
                assert(pieces(s.take(i - lo), comma()).drop_last() =~= spans(v@, done0));
                assert(v@.subrange(start as int, i + 1) =~= cur.push(v@[i as int]));
            }
        }
    }
    let ghost done0 = done@;
    done.push((start, len));
    assert(spans(v@, done@) =~= spans(v@, done0).push(v@.subrange(start as int, len as int)));
    assert(s.take(len - lo) =~= s);
    done
}

/// The bounds of the whitespace-delimited words of `v`.
pub fn word_bounds(v: &Vec<char>) -> (r: Vec<(usize, usize)>)
    ensures
        bounds_within(r@, v@.len()),
        spans(v@, r@) == words(v@),
{
    let mut done: Vec<(usize, usize)> = Vec::new();
    let mut start: usize = 0;
    let len = v.len();
    let ghost full = |w: Seq<char>| w.len() > 0;
    let ghost mut earlier: Seq<Seq<char>> = Seq::empty();
    assert(v@.take(0) =~= Seq::<char>::empty());
    assert(earlier.push(v@.subrange(0, 0)) =~= seq![Seq::empty()]);
    assert(spans(v@, done@) =~= earlier.filter(full));
    for i in 0..len
        invariant
            start <= i,
            len == v@.len(),
            full == (|w: Seq<char>| w.len() > 0),
            bounds_within(done@, v@.len()),
            spans(v@, done@) == earlier.filter(full),
            earlier.push(v@.subrange(start as int, i as int)) == pieces(
                v@.take(i as int),
                blank(),
            ),
    {
        let ghost cur = v@.subrange(start as int, i as int);
        let ghost next = v@.take(i + 1);
        let ghost done0 = done@;
        assert(next.drop_last() =~= v@.take(i as int));
        if space(v[i]) {
            proof {
                earlier.lemma_filter_push(cur, full);
                earlier = earlier.push(cur);
            }
            if start < i {
                done.push((start, i));
                assert(spans(v@, done@) =~= spans(v@, done0).push(cur));
            }
            start = i + 1;
            assert(v@.subrange(start as int, i + 1) =~= Seq::empty());
        } else {
            proof {
                assert(pieces(v@.take(i as int), blank()).drop_last() =~= earlier);
                assert(v@.subrange(start as int, i + 1) =~= cur.push(v@[i as int]));
            }
        }
    }
    let ghost done0 = done@;
    let ghost cur = v@.subrange(start as int, len as int);
    proof {
        earlier.lemma_filter_push(cur, full);
        assert(v@.take(len as int) =~= v@);
    }
    if start < len {
        done.push((start, len));
        assert(spans(v@, done@) =~= spans(v@, done0).push(cur));
    }
    done
}

// ── Decimal numerals ───────────────────────────────────────────────────────

/// The numeral of a number below ten.
pub open spec fn digit(d: int) -> char {
    (48 + d) as char
}

/// `c` is a decimal digit.
pub open spec fn is_digit(c: char) -> bool {
    '0' <= c <= '9'
}

/// The decimal numeral of `n`, without leading zeros.
pub open spec fn decimal(n: nat) -> Seq<char>
    decreases n,
{
    if n < 10 {
        seq![digit(n as int)]
    } else {
        decimal(n / 10).push(digit((n % 10) as int))
    }
}

/// The decimal numeral of `i`, with a minus sign where it is negative.
pub open spec fn signed_decimal(i: int) -> Seq<char> {
    if i < 0 {
        seq!['-'] + decimal((-i) as nat)
    } else {
        decimal(i as nat)
    }
}

/// The number that a sequence of digits denotes.
pub open spec fn numeral(s: Seq<char>) -> nat
    decreases s.len(),
{
    if s.len() == 0 {
        0
    } else {
        (numeral(s.drop_last()) * 10 + (s.last() as int - 48)) as nat
    }
}

/// `s` without a leading plus sign.
pub open spec fn unsigned_part(s: Seq<char>) -> Seq<char> {
    if s.len() > 0 && s[0] == '+' {
        s.drop_first()
    } else {
        s
    }
}

/// The `u32` that `s` spells: digits only, after an optional plus sign, and
/// in range.
pub open spec fn parsed_u32(s: Seq<char>) -> Option<u32> {
    let d = unsigned_part(s);
    if d.len() > 0 && (forall|k: int| 0 <= k < d.len() ==> is_digit(#[trigger] d[k])) && numeral(d)
        <= u32::MAX {
        Some(numeral(d) as u32)
    } else {
        None
    }
}

fn push_digit(s: &mut String, d: u64)
    requires
        d < 10,
    ensures
        final(s)@ == old(s)@.push(digit(d as int)),
{
    let t: &str = match d {
        0 => "0",
        1 => "1",
        2 => "2",
        3 => "3",
        4 => "4",
        5 => "5",
        6 => "6",
        7 => "7",
        8 => "8",
        _ => "9",
    };
    proof {
        reveal_strlit("0");
        reveal_strlit("1");
        reveal_strlit("2");
        reveal_strlit("3");
        reveal_strlit("4");
        reveal_strlit("5");
        reveal_strlit("6");
        reveal_strlit("7");
        reveal_strlit("8");
        reveal_strlit("9");
        assert(t@.len() == 1 && t@[0] == digit(d as int));
        assert(s@ + t@ =~= s@.push(digit(d as int)));
    }
    s.append(t);
}

/// Append the decimal numeral of `n`.
pub fn push_decimal(s: &mut String, n: u64)
    ensures
        final(s)@ == old(s)@ + decimal(n as nat),
    decreases n,
{
    let ghost s0 = s@;
    if n >= 10 {
        push_decimal(s, n / 10);
    }
    push_digit(s, n % 10);
    assert(s@ =~= s0 + decimal(n as nat));
}

/// Append the decimal numeral of `i`.
pub fn push_signed(s: &mut String, i: i64)
    ensures
        final(s)@ == old(s)@ + signed_decimal(i as int),
{
    let ghost s0 = s@;
    if i < 0 {
        proof {
            reveal_strlit("-");
            assert("-"@ =~= seq!['-']);
        }
        s.append("-");
        let magnitude: u64 = (-(i + 1)) as u64 + 1;
        push_decimal(s, magnitude);
        assert(s@ =~= s0 + signed_decimal(i as int));
    } else {
        push_decimal(s, i as u64);
    }
}

/// A prefix of a numeral denotes no larger number.
pub proof fn lemma_numeral_prefix(s: Seq<char>, k: int)
    requires
        0 <= k <= s.len(),
        forall|i: int| 0 <= i < s.len() ==> is_digit(#[trigger] s[i]),
    ensures
        numeral(s.take(k)) <= numeral(s),
    decreases s.len(),
{
    if k == s.len() {
        assert(s.take(k) =~= s);
    } else {
        lemma_numeral_prefix(s.drop_last(), k);
        assert(s.drop_last().take(k) =~= s.take(k));
        assert(is_digit(s[s.len() - 1]));
    }
}

/// Parse the text between `lo` and `hi` as a `u32`.
pub fn parse_u32(v: &Vec<char>, lo: usize, hi: usize) -> (r: Option<u32>)
    requires
        lo <= hi <= v@.len(),
    ensures
        r == parsed_u32(v@.subrange(lo as int, hi as int)),
{
    let ghost s = v@.subrange(lo as int, hi as int);
    let start: usize = if lo < hi && v[lo] == '+' {
        lo + 1
    } else {
        lo
    };
    let ghost d = unsigned_part(s);
    assert(d =~= v@.subrange(start as int, hi as int));
    if start == hi {
        return None;
    }
    let mut n: u64 = 0;
    assert(d.take(0) =~= Seq::<char>::empty());
    for i in start..hi
        invariant
            lo <= start < hi <= v@.len(),
            s == v@.subrange(lo as int, hi as int),
            d == v@.subrange(start as int, hi as int),
            d == unsigned_part(s),
            n <= u32::MAX,
            n == numeral(d.take(i - start)),
            forall|k: int| 0 <= k < i - start ==> is_digit(#[trigger] d[k]),
    {
        let c = v[i];
        assert(d[i - start] == c);
        if !('0' <= c && c <= '9') {
            assert(!is_digit(d[i - start]));
            return None;
        }
        assert(d.take(i + 1 - start).drop_last() =~= d.take(i - start));
        n = n * 10 + (c as u32 - 48) as u64;
        if n > u32::MAX as u64 {
            proof {
                if forall|k: int| 0 <= k < d.len() ==> is_digit(#[trigger] d[k]) {
                    lemma_numeral_prefix(d, i + 1 - start);
                }
            }
            return None;
        }
    }
    assert(d.take(hi - start) =~= d);
    Some(n as u32)
}

// ── Numerals read back ─────────────────────────────────────────────────────

/// A decimal numeral consists of digits and denotes its number.
pub proof fn lemma_decimal(n: nat)
    ensures
        decimal(n).len() > 0,
        forall|k: int| 0 <= k < decimal(n).len() ==> is_digit(#[trigger] decimal(n)[k]),
        numeral(decimal(n)) == n,
    decreases n,
{
    if n < 10 {
        assert(decimal(n).drop_last() =~= Seq::<char>::empty());
        assert(numeral(decimal(n).drop_last()) == 0);
    } else {
        lemma_decimal(n / 10);
        assert(decimal(n).drop_last() =~= decimal(n / 10));
    }
}

/// Text that neither starts nor ends with whitespace is trimmed already.
pub proof fn lemma_trimmed(s: Seq<char>)
    requires
        s.len() > 0 ==> !is_space(s[0]) && !is_space(s.last()),
    ensures
        trimmed(s) == s,
{
}

/// A decimal numeral parses back to its number.
pub proof fn lemma_decimal_parses(n: u32)
    ensures
        trimmed(decimal(n as nat)) == decimal(n as nat),
        parsed_u32(decimal(n as nat)) == Some(n),
{
    lemma_decimal(n as nat);
    let s = decimal(n as nat);
    assert(is_digit(s[0]));
    assert(is_digit(s[s.len() - 1]));
    lemma_trimmed(s);
}

// ── Comma-separated lists ──────────────────────────────────────────────────

/// `parts` in order, with a comma between neighbours.
pub open spec fn joined(parts: Seq<Seq<char>>) -> Seq<char>
    decreases parts.len(),
{
    if parts.len() == 0 {
        Seq::empty()
    } else if parts.len() == 1 {
        parts[0]
    } else {
        joined(parts.drop_last()).push(',') + parts.last()
    }
}

/// The decimal numerals of `ids`.
pub open spec fn numerals(ids: Seq<u32>) -> Seq<Seq<char>> {
    ids.map_values(|n: u32| decimal(n as nat))
}

/// Append a comma.
pub fn push_comma(s: &mut String)
    ensures
        final(s)@ == old(s)@.push(','),
{
    proof {
        reveal_strlit(",");
        assert(s@ + ","@ =~= s@.push(','));
    }
    s.append(",");
}

/// Append the decimal numerals of `ids`, separated by commas.
pub fn push_ids(s: &mut String, ids: &[u32])
    ensures
        final(s)@ == old(s)@ + joined(numerals(ids@)),
{
    let ghost s0 = s@;
    assert(s0 + joined(numerals(ids@.take(0))) =~= s0);
    for i in 0..ids.len()
        invariant
            s@ == s0 + joined(numerals(ids@.take(i as int))),
    {
        let ghost parts = numerals(ids@.take(i + 1));
        assert(parts.drop_last() =~= numerals(ids@.take(i as int)));
        if i > 0 {
            push_comma(s);
        }
        push_decimal(s, ids[i] as u64);
        assert(s@ =~= s0 + joined(parts));
    }
    assert(ids@.take(ids@.len() as int) =~= ids@);
}

proof fn lemma_pieces_nonempty(s: Seq<char>, sep: spec_fn(char) -> bool)
    ensures
        pieces(s, sep).len() > 0,
    decreases s.len(),
{
    if s.len() > 0 {
        lemma_pieces_nonempty(s.drop_last(), sep);
    }
}

proof fn lemma_pieces_extend(s: Seq<char>, t: Seq<char>, sep: spec_fn(char) -> bool)
    requires
        forall|k: int| 0 <= k < t.len() ==> !sep(#[trigger] t[k]),
    ensures
        pieces(s + t, sep) == pieces(s, sep).drop_last().push(pieces(s, sep).last() + t),
    decreases t.len(),
{
    lemma_pieces_nonempty(s, sep);
    let head = pieces(s, sep);
    if t.len() == 0 {
        assert(s + t =~= s);
        assert(head.last() + t =~= head.last());
        assert(head.drop_last().push(head.last() + t) =~= head);
    } else {
        let u = t.drop_last();
        assert forall|k: int| 0 <= k < u.len() implies !sep(#[trigger] u[k]) by {
            assert(!sep(t[k]));
        }
        lemma_pieces_extend(s, u, sep);
        assert((s + t).drop_last() =~= s + u);
        assert(!sep(t[t.len() - 1]));
        let rest = pieces(s + u, sep);
        assert(rest.drop_last() =~= head.drop_last());
        assert((head.last() + u).push(t.last()) =~= head.last() + t);
    }
}

/// Splitting a comma-joined list of comma-free parts gives back the parts.
pub proof fn lemma_split_joined(parts: Seq<Seq<char>>)
    requires
        parts.len() > 0,
        forall|i: int, k: int|
            0 <= i < parts.len() && 0 <= k < parts[i].len() ==> #[trigger] parts[i][k] != ',',
    ensures
        pieces(joined(parts), comma()) == parts,
    decreases parts.len(),
{
    let last = parts.last();
    assert forall|k: int| 0 <= k < last.len() implies !comma()(#[trigger] last[k]) by {
        assert(parts[parts.len() - 1][k] != ',');
    }
    if parts.len() == 1 {
        let none = Seq::<char>::empty();
        lemma_pieces_extend(none, last, comma());
        assert(none + last =~= last);
        assert(pieces(joined(parts), comma()) =~= parts);
    } else {
        let init = parts.drop_last();
        assert forall|i: int, k: int| 0 <= i < init.len() && 0 <= k < init[i].len() implies
            #[trigger] init[i][k] != ',' by {
            assert(parts[i][k] != ',');
        }
        lemma_split_joined(init);
        let head = joined(init).push(',');
        assert(head.drop_last() =~= joined(init));
        assert(pieces(head, comma()) == init.push(Seq::empty()));
        lemma_pieces_extend(head, last, comma());
        assert(init.push(Seq::<char>::empty()).drop_last() =~= init);
        assert(Seq::<char>::empty() + last =~= last);
        assert(parts =~= init.push(last));
    }
}

} // verus!
