//! What splitting, trimming and numerals amount to, stated of characters.

use crate::message;
use crate::text;
use crate::TokenId;
use vstd::prelude::*;

verus! {

// ── Whitespace ─────────────────────────────────────────────────────────────

/// Whitespace are the tab, the line breaks, the blanks and the two separators
/// of Unicode, twenty-five characters in all. No letter, digit or punctuation
/// mark of ASCII is among them.
pub proof fn whitespace_is_that_of_unicode(c: char)
    ensures
        text::is_space(c) <==> {
            ||| c == '\t' || c == '\n' || c == '\u{b}' || c == '\u{c}' || c == '\r' || c == ' '
            ||| c == '\u{85}' || c == '\u{a0}' || c == '\u{1680}'
            ||| '\u{2000}' <= c <= '\u{200a}'
            ||| c == '\u{2028}' || c == '\u{2029}' || c == '\u{202f}' || c == '\u{205f}' || c
                == '\u{3000}'
        },
        '!' <= c <= '~' ==> !text::is_space(c),
{
}

// ── Words ──────────────────────────────────────────────────────────────────

/// `b` are bounds of maximal stretches of `s` without separators, in order,
/// that leave no other character out.
spec fn stretches(s: Seq<char>, sep: spec_fn(char) -> bool, b: Seq<(int, int)>) -> bool {
    &&& forall|k: int| 0 <= k < b.len() ==> 0 <= (#[trigger] b[k]).0 < b[k].1 <= s.len()
    &&& forall|k: int, i: int|
        0 <= k < b.len() && (#[trigger] b[k]).0 <= i < b[k].1 ==> !sep(#[trigger] s[i])
    &&& forall|k: int|
        0 <= k < b.len() ==> (#[trigger] b[k]).0 == 0 || sep(s[b[k].0 - 1])
    &&& forall|k: int|
        0 <= k < b.len() ==> (#[trigger] b[k]).1 == s.len() || sep(s[b[k].1])
    &&& forall|j: int, k: int| 0 <= j < k < b.len() ==> (#[trigger] b[j]).1 < (#[trigger] b[k]).0
    &&& forall|i: int|
        0 <= i < s.len() && !sep(#[trigger] s[i]) ==> exists|k: int|
            0 <= k < b.len() && (#[trigger] b[k]).0 <= i < b[k].1
}

/// The words of the start of `s`: the finished ones, and the bounds of the one
/// that is under way.
proof fn lemma_word_stretches(s: Seq<char>) -> (r: (Seq<(int, int)>, int))
    ensures
        0 <= r.1 <= s.len(),
        r.1 == 0 || text::is_space(s[r.1 - 1]),
        text::pieces(s, text::blank()).len() > 0,
        text::pieces(s, text::blank()).last() == s.subrange(r.1, s.len() as int),
        forall|i: int| r.1 <= i < s.len() ==> !text::is_space(#[trigger] s[i]),
        stretches(s.take(r.1), |c: char| text::is_space(c), r.0),
        text::pieces(s, text::blank()).drop_last().filter(|w: Seq<char>| w.len() > 0) == Seq::new(
            r.0.len(),
            |k: int| s.subrange(r.0[k].0, r.0[k].1),
        ),
    decreases s.len(),
{
    let full = |w: Seq<char>| w.len() > 0;
    let sep = |c: char| text::is_space(c);
    let all = text::pieces(s, text::blank());
    if s.len() == 0 {
        let none = Seq::<(int, int)>::empty();
        assert(all.drop_last() =~= Seq::empty());
        assert(all.drop_last().filter(full) =~= Seq::empty());
        assert(Seq::new(none.len(), |k: int| s.subrange(none[k].0, none[k].1)) =~= Seq::empty());
        assert(s.subrange(0, 0) =~= Seq::empty());
        (none, 0)
    } else {
        let init = s.drop_last();
        let n = s.len() as int;
        let (b, from) = lemma_word_stretches(init);
        let rest = text::pieces(init, text::blank());
        let t = init.take(from);
        assert(t =~= s.take(from));
        assert(Seq::new(b.len(), |k: int| init.subrange(b[k].0, b[k].1)) =~= Seq::new(
            b.len(),
            |k: int| s.subrange(b[k].0, b[k].1),
        )) by {
            assert forall|k: int| 0 <= k < b.len() implies init.subrange(b[k].0, b[k].1)
                == s.subrange(b[k].0, b[k].1) by {
                assert(0 <= b[k].0 < b[k].1 <= t.len());
                assert(init.subrange(b[k].0, b[k].1) =~= s.subrange(b[k].0, b[k].1));
            }
        }
        if text::is_space(s.last()) {
            let cur = init.subrange(from, n - 1);
            assert(all.drop_last() =~= rest);
            assert(rest =~= rest.drop_last().push(cur));
            rest.drop_last().lemma_filter_push(cur, full);
            let u = s.take(n);
            assert(u =~= s);
            assert(s.subrange(n, n) =~= Seq::empty());
            let c = if from < n - 1 {
                b.push((from, n - 1))
            } else {
                b
            };
            assert(init.subrange(from, n - 1) =~= s.subrange(from, n - 1));
            assert(Seq::new(c.len(), |k: int| s.subrange(c[k].0, c[k].1)) =~= rest.filter(full));
            assert(stretches(u, sep, c)) by {
                assert forall|k: int| 0 <= k < c.len() implies 0 <= (#[trigger] c[k]).0 < c[k].1
                    <= u.len() && (c[k].0 == 0 || sep(u[c[k].0 - 1])) && (c[k].1 == u.len() || sep(
                    u[c[k].1],
                )) by {
                    if k < b.len() {
                        assert(c[k] == b[k]);
                        assert(0 <= b[k].0 < b[k].1 <= t.len());
                        assert(b[k].0 == 0 || sep(t[b[k].0 - 1]));
                        assert(b[k].1 == t.len() || sep(t[b[k].1]));
                        if b[k].1 < from {
                            assert(t[b[k].1] == u[b[k].1]);
                        } else {
                            assert(b[k].0 < from);
                            assert(!sep(t[from - 1]));
                        }
                    }
                }
                assert forall|k: int, i: int|
                    0 <= k < c.len() && (#[trigger] c[k]).0 <= i < c[k].1 implies !sep(
                    #[trigger] u[i],
                ) by {
                    if k < b.len() {
                        assert(c[k] == b[k]);
                        assert(0 <= b[k].0 < b[k].1 <= t.len());
                        assert(!sep(t[i]));
                    } else {
                        assert(!text::is_space(init[i]));
                    }
                }
                assert forall|j: int, k: int| 0 <= j < k < c.len() implies (#[trigger] c[j]).1 < (
                #[trigger] c[k]).0 by {
                    assert(c[j] == b[j]);
                    assert(0 <= b[j].0 < b[j].1 <= t.len());
                    if k < b.len() {
                        assert(c[k] == b[k]);
                    } else if b[j].1 == from {
                        assert(!sep(t[from - 1]));
                    }
                }
                assert forall|i: int| 0 <= i < u.len() && !sep(#[trigger] u[i]) implies exists|
                    k: int,
                | 0 <= k < c.len() && (#[trigger] c[k]).0 <= i < c[k].1 by {
                    if i < from {
                        assert(!sep(t[i]));
                        let k = choose|k: int|
                            0 <= k < b.len() && (#[trigger] b[k]).0 <= i < b[k].1;
                        assert(c[k] == b[k]);
                    } else {
                        assert(i < n - 1);
                        let k = b.len() as int;
                        assert(c[k].0 <= i < c[k].1);
                    }
                }
            }
            (c, n)
        } else {
            assert(all.drop_last() =~= rest.drop_last());
            assert(s.subrange(from, n) =~= init.subrange(from, n - 1).push(s.last()));
            assert forall|i: int| from <= i < s.len() implies !text::is_space(#[trigger] s[i]) by {
                if i < n - 1 {
                    assert(init[i] == s[i]);
                }
            }
            (b, from)
        }
    }
}

/// The words of a text are its maximal stretches without whitespace, in order:
/// none is empty or holds whitespace, each ends where whitespace or the text
/// ends, and every other character lies in one of them.
pub proof fn words_are_the_maximal_stretches(s: Seq<char>) -> (b: Seq<(int, int)>)
    ensures
        b.len() == text::words(s).len(),
        forall|k: int|
            0 <= k < b.len() ==> 0 <= (#[trigger] b[k]).0 < b[k].1 <= s.len() && text::words(s)[k]
                == s.subrange(b[k].0, b[k].1),
        forall|k: int, i: int|
            0 <= k < b.len() && (#[trigger] b[k]).0 <= i < b[k].1 ==> !text::is_space(
                #[trigger] s[i],
            ),
        forall|k: int|
            0 <= k < b.len() ==> (#[trigger] b[k]).0 == 0 || text::is_space(s[b[k].0 - 1]),
        forall|k: int|
            0 <= k < b.len() ==> (#[trigger] b[k]).1 == s.len() || text::is_space(s[b[k].1]),
        forall|j: int, k: int|
            0 <= j < k < b.len() ==> (#[trigger] b[j]).1 < (#[trigger] b[k]).0,
        forall|i: int|
            0 <= i < s.len() && !text::is_space(#[trigger] s[i]) ==> exists|k: int|
                0 <= k < b.len() && (#[trigger] b[k]).0 <= i < b[k].1,
{
    let sep = |c: char| text::is_space(c);
    // A blank at the end finishes the last word and adds none.
    let t = s.push(' ');
    whitespace_is_that_of_unicode(' ');
    let n = s.len() as int;
    let (b, from) = lemma_word_stretches(t);
    assert(t.drop_last() =~= s);
    let all = text::pieces(s, text::blank());
    assert(text::pieces(t, text::blank()) == all.push(Seq::empty()));
    assert(all.push(Seq::empty()).drop_last() =~= all);
    assert(from == n + 1) by {
        if from <= n {
            assert(!text::is_space(t[n]));
        }
    }
    let u = t.take(from);
    assert(u =~= t);
    assert forall|k: int| 0 <= k < b.len() implies 0 <= (#[trigger] b[k]).0 < b[k].1 <= s.len()
        && text::words(s)[k] == s.subrange(b[k].0, b[k].1) && (b[k].0 == 0 || text::is_space(
        s[b[k].0 - 1],
    )) && (b[k].1 == s.len() || text::is_space(s[b[k].1])) by {
        assert(0 <= b[k].0 < b[k].1 <= u.len());
        if b[k].1 == n + 1 {
            assert(b[k].0 <= n < b[k].1);
            assert(!sep(u[n]));
        }
        assert(b[k].0 == 0 || sep(u[b[k].0 - 1]));
        assert(b[k].1 == u.len() || sep(u[b[k].1]));
        assert(t.subrange(b[k].0, b[k].1) =~= s.subrange(b[k].0, b[k].1));
    }
    assert forall|k: int, i: int|
        0 <= k < b.len() && (#[trigger] b[k]).0 <= i < b[k].1 implies !text::is_space(
        #[trigger] s[i],
    ) by {
        assert(b[k].1 <= s.len());
        assert(!sep(u[i]));
    }
    assert forall|i: int| 0 <= i < s.len() && !text::is_space(#[trigger] s[i]) implies exists|
        k: int,
    | 0 <= k < b.len() && (#[trigger] b[k]).0 <= i < b[k].1 by {
        assert(!sep(u[i]));
    }
    b
}

/// No word is empty and none holds whitespace.
pub proof fn words_hold_no_whitespace(s: Seq<char>, k: int, i: int)
    requires
        0 <= k < text::words(s).len(),
    ensures
        text::words(s)[k].len() > 0,
        0 <= i < text::words(s)[k].len() ==> !text::is_space(text::words(s)[k][i]),
{
    let b = words_are_the_maximal_stretches(s);
    assert(0 <= b[k].0 < b[k].1 <= s.len());
    let w = text::words(s)[k];
    assert(w == s.subrange(b[k].0, b[k].1));
    if 0 <= i < w.len() {
        assert(w[i] == s[b[k].0 + i]);
    }
}

/// The words one after the other are the text without its whitespace: no other
/// character is lost, and none changes its place.
pub proof fn words_lose_nothing_but_whitespace(s: Seq<char>)
    ensures
        text::words(s).flatten() == s.filter(|c: char| !text::is_space(c)),
{
    lemma_pieces_flatten(s);
    lemma_flatten_full(text::pieces(s, text::blank()));
}

proof fn lemma_flatten_push<T>(a: Seq<Seq<T>>, x: Seq<T>)
    ensures
        a.push(x).flatten() == a.flatten() + x,
{
    a.push(x).lemma_flatten_and_flatten_alt_are_equivalent();
    a.lemma_flatten_and_flatten_alt_are_equivalent();
    assert(a.push(x).drop_last() =~= a);
}

proof fn lemma_flatten_full(a: Seq<Seq<char>>)
    ensures
        a.filter(|w: Seq<char>| w.len() > 0).flatten() == a.flatten(),
    decreases a.len(),
{
    let full = |w: Seq<char>| w.len() > 0;
    if a.len() == 0 {
        assert(a.filter(full) =~= a);
    } else {
        let init = a.drop_last();
        lemma_flatten_full(init);
        assert(init.push(a.last()) =~= a);
        init.lemma_filter_push(a.last(), full);
        lemma_flatten_push(init, a.last());
        if a.last().len() > 0 {
            lemma_flatten_push(init.filter(full), a.last());
        } else {
            assert(init.flatten() + a.last() =~= init.flatten());
        }
    }
}

proof fn lemma_pieces_flatten(s: Seq<char>)
    ensures
        text::pieces(s, text::blank()).len() > 0,
        text::pieces(s, text::blank()).flatten() == s.filter(|c: char| !text::is_space(c)),
    decreases s.len(),
{
    let solid = |c: char| !text::is_space(c);
    let all = text::pieces(s, text::blank());
    if s.len() == 0 {
        let none = Seq::<Seq<char>>::empty();
        assert(all =~= none.push(Seq::empty()));
        lemma_flatten_push(none, Seq::<char>::empty());
        none.lemma_flatten_and_flatten_alt_are_equivalent();
        assert(all.flatten() =~= Seq::<char>::empty());
        assert(s.filter(solid) =~= Seq::<char>::empty());
    } else {
        let init = s.drop_last();
        let rest = text::pieces(init, text::blank());
        lemma_pieces_flatten(init);
        assert(init.push(s.last()) =~= s);
        init.lemma_filter_push(s.last(), solid);
        if text::is_space(s.last()) {
            lemma_flatten_push(rest, Seq::<char>::empty());
            assert(rest.flatten() + Seq::<char>::empty() =~= rest.flatten());
        } else {
            assert(rest =~= rest.drop_last().push(rest.last()));
            lemma_flatten_push(rest.drop_last(), rest.last());
            lemma_flatten_push(rest.drop_last(), rest.last().push(s.last()));
            assert(rest.drop_last().flatten() + rest.last().push(s.last()) =~= (
            rest.drop_last().flatten() + rest.last()).push(s.last()));
        }
    }
}

/// Bounds enclose the stretch from the first to before the second.
pub proof fn bounds_enclose_their_stretch(v: Seq<char>, b: Seq<(usize, usize)>, k: int)
    requires
        0 <= k < b.len(),
    ensures
        text::spans(v, b).len() == b.len(),
        text::spans(v, b)[k] == v.subrange(b[k].0 as int, b[k].1 as int),
        text::bounds_within(b, v.len()) ==> b[k].0 <= b[k].1 <= v.len(),
{
}

// ── Trimming ───────────────────────────────────────────────────────────────

/// Trimming cuts whitespace off both ends and nothing else, and leaves none
/// there.
pub proof fn trimming_cuts_whitespace_at_the_ends(s: Seq<char>) -> (r: (int, int))
    ensures
        0 <= r.0 <= r.1 <= s.len(),
        text::trimmed(s) == s.subrange(r.0, r.1),
        forall|i: int| 0 <= i < r.0 ==> text::is_space(#[trigger] s[i]),
        forall|i: int| r.1 <= i < s.len() ==> text::is_space(#[trigger] s[i]),
        r.0 < r.1 ==> !text::is_space(s[r.0]) && !text::is_space(s[r.1 - 1]),
{
    let a = lemma_trim_start(s);
    let t = text::trim_start(s);
    let b = lemma_trim_end(t);
    assert(t =~= s.skip(a));
    assert(text::trimmed(s) =~= s.subrange(a, a + b));
    assert forall|i: int| a + b <= i < s.len() implies text::is_space(#[trigger] s[i]) by {
        assert(t[i - a] == s[i]);
    }
    if b > 0 {
        assert(t[0] == s[a]);
        assert(t[b - 1] == s[a + b - 1]);
    }
    (a, a + b)
}

proof fn lemma_trim_start(s: Seq<char>) -> (a: int)
    ensures
        0 <= a <= s.len(),
        text::trim_start(s) == s.skip(a),
        forall|i: int| 0 <= i < a ==> text::is_space(#[trigger] s[i]),
        a < s.len() ==> !text::is_space(s[a]),
    decreases s.len(),
{
    if s.len() > 0 && text::is_space(s[0]) {
        let rest = s.drop_first();
        let a = lemma_trim_start(rest);
        assert(rest.skip(a) =~= s.skip(a + 1));
        assert forall|i: int| 0 <= i < a + 1 implies text::is_space(#[trigger] s[i]) by {
            if i > 0 {
                assert(rest[i - 1] == s[i]);
            }
        }
        if a < rest.len() {
            assert(rest[a] == s[a + 1]);
        }
        a + 1
    } else {
        assert(s.skip(0) =~= s);
        0
    }
}

proof fn lemma_trim_end(s: Seq<char>) -> (b: int)
    ensures
        0 <= b <= s.len(),
        text::trim_end(s) == s.take(b),
        forall|i: int| b <= i < s.len() ==> text::is_space(#[trigger] s[i]),
        b > 0 ==> !text::is_space(s[b - 1]),
    decreases s.len(),
{
    if s.len() > 0 && text::is_space(s.last()) {
        let rest = s.drop_last();
        let b = lemma_trim_end(rest);
        assert(rest.take(b) =~= s.take(b));
        assert forall|i: int| b <= i < s.len() implies text::is_space(#[trigger] s[i]) by {
            if i < rest.len() {
                assert(rest[i] == s[i]);
            }
        }
        b
    } else {
        assert(s.take(s.len() as int) =~= s);
        s.len() as int
    }
}

// ── Comma-separated lists ──────────────────────────────────────────────────

/// A list is joined with one comma between neighbours: nothing for no part,
/// the part itself for one, and two lists side by side meet at a comma.
pub proof fn joining_puts_commas_between(a: Seq<Seq<char>>, b: Seq<Seq<char>>, p: Seq<char>)
    ensures
        text::joined(Seq::empty()) == Seq::<char>::empty(),
        text::joined(seq![p]) == p,
        a.len() > 0 && b.len() > 0 ==> text::joined(a + b) == text::joined(a) + seq![',']
            + text::joined(b),
    decreases b.len(),
{
    if a.len() > 0 && b.len() > 0 {
        let init = b.drop_last();
        assert((a + b).drop_last() =~= a + init);
        assert((a + b).last() == b.last());
        if init.len() == 0 {
            assert(a + init =~= a);
            assert(text::joined(a + b) =~= text::joined(a) + seq![','] + text::joined(b));
        } else {
            joining_puts_commas_between(a, init, p);
            assert(text::joined(a + b) =~= text::joined(a) + seq![','] + text::joined(b));
        }
    }
}

/// The fields of a text are what its commas part: there is one at least, none
/// holds a comma, and joined with commas they are the text again.
pub proof fn fields_are_what_commas_part(s: Seq<char>)
    ensures
        text::pieces(s, text::comma()).len() > 0,
        forall|i: int, k: int|
            0 <= i < text::pieces(s, text::comma()).len() && 0 <= k < text::pieces(
                s,
                text::comma(),
            )[i].len() ==> #[trigger] text::pieces(s, text::comma())[i][k] != ',',
        text::joined(text::pieces(s, text::comma())) == s,
    decreases s.len(),
{
    let all = text::pieces(s, text::comma());
    if s.len() == 0 {
        assert(all =~= seq![Seq::empty()]);
        assert(text::joined(all) =~= s);
    } else {
        let init = s.drop_last();
        let rest = text::pieces(init, text::comma());
        fields_are_what_commas_part(init);
        if s.last() == ',' {
            assert(all.drop_last() =~= rest);
            assert(text::joined(all) =~= s);
        } else {
            assert(all.drop_last() =~= rest.drop_last());
            assert(all.last() =~= rest.last().push(s.last()));
            assert(text::joined(all) =~= text::joined(rest).push(s.last()));
            assert(text::joined(all) =~= s);
        }
        assert forall|i: int, k: int| 0 <= i < all.len() && 0 <= k < all[i].len() implies
            #[trigger] all[i][k] != ',' by {
            if i < rest.len() && k < rest[i].len() {
                assert(rest[i][k] != ',');
            }
        }
    }
}

// ── Numerals ───────────────────────────────────────────────────────────────

/// So many zeros.
spec fn zeros(z: nat) -> Seq<char> {
    Seq::new(z, |k: int| '0')
}

/// A numeral is written place by place: a number below ten has its own digit,
/// and any other has the numeral of its tens, with the digit of its units
/// behind.
pub proof fn numerals_are_written_place_by_place(n: nat, d: nat)
    requires
        d < 10,
    ensures
        text::decimal(d).len() == 1,
        text::decimal(d)[0] as int == '0' as int + d,
        n > 0 ==> text::decimal(n * 10 + d) == text::decimal(n) + text::decimal(d),
{
    if n > 0 {
        let m = n * 10 + d;
        assert(m / 10 == n && m % 10 == d);
        assert(text::decimal(m) =~= text::decimal(n) + text::decimal(d));
    }
}

/// A negative number is written with a minus sign before its magnitude, and
/// any other as it is.
pub proof fn negative_numerals_carry_a_sign(n: nat)
    ensures
        text::signed_decimal(n as int) == text::decimal(n),
        n > 0 ==> text::signed_decimal(-(n as int)) == seq!['-'] + text::decimal(n),
{
}

/// A digit is one of the ten from zero to nine.
pub proof fn digits_are_ten(c: char, d: int)
    requires
        0 <= d < 10,
    ensures
        text::is_digit(c) <==> '0' <= c && c <= '9',
        text::digit(d) as int == '0' as int + d,
        text::is_digit(text::digit(d)),
{
}

proof fn lemma_numeral_padded(s: Seq<char>) -> (z: nat)
    requires
        s.len() > 0,
        forall|k: int| 0 <= k < s.len() ==> text::is_digit(#[trigger] s[k]),
    ensures
        s == zeros(z) + text::decimal(text::numeral(s)),
    decreases s.len(),
{
    let init = s.drop_last();
    let d = (s.last() as int - 48) as nat;
    assert(text::is_digit(s[s.len() - 1]));
    assert(s.last() == text::digit(d as int));
    if s.len() == 1 {
        assert(init =~= Seq::empty());
        assert(text::numeral(init) == 0);
        assert(text::numeral(s) == d);
        assert(s =~= zeros(0) + text::decimal(d));
        0
    } else {
        assert forall|k: int| 0 <= k < init.len() implies text::is_digit(#[trigger] init[k]) by {
            assert(text::is_digit(s[k]));
        }
        let z = lemma_numeral_padded(init);
        let n = text::numeral(init);
        assert(text::numeral(s) == n * 10 + d);
        numerals_are_written_place_by_place(n, d);
        assert(s.last() as int == 48 + d);
        let pad = zeros(z);
        if n > 0 {
            assert(s =~= init.push(s.last()));
            assert(text::decimal(d) =~= seq![s.last()]);
            assert(s =~= pad + text::decimal(n * 10 + d));
            z
        } else {
            assert(text::decimal(0) =~= seq!['0']);
            assert(s =~= init.push(s.last()));
            assert(text::decimal(d) =~= seq![s.last()]);
            assert(s =~= zeros(z + 1) + text::decimal(d));
            z + 1
        }
    }
}

proof fn lemma_padded_numeral(z: nat, n: nat)
    ensures
        text::numeral(zeros(z) + text::decimal(n)) == n,
        forall|k: int|
            0 <= k < z + text::decimal(n).len() ==> text::is_digit(
                #[trigger] (zeros(z) + text::decimal(n))[k],
            ),
        text::decimal(n).len() > 0,
    decreases n, z,
{
    text::lemma_decimal(n);
    let pad = zeros(z);
    let s = pad + text::decimal(n);
    assert forall|k: int| 0 <= k < s.len() implies text::is_digit(#[trigger] s[k]) by {
        if k >= z {
            assert(s[k] == text::decimal(n)[k - z]);
            assert(text::is_digit(text::decimal(n)[k - z]));
        }
    }
    if n >= 10 {
        lemma_padded_numeral(z, n / 10);
        assert(s.drop_last() =~= pad + text::decimal(n / 10));
        assert(s.last() == text::digit((n % 10) as int));
    } else {
        assert(s.drop_last() =~= pad);
        lemma_zeros(z);
    }
}

proof fn lemma_zeros(z: nat)
    ensures
        text::numeral(zeros(z)) == 0,
    decreases z,
{
    let pad = zeros(z);
    if z > 0 {
        lemma_zeros((z - 1) as nat);
        assert(pad.drop_last() =~= zeros((z - 1) as nat));
    }
}

/// A text spells a number exactly where it is the number's numeral, with zeros
/// before it or none, and a plus sign before those or none. The number has to
/// fit thirty-two bits.
pub proof fn numbers_are_spelled_by_their_numerals(s: Seq<char>, n: u32)
    ensures
        text::parsed_u32(s) == Some(n) <==> exists|pad: Seq<char>|
            (forall|k: int| 0 <= k < pad.len() ==> #[trigger] pad[k] == '0') && (s
                == #[trigger] (pad + text::decimal(n as nat)) || s == seq!['+'] + (pad
                + text::decimal(n as nat))),
{
    let d = text::unsigned_part(s);
    if text::parsed_u32(s) == Some(n) {
        let z = lemma_numeral_padded(d);
        let pad = zeros(z);
        assert(forall|k: int| 0 <= k < pad.len() ==> #[trigger] pad[k] == '0');
        assert(d == pad + text::decimal(n as nat));
        if s.len() > 0 && s[0] == '+' {
            assert(s =~= seq!['+'] + d);
        }
    }
    if exists|pad: Seq<char>|
        (forall|k: int| 0 <= k < pad.len() ==> #[trigger] pad[k] == '0') && (s == #[trigger] (pad
            + text::decimal(n as nat)) || s == seq!['+'] + (pad + text::decimal(n as nat))) {
        let pad = choose|pad: Seq<char>|
            (forall|k: int| 0 <= k < pad.len() ==> #[trigger] pad[k] == '0') && (s
                == #[trigger] (pad + text::decimal(n as nat)) || s == seq!['+'] + (pad
                + text::decimal(n as nat)));
        assert(pad =~= zeros(pad.len()));
        let plain = pad + text::decimal(n as nat);
        lemma_padded_numeral(pad.len(), n as nat);
        if s == plain {
            assert(text::is_digit(plain[0]));
            assert(d == plain);
        } else {
            assert(s[0] == '+');
            assert(d =~= plain);
        }
    }
}

/// A text spells no number where it is empty, a bare sign, or holds anything
/// but digits behind the sign.
pub proof fn other_texts_spell_nothing(s: Seq<char>, k: int)
    requires
        0 <= k < s.len(),
        !('0' <= s[k] && s[k] <= '9'),
        k > 0 || s[0] != '+',
    ensures
        text::parsed_u32(s) is None,
        text::parsed_u32(Seq::empty()) is None,
        text::parsed_u32(seq!['+']) is None,
{
    let d = text::unsigned_part(s);
    if s[0] == '+' {
        assert(d[k - 1] == s[k]);
        assert(!text::is_digit(d[k - 1]));
    } else {
        assert(!text::is_digit(d[k]));
    }
    assert(text::unsigned_part(seq!['+']) =~= Seq::empty());
}

// ── Commit messages ────────────────────────────────────────────────────────

/// A message is the word `ids`, an equals sign, and the numerals of the ids
/// with commas between them.
pub proof fn messages_list_their_ids(ids: Seq<TokenId>, more: Seq<TokenId>)
    ensures
        message::message_text(Seq::empty()) == seq!['i', 'd', 's', '='],
        ids.len() == 1 ==> message::message_text(ids) == seq!['i', 'd', 's', '='] + text::decimal(
            ids[0] as nat,
        ),
        ids.len() > 0 && more.len() > 0 ==> message::message_text(ids + more)
            == message::message_text(ids) + seq![','] + message::message_text(more).skip(4),
{
    let a = text::numerals(ids);
    let b = text::numerals(more);
    let none = Seq::<TokenId>::empty();
    joining_puts_commas_between(a, b, Seq::empty());
    assert(text::numerals(none) =~= Seq::empty());
    assert(message::message_text(none) =~= seq!['i', 'd', 's', '=']);
    if ids.len() == 1 {
        assert(a =~= seq![text::decimal(ids[0] as nat)]);
    }
    assert(text::numerals(ids + more) =~= a + b);
    assert(message::message_text(more).skip(4) =~= text::joined(b));
    if ids.len() > 0 && more.len() > 0 {
        assert(message::message_text(ids + more) =~= message::message_text(ids) + seq![',']
            + message::message_text(more).skip(4));
    }
}

/// Fields are read one by one: a blank one gives nothing, any other has to
/// spell an id once trimmed, and one that does not spoils the whole list.
pub proof fn fields_are_read_one_by_one(
    a: Seq<Seq<char>>,
    b: Seq<Seq<char>>,
    f: Seq<char>,
)
    ensures
        message::field_ids(Seq::empty()) == Some(Seq::<TokenId>::empty()),
        text::trimmed(f).len() == 0 ==> message::field_ids(seq![f]) == Some(
            Seq::<TokenId>::empty(),
        ),
        text::trimmed(f).len() > 0 ==> match text::parsed_u32(text::trimmed(f)) {
            Some(id) => message::field_ids(seq![f]) == Some(seq![id]),
            None => message::field_ids(seq![f]) is None,
        },
        message::field_ids(a) is None || message::field_ids(b) is None <==> message::field_ids(
            a + b,
        ) is None,
        message::field_ids(a + b) is Some ==> message::field_ids(a + b)->0 == message::field_ids(
            a,
        )->0 + message::field_ids(b)->0,
    decreases b.len(),
{
    let none = Seq::<Seq<char>>::empty();
    assert(message::field_ids(none) == Some(Seq::<TokenId>::empty()));
    let one = seq![f];
    assert(one.drop_last() =~= none);
    assert(one.last() == f);
    if text::trimmed(f).len() > 0 {
        if let Some(id) = text::parsed_u32(text::trimmed(f)) {
            assert(Seq::<TokenId>::empty().push(id) =~= seq![id]);
        }
    }
    if b.len() == 0 {
        assert(a + b =~= a);
        assert(b =~= none);
        if let Some(ids) = message::field_ids(a) {
            assert(ids + Seq::<TokenId>::empty() =~= ids);
        }
    } else {
        let init = b.drop_last();
        fields_are_read_one_by_one(a, init, f);
        assert((a + b).drop_last() =~= a + init);
        assert((a + b).last() == b.last());
        if message::field_ids(a + b) is Some {
            let x = message::field_ids(a)->0;
            let y = message::field_ids(init)->0;
            assert(message::field_ids(a + b)->0 =~= x + message::field_ids(b)->0);
        }
    }
}

/// A message carries ids exactly where it begins with the prefix and the
/// fields behind it spell at least one id and nothing else.
pub proof fn messages_carry_what_their_fields_spell(m: Seq<char>)
    ensures
        message::message_ids(m) is Some <==> m.len() >= 4 && m[0] == 'i' && m[1] == 'd' && m[2]
            == 's' && m[3] == '=' && (message::field_ids(
            text::pieces(m.skip(4), text::comma()),
        ) matches Some(ids) && ids.len() > 0),
        message::message_ids(m) is Some ==> message::message_ids(m) == message::field_ids(
            text::pieces(m.skip(4), text::comma()),
        ),
{
    if m.len() >= 4 {
        if m.take(4) == message::prefix() {
            assert(m.take(4)[0] == 'i' && m.take(4)[1] == 'd' && m.take(4)[2] == 's' && m.take(4)[3]
                == '=');
        }
        if m[0] == 'i' && m[1] == 'd' && m[2] == 's' && m[3] == '=' {
            assert(m.take(4) =~= message::prefix());
        }
    }
}

} // verus!
