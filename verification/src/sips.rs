//! Balanced base-27 numerals.
//!
//! A sip is a digit in `-13..=13`. A word is written most significant sip first, one
//! letter per sip: `.` for zero, `a`..`m` for 1..13 and `n`..`z` for -13..-1.
use vstd::prelude::*;

verus! {

/// The balanced remainder of `v` modulo 27, in `-13..=13`.
pub open spec fn bal_rem(v: int) -> int {
    let r = v % 27;
    if r > 13 {
        r - 27
    } else {
        r
    }
}

/// The quotient that goes with `bal_rem`: `v == 27 * bal_quot(v) + bal_rem(v)`.
pub open spec fn bal_quot(v: int) -> int {
    (v - bal_rem(v)) / 27
}

pub open spec fn abs(v: int) -> int {
    if v < 0 {
        -v
    } else {
        v
    }
}

/// The balanced base-27 sips of `v`, most significant first, with no leading zero
/// (empty for zero).
pub open spec fn sips_of(v: int) -> Seq<int>
    decreases abs(v),
{
    if v == 0 {
        Seq::empty()
    } else {
        proof {
            lemma_bal_quot_smaller(v);
        }
        sips_of(bal_quot(v)).push(bal_rem(v))
    }
}

/// The number that a sequence of sips (most significant first) stands for.
pub open spec fn sips_value(ds: Seq<int>) -> int
    decreases ds.len(),
{
    if ds.len() == 0 {
        0
    } else {
        sips_value(ds.drop_last()) * 27 + ds.last()
    }
}

pub open spec fn is_sip(d: int) -> bool {
    -13 <= d <= 13
}

/// The letter of a sip.
pub open spec fn sip_char(d: int) -> char {
    if d == 0 {
        '.'
    } else if d > 0 {
        (96 + d) as char
    } else {
        (123 + d) as char
    }
}

/// The value of a sip letter: `.` is zero, `a`..`m` are 1..13, `n`..`z` are -13..-1,
/// and each upper-case letter counts as its lower-case twin.
pub open spec fn char_sip(c: char) -> Option<int> {
    if c == '.' {
        Some(0)
    } else if 'a' <= c <= 'm' {
        Some(c as int - 96)
    } else if 'n' <= c <= 'z' {
        Some(c as int - 123)
    } else if 'A' <= c <= 'M' {
        Some(c as int - 64)
    } else if 'N' <= c <= 'Z' {
        Some(c as int - 91)
    } else {
        None
    }
}

/// `s` is made of sip letters only (the empty string included).
pub open spec fn is_sip_text(s: Seq<char>) -> bool {
    forall|i: int| 0 <= i < s.len() ==> (#[trigger] char_sip(s[i])) is Some
}

/// The number written by the sip letters of `s`.
pub open spec fn sip_text_value(s: Seq<char>) -> int
    decreases s.len(),
{
    if s.len() == 0 {
        0
    } else {
        sip_text_value(s.drop_last()) * 27 + char_sip(s.last()).unwrap()
    }
}

pub open spec fn fits_i16(v: int) -> bool {
    i16::MIN <= v <= i16::MAX
}

/// Reading `s` letter by letter (`value * 27 + sip` in 16 bits) never leaves
/// the range of `i16`.
pub open spec fn sip_text_fits(s: Seq<char>) -> bool {
    forall|k: int|
        0 <= k < s.len() ==> fits_i16(#[trigger] sip_text_value(s.take(k)) * 27) && fits_i16(
            sip_text_value(s.take(k + 1)),
        )
}

/// `s` preceded by as many `.` as it takes to make it `width` letters long.
pub open spec fn pad_dots(s: Seq<char>, width: nat) -> Seq<char> {
    if s.len() >= width {
        s
    } else {
        Seq::new((width - s.len()) as nat, |i: int| '.') + s
    }
}

/// The word code of `v`: its sips as letters, padded with `.` to `width` letters.
pub open spec fn word_code(v: int, width: nat) -> Seq<char> {
    pad_dots(sips_of(v).map_values(|d: int| sip_char(d)), width)
}

pub proof fn lemma_bal_rem_range(v: int)
    ensures
        is_sip(bal_rem(v)),
        v == 27 * bal_quot(v) + bal_rem(v),
        (v - bal_rem(v)) % 27 == 0,
{
}

pub proof fn lemma_bal_quot_smaller(v: int)
    requires
        v != 0,
    ensures
        abs(bal_quot(v)) < abs(v),
{
    lemma_bal_rem_range(v);
}

/// A remainder in `-13..=13` that agrees with `v` modulo 27 is the balanced remainder.
pub proof fn lemma_bal_unique(v: int, q: int, r: int)
    requires
        is_sip(r),
        v == 27 * q + r,
    ensures
        r == bal_rem(v),
        q == bal_quot(v),
{
    lemma_bal_rem_range(v);
}

/// Every element of `sips_of(v)` is a sip, and the sips add back up to `v`.
pub proof fn lemma_sips_of(v: int)
    ensures
        sips_value(sips_of(v)) == v,
        forall|i: int| 0 <= i < sips_of(v).len() ==> is_sip(#[trigger] sips_of(v)[i]),
    decreases abs(v),
{
    if v != 0 {
        lemma_bal_quot_smaller(v);
        lemma_bal_rem_range(v);
        lemma_sips_of(bal_quot(v));
        let ds = sips_of(v);
        assert(ds.drop_last() =~= sips_of(bal_quot(v)));
    }
}

/// The largest magnitude that `n` sips can write: `(27^n - 1) / 2`.
pub open spec fn sip_bound(n: nat) -> int
    decreases n,
{
    if n == 0 {
        0
    } else {
        27 * sip_bound((n - 1) as nat) + 13
    }
}

pub proof fn lemma_char_sip_of_sip_char(d: int)
    requires
        is_sip(d),
    ensures
        char_sip(sip_char(d)) == Some(d),
{
}

/// Numbers within `sip_bound(n)` have at most `n` sips.
pub proof fn lemma_sips_len(v: int, n: nat)
    requires
        abs(v) <= sip_bound(n),
    ensures
        sips_of(v).len() <= n,
    decreases n,
{
    if v != 0 {
        lemma_bal_rem_range(v);
        lemma_bal_quot_smaller(v);
        lemma_sips_len(bal_quot(v), (n - 1) as nat);
    }
}

/// Any sip text of length `n` stands for a number within `sip_bound(n)`.
pub proof fn lemma_sip_text_bound(s: Seq<char>)
    requires
        is_sip_text(s),
    ensures
        abs(sip_text_value(s)) <= sip_bound(s.len()),
    decreases s.len(),
{
    if s.len() > 0 {
        assert(is_sip_text(s.drop_last())) by {
            assert forall|i: int| 0 <= i < s.drop_last().len() implies (#[trigger] char_sip(
                s.drop_last()[i],
            )) is Some by {
                assert(s.drop_last()[i] == s[i]);
            }
        }
        assert(char_sip(s[s.len() - 1]) is Some);
        lemma_sip_text_bound(s.drop_last());
    }
}

/// The letters of a sequence of sips form a sip text that reads back as the sips' value.
pub proof fn lemma_letters_value(ds: Seq<int>)
    requires
        forall|i: int| 0 <= i < ds.len() ==> is_sip(#[trigger] ds[i]),
    ensures
        is_sip_text(ds.map_values(|d: int| sip_char(d))),
        sip_text_value(ds.map_values(|d: int| sip_char(d))) == sips_value(ds),
    decreases ds.len(),
{
    let cs = ds.map_values(|d: int| sip_char(d));
    assert forall|i: int| 0 <= i < cs.len() implies (#[trigger] char_sip(cs[i])) is Some by {
        lemma_char_sip_of_sip_char(ds[i]);
    }
    if ds.len() > 0 {
        lemma_letters_value(ds.drop_last());
        assert(cs.drop_last() =~= ds.drop_last().map_values(|d: int| sip_char(d)));
        lemma_char_sip_of_sip_char(ds.last());
    }
}

/// Leading `.` letters do not change what a sip text stands for.
pub proof fn lemma_leading_dots(k: nat, t: Seq<char>)
    ensures
        sip_text_value(Seq::new(k, |i: int| '.') + t) == sip_text_value(t),
    decreases t.len(),
{
    let dots = Seq::new(k, |i: int| '.');
    if t.len() == 0 {
        assert(dots + t =~= dots);
        lemma_dots_zero(k);
    } else {
        assert((dots + t).drop_last() =~= dots + t.drop_last());
        lemma_leading_dots(k, t.drop_last());
    }
}

proof fn lemma_dots_zero(k: nat)
    ensures
        sip_text_value(Seq::new(k, |i: int| '.')) == 0,
    decreases k,
{
    if k > 0 {
        assert(Seq::new(k, |i: int| '.').drop_last() =~= Seq::new((k - 1) as nat, |i: int| '.'));
        lemma_dots_zero((k - 1) as nat);
    }
}

proof fn lemma_prefix_is_sip_text(s: Seq<char>, k: int)
    requires
        is_sip_text(s),
        0 <= k <= s.len(),
    ensures
        is_sip_text(s.take(k)),
{
    assert forall|i: int| 0 <= i < s.take(k).len() implies (#[trigger] char_sip(
        s.take(k)[i],
    )) is Some by {
        assert(s.take(k)[i] == s[i]);
    }
}

/// A sip text of at most three letters is read without leaving 16 bits.
pub proof fn lemma_short_text_fits(s: Seq<char>)
    requires
        is_sip_text(s),
        s.len() <= 3,
    ensures
        sip_text_fits(s),
{
    assert(sip_bound(0) == 0);
    assert(sip_bound(1) == 13);
    assert(sip_bound(2) == 364);
    assert(sip_bound(3) == 9841);
    assert forall|k: int| 0 <= k < s.len() implies fits_i16(
        #[trigger] sip_text_value(s.take(k)) * 27,
    ) && fits_i16(sip_text_value(s.take(k + 1))) by {
        lemma_prefix_is_sip_text(s, k);
        lemma_prefix_is_sip_text(s, k + 1);
        lemma_sip_text_bound(s.take(k));
        lemma_sip_text_bound(s.take(k + 1));
        assert(s.take(k).len() == k);
        assert(s.take(k + 1).len() == k + 1);
    }
}

/// For a number that `width` sips can write, the word code is a sip text of exactly
/// `width` letters that stands for the number.
pub proof fn lemma_word_code(v: int, width: nat)
    requires
        abs(v) <= sip_bound(width),
    ensures
        word_code(v, width).len() == width,
        is_sip_text(word_code(v, width)),
        sip_text_value(word_code(v, width)) == v,
{
    lemma_sips_len(v, width);
    lemma_sips_of(v);
    let ds = sips_of(v);
    lemma_letters_value(ds);
    let letters = ds.map_values(|d: int| sip_char(d));
    let k = (width - letters.len()) as nat;
    let dots = Seq::new(k, |i: int| '.');
    if letters.len() < width {
        assert(word_code(v, width) == dots + letters);
        lemma_leading_dots(k, letters);
        assert forall|i: int| 0 <= i < (dots + letters).len() implies (#[trigger] char_sip(
            (dots + letters)[i],
        )) is Some by {
            if i >= k {
                assert((dots + letters)[i] == letters[i - k]);
            }
        }
    }
}

/// A text of `.` and lower-case letters.
pub open spec fn is_lower_code(s: Seq<char>) -> bool {
    forall|i: int| 0 <= i < s.len() ==> (s[i] == '.' || 'a' <= #[trigger] s[i] <= 'z')
}

/// The sips of a text of sip letters.
pub open spec fn text_digits(s: Seq<char>) -> Seq<int> {
    s.map_values(|c: char| char_sip(c).unwrap())
}

proof fn lemma_text_digits_value(s: Seq<char>)
    ensures
        sips_value(text_digits(s)) == sip_text_value(s),
    decreases s.len(),
{
    if s.len() > 0 {
        lemma_text_digits_value(s.drop_last());
        assert(text_digits(s).drop_last() =~= text_digits(s.drop_last()));
    }
}

/// Sips with no leading zero: their value is not zero, unless there are none.
proof fn lemma_canonical_nonzero(ds: Seq<int>)
    requires
        ds.len() > 0,
        ds[0] != 0,
        forall|i: int| 0 <= i < ds.len() ==> is_sip(#[trigger] ds[i]),
    ensures
        sips_value(ds) != 0,
    decreases ds.len(),
{
    if ds.len() > 1 {
        let pre = ds.drop_last();
        assert(pre[0] == ds[0]);
        assert forall|i: int| 0 <= i < pre.len() implies is_sip(#[trigger] pre[i]) by {
            assert(pre[i] == ds[i]);
        }
        lemma_canonical_nonzero(pre);
        assert(is_sip(ds.last()));
    }
}

/// Sips with no leading zero are the sips of their value.
proof fn lemma_canonical_sips(ds: Seq<int>)
    requires
        ds.len() == 0 || ds[0] != 0,
        forall|i: int| 0 <= i < ds.len() ==> is_sip(#[trigger] ds[i]),
    ensures
        sips_of(sips_value(ds)) == ds,
    decreases ds.len(),
{
    if ds.len() > 0 {
        let pre = ds.drop_last();
        assert forall|i: int| 0 <= i < pre.len() implies is_sip(#[trigger] pre[i]) by {
            assert(pre[i] == ds[i]);
        }
        if pre.len() > 0 {
            assert(pre[0] == ds[0]);
        }
        lemma_canonical_sips(pre);
        lemma_canonical_nonzero(ds);
        let v = sips_value(ds);
        assert(is_sip(ds.last()));
        lemma_bal_unique(v, sips_value(pre), ds.last());
        assert(pre.push(ds.last()) =~= ds);
    } else {
        assert(sips_of(0) =~= ds);
    }
}

/// Number of leading `.` letters.
pub open spec fn leading_dots(s: Seq<char>) -> nat
    decreases s.len(),
{
    if s.len() > 0 && s[0] == '.' {
        1 + leading_dots(s.drop_first())
    } else {
        0
    }
}

proof fn lemma_leading_dots_split(s: Seq<char>)
    ensures
        leading_dots(s) <= s.len(),
        s.take(leading_dots(s) as int) == Seq::new(leading_dots(s), |i: int| '.'),
        leading_dots(s) < s.len() ==> s[leading_dots(s) as int] != '.',
    decreases s.len(),
{
    if s.len() > 0 && s[0] == '.' {
        lemma_leading_dots_split(s.drop_first());
        let k = leading_dots(s);
        assert(s.take(k as int) =~= Seq::new(k, |i: int| '.')) by {
            assert forall|i: int| 0 <= i < k implies s.take(k as int)[i] == '.' by {
                if i > 0 {
                    assert(s.take(k as int)[i] == s.drop_first().take((k - 1) as int)[i - 1]);
                }
            }
        }
        if k < s.len() {
            assert(s[k as int] == s.drop_first()[k - 1]);
        }
    } else {
        assert(s.take(0) =~= Seq::new(0, |i: int| '.'));
    }
}

/// Every text of three letters, each `.` or `a`..`z`, is the word code of the word it
/// reads as, and that word lies within the words: the three-letter codes and the
/// words correspond one to one.
pub proof fn law_code_is_canonical(s: Seq<char>)
    requires
        s.len() == 3,
        is_lower_code(s),
    ensures
        is_sip_text(s),
        abs(sip_text_value(s)) <= sip_bound(3),
        word_code(sip_text_value(s), 3) == s,
{
    assert(is_sip_text(s)) by {
        assert forall|i: int| 0 <= i < s.len() implies (#[trigger] char_sip(s[i])) is Some by {
            assert(s[i] == '.' || 'a' <= s[i] <= 'z');
        }
    }
    lemma_sip_text_bound(s);
    lemma_leading_dots_split(s);
    let k = leading_dots(s);
    let t = s.skip(k as int);
    assert(s =~= Seq::new(k, |i: int| '.') + t);
    lemma_leading_dots(k, t);
    lemma_text_digits_value(t);
    let ds = text_digits(t);
    assert forall|i: int| 0 <= i < ds.len() implies is_sip(#[trigger] ds[i]) by {
        assert(t[i] == s[i + k]);
        assert(char_sip(s[i + k]) is Some);
    }
    if ds.len() > 0 {
        assert(t[0] == s[k as int]);
    }
    lemma_canonical_sips(ds);
    assert(sips_of(sip_text_value(s)) == ds);
    assert(ds.map_values(|d: int| sip_char(d)) =~= t) by {
        assert forall|i: int| 0 <= i < t.len() implies #[trigger] sip_char(ds[i]) == t[i] by {
            assert(t[i] == s[i + k]);
            assert(s[i + k] == '.' || 'a' <= s[i + k] <= 'z');
        }
    }
    if t.len() < 3 {
        assert(word_code(sip_text_value(s), 3) =~= Seq::new((3 - t.len()) as nat, |i: int| '.') + t);
    }
}

} // verus!
