//! Conversions between 16-bit numbers, balanced base-27 word codes and balanced
//! ternary, for words of three sips.
use vstd::prelude::*;

use crate::sips::{
    abs, char_sip, fits_i16, is_lower_code, is_sip, is_sip_text, law_code_is_canonical,
    lemma_bal_quot_smaller, lemma_bal_unique, lemma_short_text_fits, lemma_sips_of, lemma_word_code,
    sip_bound, sip_char, sip_text_fits, sip_text_value, sips_of, word_code,
};
use crate::text::{
    ascii_lower, chars_of, decimal, decimal_chars, parse_i16, parse_integer, push_chars, push_str,
    string_of,
};

verus! {

/// Number of values one sip (base-27 digit) can take.
pub const SIP_SIZE: i16 = 27;

/// Sips in one word.
pub const SIP_PER_WORD: u32 = 3;

/// Number of distinct words: `SIP_SIZE` to the power `SIP_PER_WORD`.
pub const WORD_SIZE: i16 = 19683;

/// Largest magnitude of a word; words range over `-HALF_WORD..=HALF_WORD`.
pub const HALF_WORD: i16 = 9841;

/// Words of main memory.
pub const RAM_SIZE: usize = 19683;

/// Words of storage.
pub const STO_SIZE: usize = 19683;

/// Reads one sip letter: `.` is zero, `a`..`m` are 1..13, `n`..`z` are -13..-1, and an
/// upper-case letter counts as its lower-case twin. Any other character gives `None`.
pub fn char_to_digit(c: char) -> (r: Option<i16>)
    ensures
        r is Some <==> char_sip(c) is Some,
        r matches Some(d) ==> char_sip(c) == Some(d as int),
{
    if c == '.' {
        Some(0)
    } else if 'a' <= c && c <= 'm' {
        Some((c as u32 - 'a' as u32 + 1) as i16)
    } else if 'n' <= c && c <= 'z' {
        Some((c as u32 - 'n' as u32) as i16 - SIP_SIZE / 2)
    } else if 'A' <= c && c <= 'M' {
        Some((c as u32 - 'A' as u32 + 1) as i16)
    } else if 'N' <= c && c <= 'Z' {
        Some((c as u32 - 'N' as u32) as i16 - SIP_SIZE / 2)
    } else {
        None
    }
}

/// The letter of a sip in `-13..=13`; `None` for any other number.
pub fn digit_to_char(d: i16) -> (r: Option<char>)
    ensures
        r == (if is_sip(d as int) {
            Some(sip_char(d as int))
        } else {
            None
        }),
{
    if d == 0 {
        Some('.')
    } else if 1 <= d && d <= 13 {
        Some(('a' as u8 + (d as u8) - 1) as char)
    } else if -13 <= d && d <= -1 {
        Some(('n' as u8 + (d + SIP_SIZE / 2) as u8) as char)
    } else {
        None
    }
}

/// The word code of `value`, padded with `.` on the left to `width` letters.
pub(crate) fn encode_word(value: i16, width: usize) -> (code: Vec<char>)
    ensures
        code@ == word_code(value as int, width as nat),
{
    let mut digits: Vec<i16> = Vec::new();
    let mut v = value;
    proof {
        lemma_sips_of(value as int);
    }
    while v != 0
        invariant
            sips_of(value as int) == sips_of(v as int) + digits@.map_values(|d: i16| d as int),
            forall|i: int| 0 <= i < digits.len() ==> is_sip(#[trigger] digits@[i] as int),
        decreases abs(v as int),
    {
        let mut rem = v % SIP_SIZE;
        let mut q = v / SIP_SIZE;
        if rem > SIP_SIZE / 2 {
            rem -= SIP_SIZE;
            q += 1;
        } else if rem < -SIP_SIZE / 2 {
            rem += SIP_SIZE;
            q -= 1;
        }
        proof {
            lemma_bal_unique(v as int, q as int, rem as int);
            lemma_bal_quot_smaller(v as int);
            assert(sips_of(v as int) == sips_of(q as int).push(rem as int));
        }
        let ghost before = digits@;
        digits.insert(0, rem);
        proof {
            assert(digits@.map_values(|d: i16| d as int) =~= seq![rem as int] + before.map_values(
                |d: i16| d as int,
            ));
            assert(sips_of(q as int) + digits@.map_values(|d: i16| d as int) =~= sips_of(v as int)
                + before.map_values(|d: i16| d as int));
        }
        v = q;
    }
    assert(sips_of(value as int) =~= digits@.map_values(|d: i16| d as int));
    let mut code: Vec<char> = Vec::new();
    let mut i: usize = 0;
    while i < digits.len()
        invariant
            i <= digits.len(),
            forall|j: int| 0 <= j < digits.len() ==> is_sip(#[trigger] digits@[j] as int),
            code@ == digits@.take(i as int).map_values(|d: i16| sip_char(d as int)),
        decreases digits.len() - i,
    {
        let c = match digit_to_char(digits[i]) {
            Some(c) => c,
            None => '?',
        };
        code.push(c);
        i += 1;
        assert(code@ =~= digits@.take(i as int).map_values(|d: i16| sip_char(d as int)));
    }
    let ghost letters = code@;
    assert(letters =~= sips_of(value as int).map_values(|d: int| sip_char(d)));
    while code.len() < width
        invariant
            code@.len() >= letters.len(),
            code@.len() == letters.len() || code@.len() <= width,
            code@ == Seq::new((code@.len() - letters.len()) as nat, |i: int| '.') + letters,
        decreases width - code.len(),
    {
        code.insert(0, '.');
        assert(code@ =~= Seq::new((code@.len() - letters.len()) as nat, |i: int| '.') + letters);
    }
    proof {
        if letters.len() >= width {
            assert(code@ =~= letters);
        } else {
            assert(code@ =~= Seq::new((width - letters.len()) as nat, |i: int| '.') + letters);
        }
    }
    code
}

/// The word code of `value`: its balanced base-27 sips as letters, most significant
/// first, padded with `.` on the left to three letters.
pub fn i16_to_code(value: i16) -> (code: String)
    ensures
        code@ == word_code(value as int, 3),
{
    let chars = encode_word(value, SIP_PER_WORD as usize);
    string_of(&chars)
}

/// What reading a word code gives: a text of sip letters (`.` and ASCII letters, the
/// empty text too) is read as balanced base 27, anything else as a decimal `i16`
/// literal; the number must then lie in `-half..=half`. Errors carry the message.
pub open spec fn spec_code_to_word(s: Seq<char>, half: int) -> Result<int, Seq<char>> {
    let read: Result<int, Seq<char>> = if is_sip_text(s) {
        Ok(sip_text_value(s))
    } else {
        match parse_integer(s, true, i16::MIN as int, i16::MAX as int) {
            Some(v) => Ok(v),
            None => Err("Invalid number: "@ + s),
        }
    };
    match read {
        Ok(v) => if v < -half || v > half {
            Err("Value out of word range: "@ + decimal(v))
        } else {
            Ok(v)
        },
        Err(m) => Err(m),
    }
}

/// Reading `s` as sip letters would overflow 16 bits on the way, which the 16-bit
/// arithmetic does not survive.
pub open spec fn code_overflows(s: Seq<char>) -> bool {
    is_sip_text(s) && !sip_text_fits(s)
}

proof fn lemma_sip_text_step(s: Seq<char>, k: int)
    requires
        0 <= k < s.len(),
    ensures
        sip_text_value(s.take(k + 1)) == sip_text_value(s.take(k)) * 27 + char_sip(s[k]).unwrap(),
{
    assert(s.take(k + 1).drop_last() =~= s.take(k));
}

/// Whether the letters of `token` form a sip text (`.` and ASCII letters only).
pub(crate) fn is_letter_code(token: &Vec<char>) -> (r: bool)
    ensures
        r == is_sip_text(token@),
{
    let mut i: usize = 0;
    while i < token.len()
        invariant
            i <= token.len(),
            forall|j: int| 0 <= j < i ==> (#[trigger] char_sip(token@[j])) is Some,
        decreases token.len() - i,
    {
        let c = token[i];
        if !(c == '.' || ('a' <= c && c <= 'z') || ('A' <= c && c <= 'Z')) {
            assert(char_sip(token@[i as int]) is None);
            return false;
        }
        i += 1;
    }
    true
}

/// Whether reading `token` as sip letters overflows 16 bits.
pub fn code_would_overflow(token: &str) -> (r: bool)
    ensures
        r == code_overflows(token@),
{
    let cs = chars_of(token);
    if !is_letter_code(&cs) {
        return false;
    }
    let mut value: i32 = 0;
    let mut i: usize = 0;
    while i < cs.len()
        invariant
            i <= cs.len(),
            cs@ == token@,
            is_sip_text(cs@),
            value == sip_text_value(cs@.take(i as int)),
            forall|k: int|
                0 <= k < i ==> fits_i16(#[trigger] sip_text_value(cs@.take(k)) * 27) && fits_i16(
                    sip_text_value(cs@.take(k + 1)),
                ),
            fits_i16(value as int),
        decreases cs.len() - i,
    {
        proof {
            lemma_sip_text_step(cs@, i as int);
            assert(char_sip(cs@[i as int]) is Some);
        }
        let d = match char_to_digit(cs[i]) {
            Some(d) => d,
            None => 0,
        };
        let scaled = value * 27;
        if scaled < -32768 || scaled > 32767 {
            return true;
        }
        let next = scaled + d as i32;
        if next < -32768 || next > 32767 {
            assert(!fits_i16(sip_text_value(cs@.take(i + 1))));
            return true;
        }
        value = next;
        i += 1;
    }
    false
}

/// Reads a word code: balanced base-27 letters, or else a decimal number, that must
/// lie in `-half..=half`.
pub(crate) fn decode_word(token: &str, half: i16) -> (r: Result<i16, String>)
    requires
        0 <= half,
        !code_overflows(token@),
    ensures
        r is Ok <==> spec_code_to_word(token@, half as int) is Ok,
        r matches Ok(v) ==> spec_code_to_word(token@, half as int) == Ok::<int, Seq<char>>(v as int),
        r matches Err(m) ==> spec_code_to_word(token@, half as int) == Err::<int, Seq<char>>(m@),
{
    let cs = chars_of(token);
    let mut value: i16 = 0;
    if is_letter_code(&cs) {
        let mut i: usize = 0;
        while i < cs.len()
            invariant
                i <= cs.len(),
                cs@ == token@,
                is_sip_text(cs@),
                sip_text_fits(cs@),
                value == sip_text_value(cs@.take(i as int)),
            decreases cs.len() - i,
        {
            let c = cs[i];
            proof {
                lemma_sip_text_step(cs@, i as int);
                assert(char_sip(cs@[i as int]) is Some);
            }
            let d = match char_to_digit(c) {
                Some(d) => d,
                None => {
                    let mut m: Vec<char> = Vec::new();
                    push_str(&mut m, "Invalid character: ");
                    m.push(c);
                    return Err(string_of(&m));
                },
            };
            assert(fits_i16(sip_text_value(cs@.take(i as int)) * 27));
            value = value * SIP_SIZE + d;
            i += 1;
        }
        assert(cs@.take(i as int) =~= cs@);
    } else {
        value = match parse_i16(&cs) {
            Some(v) => v,
            None => {
                let mut m: Vec<char> = Vec::new();
                push_str(&mut m, "Invalid number: ");
                push_chars(&mut m, &cs);
                return Err(string_of(&m));
            },
        };
    }
    if value < -half || value > half {
        let mut m: Vec<char> = Vec::new();
        push_str(&mut m, "Value out of word range: ");
        let digits = decimal_chars(value as i64);
        push_chars(&mut m, &digits);
        Err(string_of(&m))
    } else {
        Ok(value)
    }
}

/// Reads a word: a code of sip letters (`.` and ASCII letters) in balanced base 27, or
/// else a decimal number; either way it must lie in `-HALF_WORD..=HALF_WORD`.
pub fn code_to_i16(token: &str) -> (r: Result<i16, String>)
    requires
        !code_overflows(token@),
    ensures
        r is Ok <==> spec_code_to_word(token@, HALF_WORD as int) is Ok,
        r matches Ok(v) ==> spec_code_to_word(token@, HALF_WORD as int) == Ok::<int, Seq<char>>(v as int),
        r matches Err(m) ==> spec_code_to_word(token@, HALF_WORD as int) == Err::<int, Seq<char>>(m@),
{
    decode_word(token, HALF_WORD)
}

/// Every word survives being written as a code and read back: for `v` in
/// `-HALF_WORD..=HALF_WORD`, `i16_to_code(v)` is three letters, reading them does not
/// overflow, and `code_to_i16` gives back `v`.
pub proof fn law_code_round_trip(v: i16)
    requires
        -HALF_WORD <= v <= HALF_WORD,
    ensures
        word_code(v as int, 3).len() == 3,
        !code_overflows(word_code(v as int, 3)),
        spec_code_to_word(word_code(v as int, 3), HALF_WORD as int) == Ok::<int, Seq<char>>(v as int),
{
    assert(sip_bound(3) == 9841) by {
        assert(sip_bound(0) == 0);
        assert(sip_bound(1) == 13);
        assert(sip_bound(2) == 364);
    }
    lemma_word_code(v as int, 3);
    lemma_short_text_fits(word_code(v as int, 3));
}

/// Three-letter codes of `.` and `a`..`z` and the words correspond one to one:
/// reading such a code does not overflow and gives a word, and writing that word
/// gives back the same code.
pub proof fn law_code_one_to_one(s: Seq<char>)
    requires
        s.len() == 3,
        is_lower_code(s),
    ensures
        !code_overflows(s),
        spec_code_to_word(s, HALF_WORD as int) is Ok,
        spec_code_to_word(s, HALF_WORD as int) matches Ok(v) && word_code(v, 3) == s,
{
    law_code_is_canonical(s);
    lemma_short_text_fits(s);
    assert(sip_bound(3) == 9841) by {
        assert(sip_bound(0) == 0);
        assert(sip_bound(1) == 13);
        assert(sip_bound(2) == 364);
    }
}

// ---------------------------------------------------------------- balanced ternary

/// `3` to the power `n`.
pub open spec fn pow3(n: nat) -> int
    decreases n,
{
    if n == 0 {
        1
    } else {
        3 * pow3((n - 1) as nat)
    }
}

/// The balanced remainder of `v` modulo 3, in `-1..=1`.
pub open spec fn bal3_rem(v: int) -> int {
    let r = v % 3;
    if r == 2 {
        -1
    } else {
        r
    }
}

pub open spec fn bal3_quot(v: int) -> int {
    (v - bal3_rem(v)) / 3
}

/// The balanced ternary trits of `v`, least significant first, with no trailing zero
/// (empty for zero).
pub open spec fn trits_of_nonzero(v: int) -> Seq<int>
    decreases abs(v),
{
    if v == 0 {
        Seq::empty()
    } else {
        seq![bal3_rem(v)] + trits_of_nonzero(bal3_quot(v))
    }
}

/// The trits that `i16_to_trit` gives: those of `v`, or a single zero trit for zero.
pub open spec fn trits_of(v: int) -> Seq<int> {
    if v == 0 {
        seq![0]
    } else {
        trits_of_nonzero(v)
    }
}

/// The number that trits (least significant first) stand for.
pub open spec fn trits_value(ts: Seq<int>) -> int
    decreases ts.len(),
{
    if ts.len() == 0 {
        0
    } else {
        trits_value(ts.drop_last()) + ts.last() * pow3((ts.len() - 1) as nat)
    }
}

pub open spec fn trit_ints(ts: Seq<i8>) -> Seq<int> {
    ts.map_values(|t: i8| t as int)
}

/// Summing `t * place` in 16 bits, with `place` tripled after each trit, never leaves
/// the range of `i16`, which the 16-bit arithmetic does not survive.
pub open spec fn trits_fit(ts: Seq<int>) -> bool {
    &&& ts.len() <= 9
    &&& forall|k: int|
        0 <= k < ts.len() ==> fits_i16(#[trigger] ts[k] * pow3(k as nat)) && fits_i16(
            trits_value(ts.take(k + 1)),
        )
}

proof fn lemma_trit_quot_smaller(v: int)
    requires
        v != 0,
    ensures
        abs(bal3_quot(v)) < abs(v),
        v == 3 * bal3_quot(v) + bal3_rem(v),
        -1 <= bal3_rem(v) <= 1,
{
}

proof fn lemma_pow3_pos(n: nat)
    ensures
        pow3(n) >= 1,
    decreases n,
{
    if n > 0 {
        lemma_pow3_pos((n - 1) as nat);
    }
}

/// `trits_value` read from the most significant end.
proof fn lemma_trits_value_front(t: int, ts: Seq<int>)
    ensures
        trits_value(seq![t] + ts) == t + 3 * trits_value(ts),
    decreases ts.len(),
{
    if ts.len() == 0 {
        assert((seq![t] + ts).drop_last() =~= Seq::<int>::empty());
        assert(pow3(0) == 1);
        assert(seq![t] + ts =~= seq![t]);
        assert(seq![t].drop_last() =~= Seq::<int>::empty());
        assert(trits_value(seq![t]) == trits_value(Seq::<int>::empty()) + t * pow3(0));
        assert(trits_value(ts) == 0);
    } else {
        assert((seq![t] + ts).drop_last() =~= seq![t] + ts.drop_last());
        lemma_trits_value_front(t, ts.drop_last());
        let n = ts.len();
        let a = trits_value(ts.drop_last());
        let b = ts.last();
        let p = pow3((n - 1) as nat);
        assert(pow3(n as nat) == 3 * p);
        assert((seq![t] + ts).last() == b);
        assert(b * (3 * p) == 3 * (b * p)) by (nonlinear_arith);
        assert(trits_value(ts) == a + b * p);
        assert((seq![t] + ts).len() == n + 1);
        assert(trits_value(seq![t] + ts) == trits_value(seq![t] + ts.drop_last()) + b * pow3(n as nat));
    }
}

/// The trits of `v` add back up to `v`, and each is in `-1..=1`.
pub proof fn lemma_trits_of(v: int)
    ensures
        trits_value(trits_of_nonzero(v)) == v,
        forall|i: int|
            0 <= i < trits_of_nonzero(v).len() ==> -1 <= #[trigger] trits_of_nonzero(v)[i] <= 1,
    decreases abs(v),
{
    if v != 0 {
        lemma_trit_quot_smaller(v);
        lemma_trits_of(bal3_quot(v));
        lemma_trits_value_front(bal3_rem(v), trits_of_nonzero(bal3_quot(v)));
        let ts = trits_of_nonzero(v);
        assert forall|i: int| 0 <= i < ts.len() implies -1 <= #[trigger] ts[i] <= 1 by {
            if i > 0 {
                assert(ts[i] == trits_of_nonzero(bal3_quot(v))[i - 1]);
            }
        }
    }
}

/// The balanced ternary trits of `n`, least significant first; `[0]` for zero.
pub fn i16_to_trit(n: i16) -> (trits: Vec<i8>)
    ensures
        trit_ints(trits@) == trits_of(n as int),
{
    let mut trits: Vec<i8> = Vec::new();
    if n == 0 {
        trits.push(0);
        assert(trit_ints(trits@) =~= seq![0int]);
        return trits;
    }
    let mut m = n;
    while m != 0
        invariant
            trits_of_nonzero(n as int) == trit_ints(trits@) + trits_of_nonzero(m as int),
        decreases abs(m as int),
    {
        let mut rem = m % 3;
        m = m / 3;
        if rem == 2 {
            rem = -1;
            m += 1;
        } else if rem == -2 {
            rem = 1;
            m -= 1;
        }
        proof {
            let old_m = 3 * m + rem;
            lemma_trit_quot_smaller(old_m);
            assert(rem == bal3_rem(old_m as int));
            assert(m == bal3_quot(old_m as int));
        }
        let ghost before = trits@;
        trits.push(rem as i8);
        proof {
            assert(trit_ints(trits@) =~= trit_ints(before).push(rem as int));
            let old_m = 3 * m + rem;
            assert(trits_of_nonzero(old_m as int) == seq![rem as int] + trits_of_nonzero(m as int));
            assert(trit_ints(before) + trits_of_nonzero(old_m as int) =~= trit_ints(trits@)
                + trits_of_nonzero(m as int));
        }
    }
    assert(trit_ints(trits@) =~= trit_ints(trits@) + trits_of_nonzero(0));
    trits
}

/// The number that balanced ternary trits (least significant first) stand for.
pub fn trit_to_i16(trits: &[i8]) -> (value: i16)
    requires
        trits_fit(trit_ints(trits@)),
    ensures
        value == trits_value(trit_ints(trits@)),
{
    let ghost ts = trit_ints(trits@);
    let mut value: i16 = 0;
    let mut place: i16 = 1;
    let mut i: usize = 0;
    while i < trits.len()
        invariant
            i <= trits.len(),
            ts == trit_ints(trits@),
            trits_fit(ts),
            place == pow3(i as nat),
            value == trits_value(ts.take(i as int)),
        decreases trits.len() - i,
    {
        let t = trits[i];
        proof {
            assert(ts.take(i as int + 1).drop_last() =~= ts.take(i as int));
            assert(ts[i as int] == t as int);
            assert(fits_i16(ts[i as int] * pow3(i as nat)));
            assert(pow3((i + 1) as nat) == 3 * pow3(i as nat));
            lemma_pow3_9();
            assert(ts.len() == trits@.len());
            assert(i + 1 <= 9);
            lemma_pow3_mono((i + 1) as nat, 9);
            assert(place * 3 <= 19683);
            lemma_pow3_pos(i as nat);
        }
        value += (t as i16) * place;
        place *= 3;
        i += 1;
    }
    assert(ts.take(i as int) =~= ts);
    value
}

proof fn lemma_pow3_9()
    ensures
        pow3(8) == 6561,
        pow3(9) == 19683,
{
    assert(pow3(0) == 1);
    assert(pow3(1) == 3);
    assert(pow3(2) == 9);
    assert(pow3(3) == 27);
    assert(pow3(4) == 81);
    assert(pow3(5) == 243);
    assert(pow3(6) == 729);
    assert(pow3(7) == 2187);
    assert(pow3(8) == 6561);
}

proof fn lemma_pow3_mono(a: nat, b: nat)
    requires
        a <= b,
    ensures
        pow3(a) <= pow3(b),
    decreases b,
{
    if a < b {
        lemma_pow3_mono(a, (b - 1) as nat);
        lemma_pow3_pos((b - 1) as nat);
    }
}

/// The largest magnitude that `k` balanced trits can write: `(3^k - 1) / 2`.
pub open spec fn trit_bound(k: nat) -> int
    decreases k,
{
    if k == 0 {
        0
    } else {
        3 * trit_bound((k - 1) as nat) + 1
    }
}

proof fn lemma_trit_bound_step(k: nat)
    requires
        k >= 1,
    ensures
        trit_bound(k) == trit_bound((k - 1) as nat) + pow3((k - 1) as nat),
    decreases k,
{
    if k > 1 {
        lemma_trit_bound_step((k - 1) as nat);
    }
}

proof fn lemma_trits_len(v: int, k: nat)
    requires
        abs(v) <= trit_bound(k),
    ensures
        trits_of_nonzero(v).len() <= k,
    decreases k,
{
    if v != 0 {
        lemma_trit_quot_smaller(v);
        lemma_trits_len(bal3_quot(v), (k - 1) as nat);
    }
}

proof fn lemma_trits_value_bound(ts: Seq<int>)
    requires
        forall|i: int| 0 <= i < ts.len() ==> -1 <= #[trigger] ts[i] <= 1,
    ensures
        abs(trits_value(ts)) <= trit_bound(ts.len()),
    decreases ts.len(),
{
    if ts.len() > 0 {
        lemma_trits_value_bound(ts.drop_last());
        lemma_trit_bound_step(ts.len());
        lemma_pow3_pos((ts.len() - 1) as nat);
        let p = pow3((ts.len() - 1) as nat);
        let t = ts.last();
        assert(-p <= t * p <= p) by (nonlinear_arith)
            requires
                -1 <= t <= 1,
                p >= 1,
        ;
    }
}

/// Every word survives conversion to balanced ternary and back: for `n` in
/// `-HALF_WORD..=HALF_WORD`, `i16_to_trit(n)` is at most nine trits that
/// `trit_to_i16` sums without overflow, and the sum is `n`.
pub proof fn law_trit_round_trip(n: i16)
    requires
        -HALF_WORD <= n <= HALF_WORD,
    ensures
        trits_of(n as int).len() <= 9,
        trits_fit(trits_of(n as int)),
        trits_value(trits_of(n as int)) == n,
{
    let ts = trits_of(n as int);
    assert(trit_bound(9) == 9841) by {
        assert(trit_bound(0) == 0);
        assert(trit_bound(1) == 1);
        assert(trit_bound(2) == 4);
        assert(trit_bound(3) == 13);
        assert(trit_bound(4) == 40);
        assert(trit_bound(5) == 121);
        assert(trit_bound(6) == 364);
        assert(trit_bound(7) == 1093);
        assert(trit_bound(8) == 3280);
    }
    lemma_pow3_9();
    if n == 0 {
        assert(ts =~= seq![0int]);
        assert(ts.drop_last() =~= Seq::<int>::empty());
        assert(pow3(0) == 1);
        assert(trits_value(ts) == trits_value(Seq::<int>::empty()) + 0 * pow3(0));
        assert(trits_value(ts) == 0);
    } else {
        lemma_trits_of(n as int);
        lemma_trits_len(n as int, 9);
        assert(ts == trits_of_nonzero(n as int));
    }
    assert(trits_value(ts) == n);
    assert(forall|i: int| 0 <= i < ts.len() ==> -1 <= #[trigger] ts[i] <= 1);
    assert forall|k: int| 0 <= k < ts.len() implies fits_i16(#[trigger] ts[k] * pow3(k as nat))
        && fits_i16(trits_value(ts.take(k + 1))) by {
        lemma_pow3_mono(k as nat, 8);
        lemma_pow3_pos(k as nat);
        let p = pow3(k as nat);
        let t = ts[k];
        assert(-p <= t * p <= p) by (nonlinear_arith)
            requires
                -1 <= t <= 1,
                p >= 1,
        ;
        let pre = ts.take(k + 1);
        assert forall|i: int| 0 <= i < pre.len() implies -1 <= #[trigger] pre[i] <= 1 by {
            assert(pre[i] == ts[i]);
        }
        lemma_trits_value_bound(pre);
        lemma_trit_bound_mono((k + 1) as nat, 9);
    }
}

proof fn lemma_trit_bound_mono(a: nat, b: nat)
    requires
        a <= b,
    ensures
        trit_bound(a) <= trit_bound(b),
    decreases b,
{
    if a < b {
        lemma_trit_bound_mono(a, (b - 1) as nat);
        lemma_trit_bound_nonneg((b - 1) as nat);
    }
}

proof fn lemma_trit_bound_nonneg(k: nat)
    ensures
        trit_bound(k) >= 0,
    decreases k,
{
    if k > 0 {
        lemma_trit_bound_nonneg((k - 1) as nat);
    }
}

/// Sip letters and sips correspond: the letter of a sip reads back as that sip, and
/// reading a letter and writing the sip back gives the letter in lower case.
pub proof fn law_letter_round_trip(d: int, c: char)
    ensures
        is_sip(d) ==> char_sip(sip_char(d)) == Some(d),
        char_sip(c) matches Some(v) ==> is_sip(v) && sip_char(v) == ascii_lower(c),
{
}

/// A code is written most significant sip first: for `v` in
/// `-HALF_WORD..=HALF_WORD`, the three letters of its code are sip letters whose sips
/// `s0`, `s1`, `s2` give `v == 729 * s0 + 27 * s1 + s2`.
pub proof fn law_code_most_significant_first(v: int)
    requires
        -9841 <= v <= 9841,
    ensures
        ({
            let w = word_code(v, 3);
            &&& w.len() == 3
            &&& char_sip(w[0]) is Some && char_sip(w[1]) is Some && char_sip(w[2]) is Some
            &&& v == 729 * char_sip(w[0])->Some_0 + 27 * char_sip(w[1])->Some_0 + char_sip(
                w[2],
            )->Some_0
        }),
{
    assert(sip_bound(3) == 9841) by {
        assert(sip_bound(0) == 0);
        assert(sip_bound(1) == 13);
        assert(sip_bound(2) == 364);
    }
    lemma_word_code(v, 3);
    let w = word_code(v, 3);
    assert(char_sip(w[0]) is Some && char_sip(w[1]) is Some && char_sip(w[2]) is Some);
    let w2 = w.drop_last();
    let w1 = w2.drop_last();
    let w0 = w1.drop_last();
    assert(w0.len() == 0);
    assert(w1.last() == w[0]);
    assert(w2.last() == w[1]);
    assert(sip_text_value(w0) == 0);
    assert(sip_text_value(w1) == char_sip(w[0])->Some_0);
    assert(sip_text_value(w2) == 27 * char_sip(w[0])->Some_0 + char_sip(w[1])->Some_0);
}

/// Trits run from the least significant up: an empty run stands for zero, and a trit
/// put in front of others stands for that trit plus three times their value. The
/// trits of zero are one zero trit; the first trit of any other number is the one in
/// `-1..=1` that agrees with it modulo 3.
pub proof fn law_trits_least_first(t: int, ts: Seq<int>, v: int)
    ensures
        trits_value(Seq::empty()) == 0,
        trits_value(seq![t] + ts) == t + 3 * trits_value(ts),
        trits_of(0) == seq![0int],
        v != 0 ==> -1 <= trits_of(v)[0] <= 1 && (v - trits_of(v)[0]) % 3 == 0,
{
    lemma_trits_value_front(t, ts);
}

} // verus!
