//! Characters and text: the views of `str`/`String` as `Seq<char>`, decimal numerals,
//! white space, words, lines and integer literals.
use vstd::prelude::*;

verus! {

/// The characters of `s`, one per element.
pub fn chars_of(s: &str) -> (v: Vec<char>)
    ensures
        v@ == s@,
{
    let mut v: Vec<char> = Vec::new();
    for c in it: s.chars()
        invariant
            v@ == it.seq().take(it.index()),
            it.seq() == s@,
    {
        v.push(c);
    }
    v
}

/// Collects characters into a `String` (std's `FromIterator<char> for String`):
/// the string holds exactly these characters, in this order.
#[verifier::external_body]
pub(crate) fn string_of(chars: &Vec<char>) -> (s: String)
    ensures
        s@ == chars@,
{
    chars.iter().collect()
}

/// The characters of a literal or other `str`, appended to `out`.
pub fn push_str(out: &mut Vec<char>, s: &str)
    ensures
        final(out)@ == old(out)@ + s@,
{
    let cs = chars_of(s);
    let mut i: usize = 0;
    while i < cs.len()
        invariant
            i <= cs.len(),
            cs@ == s@,
            out@ == old(out)@ + cs@.take(i as int),
        decreases cs.len() - i,
    {
        out.push(cs[i]);
        i += 1;
        assert(cs@.take(i as int) =~= cs@.take((i - 1) as int).push(cs@[i - 1]));
    }
    assert(cs@.take(i as int) =~= cs@);
}

/// A `String` holding the characters of `text`.
pub fn literal(text: &str) -> (s: String)
    ensures
        s@ == text@,
{
    let mut cs: Vec<char> = Vec::new();
    push_str(&mut cs, text);
    string_of(&cs)
}

/// A `String` holding `prefix` followed by `rest`.
pub fn prefixed(prefix: &str, rest: &Vec<char>) -> (s: String)
    ensures
        s@ == prefix@ + rest@,
{
    let mut cs: Vec<char> = Vec::new();
    push_str(&mut cs, prefix);
    push_chars(&mut cs, rest);
    string_of(&cs)
}

/// Appends the characters of `src` to `out`.
pub fn push_chars(out: &mut Vec<char>, src: &Vec<char>)
    ensures
        final(out)@ == old(out)@ + src@,
{
    let mut i: usize = 0;
    while i < src.len()
        invariant
            i <= src.len(),
            out@ == old(out)@ + src@.take(i as int),
        decreases src.len() - i,
    {
        out.push(src[i]);
        i += 1;
        assert(src@.take(i as int) =~= src@.take((i - 1) as int).push(src@[i - 1]));
    }
    assert(src@.take(i as int) =~= src@);
}

/// Two character vectors hold the same text.
pub fn chars_eq(a: &Vec<char>, b: &Vec<char>) -> (r: bool)
    ensures
        r == (a@ == b@),
{
    if a.len() != b.len() {
        return false;
    }
    let mut i: usize = 0;
    while i < a.len()
        invariant
            i <= a.len() == b.len(),
            forall|j: int| 0 <= j < i ==> a@[j] == b@[j],
        decreases a.len() - i,
    {
        if a[i] != b[i] {
            return false;
        }
        i += 1;
    }
    assert(a@ =~= b@);
    true
}

/// A vector holds the same text as a `str`.
pub fn chars_eq_str(a: &Vec<char>, b: &str) -> (r: bool)
    ensures
        r == (a@ == b@),
{
    let bs = chars_of(b);
    chars_eq(a, &bs)
}

// ---------------------------------------------------------------- decimal numerals

pub open spec fn digit_char(d: int) -> char {
    (48 + d) as char
}

/// The decimal numeral of a natural number, without leading zeros.
pub open spec fn nat_decimal(n: nat) -> Seq<char>
    decreases n,
{
    if n < 10 {
        seq![digit_char(n as int)]
    } else {
        nat_decimal(n / 10).push(digit_char((n % 10) as int))
    }
}

/// The decimal numeral of an integer, as `{}` prints it: a `-` for negative numbers.
pub open spec fn decimal(v: int) -> Seq<char> {
    if v < 0 {
        seq!['-'] + nat_decimal((-v) as nat)
    } else {
        nat_decimal(v as nat)
    }
}

/// The decimal numeral of `v`.
pub fn decimal_chars(v: i64) -> (r: Vec<char>)
    requires
        v > i64::MIN,
    ensures
        r@ == decimal(v as int),
{
    let mut n: u64 = if v < 0 {
        (-v) as u64
    } else {
        v as u64
    };
    let ghost whole: nat = n as nat;
    let mut digits: Vec<char> = Vec::new();
    while n >= 10
        invariant
            nat_decimal(whole) == nat_decimal(n as nat) + digits@,
        decreases n,
    {
        let d = n % 10;
        assert(nat_decimal(n as nat) == nat_decimal((n / 10) as nat).push(digit_char(d as int)));
        digits.insert(0, char_of_digit(d));
        n = n / 10;
    }
    let mut r: Vec<char> = Vec::new();
    if v < 0 {
        r.push('-');
    }
    r.push(char_of_digit(n));
    assert(nat_decimal(n as nat) == seq![digit_char(n as int)]);
    push_chars(&mut r, &digits);
    assert(v < 0 ==> r@ =~= seq!['-'] + nat_decimal(whole));
    assert(v >= 0 ==> r@ =~= nat_decimal(whole));
    r
}

fn char_of_digit(d: u64) -> (c: char)
    requires
        d < 10,
    ensures
        c == digit_char(d as int),
{
    if d == 0 {
        '0'
    } else if d == 1 {
        '1'
    } else if d == 2 {
        '2'
    } else if d == 3 {
        '3'
    } else if d == 4 {
        '4'
    } else if d == 5 {
        '5'
    } else if d == 6 {
        '6'
    } else if d == 7 {
        '7'
    } else if d == 8 {
        '8'
    } else {
        '9'
    }
}

/// The texts held by a sequence of character vectors.
pub open spec fn texts(v: Seq<Vec<char>>) -> Seq<Seq<char>> {
    v.map_values(|w: Vec<char>| w@)
}

// ---------------------------------------------------------------- white space

/// Unicode `White_Space`, the property that `char::is_whitespace` tests.
pub open spec fn is_white(c: char) -> bool {
    let u = c as int;
    ||| 9 <= u <= 13
    ||| u == 0x20
    ||| u == 0x85
    ||| u == 0xA0
    ||| u == 0x1680
    ||| 0x2000 <= u <= 0x200A
    ||| u == 0x2028
    ||| u == 0x2029
    ||| u == 0x202F
    ||| u == 0x205F
    ||| u == 0x3000
}

pub fn is_whitespace(c: char) -> (r: bool)
    ensures
        r == is_white(c),
{
    let u = c as u32;
    (9 <= u && u <= 13) || u == 0x20 || u == 0x85 || u == 0xA0 || u == 0x1680 || (0x2000 <= u && u
        <= 0x200A) || u == 0x2028 || u == 0x2029 || u == 0x202F || u == 0x205F || u == 0x3000
}

/// Reading `s` from the left for `split_whitespace`: the words already closed, and the
/// word still being read.
pub open spec fn words_state(s: Seq<char>) -> (Seq<Seq<char>>, Seq<char>)
    decreases s.len(),
{
    if s.len() == 0 {
        (Seq::empty(), Seq::empty())
    } else {
        let (done, cur) = words_state(s.drop_last());
        let c = s.last();
        if is_white(c) {
            if cur.len() > 0 {
                (done.push(cur), Seq::empty())
            } else {
                (done, cur)
            }
        } else {
            (done, cur.push(c))
        }
    }
}

/// The maximal runs of non-white characters of `s`, in order (`str::split_whitespace`).
pub open spec fn words(s: Seq<char>) -> Seq<Seq<char>> {
    let (done, cur) = words_state(s);
    if cur.len() > 0 {
        done.push(cur)
    } else {
        done
    }
}

/// The words of `s`.
pub fn split_words(s: &Vec<char>) -> (r: Vec<Vec<char>>)
    ensures
        texts(r@) == words(s@),
{
    let mut done: Vec<Vec<char>> = Vec::new();
    let mut cur: Vec<char> = Vec::new();
    let mut i: usize = 0;
    while i < s.len()
        invariant
            i <= s.len(),
            (texts(done@), cur@) == words_state(s@.take(i as int)),
        decreases s.len() - i,
    {
        let c = s[i];
        assert(s@.take(i as int + 1).drop_last() =~= s@.take(i as int));
        if is_whitespace(c) {
            if cur.len() > 0 {
                let w = cur;
                let ghost before = done@;
                done.push(w);
                cur = Vec::new();
                assert(texts(done@) =~= texts(before).push(w@));
            }
        } else {
            cur.push(c);
        }
        i += 1;
    }
    assert(s@.take(i as int) =~= s@);
    if cur.len() > 0 {
        let w = cur;
        let ghost before = done@;
        done.push(w);
        assert(texts(done@) =~= texts(before).push(w@));
    }
    done
}

proof fn lemma_words_state_nonempty(s: Seq<char>)
    ensures
        forall|i: int| 0 <= i < words_state(s).0.len() ==> (#[trigger] words_state(s).0[i]).len() > 0,
    decreases s.len(),
{
    if s.len() > 0 {
        lemma_words_state_nonempty(s.drop_last());
        let (done, cur) = words_state(s.drop_last());
        let c = s.last();
        if is_white(c) && cur.len() > 0 {
            assert forall|i: int| 0 <= i < done.push(cur).len() implies (#[trigger] done.push(cur)[i]).len()
                > 0 by {
                if i < done.len() {
                    assert(done.push(cur)[i] == done[i]);
                }
            }
        }
    }
}

/// Every word is at least one character long.
pub proof fn lemma_words_nonempty(s: Seq<char>)
    ensures
        forall|i: int| 0 <= i < words(s).len() ==> (#[trigger] words(s)[i]).len() > 0,
{
    lemma_words_state_nonempty(s);
    let (done, cur) = words_state(s);
    if cur.len() > 0 {
        assert forall|i: int| 0 <= i < done.push(cur).len() implies (#[trigger] done.push(cur)[i]).len()
            > 0 by {
            if i < done.len() {
                assert(done.push(cur)[i] == done[i]);
            }
        }
    }
}

/// `s` without its leading white space.
pub open spec fn trim_start(s: Seq<char>) -> Seq<char>
    decreases s.len(),
{
    if s.len() > 0 && is_white(s[0]) {
        trim_start(s.drop_first())
    } else {
        s
    }
}

/// `s` without its trailing white space.
pub open spec fn trim_end(s: Seq<char>) -> Seq<char>
    decreases s.len(),
{
    if s.len() > 0 && is_white(s.last()) {
        trim_end(s.drop_last())
    } else {
        s
    }
}

/// `s` without white space at either end (`str::trim`).
pub open spec fn trim(s: Seq<char>) -> Seq<char> {
    trim_end(trim_start(s))
}

/// `s` without white space at either end.
pub fn trimmed(s: &Vec<char>) -> (r: Vec<char>)
    ensures
        r@ == trim(s@),
{
    let mut lo: usize = 0;
    assert(s@.skip(0) =~= s@);
    while lo < s.len() && is_whitespace(s[lo])
        invariant
            lo <= s.len(),
            trim_start(s@) == trim_start(s@.skip(lo as int)),
        decreases s.len() - lo,
    {
        assert(s@.skip(lo as int + 1) =~= s@.skip(lo as int).drop_first());
        lo += 1;
    }
    let mut hi: usize = s.len();
    let ghost t = s@.skip(lo as int);
    while hi > lo && is_whitespace(s[hi - 1])
        invariant
            lo <= hi <= s.len(),
            t == s@.skip(lo as int),
            trim_end(t) == trim_end(s@.subrange(lo as int, hi as int)),
        decreases hi,
    {
        assert(s@.subrange(lo as int, hi as int - 1) =~= s@.subrange(lo as int, hi as int).drop_last());
        hi -= 1;
    }
    assert(s@.skip(lo as int) =~= t);
    let mut r: Vec<char> = Vec::new();
    let mut k: usize = lo;
    while k < hi
        invariant
            lo <= k <= hi <= s.len(),
            r@ == s@.subrange(lo as int, k as int),
        decreases hi - k,
    {
        r.push(s[k]);
        k += 1;
        assert(r@ =~= s@.subrange(lo as int, k as int));
    }
    proof {
        if lo < s.len() {
            assert(!is_white(t[0]));
        }
        assert(trim_start(s@) == t);
        if hi > lo {
            assert(s@.subrange(lo as int, hi as int).last() == s@[hi - 1]);
        }
    }
    r
}

// ---------------------------------------------------------------- lines

/// A line without the `\r` of a `\r\n` ending.
pub open spec fn strip_cr(line: Seq<char>) -> Seq<char> {
    if line.len() > 0 && line.last() == '\r' {
        line.drop_last()
    } else {
        line
    }
}

/// Reading `s` from the left for `str::lines`: the lines already ended by `\n`, and
/// the line still being read.
pub open spec fn lines_state(s: Seq<char>) -> (Seq<Seq<char>>, Seq<char>)
    decreases s.len(),
{
    if s.len() == 0 {
        (Seq::empty(), Seq::empty())
    } else {
        let (done, cur) = lines_state(s.drop_last());
        let c = s.last();
        if c == '\n' {
            (done.push(strip_cr(cur)), Seq::empty())
        } else {
            (done, cur.push(c))
        }
    }
}

/// The lines of `s` as `str::lines` gives them: split at `\n`, a `\r` before the
/// `\n` dropped, and no empty last line after a final `\n`.
pub open spec fn lines(s: Seq<char>) -> Seq<Seq<char>> {
    let (done, cur) = lines_state(s);
    if cur.len() > 0 {
        done.push(cur)
    } else {
        done
    }
}

/// The lines of `s`.
pub fn split_lines(s: &Vec<char>) -> (r: Vec<Vec<char>>)
    ensures
        texts(r@) == lines(s@),
{
    let mut done: Vec<Vec<char>> = Vec::new();
    let mut cur: Vec<char> = Vec::new();
    let mut i: usize = 0;
    while i < s.len()
        invariant
            i <= s.len(),
            (texts(done@), cur@) == lines_state(s@.take(i as int)),
        decreases s.len() - i,
    {
        let c = s[i];
        assert(s@.take(i as int + 1).drop_last() =~= s@.take(i as int));
        if c == '\n' {
            if cur.len() > 0 && cur[cur.len() - 1] == '\r' {
                cur.pop();
            }
            let w = cur;
            let ghost before = done@;
            done.push(w);
            cur = Vec::new();
            assert(texts(done@) =~= texts(before).push(w@));
        } else {
            cur.push(c);
        }
        i += 1;
    }
    assert(s@.take(i as int) =~= s@);
    if cur.len() > 0 {
        let w = cur;
        let ghost before = done@;
        done.push(w);
        assert(texts(done@) =~= texts(before).push(w@));
    }
    done
}

// ---------------------------------------------------------------- letters

pub open spec fn ascii_lower(c: char) -> char {
    if 'A' <= c <= 'Z' {
        ((c as int) + 32) as char
    } else {
        c
    }
}

pub open spec fn is_ascii_char(c: char) -> bool {
    (c as int) < 128
}

/// `str::eq_ignore_ascii_case`.
pub open spec fn eq_ignore_ascii_case(a: Seq<char>, b: Seq<char>) -> bool {
    &&& a.len() == b.len()
    &&& forall|i: int| 0 <= i < a.len() ==> ascii_lower(#[trigger] a[i]) == ascii_lower(b[i])
}

fn to_ascii_lower(c: char) -> (r: char)
    ensures
        r == ascii_lower(c),
{
    if 'A' <= c && c <= 'Z' {
        ((c as u8) + 32) as char
    } else {
        c
    }
}

/// Whether `a` and `b` are equal but for ASCII case.
pub fn eq_ascii_case(a: &Vec<char>, b: &str) -> (r: bool)
    ensures
        r == eq_ignore_ascii_case(a@, b@),
{
    let bs = chars_of(b);
    if a.len() != bs.len() {
        return false;
    }
    let mut i: usize = 0;
    while i < a.len()
        invariant
            i <= a.len() == bs.len(),
            bs@ == b@,
            forall|j: int| 0 <= j < i ==> ascii_lower(#[trigger] a@[j]) == ascii_lower(bs@[j]),
        decreases a.len() - i,
    {
        if to_ascii_lower(a[i]) != to_ascii_lower(bs[i]) {
            return false;
        }
        i += 1;
    }
    true
}

/// What `str::to_lowercase` gives for a text that is not all ASCII: the Unicode
/// lower-case mapping.
pub uninterp spec fn lowercase(s: Seq<char>) -> Seq<char>;

pub open spec fn is_ascii_text(s: Seq<char>) -> bool {
    forall|i: int| 0 <= i < s.len() ==> is_ascii_char(#[trigger] s[i])
}

/// The lower-case form of a text: ASCII text has `A`..`Z` mapped to `a`..`z` and
/// every other character kept; other text as the Unicode mapping gives it.
pub open spec fn lower_text(s: Seq<char>) -> Seq<char> {
    if is_ascii_text(s) {
        s.map_values(|c: char| ascii_lower(c))
    } else {
        lowercase(s)
    }
}

/// `str::to_lowercase`. On ASCII text, whose Unicode lower-case mapping is ASCII's,
/// the result maps `A`..`Z` to `a`..`z` and keeps every other character; on other
/// text it is `lowercase` of the argument, which is left unstated.
#[verifier::external_body]
pub(crate) fn to_lowercase(s: &str) -> (r: String)
    ensures
        r@ == (if (forall|i: int| 0 <= i < s@.len() ==> is_ascii_char(#[trigger] s@[i])) {
            s@.map_values(|c: char| ascii_lower(c))
        } else {
            lowercase(s@)
        }),
{
    s.to_lowercase()
}

/// The lower-case form of a text.
pub fn lowercase_chars(s: &Vec<char>) -> (r: Vec<char>)
    ensures
        r@ == lower_text(s@),
{
    let st = string_of(s);
    let low = to_lowercase(st.as_str());
    chars_of(low.as_str())
}

// ---------------------------------------------------------------- integers

pub open spec fn is_digit(c: char) -> bool {
    '0' <= c <= '9'
}

pub open spec fn all_digits(s: Seq<char>) -> bool {
    forall|i: int| 0 <= i < s.len() ==> is_digit(#[trigger] s[i])
}

/// The number written by the decimal digits `s`.
pub open spec fn digits_value(s: Seq<char>) -> int
    decreases s.len(),
{
    if s.len() == 0 {
        0
    } else {
        digits_value(s.drop_last()) * 10 + (s.last() as int - 48)
    }
}

/// The integer that `FromStr` reads from `s`, before its range is checked: one or more
/// ASCII digits after an optional `+` (or `-` where `signed`). `None` where the syntax
/// is wrong.
pub open spec fn integer_literal(s: Seq<char>, signed: bool) -> Option<int> {
    if s.len() > 0 && (s[0] == '+' || (signed && s[0] == '-')) {
        let body = s.drop_first();
        if body.len() > 0 && all_digits(body) {
            Some(
                if s[0] == '-' {
                    -digits_value(body)
                } else {
                    digits_value(body)
                },
            )
        } else {
            None
        }
    } else if s.len() > 0 && all_digits(s) {
        Some(digits_value(s))
    } else {
        None
    }
}

/// What `s.parse()` gives for an integer type that is `signed` and ranges over
/// `lo..=hi`.
pub open spec fn parse_integer(s: Seq<char>, signed: bool, lo: int, hi: int) -> Option<int> {
    match integer_literal(s, signed) {
        Some(v) => if lo <= v <= hi {
            Some(v)
        } else {
            None
        },
        None => None,
    }
}

proof fn lemma_digits_prefix(s: Seq<char>, k: int)
    requires
        0 <= k < s.len(),
        all_digits(s),
    ensures
        digits_value(s.take(k + 1)) == digits_value(s.take(k)) * 10 + (s[k] as int - 48),
        digits_value(s.take(k)) >= 0,
{
    assert(s.take(k + 1).drop_last() =~= s.take(k));
    lemma_digits_nonneg(s.take(k));
}

proof fn lemma_digits_nonneg(s: Seq<char>)
    requires
        all_digits(s),
    ensures
        digits_value(s) >= 0,
    decreases s.len(),
{
    if s.len() > 0 {
        lemma_digits_nonneg(s.drop_last());
    }
}

proof fn lemma_digits_grow(s: Seq<char>, k: int)
    requires
        0 <= k <= s.len(),
        all_digits(s),
    ensures
        digits_value(s.take(k)) <= digits_value(s),
    decreases s.len() - k,
{
    if k < s.len() {
        lemma_digits_prefix(s, k);
        lemma_digits_grow(s, k + 1);
    } else {
        assert(s.take(k) =~= s);
    }
}

/// Reads an integer of the type that is `signed` and ranges over `lo..=hi`, as
/// `str::parse` does.
pub fn parse_integer_in(s: &Vec<char>, signed: bool, lo: i128, hi: i128) -> (r: Option<i128>)
    requires
        -0x1_0000_0000_0000_0000 <= lo <= 0 <= hi <= 0x1_0000_0000_0000_0000,
    ensures
        r matches Some(v) ==> parse_integer(s@, signed, lo as int, hi as int) == Some(v as int),
        r is None ==> parse_integer(s@, signed, lo as int, hi as int) is None,
{
    if s.len() == 0 {
        return None;
    }
    let first = s[0];
    let has_sign = first == '+' || (signed && first == '-');
    let negative = first == '-' && signed;
    let start: usize = if has_sign {
        1
    } else {
        0
    };
    if start >= s.len() {
        return None;
    }
    let ghost body = s@.skip(start as int);
    proof {
        if has_sign {
            assert(body =~= s@.drop_first());
        } else {
            assert(body =~= s@);
        }
    }
    let bound: i128 = if negative {
        -lo
    } else {
        hi
    };
    let mut value: i128 = 0;
    let mut i: usize = start;
    while i < s.len()
        invariant
            start <= i <= s.len(),
            s@.len() > 0,
            has_sign == (s@[0] == '+' || (signed && s@[0] == '-')),
            negative == (s@[0] == '-' && signed),
            start == (if has_sign { 1usize } else { 0usize }),
            bound == (if negative { -lo } else { hi as int }),
            has_sign ==> body == s@.drop_first(),
            !has_sign ==> body == s@,
            body == s@.skip(start as int),
            0 <= bound <= 0x1_0000_0000_0000_0000,
            0 <= value <= bound,
            forall|j: int| start <= j < i ==> is_digit(#[trigger] s@[j]),
            value == digits_value(body.take(i - start)),
        decreases s.len() - i,
    {
        let c = s[i];
        if !('0' <= c && c <= '9') {
            proof {
                assert(body[i - start] == s@[i as int]);
                assert(!is_digit(body[i - start]));
                assert(!all_digits(body));
            }
            return None;
        }
        let d = (c as u32 - '0' as u32) as i128;
        proof {
            assert(body.take(i - start + 1).drop_last() =~= body.take(i - start));
        }
        value = value * 10 + d;
        i += 1;
        if value > bound {
            proof {
                if all_digits(body) {
                    lemma_digits_grow(body, i - start);
                    assert(digits_value(body) > bound);
                }
            }
            return None;
        }
    }
    proof {
        assert(body.take(i - start) =~= body);
        assert forall|j: int| 0 <= j < body.len() implies is_digit(#[trigger] body[j]) by {
            assert(body[j] == s@[j + start]);
        }
        assert(digits_value(body) == value);
    }
    if negative {
        Some(-value)
    } else {
        Some(value)
    }
}

/// `s.parse::<i16>()`.
pub fn parse_i16(s: &Vec<char>) -> (r: Option<i16>)
    ensures
        r matches Some(v) ==> parse_integer(s@, true, i16::MIN as int, i16::MAX as int) == Some(
            v as int,
        ),
        r is None ==> parse_integer(s@, true, i16::MIN as int, i16::MAX as int) is None,
{
    match parse_integer_in(s, true, -32768, 32767) {
        Some(v) => Some(v as i16),
        None => None,
    }
}

/// `s.parse::<i32>()`.
pub fn parse_i32(s: &Vec<char>) -> (r: Option<i32>)
    ensures
        r matches Some(v) ==> parse_integer(s@, true, i32::MIN as int, i32::MAX as int) == Some(
            v as int,
        ),
        r is None ==> parse_integer(s@, true, i32::MIN as int, i32::MAX as int) is None,
{
    match parse_integer_in(s, true, -2147483648, 2147483647) {
        Some(v) => Some(v as i32),
        None => None,
    }
}

/// `s.parse::<usize>()`.
pub fn parse_usize(s: &Vec<char>) -> (r: Option<usize>)
    ensures
        r matches Some(v) ==> parse_integer(s@, false, 0, usize::MAX as int) == Some(v as int),
        r is None ==> parse_integer(s@, false, 0, usize::MAX as int) is None,
{
    match parse_integer_in(s, false, 0, usize::MAX as i128) {
        Some(v) => Some(v as usize),
        None => None,
    }
}

// ---------------------------------------------------------------- facts about lines and words

/// Lines, each followed by `\n`.
pub open spec fn terminated(ls: Seq<Seq<char>>) -> Seq<char>
    decreases ls.len(),
{
    if ls.len() == 0 {
        Seq::empty()
    } else {
        terminated(ls.drop_last()) + ls.last() + seq!['\n']
    }
}

/// A text without `\n`.
pub open spec fn no_newline(x: Seq<char>) -> bool {
    forall|i: int| 0 <= i < x.len() ==> x[i] != '\n'
}

proof fn lemma_lines_state_extend(t: Seq<char>, x: Seq<char>)
    requires
        no_newline(x),
    ensures
        lines_state(t + x) == (lines_state(t).0, lines_state(t).1 + x),
    decreases x.len(),
{
    if x.len() == 0 {
        assert(t + x =~= t);
        assert(lines_state(t).1 + x =~= lines_state(t).1);
    } else {
        assert((t + x).drop_last() =~= t + x.drop_last());
        lemma_lines_state_extend(t, x.drop_last());
        assert(lines_state(t).1 + x.drop_last() + seq![x.last()] =~= lines_state(t).1 + x);
        assert(lines_state(t).1 + x.drop_last().push(x.last()) =~= lines_state(t).1 + x);
    }
}

/// Reading `s` from the left, cut at every `\n`: the pieces already closed by a
/// `\n`, and the piece still open.
pub open spec fn split_state(s: Seq<char>) -> (Seq<Seq<char>>, Seq<char>)
    decreases s.len(),
{
    if s.len() == 0 {
        (Seq::empty(), Seq::empty())
    } else {
        let (done, cur) = split_state(s.drop_last());
        if s.last() == '\n' {
            (done.push(cur), Seq::empty())
        } else {
            (done, cur.push(s.last()))
        }
    }
}

/// The pieces of `s` between its `\n` characters, kept exactly (one more piece than
/// there are `\n`).
pub open spec fn split_newlines(s: Seq<char>) -> Seq<Seq<char>> {
    split_state(s).0.push(split_state(s).1)
}

/// Text without `\n` adds to the open piece.
pub proof fn lemma_split_state_extend(t: Seq<char>, x: Seq<char>)
    requires
        no_newline(x),
    ensures
        split_state(t + x) == (split_state(t).0, split_state(t).1 + x),
    decreases x.len(),
{
    if x.len() == 0 {
        assert(t + x =~= t);
        assert(split_state(t).1 + x =~= split_state(t).1);
    } else {
        assert((t + x).drop_last() =~= t + x.drop_last());
        lemma_split_state_extend(t, x.drop_last());
        assert(split_state(t).1 + x.drop_last().push(x.last()) =~= split_state(t).1 + x);
    }
}

proof fn lemma_lines_state_no_newline(s: Seq<char>)
    ensures
        forall|i: int| 0 <= i < lines_state(s).0.len() ==> no_newline(#[trigger] lines_state(s).0[i]),
        no_newline(lines_state(s).1),
    decreases s.len(),
{
    if s.len() > 0 {
        lemma_lines_state_no_newline(s.drop_last());
        let (done, cur) = lines_state(s.drop_last());
        if s.last() == '\n' {
            assert(no_newline(strip_cr(cur)));
            assert forall|i: int| 0 <= i < done.push(strip_cr(cur)).len() implies no_newline(
                #[trigger] done.push(strip_cr(cur))[i],
            ) by {
                if i < done.len() {
                    assert(done.push(strip_cr(cur))[i] == done[i]);
                }
            }
        } else {
            assert(no_newline(cur.push(s.last())));
        }
    }
}

/// No line of a text holds a `\n`.
pub proof fn lemma_lines_no_newline(s: Seq<char>)
    ensures
        forall|i: int| 0 <= i < lines(s).len() ==> no_newline(#[trigger] lines(s)[i]),
{
    lemma_lines_state_no_newline(s);
    let (done, cur) = lines_state(s);
    assert forall|i: int| 0 <= i < lines(s).len() implies no_newline(#[trigger] lines(s)[i]) by {
        if i < done.len() {
            assert(lines(s)[i] == done[i]);
        }
    }
}

/// Splitting lines that each end with `\n` gives them back, where none holds a
/// `\n` or ends with `\r`.
pub proof fn lemma_lines_terminated(ls: Seq<Seq<char>>)
    requires
        forall|i: int| 0 <= i < ls.len() ==> no_newline(#[trigger] ls[i]),
        forall|i: int| 0 <= i < ls.len() ==> (#[trigger] ls[i]).len() == 0 || ls[i].last() != '\r',
    ensures
        lines_state(terminated(ls)) == (ls, Seq::<char>::empty()),
        lines(terminated(ls)) == ls,
    decreases ls.len(),
{
    if ls.len() > 0 {
        let pre = ls.drop_last();
        assert forall|i: int| 0 <= i < pre.len() implies no_newline(#[trigger] pre[i]) by {
            assert(pre[i] == ls[i]);
        }
        assert forall|i: int| 0 <= i < pre.len() implies (#[trigger] pre[i]).len() == 0 || pre[i].last()
            != '\r' by {
            assert(pre[i] == ls[i]);
        }
        lemma_lines_terminated(pre);
        let x = ls.last();
        assert(no_newline(x));
        lemma_lines_state_extend(terminated(pre), x);
        let whole = terminated(pre) + x + seq!['\n'];
        assert(whole.drop_last() =~= terminated(pre) + x);
        assert(Seq::<char>::empty() + x =~= x);
        assert(strip_cr(x) == x);
        assert(pre.push(x) =~= ls);
    } else {
        assert(terminated(ls) =~= Seq::<char>::empty());
    }
}

/// A text that starts and ends with a character other than white space is its own
/// trim.
pub proof fn lemma_trim_plain(x: Seq<char>)
    requires
        x.len() > 0,
        !is_white(x[0]),
        !is_white(x.last()),
    ensures
        trim(x) == x,
{
}

/// A text without white space.
pub open spec fn no_white(x: Seq<char>) -> bool {
    forall|i: int| 0 <= i < x.len() ==> !is_white(x[i])
}

proof fn lemma_words_state_extend(t: Seq<char>, x: Seq<char>)
    requires
        no_white(x),
    ensures
        words_state(t + x) == (words_state(t).0, words_state(t).1 + x),
    decreases x.len(),
{
    if x.len() == 0 {
        assert(t + x =~= t);
        assert(words_state(t).1 + x =~= words_state(t).1);
    } else {
        assert((t + x).drop_last() =~= t + x.drop_last());
        lemma_words_state_extend(t, x.drop_last());
        assert(words_state(t).1 + x.drop_last().push(x.last()) =~= words_state(t).1 + x);
    }
}

/// Two runs of non-white characters with one space between them are two words.
pub proof fn lemma_two_words(a: Seq<char>, b: Seq<char>)
    requires
        a.len() > 0,
        b.len() > 0,
        no_white(a),
        no_white(b),
    ensures
        words(a + seq![' '] + b) == seq![a, b],
{
    lemma_words_state_extend(Seq::empty(), a);
    assert(Seq::<char>::empty() + a =~= a);
    assert(Seq::<char>::empty() + a =~= a);
    let t = a + seq![' '];
    assert(t.drop_last() =~= a);
    assert(words_state(t) == (seq![a], Seq::<char>::empty())) by {
        assert(Seq::<Seq<char>>::empty().push(a) =~= seq![a]);
    }
    lemma_words_state_extend(t, b);
    assert(Seq::<char>::empty() + b =~= b);
    assert(seq![a].push(b) =~= seq![a, b]);
}

} // verus!
