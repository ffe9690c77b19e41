//! Character-level text helpers with the meaning that `str`'s own methods
//! give them: white space as `char::is_whitespace`, trimming, splitting,
//! and unsigned number parsing as `FromStr`/`from_str_radix` do it.
use vstd::prelude::*;
use crate::bytes::{first_occurrence, find_from, lemma_find_from, occurs_at};

verus! {

/// Unicode `White_Space`, the set that `char::is_whitespace` tests.
pub open spec fn is_white_space(c: char) -> bool {
    let v = c as u32;
    (0x09 <= v <= 0x0d) || v == 0x20 || v == 0x85 || v == 0xa0 || v == 0x1680 || (0x2000 <= v <= 0x200a)
        || v == 0x2028 || v == 0x2029 || v == 0x202f || v == 0x205f || v == 0x3000
}

/// `char::is_whitespace`.
pub fn white_space(c: char) -> (r: bool)
    ensures
        r == is_white_space(c),
{
    let v = c as u32;
    (0x09 <= v && v <= 0x0d) || v == 0x20 || v == 0x85 || v == 0xa0 || v == 0x1680 || (0x2000 <= v && v <= 0x200a)
        || v == 0x2028 || v == 0x2029 || v == 0x202f || v == 0x205f || v == 0x3000
}

/// First position at or after `i` that is not white space (or the length).
pub open spec fn skip_ws(s: Seq<char>, i: int) -> int
    decreases s.len() - i,
{
    if 0 <= i < s.len() && is_white_space(s[i]) { skip_ws(s, i + 1) } else { i }
}

/// End of the white space that ends before `j`, scanning backwards.
pub open spec fn skip_ws_back(s: Seq<char>, j: int) -> int
    decreases j,
{
    if 0 < j <= s.len() && is_white_space(s[j - 1]) { skip_ws_back(s, j - 1) } else { j }
}

/// First position at or after `i` that is white space (or the length).
pub open spec fn skip_word(s: Seq<char>, i: int) -> int
    decreases s.len() - i,
{
    if 0 <= i < s.len() && !is_white_space(s[i]) { skip_word(s, i + 1) } else { i }
}

/// `s` without leading and trailing white space (`str::trim`).
pub open spec fn trimmed(s: Seq<char>) -> Seq<char> {
    let a = skip_ws(s, 0);
    let b = skip_ws_back(s, s.len() as int);
    if a < b { s.subrange(a, b) } else { Seq::empty() }
}

pub proof fn lemma_skip_ws(s: Seq<char>, i: int)
    requires
        0 <= i <= s.len(),
    ensures
        i <= skip_ws(s, i) <= s.len(),
        forall|m: int| i <= m < skip_ws(s, i) ==> is_white_space(#[trigger] s[m]),
        skip_ws(s, i) < s.len() ==> !is_white_space(s[skip_ws(s, i)]),
    decreases s.len() - i,
{
    if i < s.len() && is_white_space(s[i]) {
        lemma_skip_ws(s, i + 1);
    }
}

pub proof fn lemma_skip_ws_back(s: Seq<char>, j: int)
    requires
        0 <= j <= s.len(),
    ensures
        0 <= skip_ws_back(s, j) <= j,
        forall|m: int| skip_ws_back(s, j) <= m < j ==> is_white_space(#[trigger] s[m]),
        skip_ws_back(s, j) > 0 ==> !is_white_space(s[skip_ws_back(s, j) - 1]),
    decreases j,
{
    if j > 0 && is_white_space(s[j - 1]) {
        lemma_skip_ws_back(s, j - 1);
    }
}

pub proof fn lemma_skip_word(s: Seq<char>, i: int)
    requires
        0 <= i <= s.len(),
    ensures
        i <= skip_word(s, i) <= s.len(),
        forall|m: int| i <= m < skip_word(s, i) ==> !is_white_space(#[trigger] s[m]),
        skip_word(s, i) < s.len() ==> is_white_space(s[skip_word(s, i)]),
    decreases s.len() - i,
{
    if i < s.len() && !is_white_space(s[i]) {
        lemma_skip_word(s, i + 1);
    }
}

/// The characters of `s`, one per element.
pub fn to_chars(s: &str) -> (v: Vec<char>)
    ensures
        v@ == s@,
{
    let n = s.unicode_len();
    let mut v: Vec<char> = Vec::new();
    let mut i: usize = 0;
    while i < n
        invariant
            n == s@.len(),
            i <= n,
            v@ == s@.subrange(0, i as int),
        decreases n - i,
    {
        v.push(s.get_char(i));
        i = i + 1;
        assert(v@ =~= s@.subrange(0, i as int));
    }
    assert(v@ =~= s@);
    v
}

/// Start of the first character of `cs` at or after `i` that is not white space.
pub fn skip_ws_exec(cs: &[char], i: usize) -> (r: usize)
    requires
        i <= cs@.len(),
    ensures
        r == skip_ws(cs@, i as int),
{
    let mut j = i;
    proof {
        lemma_skip_ws(cs@, i as int);
    }
    while j < cs.len() && white_space(cs[j])
        invariant
            i <= j <= cs@.len(),
            skip_ws(cs@, i as int) == skip_ws(cs@, j as int),
        decreases cs@.len() - j,
    {
        j = j + 1;
    }
    j
}

/// Start of the first white space of `cs` at or after `i`.
pub fn skip_word_exec(cs: &[char], i: usize) -> (r: usize)
    requires
        i <= cs@.len(),
    ensures
        r == skip_word(cs@, i as int),
{
    let mut j = i;
    while j < cs.len() && !white_space(cs[j])
        invariant
            i <= j <= cs@.len(),
            skip_word(cs@, i as int) == skip_word(cs@, j as int),
        decreases cs@.len() - j,
    {
        j = j + 1;
    }
    j
}

/// Bounds `(a, b)` of `cs` without leading and trailing white space; empty
/// (`a == b`) when `cs` is all white space.
pub fn trim_bounds(cs: &[char]) -> (r: (usize, usize))
    ensures
        r.0 <= r.1 <= cs@.len(),
        cs@.subrange(r.0 as int, r.1 as int) == trimmed(cs@),
{
    let a = skip_ws_exec(cs, 0);
    let mut b = cs.len();
    proof {
        lemma_skip_ws(cs@, 0);
        lemma_skip_ws_back(cs@, cs@.len() as int);
    }
    while b > a && white_space(cs[b - 1])
        invariant
            a <= cs@.len(),
            a <= b <= cs@.len(),
            a == skip_ws(cs@, 0),
            skip_ws_back(cs@, cs@.len() as int) == skip_ws_back(cs@, b as int),
        decreases b,
    {
        b = b - 1;
    }
    proof {
        if b > a {
            assert(!is_white_space(cs@[b - 1]));
            assert(skip_ws_back(cs@, b as int) == b);
        } else {
            lemma_skip_ws_back(cs@, b as int);
            assert(cs@.subrange(a as int, b as int) =~= Seq::<char>::empty());
            if skip_ws_back(cs@, cs@.len() as int) > a {
                let e = skip_ws_back(cs@, cs@.len() as int);
                assert(!is_white_space(cs@[e - 1]));
                assert(e - 1 >= a);
                lemma_skip_ws_back(cs@, b as int);
            }
        }
    }
    (a, b)
}

/// Value of a decimal or hexadecimal digit, or -1 for any other character.
pub open spec fn digit_value(c: char, radix: int) -> int {
    let v = c as u32;
    let d: int = if 0x30 <= v <= 0x39 {
        v - 0x30
    } else if 0x61 <= v <= 0x7a {
        v - 0x61 + 10
    } else if 0x41 <= v <= 0x5a {
        v - 0x41 + 10
    } else {
        -1
    };
    if 0 <= d < radix { d } else { -1 }
}

/// Value of a digit string in `radix`.
pub open spec fn digits_value(d: Seq<char>, radix: int) -> nat
    decreases d.len(),
{
    if d.len() == 0 {
        0
    } else {
        (digits_value(d.drop_last(), radix) * radix + digit_value(d.last(), radix)) as nat
    }
}

/// All characters of `d` are digits in `radix`.
pub open spec fn all_digits(d: Seq<char>, radix: int) -> bool {
    forall|i: int| 0 <= i < d.len() ==> digit_value(#[trigger] d[i], radix) >= 0
}

/// What an unsigned integer's `from_str_radix` reads from `s`, before the
/// range check: an optional `+`, then at least one digit and nothing else.
pub open spec fn parse_unsigned(s: Seq<char>, radix: int) -> Option<nat> {
    let d = if s.len() > 0 && s[0] == '+' { s.drop_first() } else { s };
    if d.len() > 0 && all_digits(d, radix) { Some(digits_value(d, radix)) } else { None }
}

/// A longer digit string is worth at least as much as its prefix.
pub proof fn lemma_digits_value_mono(d: Seq<char>, radix: int, i: int)
    requires
        2 <= radix,
        0 <= i <= d.len(),
        all_digits(d, radix),
    ensures
        digits_value(d.subrange(0, i), radix) <= digits_value(d, radix),
    decreases d.len() - i,
{
    if i == d.len() {
        assert(d.subrange(0, i) =~= d);
    } else {
        lemma_digits_value_mono(d, radix, i + 1);
        let p = d.subrange(0, i + 1);
        assert(p.drop_last() =~= d.subrange(0, i));
        assert(p.last() == d[i]);
        assert(digit_value(d[i], radix) >= 0);
        assert(digits_value(p, radix) == digits_value(d.subrange(0, i), radix) * radix + digit_value(d[i], radix));
        assert(digits_value(d.subrange(0, i), radix) <= digits_value(d.subrange(0, i), radix) * radix) by (nonlinear_arith)
            requires 2 <= radix;
    }
}

/// The value of digit `c` in `radix`, or -1.
pub fn digit_of_exec(c: char, radix: u32) -> (r: i32)
    requires
        radix == 10 || radix == 16,
    ensures
        r == digit_value(c, radix as int),
{
    let v = c as u32;
    let d: i32 = if 0x30 <= v && v <= 0x39 {
        (v - 0x30) as i32
    } else if 0x61 <= v && v <= 0x7a {
        (v - 0x61 + 10) as i32
    } else if 0x41 <= v && v <= 0x5a {
        (v - 0x41 + 10) as i32
    } else {
        -1
    };
    if 0 <= d && (d as u32) < radix { d } else { -1 }
}

fn all_digits_from(cs: &[char], start: usize, radix: u32) -> (r: bool)
    requires
        start <= cs@.len(),
        radix == 10 || radix == 16,
    ensures
        r == all_digits(cs@.subrange(start as int, cs@.len() as int), radix as int),
{
    let n = cs.len();
    let ghost d = cs@.subrange(start as int, n as int);
    let mut i: usize = start;
    while i < n
        invariant
            n == cs@.len(),
            start <= i <= n,
            radix == 10 || radix == 16,
            d == cs@.subrange(start as int, n as int),
            forall|q: int| 0 <= q < i - start ==> digit_value(#[trigger] d[q], radix as int) >= 0,
        decreases n - i,
    {
        if digit_of_exec(cs[i], radix) < 0 {
            assert(d[i - start] == cs@[i as int]);
            return false;
        }
        i = i + 1;
    }
    true
}

/// An unsigned number read as `u64::from_str_radix` reads it (`radix` 10 or 16).
pub fn parse_u64_radix(cs: &[char], radix: u32) -> (r: Option<u64>)
    requires
        radix == 10 || radix == 16,
    ensures
        r == (match parse_unsigned(cs@, radix as int) {
            Some(v) => if v <= u64::MAX { Some(v as u64) } else { None },
            None => None,
        }),
{
    let n = cs.len();
    let start: usize = if n > 0 && cs[0] == '+' { 1 } else { 0 };
    let ghost d = if cs@.len() > 0 && cs@[0] == '+' { cs@.drop_first() } else { cs@ };
    assert(d =~= cs@.subrange(start as int, n as int));
    if start >= n {
        return None;
    }
    if !all_digits_from(cs, start, radix) {
        assert(parse_unsigned(cs@, radix as int) == None::<nat>);
        return None;
    }
    let mut acc: u64 = 0;
    let mut i: usize = start;
    while i < n
        invariant
            n == cs@.len(),
            start <= i <= n,
            start < n,
            radix == 10 || radix == 16,
            d == cs@.subrange(start as int, n as int),
            d == (if cs@.len() > 0 && cs@[0] == '+' { cs@.drop_first() } else { cs@ }),
            all_digits(d, radix as int),
            acc == digits_value(d.subrange(0, i - start), radix as int),
        decreases n - i,
    {
        let dv = digit_of_exec(cs[i], radix);
        assert(d[i - start] == cs@[i as int]);
        let ghost pre = d.subrange(0, i - start + 1);
        proof {
            assert(pre.drop_last() =~= d.subrange(0, i - start));
            assert(pre.last() == cs@[i as int]);
            assert(digits_value(pre, radix as int) == acc * radix + dv);
        }
        let m = acc.checked_mul(radix as u64);
        let next = match m {
            Some(x) => x.checked_add(dv as u64),
            None => None,
        };
        match next {
            Some(x) => {
                acc = x;
            },
            None => {
                proof {
                    assert(dv >= 0);
                    assert(acc * radix + dv > u64::MAX);
                    lemma_digits_value_mono(d, radix as int, i - start + 1);
                    assert(digits_value(d, radix as int) > u64::MAX);
                    assert(d.len() > 0);
                }
                return None;
            },
        }
        i = i + 1;
    }
    assert(d.subrange(0, n - start) =~= d);
    Some(acc)
}

/// `c` is an ASCII character.
pub open spec fn is_ascii_char(c: char) -> bool {
    (c as u32) < 0x80
}

/// `c` with an ASCII lowercase letter made uppercase.
pub open spec fn ascii_upper_char(c: char) -> char {
    if 0x61 <= (c as u32) <= 0x7a { ((c as u32) - 0x20) as char } else { c }
}

/// `c` with an ASCII uppercase letter made lowercase.
pub open spec fn ascii_lower_char(c: char) -> char {
    if 0x41 <= (c as u32) <= 0x5a { ((c as u32) + 0x20) as char } else { c }
}

/// `str::to_ascii_lowercase`.
pub open spec fn ascii_lower(s: Seq<char>) -> Seq<char> {
    Seq::new(s.len(), |i: int| ascii_lower_char(s[i]))
}

/// Names what `str::to_uppercase` returns: full Unicode case mapping, under
/// which one character may become several.
pub uninterp spec fn unicode_uppercase(s: Seq<char>) -> Seq<char>;

/// Uppercase of a string: letter by letter for ASCII text, and the Unicode
/// case mapping, by name, for any other.
pub open spec fn uppercase(s: Seq<char>) -> Seq<char> {
    if all_ascii(s) {
        Seq::new(s.len(), |i: int| ascii_upper_char(s[i]))
    } else {
        unicode_uppercase(s)
    }
}

/// Every character of `s` is ASCII.
pub open spec fn all_ascii(s: Seq<char>) -> bool {
    forall|i: int| 0 <= i < s.len() ==> is_ascii_char(#[trigger] s[i])
}

/// `str::to_uppercase`. The contract states, as the documentation of
/// `char::to_uppercase` gives it, that ASCII text is mapped letter by letter
/// to ASCII uppercase; for other text it only names the result, leaving the
/// Unicode mapping unsaid.
#[verifier::external_body]
pub(crate) fn to_uppercase(s: &str) -> (r: String)
    ensures
        all_ascii(s@) ==> r@ == Seq::new(s@.len(), |i: int| ascii_upper_char(s@[i])),
        !all_ascii(s@) ==> r@ == unicode_uppercase(s@),
{
    s.to_uppercase()
}

/// A `String` holding exactly the characters of `cs` (`String::from_iter`).
#[verifier::external_body]
pub(crate) fn chars_to_string(cs: &[char]) -> (r: String)
    ensures
        r@ == cs@,
{
    String::from_iter(cs.iter())
}

/// Names what `String::from_utf8_lossy` makes of a byte string: each
/// maximal ill-formed subsequence becomes U+FFFD.
pub uninterp spec fn utf8_lossy_chars(b: Seq<u8>) -> Seq<char>;

/// A byte string read as UTF-8 with invalid bytes replaced: valid UTF-8 is
/// decoded; for any other, the replacement is named.
pub open spec fn lossy_text(b: Seq<u8>) -> Seq<char> {
    if vstd::utf8::valid_utf8(b) { vstd::utf8::decode_utf8(b) } else { utf8_lossy_chars(b) }
}

/// `String::from_utf8_lossy`. The contract names the result and states, as
/// its documentation does, that valid UTF-8 is decoded unchanged.
#[verifier::external_body]
pub(crate) fn utf8_lossy(b: &[u8]) -> (r: String)
    ensures
        r@ == utf8_lossy_chars(b@),
        r@ == lossy_text(b@),
{
    String::from_utf8_lossy(b).into_owned()
}

/// `std::str::from_utf8(..).ok()`: the text of `b` when it is valid UTF-8.
#[verifier::external_body]
pub(crate) fn utf8_str(b: &[u8]) -> (r: Option<&str>)
    ensures
        r is Some <==> vstd::utf8::valid_utf8(b@),
        r matches Some(s) ==> s@ == vstd::utf8::decode_utf8(b@),
{
    std::str::from_utf8(b).ok()
}

/// The two strings hold the same characters.
pub fn same_chars(a: &str, b: &str) -> (r: bool)
    ensures
        r == (a@ == b@),
{
    let x = to_chars(a);
    let y = to_chars(b);
    if x.len() != y.len() {
        return false;
    }
    let mut i: usize = 0;
    while i < x.len()
        invariant
            x@ == a@,
            y@ == b@,
            x@.len() == y@.len(),
            i <= x@.len(),
            forall|m: int| 0 <= m < i ==> x@[m] == y@[m],
        decreases x@.len() - i,
    {
        if x[i] != y[i] {
            return false;
        }
        i = i + 1;
    }
    assert(a@ =~= b@);
    true
}

/// `cs[i..]` starts with `pat`.
pub fn chars_start_with(cs: &[char], i: usize, pat: &[char]) -> (r: bool)
    requires
        i <= cs@.len(),
    ensures
        r == (i + pat@.len() <= cs@.len() && cs@.subrange(i as int, i + pat@.len()) == pat@),
{
    let n = cs.len();
    if n - i < pat.len() {
        return false;
    }
    let mut k: usize = 0;
    while k < pat.len()
        invariant
            n == cs@.len(),
            i + pat@.len() <= cs@.len(),
            k <= pat@.len(),
            forall|m: int| 0 <= m < k ==> cs@[i + m] == pat@[m],
        decreases pat@.len() - k,
    {
        if cs[i + k] != pat[k] {
            assert(cs@.subrange(i as int, i + pat@.len())[k as int] != pat@[k as int]);
            return false;
        }
        k = k + 1;
    }
    assert(cs@.subrange(i as int, i + pat@.len()) =~= pat@);
    true
}

/// First index where a non-empty `pat` occurs in `cs`, as `str::find` does.
pub fn find_chars(cs: &[char], pat: &[char]) -> (r: Option<usize>)
    ensures
        r == (match first_occurrence(cs@, pat@) {
            Some(p) => Some(p as usize),
            None => None::<usize>,
        }),
{
    proof {
        lemma_find_from(cs@, pat@, 0);
    }
    if pat.len() == 0 || cs.len() < pat.len() {
        return None;
    }
    let n = cs.len();
    let last = n - pat.len();
    let mut i: usize = 0;
    while i <= last
        invariant
            n == cs@.len(),
            last == cs@.len() - pat@.len(),
            last < usize::MAX,
            pat@.len() > 0,
            i <= last + 1,
            find_from(cs@, pat@, 0) == find_from(cs@, pat@, i as int),
        decreases last + 1 - i,
    {
        if chars_start_with(cs, i, pat) {
            assert(occurs_at(cs@, pat@, i as int));
            assert(find_from(cs@, pat@, i as int) == Some(i as int));
            return Some(i);
        }
        i = i + 1;
    }
    None
}

/// The character of decimal digit `d`.
pub open spec fn digit_char(d: int) -> char {
    (48 + d) as char
}

/// Decimal spelling of `n`, as `Display` writes it.
pub open spec fn decimal(n: nat) -> Seq<char>
    decreases n,
{
    if n < 10 {
        seq![digit_char(n as int)]
    } else {
        decimal(n / 10).push(digit_char((n % 10) as int))
    }
}

/// Decimal spelling of `n` padded on the left with zeros to at least
/// `width` characters (`format!("{n:0width$}")`).
pub open spec fn zero_padded(n: nat, width: nat) -> Seq<char> {
    let d = decimal(n);
    if d.len() < width { Seq::new((width - d.len()) as nat, |i: int| '0') + d } else { d }
}

/// Appends the decimal spelling of `n` to `out`.
pub fn push_decimal(n: u64, out: &mut Vec<char>)
    ensures
        final(out)@ == old(out)@ + decimal(n as nat),
    decreases n,
{
    if n >= 10 {
        push_decimal(n / 10, out);
    }
    let d: u8 = (n % 10) as u8;
    let c = (48u8 + d) as char;
    assert(c == digit_char((n % 10) as int));
    out.push(c);
    proof {
        if n >= 10 {
            assert(old(out)@ + decimal(n as nat) =~= old(out)@ + decimal((n / 10) as nat) + seq![c]);
        } else {
            assert(old(out)@ + decimal(n as nat) =~= old(out)@ + seq![c]);
        }
    }
}

/// The decimal spelling of `n` as a `String`.
pub fn decimal_string(n: u64) -> (r: String)
    ensures
        r@ == decimal(n as nat),
{
    let mut cs: Vec<char> = Vec::new();
    push_decimal(n, &mut cs);
    assert(cs@ =~= decimal(n as nat));
    chars_to_string(cs.as_slice())
}

/// Every decimal spelling is made of digits, without a leading `+`.
pub proof fn lemma_decimal_digits(n: nat)
    ensures
        decimal(n).len() >= 1,
        all_digits(decimal(n), 10),
        decimal(n)[0] != '+',
        digits_value(decimal(n), 10) == n,
    decreases n,
{
    if n < 10 {
        let d = decimal(n);
        assert(d.drop_last() =~= Seq::<char>::empty());
        assert(digits_value(d.drop_last(), 10) == 0);
        assert(digit_value(d.last(), 10) == n);
    } else {
        lemma_decimal_digits(n / 10);
        let d = decimal(n);
        assert(d.drop_last() =~= decimal(n / 10));
        assert(digit_value(d.last(), 10) == n % 10);
        assert((n / 10) * 10 + n % 10 == n) by (nonlinear_arith);
        assert(digits_value(d, 10) == digits_value(d.drop_last(), 10) * 10 + digit_value(d.last(), 10));
        assert forall|i: int| 0 <= i < d.len() implies digit_value(#[trigger] d[i], 10) >= 0 by {
            if i < d.len() - 1 {
                assert(d[i] == decimal(n / 10)[i]);
            }
        }
    }
}

/// Zero padding keeps the value: `format!("{n:03}")` reads back as `n`.
pub proof fn lemma_parse_zero_padded(n: nat, width: nat)
    ensures
        parse_unsigned(zero_padded(n, width), 10) == Some(n),
{
    lemma_decimal_digits(n);
    let d = decimal(n);
    if d.len() < width {
        let z = Seq::new((width - d.len()) as nat, |i: int| '0');
        let p = z + d;
        assert(p[0] == '0');
        assert forall|i: int| 0 <= i < p.len() implies digit_value(#[trigger] p[i], 10) >= 0 by {
            if i >= z.len() {
                assert(p[i] == d[i - z.len()]);
            }
        }
        lemma_digits_value_zeros(z, d);
    }
}

/// Leading zeros add nothing to a digit string's value.
pub proof fn lemma_digits_value_zeros(z: Seq<char>, d: Seq<char>)
    requires
        forall|i: int| 0 <= i < z.len() ==> #[trigger] z[i] == '0',
    ensures
        digits_value(z + d, 10) == digits_value(d, 10),
    decreases d.len(),
{
    if d.len() == 0 {
        assert(z + d =~= z);
        lemma_zeros_value(z);
    } else {
        lemma_digits_value_zeros(z, d.drop_last());
        assert((z + d).drop_last() =~= z + d.drop_last());
    }
}

proof fn lemma_zeros_value(z: Seq<char>)
    requires
        forall|i: int| 0 <= i < z.len() ==> #[trigger] z[i] == '0',
    ensures
        digits_value(z, 10) == 0,
    decreases z.len(),
{
    if z.len() > 0 {
        assert forall|i: int| 0 <= i < z.drop_last().len() implies #[trigger] z.drop_last()[i] == '0' by {
            assert(z.drop_last()[i] == z[i]);
        }
        lemma_zeros_value(z.drop_last());
    }
}

/// `format!("{n:03}")` as a `String`.
pub fn zero_padded_string(n: u64, width: usize) -> (r: String)
    ensures
        r@ == zero_padded(n as nat, width as nat),
{
    let mut digits: Vec<char> = Vec::new();
    push_decimal(n, &mut digits);
    assert(digits@ =~= decimal(n as nat));
    let mut cs: Vec<char> = Vec::new();
    if digits.len() < width {
        let pad = width - digits.len();
        let mut i: usize = 0;
        while i < pad
            invariant
                i <= pad,
                cs@ == Seq::new(i as nat, |q: int| '0'),
            decreases pad - i,
        {
            cs.push('0');
            i = i + 1;
            assert(cs@ =~= Seq::new(i as nat, |q: int| '0'));
        }
    }
    let ghost before = cs@;
    let mut j: usize = 0;
    while j < digits.len()
        invariant
            j <= digits@.len(),
            cs@ == before + digits@.subrange(0, j as int),
        decreases digits@.len() - j,
    {
        cs.push(digits[j]);
        j = j + 1;
        assert(cs@ =~= before + digits@.subrange(0, j as int));
    }
    assert(digits@.subrange(0, digits@.len() as int) =~= digits@);
    assert(cs@ =~= zero_padded(n as nat, width as nat));
    chars_to_string(cs.as_slice())
}

/// `str::trim`: `s` without leading and trailing white space.
pub fn trim_str(s: &str) -> (r: &str)
    ensures
        r@ == trimmed(s@),
{
    let cs = to_chars(s);
    let (a, b) = trim_bounds(cs.as_slice());
    s.substring_char(a, b)
}

/// `s.split_once(c)`: what stands before and after the first `c`.
pub open spec fn split_once_char(s: Seq<char>, c: char) -> Option<(Seq<char>, Seq<char>)> {
    match first_occurrence(s, seq![c]) {
        Some(p) => Some((s.subrange(0, p), s.subrange(p + 1, s.len() as int))),
        None => None,
    }
}

/// Position of the first `c` in `cs`.
pub fn find_char(cs: &[char], c: char) -> (r: Option<usize>)
    ensures
        r == (match first_occurrence(cs@, seq![c]) {
            Some(p) => Some(p as usize),
            None => None::<usize>,
        }),
        r matches Some(p) ==> p < cs@.len() && first_occurrence(cs@, seq![c]) == Some(p as int),
        r is None ==> first_occurrence(cs@, seq![c]) is None,
{
    proof {
        lemma_find_from(cs@, seq![c], 0);
    }
    let pat: Vec<char> = vec![c];
    let pat_s = pat.as_slice();
    assert(pat_s@ == seq![c]);
    let r = find_chars(cs, pat_s);
    assert(cs@.len() == cs.len());
    r
}

/// `cs` split at its first `c`, as `split_once_char`.
pub fn split_once_exec(cs: &[char], c: char) -> (r: Option<(&[char], &[char])>)
    ensures
        match split_once_char(cs@, c) {
            Some(pr) => r matches Some(x) && x.0@ == pr.0 && x.1@ == pr.1,
            None => r is None,
        },
{
    let found = find_char(cs, c);
    proof {
        lemma_find_from(cs@, seq![c], 0);
    }

    match found {
        Some(p) => {
            assert(p < cs@.len());
            assert(cs@.len() == cs.len());
            assert(first_occurrence(cs@, seq![c]) == Some(p as int));
            let a = &cs[0..p];
            let b = &cs[p + 1..cs.len()];
            assert(a@ =~= cs@.subrange(0, p as int));
            assert(b@ =~= cs@.subrange(p + 1, cs@.len() as int));
            Some((a, b))
        },
        None => None,
    }
}

} // verus!
