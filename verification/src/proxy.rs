//! The decisions of the intercepting proxy: reading HTTP heads and request
//! lines, framing and decoding response bodies, and choosing what to do with
//! an emblem request.
use vstd::prelude::*;
use crate::bytes::{find_subslice, first_occurrence, copy_bytes, append_bytes};
use crate::paths::TARGET_HOST_SUBSTR;
use crate::state::Mode;
use crate::text::{split_once_char, find_char, split_once_exec, skip_ws, skip_word, skip_ws_exec, skip_word_exec, lemma_skip_ws, lemma_skip_word, uppercase, to_uppercase, same_chars, trimmed, trim_bounds, utf8_str, parse_unsigned, all_digits, ascii_lower, ascii_lower_char, chars_start_with, chars_to_string, decimal, digit_value, digits_value, find_chars, parse_u64_radix, push_decimal, to_chars, utf8_lossy, lossy_text};
use crate::bytes::lemma_find_from;

verus! {

/// ASCII white space as `u8::is_ascii_whitespace` has it.
pub open spec fn is_ascii_ws(b: u8) -> bool {
    b == 9 || b == 10 || b == 12 || b == 13 || b == 32
}

/// `b` with an ASCII uppercase letter made lowercase.
pub open spec fn lower_byte(b: u8) -> u8 {
    if 65 <= b <= 90 { (b + 32) as u8 } else { b }
}

/// `<[u8]>::to_ascii_lowercase`.
pub open spec fn lower_bytes(s: Seq<u8>) -> Seq<u8> {
    Seq::new(s.len(), |i: int| lower_byte(s[i]))
}

/// Start of `s[i..]` without leading ASCII white space.
pub open spec fn skip_ascii_ws(s: Seq<u8>, i: int) -> int
    decreases s.len() - i,
{
    if 0 <= i < s.len() && is_ascii_ws(s[i]) { skip_ascii_ws(s, i + 1) } else { i }
}

/// End of `s[..j]` without trailing ASCII white space, not below `lo`.
pub open spec fn skip_ascii_ws_back(s: Seq<u8>, lo: int, j: int) -> int
    decreases j,
{
    if 0 <= lo < j <= s.len() && is_ascii_ws(s[j - 1]) { skip_ascii_ws_back(s, lo, j - 1) } else { j }
}

/// `<[u8]>::trim_ascii`.
pub open spec fn trim_ascii(s: Seq<u8>) -> Seq<u8> {
    let a = skip_ascii_ws(s, 0);
    s.subrange(a, skip_ascii_ws_back(s, a, s.len() as int))
}

/// End of the line that starts at `i`: the next `\n`, or the end.
pub open spec fn line_end(s: Seq<u8>, i: int) -> int
    decreases s.len() - i,
{
    if i >= s.len() || i < 0 {
        s.len() as int
    } else if s[i] == 10 {
        i
    } else {
        line_end(s, i + 1)
    }
}

/// A line without its trailing `\r`, if any.
pub open spec fn without_cr(line: Seq<u8>) -> Seq<u8> {
    if line.len() > 0 && line.last() == 13 { line.drop_last() } else { line }
}

/// Position of the first `:` in a line.
pub open spec fn colon_at(line: Seq<u8>) -> Option<int> {
    first_occurrence(line, seq![58u8])
}

/// The value of the first header line at or after `i` whose name, in ASCII
/// lowercase, is `name`; lines are split at `\n` and lose a trailing `\r`.
pub open spec fn header_value_from(s: Seq<u8>, name: Seq<u8>, i: int) -> Option<Seq<u8>>
    decreases s.len() - i,
{
    if i < 0 || i > s.len() {
        None
    } else {
        let e = line_end(s, i);
        let line = without_cr(s.subrange(i, e));
        match colon_at(line) {
            Some(c) if lower_bytes(line.subrange(0, c)) == name => Some(trim_ascii(line.subrange(c + 1, line.len() as int))),
            _ => if e >= s.len() { None } else {
                proof {
                    lemma_line_end(s, i);
                }
                header_value_from(s, name, e + 1)
            },
        }
    }
}

pub proof fn lemma_line_end(s: Seq<u8>, i: int)
    requires
        0 <= i <= s.len(),
    ensures
        i <= line_end(s, i) <= s.len(),
        line_end(s, i) < s.len() ==> s[line_end(s, i)] == 10,
        forall|m: int| i <= m < line_end(s, i) ==> s[m] != 10,
    decreases s.len() - i,
{
    if i < s.len() && s[i] != 10 {
        lemma_line_end(s, i + 1);
    }
}

fn line_end_exec(s: &[u8], i: usize) -> (r: usize)
    requires
        i <= s@.len(),
    ensures
        r == line_end(s@, i as int),
{
    let mut j = i;
    while j < s.len() && s[j] != 10
        invariant
            i <= j <= s@.len(),
            line_end(s@, i as int) == line_end(s@, j as int),
        decreases s@.len() - j,
    {
        j = j + 1;
    }
    j
}

/// Bounds of `s[a..b]` without surrounding ASCII white space.
fn trim_ascii_bounds(s: &[u8], a: usize, b: usize) -> (r: (usize, usize))
    requires
        a <= b <= s@.len(),
    ensures
        a <= r.0 <= r.1 <= b,
        s@.subrange(r.0 as int, r.1 as int) == trim_ascii(s@.subrange(a as int, b as int)),
{
    let ghost t = s@.subrange(a as int, b as int);
    let mut x = a;
    while x < b && (s[x] == 9 || s[x] == 10 || s[x] == 12 || s[x] == 13 || s[x] == 32)
        invariant
            a <= x <= b,
            b <= s@.len(),
            t == s@.subrange(a as int, b as int),
            skip_ascii_ws(t, 0) == skip_ascii_ws(t, x - a),
        decreases b - x,
    {
        x = x + 1;
    }
    let ghost sa = skip_ascii_ws(t, 0);
    assert(sa == x - a);
    let mut y = b;
    while y > x && (s[y - 1] == 9 || s[y - 1] == 10 || s[y - 1] == 12 || s[y - 1] == 13 || s[y - 1] == 32)
        invariant
            a <= x <= y <= b,
            b <= s@.len(),
            t == s@.subrange(a as int, b as int),
            sa == x - a,
            skip_ascii_ws_back(t, sa, t.len() as int) == skip_ascii_ws_back(t, sa, y - a),
        decreases y,
    {
        y = y - 1;
    }
    assert(skip_ascii_ws_back(t, sa, y - a) == y - a);
    assert(s@.subrange(x as int, y as int) =~= t.subrange(x - a, y - a));
    (x, y)
}

/// The trimmed value of the first header whose name, in ASCII lowercase,
/// is `name_lower` (lines split at `\n`, a trailing `\r` dropped, name and
/// value split at the first `:`).
pub fn find_header_value<'a>(headers: &'a [u8], name_lower: &[u8]) -> (r: Option<&'a [u8]>)
    ensures
        r matches Some(v) ==> header_value_from(headers@, name_lower@, 0) == Some(v@),
        r is None ==> header_value_from(headers@, name_lower@, 0) is None,
{
    let n = headers.len();
    let mut i: usize = 0;
    while i <= n
        invariant
            n == headers@.len(),
            i <= n + 1,
            n < usize::MAX || i <= n,
            i <= n ==> header_value_from(headers@, name_lower@, 0) == header_value_from(headers@, name_lower@, i as int),
            i > n ==> header_value_from(headers@, name_lower@, 0) is None,
        decreases n + 1 - i,
    {
        let e = line_end_exec(headers, i);
        proof {
            lemma_line_end(headers@, i as int);
        }
        let ghost raw = headers@.subrange(i as int, e as int);
        let le = if e > i && headers[e - 1] == 13 { e - 1 } else { e };
        let ghost line = without_cr(raw);
        assert(line =~= headers@.subrange(i as int, le as int));
        // first colon in the line
        let mut c = i;
        while c < le && headers[c] != 58
            invariant
                i <= c <= le,
                le <= headers@.len(),
                forall|m: int| i <= m < c ==> headers@[m] != 58,
            decreases le - c,
        {
            c = c + 1;
        }
        proof {
            lemma_first_colon(line, c - i);
        }
        if c < le {
            let same = name_matches(headers, i, c, name_lower);
            assert(line.subrange(0, c - i) =~= headers@.subrange(i as int, c as int));
            if same {
                let (x, y) = trim_ascii_bounds(headers, c + 1, le);
                assert(line.subrange(c - i + 1, line.len() as int) =~= headers@.subrange(c + 1, le as int));
                return Some(&headers[x..y]);
            }
        }
        if e >= n {
            return None;
        }
        i = e + 1;
    }
    None
}

fn name_matches(s: &[u8], a: usize, b: usize, name: &[u8]) -> (r: bool)
    requires
        a <= b <= s@.len(),
    ensures
        r == (lower_bytes(s@.subrange(a as int, b as int)) == name@),
{
    let n = s.len();
    let klen = b - a;
    if klen != name.len() {
        return false;
    }
    let mut q: usize = 0;
    while q < klen
        invariant
            n == s@.len(),
            a <= b <= n,
            q <= klen,
            klen == b - a,
            klen == name@.len(),
            forall|m: int| 0 <= m < q ==> lower_byte(#[trigger] s@[a + m]) == name@[m],
        decreases klen - q,
    {
        let x = s[a + q];
        let lx: u8 = if 65 <= x && x <= 90 { x + 32 } else { x };
        if lx != name[q] {
            assert(lower_bytes(s@.subrange(a as int, b as int))[q as int] != name@[q as int]);
            return false;
        }
        q = q + 1;
    }
    assert forall|m: int| 0 <= m < klen implies lower_bytes(s@.subrange(a as int, b as int))[m] == name@[m] by {
        assert(s@.subrange(a as int, b as int)[m] == s@[a + m]);
    }
    assert(lower_bytes(s@.subrange(a as int, b as int)) =~= name@);
    true
}

/// Where the first `:` of a line is, scanning from its start.
proof fn lemma_first_colon(line: Seq<u8>, c: int)
    requires
        0 <= c <= line.len(),
        forall|m: int| 0 <= m < c ==> line[m] != 58,
        c < line.len() ==> line[c] == 58,
    ensures
        colon_at(line) == (if c < line.len() { Some(c) } else { None::<int> }),
{
    crate::bytes::lemma_find_from(line, seq![58u8], 0);
    let colon = seq![58u8];
    if c < line.len() {
        assert(line.subrange(c, c + 1) =~= colon);
        assert(crate::bytes::occurs_at(line, colon, c));
    }
    assert forall|q: int| 0 <= q < c implies !crate::bytes::occurs_at(line, colon, q) by {
        assert(line.subrange(q, q + 1)[0] == line[q]);
    }
    if c == line.len() {
        assert forall|q: int| 0 <= q implies !crate::bytes::occurs_at(line, colon, q) by {
            if q < c {
                assert(line.subrange(q, q + 1)[0] == line[q]);
            }
        }
    }
}

/// End of the run of hexadecimal (or decimal) digits starting at `i`.
pub open spec fn digit_run_end(s: Seq<char>, i: int, radix: int) -> int
    decreases s.len() - i,
{
    if 0 <= i < s.len() && digit_value(s[i], radix) >= 0 { digit_run_end(s, i + 1, radix) } else { i }
}

pub proof fn lemma_digit_run_end(s: Seq<char>, i: int, radix: int)
    requires
        0 <= i <= s.len(),
    ensures
        i <= digit_run_end(s, i, radix) <= s.len(),
        forall|m: int| i <= m < digit_run_end(s, i, radix) ==> digit_value(#[trigger] s[m], radix) >= 0,
        digit_run_end(s, i, radix) < s.len() ==> digit_value(s[digit_run_end(s, i, radix)], radix) < 0,
    decreases s.len() - i,
{
    if i < s.len() && digit_value(s[i], radix) >= 0 {
        lemma_digit_run_end(s, i + 1, radix);
    }
}

/// The player and slot named at position `i` of a request path: `/u`,
/// hexadecimal digits, `.slot_`, then decimal digits that fit in a `u32`.
pub open spec fn userhash_slot_at(s: Seq<char>, i: int) -> Option<(Seq<char>, u32)> {
    if 0 <= i && i + 1 < s.len() && s[i] == '/' && s[i + 1] == 'u' {
        let start = i + 1;
        let j = digit_run_end(s, start + 1, 16);
        if j > start + 1 && j + 6 <= s.len() && s.subrange(j, j + 6) == ".slot_"@ {
            let d0 = j + 6;
            let de = digit_run_end(s, d0, 10);
            if de > d0 && digits_value(s.subrange(d0, de), 10) <= u32::MAX {
                Some((s.subrange(start, j), digits_value(s.subrange(d0, de), 10) as u32))
            } else {
                None
            }
        } else {
            None
        }
    } else {
        None
    }
}

/// The first player and slot named in a request path at or after `i`.
pub open spec fn userhash_slot_from(s: Seq<char>, i: int) -> Option<(Seq<char>, u32)>
    decreases s.len() - i,
{
    if i < 0 || i >= s.len() {
        None
    } else {
        match userhash_slot_at(s, i) {
            Some(x) => Some(x),
            None => userhash_slot_from(s, i + 1),
        }
    }
}

fn digit_run_end_exec(cs: &[char], i: usize, radix: u32) -> (r: usize)
    requires
        i <= cs@.len(),
        radix == 10 || radix == 16,
    ensures
        r == digit_run_end(cs@, i as int, radix as int),
{
    let mut j = i;
    while j < cs.len() && crate::text::digit_of_exec(cs[j], radix) >= 0
        invariant
            i <= j <= cs@.len(),
            radix == 10 || radix == 16,
            digit_run_end(cs@, i as int, radix as int) == digit_run_end(cs@, j as int, radix as int),
        decreases cs@.len() - j,
    {
        j = j + 1;
    }
    j
}

/// The player id (`u` followed by hex digits) and slot number named in an
/// emblem request path such as `/.../u0123abcd.slot_2`: the first place,
/// scanning from the start, where `/u<hex>.slot_<digits>` occurs with a slot
/// number that fits in a `u32`.
pub fn parse_userhash_slot(path: &str) -> (r: Option<(String, u32)>)
    ensures
        match r {
            Some((u, n)) => userhash_slot_from(path@, 0) == Some((u@, n)),
            None => userhash_slot_from(path@, 0) is None,
        },
{
    proof {
        reveal_strlit(".slot_");
    }
    let cs = to_chars(path);
    let marker = to_chars(".slot_");
    let n = cs.len();
    let mut i: usize = 0;
    while i < n
        invariant
            n == cs@.len(),
            cs@ == path@,
            marker@ == ".slot_"@,
            marker@.len() == 6,
            i <= n,
            userhash_slot_from(path@, 0) == userhash_slot_from(path@, i as int),
        decreases n - i,
    {
        if i + 1 < n && cs[i] == '/' && cs[i + 1] == 'u' {
            let start = i + 1;
            let j = digit_run_end_exec(cs.as_slice(), start + 1, 16);
            proof {
                lemma_digit_run_end(cs@, start + 1, 16);
            }
            if j > start + 1 && chars_start_with(cs.as_slice(), j, marker.as_slice()) {
                let d0 = j + 6;
                let de = digit_run_end_exec(cs.as_slice(), d0, 10);
                proof {
                    lemma_digit_run_end(cs@, d0 as int, 10);
                }
                if de > d0 {
                    let digits = &cs.as_slice()[d0..de];
                    proof {
                        assert(digits@ == cs@.subrange(d0 as int, de as int));
                        assert(crate::text::parse_unsigned(digits@, 10) == Some(digits_value(digits@, 10))) by {
                            assert(digit_value(digits@[0], 10) >= 0);
                            assert(digits@[0] != '+');
                            assert(all_digits(digits@, 10)) by {
                                assert forall|q: int| 0 <= q < digits@.len() implies digit_value(#[trigger] digits@[q], 10) >= 0 by {
                                    assert(digits@[q] == cs@[d0 + q]);
                                }
                            }
                        }
                    }
                    match parse_u64_radix(digits, 10) {
                        Some(v) => {
                            if v <= u32::MAX as u64 {
                                let user = String::from_str(path.substring_char(start, j));
                                return Some((user, v as u32));
                            }
                        },
                        None => {},
                    }
                }
            }
        }
        i = i + 1;
    }
    None
}

/// A line break.
pub open spec fn crlf() -> Seq<char> {
    seq!['\r', '\n']
}

/// The pieces of `s[i..]` between line breaks (`str::split("\r\n")`).
pub open spec fn segments_from(s: Seq<char>, i: int) -> Seq<Seq<char>>
    decreases s.len() - i,
{
    if i < 0 || i > s.len() {
        Seq::empty()
    } else {
        match first_occurrence(s.subrange(i, s.len() as int), crlf()) {
            Some(p) => {
                proof {
                    lemma_find_from(s.subrange(i, s.len() as int), crlf(), 0);
                }
                seq![s.subrange(i, i + p)] + segments_from(s, i + p + 2)
            },
            None => seq![s.subrange(i, s.len() as int)],
        }
    }
}

/// `line` in ASCII lowercase starts with `prefix`.
pub open spec fn lower_starts_with(line: Seq<char>, prefix: Seq<char>) -> bool {
    prefix.len() <= line.len() && ascii_lower(line).subrange(0, prefix.len() as int) == prefix
}

/// The `Content-Length` line for a body of `n` bytes.
pub open spec fn content_length_line(n: nat) -> Seq<char> {
    "Content-Length: "@ + decimal(n)
}

/// What one head line becomes: blank lines and `Transfer-Encoding` lines
/// go, `Content-Length` lines give the body's length, others stay.
pub open spec fn normalized_line(line: Seq<char>, n: nat) -> Seq<Seq<char>> {
    if line.len() == 0 {
        Seq::empty()
    } else if lower_starts_with(line, "transfer-encoding:"@) {
        Seq::empty()
    } else if lower_starts_with(line, "content-length:"@) {
        seq![content_length_line(n)]
    } else {
        seq![line]
    }
}

/// The head lines kept, in order.
pub open spec fn normalized_lines(segs: Seq<Seq<char>>, n: nat) -> Seq<Seq<char>>
    decreases segs.len(),
{
    if segs.len() == 0 {
        Seq::empty()
    } else {
        normalized_lines(segs.drop_last(), n) + normalized_line(segs.last(), n)
    }
}

/// Some head line states a `Content-Length`.
pub open spec fn has_content_length(segs: Seq<Seq<char>>) -> bool
    decreases segs.len(),
{
    if segs.len() == 0 {
        false
    } else {
        has_content_length(segs.drop_last()) || (segs.last().len() > 0 && !lower_starts_with(
            segs.last(),
            "transfer-encoding:"@,
        ) && lower_starts_with(segs.last(), "content-length:"@))
    }
}

/// Lines, each followed by a line break.
pub open spec fn terminated(lines: Seq<Seq<char>>) -> Seq<char>
    decreases lines.len(),
{
    if lines.len() == 0 {
        Seq::empty()
    } else {
        terminated(lines.drop_last()) + lines.last() + crlf()
    }
}

/// A response head rewritten for a body of `n` bytes that is sent whole:
/// no `Transfer-Encoding`, every `Content-Length` giving `n` (one added when
/// there was none), no blank lines, and a blank line at the end.
pub open spec fn normalized_head(text: Seq<char>, n: nat) -> Seq<char> {
    let segs = segments_from(text, 0);
    let lines = normalized_lines(segs, n) + (if has_content_length(segs) {
        Seq::empty()
    } else {
        seq![content_length_line(n)]
    });
    terminated(lines) + crlf()
}

fn lower_prefix(cs: &[char], a: usize, b: usize, prefix: &[char]) -> (r: bool)
    requires
        a <= b <= cs@.len(),
    ensures
        r == lower_starts_with(cs@.subrange(a as int, b as int), prefix@),
{
    let ghost line = cs@.subrange(a as int, b as int);
    if b - a < prefix.len() {
        return false;
    }
    let mut k: usize = 0;
    while k < prefix.len()
        invariant
            a <= b <= cs@.len(),
            line == cs@.subrange(a as int, b as int),
            prefix@.len() <= b - a,
            k <= prefix@.len(),
            forall|m: int| 0 <= m < k ==> ascii_lower(line)[m] == prefix@[m],
        decreases prefix@.len() - k,
    {
        let c = cs[a + k];
        let v = c as u32;
        let lc: char = if 0x41 <= v && v <= 0x5a { ((v + 0x20) as u8) as char } else { c };
        assert(line[k as int] == c);
        assert(lc == ascii_lower_char(c)) by {
            if 0x41 <= v && v <= 0x5a {
                assert(((v + 0x20) as u8) as char == ((c as u32) + 0x20) as char);
            }
        }
        if lc != prefix[k] {
            return false;
        }
        k = k + 1;
    }
    assert(ascii_lower(line).subrange(0, prefix@.len() as int) =~= prefix@);
    true
}

fn push_chars(out: &mut Vec<char>, cs: &[char], a: usize, b: usize)
    requires
        a <= b <= cs@.len(),
    ensures
        final(out)@ == old(out)@ + cs@.subrange(a as int, b as int),
{
    let ghost before = out@;
    let mut k = a;
    while k < b
        invariant
            a <= k <= b,
            b <= cs@.len(),
            out@ == before + cs@.subrange(a as int, k as int),
        decreases b - k,
    {
        out.push(cs[k]);
        k = k + 1;
        assert(out@ =~= before + cs@.subrange(a as int, k as int));
    }
}

fn push_content_length(out: &mut Vec<char>, n: usize)
    ensures
        final(out)@ == old(out)@ + content_length_line(n as nat) + crlf(),
{
    proof {
        reveal_strlit("Content-Length: ");
    }
    let label = to_chars("Content-Length: ");
    let ghost before = out@;
    push_chars(out, label.as_slice(), 0, label.len());
    assert(label@.subrange(0, label@.len() as int) =~= label@);
    push_decimal(n as u64, out);
    out.push('\r');
    out.push('\n');
    assert(out@ =~= before + content_length_line(n as nat) + crlf());
}

/// The response head `headers` rewritten for a body of `body_len` bytes sent
/// whole (after a chunked body has been decoded): read as UTF-8 (invalid
/// bytes become U+FFFD), `Transfer-Encoding` lines dropped, every
/// `Content-Length` set to `body_len` and one added when missing, blank lines
/// dropped, and a blank line at the end.
pub fn normalize_headers_for_body(headers: &[u8], body_len: usize) -> (r: Vec<u8>)
    ensures
        r@ == vstd::utf8::encode_utf8(normalized_head(lossy_text(headers@), body_len as nat)),
{
    proof {
        reveal_strlit("transfer-encoding:");
        reveal_strlit("content-length:");
    }
    let text = utf8_lossy(headers);
    let cs = to_chars(text.as_str());
    let te = to_chars("transfer-encoding:");
    let cl = to_chars("content-length:");
    let crlf_v: Vec<char> = vec!['\r', '\n'];
    assert(crlf_v@ =~= crlf());
    let n = cs.len();
    let mut out: Vec<char> = Vec::new();
    let mut seen = false;
    let mut i: usize = 0;
    let ghost mut done: Seq<Seq<char>> = Seq::empty();
    loop
        invariant_except_break
            segments_from(cs@, 0) == done + segments_from(cs@, i as int),
        invariant
            n == cs@.len(),
            cs@ == lossy_text(headers@),
            te@ == "transfer-encoding:"@,
            cl@ == "content-length:"@,
            crlf_v@ == crlf(),
            i <= n,
            out@ == terminated(normalized_lines(done, body_len as nat)),
            seen == has_content_length(done),
        ensures
            segments_from(cs@, 0) == done,
            out@ == terminated(normalized_lines(done, body_len as nat)),
            seen == has_content_length(done),
        decreases n - i,
    {
        let rest = &cs.as_slice()[i..n];
        let found = find_chars(rest, crlf_v.as_slice());
        proof {
            lemma_find_from(cs@.subrange(i as int, n as int), crlf(), 0);
        }
        let (e, next) = match found {
            Some(p) => (i + p, Some(i + p + 2)),
            None => (n, None),
        };
        let ghost seg = cs@.subrange(i as int, e as int);
        proof {
            assert(rest@ == cs@.subrange(i as int, n as int));
            assert(segments_from(cs@, i as int) == seq![seg] + (match next {
                Some(x) => segments_from(cs@, x as int),
                None => Seq::<Seq<char>>::empty(),
            }));
        }
        let ghost old_done = done;
        proof {
            done = done.push(seg);
            assert(done.drop_last() == old_done);
            assert(done.last() == seg);
        }
        if e > i {
            if lower_prefix(cs.as_slice(), i, e, te.as_slice()) {
            } else if lower_prefix(cs.as_slice(), i, e, cl.as_slice()) {
                let ghost before = out@;
                push_content_length(&mut out, body_len);
                seen = true;
                proof {
                    let lines = normalized_lines(done, body_len as nat);
                    assert(lines == normalized_lines(old_done, body_len as nat).push(content_length_line(body_len as nat)));
                    assert(lines.drop_last() == normalized_lines(old_done, body_len as nat));
                }
            } else {
                let ghost before = out@;
                push_chars(&mut out, cs.as_slice(), i, e);
                out.push('\r');
                out.push('\n');
                proof {
                    let lines = normalized_lines(done, body_len as nat);
                    assert(lines == normalized_lines(old_done, body_len as nat).push(seg));
                    assert(lines.drop_last() == normalized_lines(old_done, body_len as nat));
                    assert(out@ =~= before + seg + crlf());
                }
            }
        } else {
            proof {
                assert(normalized_lines(done, body_len as nat) =~= normalized_lines(old_done, body_len as nat));
            }
        }
        match next {
            Some(x) => {
                proof {
                    assert(segments_from(cs@, 0) == done + segments_from(cs@, x as int));
                }
                i = x;
            },
            None => {
                proof {
                    assert(segments_from(cs@, 0) =~= done);
                }
                break;
            },
        }
    }
    let ghost kept = normalized_lines(done, body_len as nat);
    if !seen {
        push_content_length(&mut out, body_len);
        proof {
            let lines = kept.push(content_length_line(body_len as nat));
            assert(lines.drop_last() == kept);
        }
    }
    out.push('\r');
    out.push('\n');
    proof {
        let extra: Seq<Seq<char>> = if seen { Seq::empty() } else { seq![content_length_line(body_len as nat)] };
        if seen {
            assert(kept + extra =~= kept);
        } else {
            assert(kept + extra =~= kept.push(content_length_line(body_len as nat)));
        }
        assert(out@ =~= normalized_head(lossy_text(headers@), body_len as nat));
    }
    let s = chars_to_string(out.as_slice());
    copy_bytes(s.as_str().as_bytes())
}

/// The bytes of an ASCII header name.
pub open spec fn name_bytes(name: Seq<char>) -> Seq<u8> {
    vstd::utf8::encode_utf8(name)
}

/// The body length a response head states: its `Content-Length` value,
/// when that is UTF-8 text which, without surrounding white space, reads as
/// a `usize` (`str::parse`).
pub open spec fn content_length_of(h: Seq<u8>) -> Option<nat> {
    match header_value_from(h, name_bytes("content-length"@), 0) {
        Some(v) => if vstd::utf8::valid_utf8(v) {
            match parse_unsigned(trimmed(vstd::utf8::decode_utf8(v)), 10) {
                Some(x) => if x <= usize::MAX { Some(x) } else { None },
                None => None,
            }
        } else {
            None
        },
        None => None,
    }
}

/// The head says the body is chunked: its `Transfer-Encoding` value, read
/// as UTF-8 and in ASCII lowercase, contains `chunked`.
pub open spec fn is_chunked_of(h: Seq<u8>) -> bool {
    match header_value_from(h, name_bytes("transfer-encoding"@), 0) {
        Some(v) => first_occurrence(ascii_lower(lossy_text(v)), "chunked"@) is Some,
        None => false,
    }
}

/// How a response body is delimited.
#[derive(Debug, Clone, Copy, PartialEq, Eq, Structural)]
pub enum Framing {
    /// Chunked transfer encoding, to be decoded.
    Chunked,
    /// Exactly this many bytes.
    Length(usize),
    /// Whatever arrives until the connection goes quiet or closes.
    UntilClose,
}

/// The framing a response head announces; chunked encoding wins over a length.
pub open spec fn framing_of(h: Seq<u8>) -> Framing {
    if is_chunked_of(h) {
        Framing::Chunked
    } else {
        match content_length_of(h) {
            Some(n) => Framing::Length(n as usize),
            None => Framing::UntilClose,
        }
    }
}

/// The framing of a response with head `headers`.
pub fn response_framing(headers: &[u8]) -> (r: Framing)
    ensures
        r == framing_of(headers@),
{
    let chunked = match find_header_value(headers, "transfer-encoding".as_bytes()) {
        Some(v) => {
            let t = utf8_lossy(v);
            let cs = to_chars(t.as_str());
            let mut lower: Vec<char> = Vec::new();
            let mut k: usize = 0;
            while k < cs.len()
                invariant
                    k <= cs@.len(),
                    lower@ == ascii_lower(cs@).subrange(0, k as int),
                decreases cs@.len() - k,
            {
                let c = cs[k];
                let v = c as u32;
                let lc: char = if 0x41 <= v && v <= 0x5a { ((v + 0x20) as u8) as char } else { c };
                assert(lc == ascii_lower_char(c)) by {
                    if 0x41 <= v && v <= 0x5a {
                        assert(((v + 0x20) as u8) as char == ((c as u32) + 0x20) as char);
                    }
                }
                lower.push(lc);
                k = k + 1;
                assert(lower@ =~= ascii_lower(cs@).subrange(0, k as int));
            }
            assert(lower@ =~= ascii_lower(cs@));
            let pat = to_chars("chunked");
            find_chars(lower.as_slice(), pat.as_slice()).is_some()
        },
        None => false,
    };
    if chunked {
        return Framing::Chunked;
    }
    match find_header_value(headers, "content-length".as_bytes()) {
        Some(v) => match utf8_str(v) {
            Some(t) => {
                let cs = to_chars(t);
                let (a, b) = trim_bounds(cs.as_slice());
                match parse_u64_radix(&cs.as_slice()[a..b], 10) {
                    Some(x) => {
                        if x <= usize::MAX as u64 {
                            Framing::Length(x as usize)
                        } else {
                            Framing::UntilClose
                        }
                    },
                    None => Framing::UntilClose,
                }
            },
            None => Framing::UntilClose,
        },
        None => Framing::UntilClose,
    }
}

/// The next thing to do with the bytes `buf` of a response read so far,
/// `eof` telling whether the connection has closed.
#[derive(Debug, Clone)]
pub enum HeadStep {
    /// Read more bytes and look again.
    NeedMore,
    /// The head, and what followed it.
    Head { head: Vec<u8>, rest: Vec<u8> },
}

/// Splits a response at the end of its head: everything up to and including
/// the first blank line (`\r\n\r\n`) is the head, the rest begins the body.
/// Without a blank line, more is read; when the connection has closed, all
/// of it is the head and the body is empty.
pub fn split_head(buf: &[u8], eof: bool) -> (r: HeadStep)
    ensures
        match first_occurrence(buf@, crate::emblem::format::head_end()) {
            Some(p) => r matches HeadStep::Head { head, rest } && head@ == buf@.subrange(0, p + 4)
                && rest@ == buf@.subrange(p + 4, buf@.len() as int),
            None => if eof {
                r matches HeadStep::Head { head, rest } && head@ == buf@ && rest@.len() == 0
            } else {
                r is NeedMore
            },
        },
{
    let crlf2: [u8; 4] = [13u8, 10u8, 13u8, 10u8];
    let needle = crlf2.as_slice();
    assert(needle@ =~= crate::emblem::format::head_end());
    let found = find_subslice(buf, needle);
    proof {
        lemma_find_from(buf@, crate::emblem::format::head_end(), 0);
    }
    match found {
        Some(p) => {
            assert(crate::bytes::occurs_at(buf@, crate::emblem::format::head_end(), p as int));
            assert(buf@.len() == buf.len());
            let e = p + 4;
            let hs = &buf[0..e];
            let rs = &buf[e..buf.len()];
            assert(hs@ =~= buf@.subrange(0, e as int));
            assert(rs@ =~= buf@.subrange(e as int, buf@.len() as int));
            HeadStep::Head { head: copy_bytes(hs), rest: copy_bytes(rs) }
        },
        None => {
            if eof {
                HeadStep::Head { head: copy_bytes(buf), rest: Vec::new() }
            } else {
                HeadStep::NeedMore
            }
        },
    }
}

/// The body of a response of declared length `len`, from the bytes `body`
/// read so far, `eof` telling whether the connection has closed: once
/// `len` bytes have arrived, or the connection has closed, the body is cut
/// to at most `len` bytes; until then more is read (`None`).
pub fn length_body_step(body: &[u8], len: usize, eof: bool) -> (r: Option<Vec<u8>>)
    ensures
        (body@.len() >= len || eof) ==> (r matches Some(b) && b@ == body@.subrange(
            0,
            if len < body@.len() { len as int } else { body@.len() as int },
        )),
        !(body@.len() >= len || eof) ==> r is None,
{
    if body.len() >= len || eof {
        let end = if len < body.len() { len } else { body.len() };
        let part = &body[0..end];
        assert(part@ =~= body@.subrange(0, end as int));
        Some(copy_bytes(part))
    } else {
        None
    }
}

/// The line break of HTTP, as bytes.
pub open spec fn crlf_bytes() -> Seq<u8> {
    seq![13u8, 10u8]
}

/// What precedes the first `;` of a chunk-size line (all of it when none).
pub open spec fn before_semicolon(t: Seq<char>) -> Seq<char> {
    match first_occurrence(t, seq![';']) {
        Some(p) => t.subrange(0, p),
        None => t,
    }
}

/// The size a chunk-size line gives: the part before any `;`, without
/// surrounding white space, read as hexadecimal (`usize::from_str_radix`),
/// or 0 when it does not read.
pub open spec fn chunk_size_of(line: Seq<u8>) -> nat {
    match parse_unsigned(trimmed(before_semicolon(lossy_text(line))), 16) {
        Some(v) => if v <= usize::MAX { v } else { 0 },
        None => 0,
    }
}

/// The trailer section that starts at `pos` has ended with an empty line.
pub open spec fn trailers_complete(raw: Seq<u8>, pos: int) -> bool
    decreases raw.len() - pos,
{
    if pos < 0 || pos > raw.len() {
        false
    } else {
        match first_occurrence(raw.subrange(pos, raw.len() as int), crlf_bytes()) {
            Some(rel) => if rel == 0 {
                true
            } else {
                proof {
                    lemma_find_from(raw.subrange(pos, raw.len() as int), crlf_bytes(), 0);
                }
                trailers_complete(raw, pos + rel + 2)
            },
            None => false,
        }
    }
}

/// The next thing to do with the undecoded rest `raw` of a chunked body.
#[derive(Debug, Clone, Copy, PartialEq, Eq, Structural)]
pub enum ChunkStep {
    /// Read more bytes and look again.
    NeedMore,
    /// Append `raw[start..end]` to the decoded body; continue with
    /// `raw[next..]`, or stop when there is no `next`.
    Data { start: usize, end: usize, next: Option<usize> },
    /// The body is complete.
    Done,
    /// The chunk's size does not fit the arithmetic.
    SizeOverflow,
}

/// One step of decoding a chunked body from `raw`, `eof` telling whether
/// the connection has closed. A size line is needed first; a zero size ends
/// the body once the trailers have ended (or the connection has closed);
/// otherwise the chunk's data is taken once it has fully arrived, or, after
/// the connection has closed, as much of it as did.
pub open spec fn chunk_step_of(raw: Seq<u8>, eof: bool) -> ChunkStep {
    match first_occurrence(raw, crlf_bytes()) {
        None => if eof { ChunkStep::Done } else { ChunkStep::NeedMore },
        Some(le) => {
            let size = chunk_size_of(raw.subrange(0, le));
            if size == 0 {
                if trailers_complete(raw, le + 2) || eof { ChunkStep::Done } else { ChunkStep::NeedMore }
            } else if le + 2 + size + 2 > usize::MAX {
                ChunkStep::SizeOverflow
            } else if raw.len() >= le + 4 + size {
                ChunkStep::Data {
                    start: (le + 2) as usize,
                    end: (le + 2 + size) as usize,
                    next: Some((le + 4 + size) as usize),
                }
            } else if eof {
                ChunkStep::Data {
                    start: (le + 2) as usize,
                    end: (if le + 2 + size < raw.len() { le + 2 + size } else { raw.len() as int }) as usize,
                    next: None,
                }
            } else {
                ChunkStep::NeedMore
            }
        },
    }
}

/// Every data step stays inside what has arrived, and a step that goes on
/// consumes at least its size line: decoding a body that arrives whole ends.
pub proof fn lemma_chunk_step_bounds(raw: Seq<u8>, eof: bool)
    ensures
        chunk_step_of(raw, eof) matches ChunkStep::Data { start, end, next } ==> {
            &&& start <= end <= raw.len()
            &&& next matches Some(n) ==> end < n <= raw.len()
        },
{
    lemma_find_from(raw, crlf_bytes(), 0);
}

fn chunk_size_exec(line: &[u8]) -> (r: usize)
    ensures
        r == chunk_size_of(line@),
{
    let t = utf8_lossy(line);
    let cs = to_chars(t.as_str());
    let cs_s = cs.as_slice();
    let found = find_char(cs_s, ';');
    let cut = match found {
        Some(p) => p,
        None => cs.len(),
    };
    let part = &cs_s[0..cut];
    assert(part@ =~= cs@.subrange(0, cut as int));
    assert(part@ == before_semicolon(cs@)) by {
        if found is None {
            assert(cs@.subrange(0, cs@.len() as int) =~= cs@);
        }
    }
    let (a, b) = trim_bounds(part);
    match parse_u64_radix(&part[a..b], 16) {
        Some(v) => {
            if v <= usize::MAX as u64 {
                v as usize
            } else {
                0
            }
        },
        None => 0,
    }
}

fn trailers_complete_exec(raw: &[u8], pos: usize) -> (r: bool)
    requires
        pos <= raw@.len(),
    ensures
        r == trailers_complete(raw@, pos as int),
{
    let crlf: [u8; 2] = [13u8, 10u8];
    let needle = crlf.as_slice();
    assert(needle@ =~= crlf_bytes());
    let n = raw.len();
    let mut p = pos;
    while p <= n
        invariant
            n == raw@.len(),
            pos <= p,
            needle@ == crlf_bytes(),
            p <= n,
            trailers_complete(raw@, pos as int) == trailers_complete(raw@, p as int),
        decreases n - p,
    {
        let rest = &raw[p..n];
        match find_subslice(rest, needle) {
            Some(rel) => {
                if rel == 0 {
                    return true;
                }
                proof {
                    lemma_find_from(raw@.subrange(p as int, n as int), crlf_bytes(), 0);
                }
                p = p + rel + 2;
            },
            None => {
                return false;
            },
        }
    }
    false
}

/// One step of decoding a chunked body, as `chunk_step_of` describes.
pub fn chunked_step(raw: &[u8], eof: bool) -> (r: ChunkStep)
    ensures
        r == chunk_step_of(raw@, eof),
{
    let crlf: [u8; 2] = [13u8, 10u8];
    let needle = crlf.as_slice();
    assert(needle@ =~= crlf_bytes());
    let n = raw.len();
    let found = find_subslice(raw, needle);
    proof {
        lemma_find_from(raw@, crlf_bytes(), 0);
    }
    match found {
        None => {
            if eof { ChunkStep::Done } else { ChunkStep::NeedMore }
        },
        Some(le) => {
            let line = &raw[0..le];
            assert(line@ =~= raw@.subrange(0, le as int));
            let size = chunk_size_exec(line);
            assert(first_occurrence(raw@, crlf_bytes()) == Some(le as int));
            assert(le + 2 <= n);
            if size == 0 {
                if trailers_complete_exec(raw, le + 2) || eof {
                    ChunkStep::Done
                } else {
                    ChunkStep::NeedMore
                }
            } else if le > usize::MAX - 4 || size > usize::MAX - 4 - le {
                ChunkStep::SizeOverflow
            } else {
                let needed = le + 4 + size;
                if n >= needed {
                    ChunkStep::Data { start: le + 2, end: le + 2 + size, next: Some(needed) }
                } else if eof {
                    let end = if le + 2 + size < n { le + 2 + size } else { n };
                    ChunkStep::Data { start: le + 2, end, next: None }
                } else {
                    ChunkStep::NeedMore
                }
            }
        },
    }
}

/// Where the request line of `req` ends: at its first CRLF, or at the end.
pub open spec fn request_line_end(req: Seq<u8>) -> int {
    match first_occurrence(req, crlf_bytes()) {
        Some(p) => p,
        None => req.len() as int,
    }
}

/// The request line, read as UTF-8 with invalid bytes replaced.
pub open spec fn request_line(req: Seq<u8>) -> Seq<char> {
    lossy_text(req.subrange(0, request_line_end(req)))
}

/// The first two white-space separated words of `line`, when it has two.
pub open spec fn first_two_words(line: Seq<char>) -> Option<(Seq<char>, Seq<char>)> {
    let a1 = skip_ws(line, 0);
    let e1 = skip_word(line, a1);
    let a2 = skip_ws(line, e1);
    let e2 = skip_word(line, a2);
    if a2 < line.len() {
        Some((line.subrange(a1, e1), line.subrange(a2, e2)))
    } else {
        None
    }
}

/// `s.parse::<u16>()`, or `default` when `s` does not read as one.
pub open spec fn port_or(s: Seq<char>, default: u16) -> u16 {
    match parse_unsigned(s, 10) {
        Some(v) => if v <= 65535 { v as u16 } else { default },
        None => default,
    }
}

/// A URL without its `scheme://` prefix, if it has one.
pub open spec fn after_scheme(url: Seq<char>) -> Seq<char> {
    match first_occurrence(url, seq![':', '/', '/']) {
        Some(p) => url.subrange(p + 3, url.len() as int),
        None => url,
    }
}

/// What the proxy does with a request, over plain values.
pub enum RouteView {
    Ignore,
    Tunnel { host: Seq<char>, port: u16 },
    Forward { host: Seq<char>, port: u16, path: Seq<char>, request: Seq<u8>, target: bool },
}

/// What the proxy does with a request whose head is `req`.
pub enum Route {
    /// The request line has fewer than two words: close the connection.
    Ignore,
    /// `CONNECT host:port`: open a tunnel (port 443 unless one is given).
    Tunnel { host: String, port: u16 },
    /// A plain HTTP request for `host:port` (port 80 unless one is given)
    /// naming `path`; `target` tells whether the host is the emblem storage
    /// service. `request` is what is sent on: for any other host the request
    /// exactly as it came; for the emblem service the request with its
    /// request line in origin form, `METHOD path HTTP/1.1`.
    Forward { host: String, port: u16, path: String, request: Vec<u8>, target: bool },
}

impl View for Route {
    type V = RouteView;

    open spec fn view(&self) -> RouteView {
        match self {
            Route::Ignore => RouteView::Ignore,
            Route::Tunnel { host, port } => RouteView::Tunnel { host: host@, port: *port },
            Route::Forward { host, port, path, request, target } => RouteView::Forward {
                host: host@,
                port: *port,
                path: path@,
                request: request@,
                target: *target,
            },
        }
    }
}

/// Where `CONNECT target` tunnels to: `target` split at its first `:`.
pub open spec fn tunnel_of(target: Seq<char>) -> RouteView {
    match split_once_char(target, ':') {
        Some(hp) => RouteView::Tunnel { host: hp.0, port: port_or(hp.1, 443) },
        None => RouteView::Tunnel { host: target, port: 443 },
    }
}

/// `host[:port]` and path of a URL: without its scheme, the part before the
/// first `/` and the rest (or `/`).
pub open spec fn url_split(url: Seq<char>) -> (Seq<char>, Seq<char>) {
    let rest = after_scheme(url);
    match first_occurrence(rest, seq!['/']) {
        Some(q) => (rest.subrange(0, q), rest.subrange(q, rest.len() as int)),
        None => (rest, seq!['/']),
    }
}

/// Host and port of `host[:port]`, port 80 unless one is given.
pub open spec fn host_and_port(host_port: Seq<char>) -> (Seq<char>, u16) {
    match split_once_char(host_port, ':') {
        Some(hp) => (hp.0, port_or(hp.1, 80)),
        None => (host_port, 80),
    }
}

/// The bytes after the request line of `req` and its CRLF.
pub open spec fn after_request_line(req: Seq<u8>) -> Seq<u8> {
    let le = request_line_end(req);
    if le + 2 <= req.len() { req.subrange(le + 2, req.len() as int) } else { Seq::empty() }
}

/// The request sent to the emblem service for `method path`: the line
/// `METHOD path HTTP/1.1` followed by the rest of the incoming head and body.
pub open spec fn rewritten_request(method: Seq<char>, path: Seq<char>, req: Seq<u8>) -> Seq<u8> {
    vstd::utf8::encode_utf8(method + seq![' '] + path + " HTTP/1.1\r\n"@) + after_request_line(req)
}

/// Where a plain HTTP request `req` with method `method` for `url` goes:
/// to any other host the request goes on unchanged; to the emblem service
/// with its request line in origin form.
pub open spec fn forward_of(method: Seq<char>, url: Seq<char>, req: Seq<u8>) -> RouteView {
    let hp = host_and_port(url_split(url).0);
    let path = url_split(url).1;
    let target = first_occurrence(hp.0, TARGET_HOST_SUBSTR@) is Some;
    RouteView::Forward {
        host: hp.0,
        port: hp.1,
        path,
        request: if target { rewritten_request(method, path, req) } else { req },
        target,
    }
}

/// The route of a request: the request line is split into white-space
/// separated words; the method is the first, uppercased. `CONNECT` tunnels to
/// the second word; any other method forwards the request to the host of
/// the URL the second word is (unchanged, except for the emblem service).
pub open spec fn route_of(req: Seq<u8>) -> RouteView {
    match first_two_words(request_line(req)) {
        None => RouteView::Ignore,
        Some(words) => if uppercase(words.0) == "CONNECT"@ {
            tunnel_of(words.1)
        } else {
            forward_of(uppercase(words.0), words.1, req)
        },
    }
}

/// `port_or` on a slice of characters.
fn port_or_exec(cs: &[char], default: u16) -> (r: u16)
    ensures
        r == port_or(cs@, default),
{
    match parse_u64_radix(cs, 10) {
        Some(v) => if v <= 65535 { v as u16 } else { default },
        None => default,
    }
}

/// The end of the request line of `req` and the line's characters.
fn read_request_line(req: &[u8]) -> (r: (usize, Vec<char>))
    ensures
        r.0 == request_line_end(req@),
        r.0 <= req@.len(),
        r.1@ == request_line(req@),
{
    let crlf: [u8; 2] = [13u8, 10u8];
    let needle = crlf.as_slice();
    assert(needle@ =~= crlf_bytes());
    let found = find_subslice(req, needle);
    proof {
        lemma_find_from(req@, crlf_bytes(), 0);
    }
    let le = match found {
        Some(p) => p,
        None => req.len(),
    };
    let line_b = &req[0..le];
    assert(line_b@ =~= req@.subrange(0, le as int));
    let text = utf8_lossy(line_b);
    (le, to_chars(text.as_str()))
}

/// Bounds of the first two words of `line`, as `first_two_words`.
fn two_words(line: &[char]) -> (r: Option<(usize, usize, usize, usize)>)
    ensures
        match first_two_words(line@) {
            Some(w) => r matches Some(b) && b.0 <= b.1 <= line@.len() && b.2 <= b.3 <= line@.len()
                && line@.subrange(b.0 as int, b.1 as int) == w.0
                && line@.subrange(b.2 as int, b.3 as int) == w.1,
            None => r is None,
        },
{
    proof {
        lemma_skip_ws(line@, 0);
    }
    let a1 = skip_ws_exec(line, 0);
    proof {
        lemma_skip_word(line@, a1 as int);
    }
    let e1 = skip_word_exec(line, a1);
    proof {
        lemma_skip_ws(line@, e1 as int);
    }
    let a2 = skip_ws_exec(line, e1);
    proof {
        lemma_skip_word(line@, a2 as int);
    }
    let e2 = skip_word_exec(line, a2);
    if a2 >= line.len() {
        None
    } else {
        Some((a1, e1, a2, e2))
    }
}

/// The tunnel for `CONNECT target`, as `tunnel_of`.
fn tunnel_route(target: &[char]) -> (r: Route)
    ensures
        r@ == tunnel_of(target@),
{
    match split_once_exec(target, ':') {
        Some((host, port_s)) => Route::Tunnel { host: chars_to_string(host), port: port_or_exec(port_s, 443) },
        None => Route::Tunnel { host: chars_to_string(target), port: 443 },
    }
}

/// `url_split` on a slice; the path is returned as a new vector.
fn url_split_exec(url: &[char]) -> (r: (&[char], Vec<char>))
    ensures
        r.0@ == url_split(url@).0,
        r.1@ == url_split(url@).1,
{
    let sep: Vec<char> = vec![':', '/', '/'];
    let sep_s = sep.as_slice();
    assert(sep_s@ == seq![':', '/', '/']);
    proof {
        lemma_find_from(url@, seq![':', '/', '/'], 0);
    }
    let scheme = find_chars(url, sep_s);
    assert(url@.len() == url.len());
    let rest = match scheme {
        Some(p) => {
            assert(first_occurrence(url@, seq![':', '/', '/']) == Some(p as int));
            let r = &url[p + 3..url.len()];
            assert(r@ =~= url@.subrange(p + 3, url@.len() as int));
            r
        },
        None => url,
    };
    assert(rest@ == after_scheme(url@));
    let slash = find_char(rest, '/');
    proof {
        lemma_find_from(rest@, seq!['/'], 0);
    }

    match slash {
        Some(q) => {
            assert(first_occurrence(rest@, seq!['/']) == Some(q as int));
            let hp = &rest[0..q];
            let pth = &rest[q..rest.len()];
            assert(hp@ =~= rest@.subrange(0, q as int));
            assert(pth@ =~= rest@.subrange(q as int, rest@.len() as int));
            let mut pv: Vec<char> = Vec::new();
            push_chars(&mut pv, pth, 0, pth.len());
            assert(pth@.subrange(0, pth@.len() as int) =~= pth@);
            (hp, pv)
        },
        None => (rest, vec!['/']),
    }
}

/// The request to send on, as `rewritten_request`.
fn rewrite_request(method: &str, path: &[char], req: &[u8], le: usize) -> (r: Vec<u8>)
    requires
        le == request_line_end(req@),
        le <= req@.len(),
    ensures
        r@ == rewritten_request(method@, path@, req@),
{
    proof {
        reveal_strlit(" HTTP/1.1\r\n");
    }
    let mut first: Vec<char> = to_chars(method);
    first.push(' ');
    push_chars(&mut first, path, 0, path.len());
    let proto = to_chars(" HTTP/1.1\r\n");
    push_chars(&mut first, proto.as_slice(), 0, proto.len());
    assert(path@.subrange(0, path@.len() as int) =~= path@);
    assert(proto@.subrange(0, proto@.len() as int) =~= proto@);
    assert(first@ =~= method@ + seq![' '] + path@ + " HTTP/1.1\r\n"@);
    let first_s = chars_to_string(first.as_slice());
    let mut request = copy_bytes(first_s.as_str().as_bytes());
    if req.len() >= 2 && le <= req.len() - 2 {
        let tail = &req[le + 2..req.len()];
        assert(tail@ =~= req@.subrange(le + 2, req@.len() as int));
        append_bytes(&mut request, tail);
    } else {
        assert(request@ =~= request@ + Seq::<u8>::empty());
    }
    request
}

/// The route for a plain HTTP request, as `forward_of`.
fn forward_route(method: &str, url: &[char], req: &[u8], le: usize) -> (r: Route)
    requires
        le == request_line_end(req@),
        le <= req@.len(),
    ensures
        r@ == forward_of(method@, url@, req@),
{
    let (host_port, path) = url_split_exec(url);
    let (host, port): (&[char], u16) = match split_once_exec(host_port, ':') {
        Some((h, ps)) => (h, port_or_exec(ps, 80)),
        None => (host_port, 80u16),
    };
    assert(host@ == host_and_port(url_split(url@).0).0);
    assert(port == host_and_port(url_split(url@).0).1);
    let tgt = to_chars(TARGET_HOST_SUBSTR);
    let is_target = find_chars(host, tgt.as_slice()).is_some();
    let request = if is_target { rewrite_request(method, path.as_slice(), req, le) } else { copy_bytes(req) };
    Route::Forward {
        host: chars_to_string(host),
        port,
        path: chars_to_string(path.as_slice()),
        request,
        target: is_target,
    }
}

/// The route of the request whose head is `req`, as `route_of` describes.
pub fn route_request(req: &[u8]) -> (r: Route)
    ensures
        r@ == route_of(req@),
{
    proof {
        reveal_strlit("CONNECT");
    }
    let (le, cs) = read_request_line(req);
    let line = cs.as_slice();
    match two_words(line) {
        None => Route::Ignore,
        Some((a1, e1, a2, e2)) => {
            let w1 = chars_to_string(&line[a1..e1]);
            assert(w1@ =~= line@.subrange(a1 as int, e1 as int));
            let method = to_uppercase(w1.as_str());
            let target = &line[a2..e2];
            assert(target@ =~= line@.subrange(a2 as int, e2 as int));
            if same_chars(method.as_str(), "CONNECT") {
                tunnel_route(target)
            } else {
                forward_route(method.as_str(), target, req, le)
            }
        },
    }
}

/// The request asks the server to check a cached copy: it has an
/// `If-None-Match`, `If-Modified-Since` or `Range` header.
pub open spec fn conditional_request(req: Seq<u8>) -> bool {
    ||| header_value_from(req, name_bytes("if-none-match"@), 0) is Some
    ||| header_value_from(req, name_bytes("if-modified-since"@), 0) is Some
    ||| header_value_from(req, name_bytes("range"@), 0) is Some
}

/// Whether the request head `req` is a cache check, as `conditional_request`.
pub fn has_conditional_headers(req: &[u8]) -> (r: bool)
    ensures
        r == conditional_request(req@),
{
    find_header_value(req, "if-none-match".as_bytes()).is_some()
        || find_header_value(req, "if-modified-since".as_bytes()).is_some()
        || find_header_value(req, "range".as_bytes()).is_some()
}

/// What to do with a request for the emblem storage service.
#[derive(Debug, Clone)]
pub enum TargetAction {
    /// Answer with the selected emblem for this slot; when none is selected,
    /// pass the real data through.
    ServeSelected { slot: u32 },
    /// Fetch the real data, keep a copy as this player's slot, and pass it on.
    Capture { userhash: String, slot: u32 },
    /// Fetch the real data and pass it on.
    PassThrough,
}

/// The action for a request of `path` in `mode`: only a path naming a
/// player and slot is served from the library (`Inject`) or kept (`Capture`).
pub fn target_action(mode: Mode, path: &str) -> (r: TargetAction)
    ensures
        match userhash_slot_from(path@, 0) {
            None => r is PassThrough,
            Some(us) => match mode {
                Mode::Inject => r matches TargetAction::ServeSelected { slot } && slot == us.1,
                Mode::Capture => r matches TargetAction::Capture { userhash, slot }
                    && userhash@ == us.0 && slot == us.1,
                Mode::Passthrough => r is PassThrough,
            },
        },
{
    match parse_userhash_slot(path) {
        None => TargetAction::PassThrough,
        Some((userhash, slot)) => match mode {
            Mode::Inject => TargetAction::ServeSelected { slot },
            Mode::Capture => TargetAction::Capture { userhash, slot },
            Mode::Passthrough => TargetAction::PassThrough,
        },
    }
}

/// How the reply to an emblem request is produced.
#[derive(Debug, Clone)]
pub enum ReplyPlan {
    /// Answer with the selected emblem's bytes; nothing is fetched.
    SendSelected,
    /// Send the request on and relay the upstream reply byte for byte,
    /// untouched.
    Relay,
    /// Read the whole upstream reply (a chunked body decoded, the head
    /// rewritten for the decoded length) and send that reply on.
    Fetch,
    /// As `Fetch`, keeping a copy of the reply as this player's slot.
    Capture { userhash: String, slot: u32 },
}

/// The reply plan for `action`, given whether an emblem is selected. A
/// request that is passed through is relayed unchanged; a swap answers with
/// the selection, or, with nothing selected, fetches the real reply whole; a
/// capture fetches the reply whole and keeps it.
pub fn plan_reply(action: &TargetAction, selection_available: bool) -> (r: ReplyPlan)
    ensures
        match action {
            TargetAction::PassThrough => r is Relay,
            TargetAction::ServeSelected { .. } => if selection_available { r is SendSelected } else { r is Fetch },
            TargetAction::Capture { userhash, slot } => r matches ReplyPlan::Capture { userhash: u, slot: s }
                && u@ == userhash@ && s == *slot,
        },
{
    match action {
        TargetAction::PassThrough => ReplyPlan::Relay,
        TargetAction::ServeSelected { .. } => if selection_available { ReplyPlan::SendSelected } else { ReplyPlan::Fetch },
        TargetAction::Capture { userhash, slot } => ReplyPlan::Capture {
            userhash: String::from_str(userhash.as_str()),
            slot: *slot,
        },
    }
}

} // verus!