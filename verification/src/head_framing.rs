//! A rewritten response head frames its body by length: after
//! `normalize_headers_for_body`, the head has no chunked transfer encoding
//! and its first `Content-Length` gives the body's length.
use vstd::prelude::*;
use vstd::utf8::{encode_scalar, encode_utf8, is_ascii_chars, is_ascii_chars_encode_utf8};
use crate::bytes::{first_occurrence, lemma_find_from, occurs_at};
use crate::proxy::{colon_at, crlf, header_value_from, line_end, lower_byte, lower_bytes, lower_starts_with, terminated, trim_ascii, without_cr};
use crate::text::{ascii_lower, decimal, digit_value, lemma_decimal_digits};
use crate::proxy::{content_length_line, name_bytes, skip_ascii_ws, skip_ascii_ws_back, normalized_line, normalized_lines, has_content_length, normalized_head, segments_from, framing_of, is_chunked_of, content_length_of, Framing};
use crate::text::{parse_unsigned, trimmed, skip_ws, skip_ws_back, is_white_space};

verus! {

/// The encoding of two strings one after the other.
pub(crate) proof fn lemma_encode_concat(a: Seq<char>, b: Seq<char>)
    ensures
        encode_utf8(a + b) == encode_utf8(a) + encode_utf8(b),
    decreases a.len(),
{
    if a.len() == 0 {
        assert(a + b =~= b);
        assert(encode_utf8(a) =~= Seq::<u8>::empty());
        assert(encode_utf8(a) + encode_utf8(b) =~= encode_utf8(b));
    } else {
        assert((a + b)[0] == a[0]);
        assert((a + b).drop_first() =~= a.drop_first() + b);
        lemma_encode_concat(a.drop_first(), b);
        let e = encode_scalar(a[0] as u32);
        assert(e + (encode_utf8(a.drop_first()) + encode_utf8(b)) =~= (e + encode_utf8(a.drop_first())) + encode_utf8(b));
    }
}

/// An ASCII character is encoded as its own byte; every byte of any other
/// character's encoding has its high bit set.
proof fn lemma_scalar_bytes(c: char)
    ensures
        encode_scalar(c as u32).len() >= 1,
        (c as u32) < 0x80 ==> encode_scalar(c as u32) == seq![c as u8],
        (c as u32) < 0x80 ==> (c as u8) as u32 == c as u32,
        (c as u32) >= 0x80 ==> forall|k: int| 0 <= k < encode_scalar(c as u32).len() ==> #[trigger] encode_scalar(c as u32)[k] >= 0x80,
{
    let v = c as u32;
    vstd::utf8::char_is_scalar(c);
    if v < 0x80 {
        assert(((v & 0x7F) as u8) == (v as u8)) by (bit_vector)
            requires
                v < 0x80,
        ;
        assert((c as u8) == (v as u8));
        assert((v as u8) as u32 == v) by (bit_vector)
            requires
                v < 0x80,
        ;
    } else {
        assert(forall|y: u8| #[trigger] (0xC0u8 | y) >= 0x80) by (bit_vector);
        assert(forall|y: u8| #[trigger] (0xE0u8 | y) >= 0x80) by (bit_vector);
        assert(forall|y: u8| #[trigger] (0xF0u8 | y) >= 0x80) by (bit_vector);
        assert(forall|y: u8| #[trigger] (0x80u8 | y) >= 0x80) by (bit_vector);
    }
}

/// No byte of the encoding equals an ASCII byte `b` that no character is.
pub(crate) proof fn lemma_encode_avoids(l: Seq<char>, b: u8)
    requires
        b < 0x80,
        forall|k: int| 0 <= k < l.len() ==> (#[trigger] l[k]) as u32 != b as u32,
    ensures
        forall|j: int| 0 <= j < encode_utf8(l).len() ==> #[trigger] encode_utf8(l)[j] != b,
    decreases l.len(),
{
    if l.len() > 0 {
        lemma_encode_avoids(l.drop_first(), b);
        lemma_scalar_bytes(l[0]);
        let e = encode_scalar(l[0] as u32);
        let r = encode_utf8(l.drop_first());
        assert(encode_utf8(l) == e + r);
        assert forall|j: int| 0 <= j < encode_utf8(l).len() implies #[trigger] encode_utf8(l)[j] != b by {
            if j < e.len() {
                assert(encode_utf8(l)[j] == e[j]);
                if (l[0] as u32) < 0x80 {
                    assert(e[j] == l[0] as u8);
                }
            } else {
                assert(encode_utf8(l)[j] == r[j - e.len()]);
            }
        }
    }
}

/// When the first `c + 1` bytes of the encoding are ASCII, they are the
/// first `c + 1` characters, one byte each.
proof fn lemma_ascii_byte_prefix(l: Seq<char>, c: int)
    requires
        0 <= c < encode_utf8(l).len(),
        forall|j: int| 0 <= j <= c ==> #[trigger] encode_utf8(l)[j] < 0x80,
    ensures
        c < l.len(),
        forall|j: int| 0 <= j <= c ==> ((#[trigger] l[j]) as u32) < 0x80 && encode_utf8(l)[j] == l[j] as u8,
    decreases c,
{
    lemma_scalar_bytes(l[0]);
    let e = encode_scalar(l[0] as u32);
    let r = encode_utf8(l.drop_first());
    assert(encode_utf8(l) == e + r);
    assert(encode_utf8(l)[0] == e[0]);
    assert((l[0] as u32) < 0x80);
    assert(e.len() == 1);
    if c > 0 {
        assert forall|j: int| 0 <= j <= c - 1 implies #[trigger] r[j] < 0x80 by {
            assert(encode_utf8(l)[j + 1] == r[j]);
        }
        lemma_ascii_byte_prefix(l.drop_first(), c - 1);
        assert forall|j: int| 0 <= j <= c implies ((#[trigger] l[j]) as u32) < 0x80 && encode_utf8(l)[j] == l[j] as u8 by {
            if j > 0 {
                assert(l[j] == l.drop_first()[j - 1]);
                assert(encode_utf8(l)[j] == r[j - 1]);
            }
        }
    }
}

/// A header line whose name, in ASCII lowercase, is the ASCII name `nm`
/// starts, in ASCII lowercase, with `nm:`.
proof fn lemma_line_name(l: Seq<char>, nm: Seq<char>, c: int)
    requires
        is_ascii_chars(nm),
        colon_at(encode_utf8(l)) == Some(c),
        lower_bytes(encode_utf8(l).subrange(0, c)) == encode_utf8(nm),
    ensures
        lower_starts_with(l, nm + seq![':']),
{
    let b = encode_utf8(l);
    is_ascii_chars_encode_utf8(nm);
    lemma_find_from(b, seq![58u8], 0);
    assert(b.subrange(c, c + 1) == seq![58u8]);
    assert(b[c] == 58u8) by {
        assert(b.subrange(c, c + 1)[0] == b[c]);
    }
    assert(c == nm.len());
    assert forall|j: int| 0 <= j <= c implies #[trigger] b[j] < 0x80 by {
        if j < c {
            assert(lower_bytes(b.subrange(0, c))[j] == lower_byte(b[j]));
            assert(encode_utf8(nm)[j] == nm[j] as u8);
            assert((nm[j] as u32) < 0x80);
            lemma_scalar_bytes(nm[j]);
        }
    }
    lemma_ascii_byte_prefix(l, c);
    let p = nm + seq![':'];
    assert forall|j: int| 0 <= j < p.len() implies #[trigger] ascii_lower(l).subrange(0, p.len() as int)[j] == p[j] by {
        lemma_scalar_bytes(l[j]);
        if j < c {
            lemma_scalar_bytes(nm[j]);
            assert(lower_bytes(b.subrange(0, c))[j] == lower_byte(b[j]));
            assert(encode_utf8(nm)[j] == nm[j] as u8);
            assert(b[j] == l[j] as u8);
        } else {
            assert(b[c] == l[c] as u8);
        }
    }
    assert(ascii_lower(l).subrange(0, p.len() as int) =~= p);
}

/// The value of a header line (its bytes, without line break) whose name,
/// in ASCII lowercase, is `name`.
pub open spec fn line_value(b: Seq<u8>, name: Seq<u8>) -> Option<Seq<u8>> {
    match colon_at(b) {
        Some(c) => if lower_bytes(b.subrange(0, c)) == name {
            Some(trim_ascii(b.subrange(c + 1, b.len() as int)))
        } else {
            None
        },
        None => None,
    }
}

/// The value of the first of the lines whose name is `name`.
pub open spec fn lines_value(ls: Seq<Seq<char>>, name: Seq<u8>) -> Option<Seq<u8>>
    decreases ls.len(),
{
    if ls.len() == 0 {
        None
    } else {
        match line_value(encode_utf8(ls[0]), name) {
            Some(v) => Some(v),
            None => lines_value(ls.drop_first(), name),
        }
    }
}

/// No line holds a line feed.
pub open spec fn no_line_feeds(ls: Seq<Seq<char>>) -> bool {
    forall|i: int, k: int| 0 <= i < ls.len() && 0 <= k < ls[i].len() ==> #[trigger] ls[i][k] != '\n'
}

proof fn lemma_line_end_at(s: Seq<u8>, i: int, j: int)
    requires
        0 <= i <= j < s.len(),
        forall|m: int| i <= m < j ==> #[trigger] s[m] != 10,
        s[j] == 10,
    ensures
        line_end(s, i) == j,
    decreases j - i,
{
    if i < j {
        lemma_line_end_at(s, i + 1, j);
    }
}

proof fn lemma_line_end_shift(p: Seq<u8>, q: Seq<u8>, j: int)
    requires
        0 <= j <= q.len(),
    ensures
        line_end(p + q, p.len() + j) == p.len() + line_end(q, j),
    decreases q.len() - j,
{
    if j < q.len() {
        assert((p + q)[p.len() + j] == q[j]);
        if q[j] != 10 {
            lemma_line_end_shift(p, q, j + 1);
        }
    }
}

/// Header lines are read forward: what precedes a position does not matter.
proof fn lemma_header_value_shift(p: Seq<u8>, q: Seq<u8>, name: Seq<u8>, j: int)
    requires
        0 <= j <= q.len(),
    ensures
        header_value_from(p + q, name, p.len() + j) == header_value_from(q, name, j),
    decreases q.len() - j,
{
    lemma_line_end_shift(p, q, j);
    crate::proxy::lemma_line_end(q, j);
    let e = line_end(q, j);
    assert((p + q).subrange(p.len() + j, p.len() + e) =~= q.subrange(j, e));
    if e < q.len() {
        lemma_header_value_shift(p, q, name, e + 1);
    }
}

/// A list of lines, each followed by a line break, starts with its first line.
proof fn lemma_terminated_front(ls: Seq<Seq<char>>)
    requires
        ls.len() > 0,
    ensures
        terminated(ls) == ls[0] + crlf() + terminated(ls.drop_first()),
    decreases ls.len(),
{
    if ls.len() == 1 {
        assert(ls.drop_last().len() == 0);
        assert(ls.drop_first().len() == 0);
        assert(terminated(ls.drop_first()) == Seq::<char>::empty());
        assert(terminated(ls.drop_last()) == Seq::<char>::empty());
        assert(ls.last() == ls[0]);
        assert(ls[0] + crlf() + Seq::<char>::empty() =~= Seq::<char>::empty() + ls.last() + crlf());
    } else {
        lemma_terminated_front(ls.drop_last());
        assert(ls.drop_first().drop_last() =~= ls.drop_last().drop_first());
        assert(ls.drop_first().last() == ls.last());
        assert(ls.drop_last()[0] == ls[0]);
        let x = terminated(ls.drop_last().drop_first());
        assert(terminated(ls.drop_first()) == terminated(ls.drop_first().drop_last()) + ls.drop_first().last() + crlf());
        assert(ls[0] + crlf() + x + ls.last() + crlf() =~= ls[0] + crlf() + (x + ls.last() + crlf()));
    }
}

/// The bytes of a line break.
proof fn lemma_encode_crlf()
    ensures
        encode_utf8(crlf()) == seq![13u8, 10u8],
{
    assert(is_ascii_chars(crlf()));
    is_ascii_chars_encode_utf8(crlf());
    lemma_scalar_bytes('\r');
    lemma_scalar_bytes('\n');
    assert(encode_utf8(crlf()) =~= seq![13u8, 10u8]);
}

/// Reading a header from lines joined with line breaks and ended by a blank
/// line finds the first line with that name.
proof fn lemma_header_of_lines(ls: Seq<Seq<char>>, name: Seq<u8>)
    requires
        no_line_feeds(ls),
    ensures
        header_value_from(encode_utf8(terminated(ls) + crlf()), name, 0) == lines_value(ls, name),
    decreases ls.len(),
{
    lemma_encode_crlf();
    if ls.len() == 0 {
        let s = encode_utf8(terminated(ls) + crlf());
        assert(terminated(ls) + crlf() =~= crlf());
        assert(s == seq![13u8, 10u8]);
        lemma_line_end_at(s, 0, 1);
        assert(without_cr(s.subrange(0, 1)) =~= Seq::<u8>::empty());
        lemma_find_from(Seq::<u8>::empty(), seq![58u8], 0);
        assert(colon_at(Seq::<u8>::empty()) is None);
        assert(s.subrange(2, 2) =~= Seq::<u8>::empty());
        assert(header_value_from(s, name, 2) is None);
    } else {
        let l0 = ls[0];
        let tail = ls.drop_first();
        assert(no_line_feeds(tail)) by {
            assert forall|i: int, k: int| 0 <= i < tail.len() && 0 <= k < tail[i].len() implies #[trigger] tail[i][k] != '\n' by {
                assert(tail[i] == ls[i + 1]);
            }
        }
        lemma_header_of_lines(tail, name);
        lemma_terminated_front(ls);
        let t = terminated(tail) + crlf();
        assert(terminated(ls) + crlf() =~= l0 + crlf() + t);
        lemma_encode_concat(l0, crlf());
        lemma_encode_concat(l0 + crlf(), t);
        let e0 = encode_utf8(l0);
        let p = e0 + seq![13u8, 10u8];
        let q = encode_utf8(t);
        let s = p + q;
        assert(encode_utf8(terminated(ls) + crlf()) == s);
        assert forall|k: int| 0 <= k < l0.len() implies (#[trigger] l0[k]) as u32 != 10u8 as u32 by {
            assert(ls[0][k] != '\n');
            if (l0[k] as u32) == 10 {
                vstd::utf8::char_u32_cast(l0[k], 10u32);
                assert(l0[k] == (10u32 as char));
            }
        }
        lemma_encode_avoids(l0, 10u8);
        let n0 = e0.len() as int;
        assert forall|m: int| 0 <= m < n0 + 1 implies #[trigger] s[m] != 10 by {
            if m < n0 {
                assert(s[m] == e0[m]);
            } else {
                assert(s[m] == 13);
            }
        }
        assert(s[n0 + 1] == 10);
        lemma_line_end_at(s, 0, n0 + 1);
        assert(s.subrange(0, n0 + 1) =~= e0.push(13u8));
        assert(without_cr(e0.push(13u8)) =~= e0);
        lemma_header_value_shift(p, q, name, 0);
    }
}

/// The digits of a decimal spelling are ASCII.
proof fn lemma_decimal_ascii(n: nat)
    ensures
        decimal(n).len() >= 1,
        forall|k: int| 0 <= k < decimal(n).len() ==> 0x30 <= (#[trigger] decimal(n)[k]) as u32 <= 0x39,
{
    lemma_decimal_digits(n);
    let d = decimal(n);
    assert forall|k: int| 0 <= k < d.len() implies 0x30 <= (#[trigger] d[k]) as u32 <= 0x39 by {
        assert(digit_value(d[k], 10) >= 0);
    }
}

/// Characters below 0x80 are encoded one byte each, as themselves.
pub(crate) proof fn lemma_encode_ascii(l: Seq<char>)
    requires
        forall|k: int| 0 <= k < l.len() ==> ((#[trigger] l[k]) as u32) < 0x80,
    ensures
        encode_utf8(l).len() == l.len(),
        forall|k: int| 0 <= k < l.len() ==> #[trigger] encode_utf8(l)[k] as u32 == l[k] as u32,
    decreases l.len(),
{
    if l.len() > 0 {
        lemma_scalar_bytes(l[0]);
        lemma_encode_ascii(l.drop_first());
        let r = encode_utf8(l.drop_first());
        assert(encode_utf8(l) == seq![l[0] as u8] + r);
        assert forall|k: int| 0 <= k < l.len() implies #[trigger] encode_utf8(l)[k] as u32 == l[k] as u32 by {
            if k > 0 {
                assert(encode_utf8(l)[k] == r[k - 1]);
                assert(l[k] == l.drop_first()[k - 1]);
            }
        }
    }
}

/// The line `Content-Length: n` has the name `content-length` and the value
/// `n` in decimal, and is no `Transfer-Encoding` line.
proof fn lemma_content_length_line(n: nat)
    ensures
        line_value(encode_utf8(content_length_line(n)), name_bytes("content-length"@)) == Some(encode_utf8(decimal(n))),
        line_value(encode_utf8(content_length_line(n)), name_bytes("transfer-encoding"@)) is None,
        forall|k: int| 0 <= k < content_length_line(n).len() ==> #[trigger] content_length_line(n)[k] != '\n',
{
    reveal_strlit("Content-Length: ");
    reveal_strlit("content-length");
    reveal_strlit("transfer-encoding");
    let lab = "Content-Length: "@;
    let d = decimal(n);
    let l = content_length_line(n);
    lemma_decimal_ascii(n);
    assert(is_ascii_chars(lab));
    vstd::utf8::is_ascii_chars_nat_bound(lab);
    assert(l == lab + d);
    assert forall|i: int| 0 <= i < l.len() implies ((#[trigger] l[i]) as u32) < 0x80 by {
        if i >= lab.len() {
            assert(l[i] == d[i - lab.len()]);
        } else {
            assert(l[i] == lab[i]);
        }
    }
    lemma_encode_ascii(l);
    lemma_encode_ascii(d);
    is_ascii_chars_encode_utf8("content-length"@);
    is_ascii_chars_encode_utf8("transfer-encoding"@);
    let b = encode_utf8(l);
    assert forall|i: int| 0 <= i < l.len() implies (#[trigger] l[i]) as u32 == b[i] as u32 by {
    }
    // The first colon is the label's.
    lemma_find_from(b, seq![58u8], 0);
    assert(b.subrange(14, 15) =~= seq![58u8]);
    assert(occurs_at(b, seq![58u8], 14));
    match first_occurrence(b, seq![58u8]) {
        Some(q) => {
            if q < 14 {
                assert(b.subrange(q, q + 1)[0] == b[q]);
                assert(b[q] as u32 == l[q] as u32);
            }
            assert(q == 14);
        },
        None => {},
    }
    assert(colon_at(b) == Some(14int));
    let nm = encode_utf8("content-length"@);
    assert forall|i: int| 0 <= i < 14 implies #[trigger] lower_bytes(b.subrange(0, 14))[i] == nm[i] by {
        lemma_scalar_bytes("content-length"@[i]);
        assert(b[i] as u32 == l[i] as u32);
    }
    assert(lower_bytes(b.subrange(0, 14)) =~= nm);
    assert(lower_bytes(b.subrange(0, 14)).len() != name_bytes("transfer-encoding"@).len());
    // The value is the digits, without the space before them.
    let v = b.subrange(15, b.len() as int);
    let db = encode_utf8(d);
    assert(v.len() == db.len() + 1);
    assert(v[0] == 32u8);
    assert forall|i: int| 0 <= i < db.len() implies #[trigger] v[i + 1] == db[i] by {
        lemma_scalar_bytes(d[i]);
        assert(l[16 + i] == d[i]);
    }
    assert(skip_ascii_ws(v, 1) == 1) by {
        assert(v[1] == db[0]);
        lemma_scalar_bytes(d[0]);
    }
    assert(skip_ascii_ws(v, 0) == 1);
    assert(skip_ascii_ws_back(v, 1, v.len() as int) == v.len()) by {
        assert(v[v.len() - 1] == db[db.len() - 1]);
        lemma_scalar_bytes(d[db.len() - 1]);
    }
    assert(trim_ascii(v) =~= db);
    assert forall|k: int| 0 <= k < l.len() implies #[trigger] l[k] != '\n' by {
        if k >= lab.len() {
            assert(l[k] == d[k - lab.len()]);
        }
    }
}

/// A line that does not start with `nm:` (in ASCII lowercase) has no value
/// under the name `nm`.
proof fn lemma_other_line(l: Seq<char>, nm: Seq<char>)
    requires
        is_ascii_chars(nm),
        !lower_starts_with(l, nm + seq![':']),
    ensures
        line_value(encode_utf8(l), encode_utf8(nm)) is None,
{
    match colon_at(encode_utf8(l)) {
        Some(c) => {
            if lower_bytes(encode_utf8(l).subrange(0, c)) == encode_utf8(nm) {
                lemma_line_name(l, nm, c);
            }
        },
        None => {},
    }
}

/// The first value among two lists of lines one after the other.
proof fn lemma_lines_value_concat(a: Seq<Seq<char>>, b: Seq<Seq<char>>, name: Seq<u8>)
    ensures
        lines_value(a + b, name) == (match lines_value(a, name) {
            Some(v) => Some(v),
            None => lines_value(b, name),
        }),
    decreases a.len(),
{
    if a.len() == 0 {
        assert(a + b =~= b);
    } else {
        assert((a + b)[0] == a[0]);
        assert((a + b).drop_first() =~= a.drop_first() + b);
        lemma_lines_value_concat(a.drop_first(), b, name);
    }
}

proof fn lemma_one_line_value(l: Seq<char>, name: Seq<u8>)
    ensures
        lines_value(seq![l], name) == line_value(encode_utf8(l), name),
{
    let one = seq![l];
    assert(one[0] == l);
    assert(one.drop_first() =~= Seq::<Seq<char>>::empty());
    assert(lines_value(one.drop_first(), name) is None);
}

/// The rewritten lines hold no line feed, carry no `Transfer-Encoding`, and
/// their first `Content-Length` (if the head had one) gives `n`.
proof fn lemma_normalized_values(segs: Seq<Seq<char>>, n: nat)
    requires
        no_line_feeds(segs),
    ensures
        no_line_feeds(normalized_lines(segs, n)),
        lines_value(normalized_lines(segs, n), name_bytes("transfer-encoding"@)) is None,
        lines_value(normalized_lines(segs, n), name_bytes("content-length"@)) == (if has_content_length(segs) {
            Some(encode_utf8(decimal(n)))
        } else {
            None
        }),
    decreases segs.len(),
{
    reveal_strlit("content-length");
    reveal_strlit("transfer-encoding");
    reveal_strlit("content-length:");
    reveal_strlit("transfer-encoding:");
    let te = name_bytes("transfer-encoding"@);
    let cl = name_bytes("content-length"@);
    if segs.len() == 0 {
        assert(normalized_lines(segs, n) =~= Seq::<Seq<char>>::empty());
    } else {
        let init = segs.drop_last();
        let last = segs.last();
        assert(no_line_feeds(init)) by {
            assert forall|i: int, k: int| 0 <= i < init.len() && 0 <= k < init[i].len() implies #[trigger] init[i][k] != '\n' by {
                assert(init[i] == segs[i]);
            }
        }
        lemma_normalized_values(init, n);
        let a = normalized_lines(init, n);
        let b = normalized_line(last, n);
        assert(normalized_lines(segs, n) == a + b);
        lemma_lines_value_concat(a, b, te);
        lemma_lines_value_concat(a, b, cl);
        lemma_content_length_line(n);
        assert("content-length:"@ =~= "content-length"@ + seq![':']);
        assert("transfer-encoding:"@ =~= "transfer-encoding"@ + seq![':']);
        if last.len() == 0 || lower_starts_with(last, "transfer-encoding:"@) {
            assert(b =~= Seq::<Seq<char>>::empty());
            assert(a + b =~= a);
        } else if lower_starts_with(last, "content-length:"@) {
            assert(b == seq![content_length_line(n)]);
            lemma_one_line_value(content_length_line(n), te);
            lemma_one_line_value(content_length_line(n), cl);
        } else {
            assert(b == seq![last]);
            lemma_one_line_value(last, te);
            lemma_one_line_value(last, cl);
            lemma_other_line(last, "transfer-encoding"@);
            lemma_other_line(last, "content-length"@);
        }
        assert(no_line_feeds(a + b)) by {
            assert forall|i: int, k: int| 0 <= i < (a + b).len() && 0 <= k < (a + b)[i].len() implies #[trigger] (a + b)[i][k] != '\n' by {
                if i >= a.len() {
                    assert((a + b)[i] == b[i - a.len()]);
                    if b[i - a.len()] == last {
                        assert(last == segs[segs.len() - 1]);
                    }
                } else {
                    assert((a + b)[i] == a[i]);
                }
            }
        }
    }
}

/// A head rewritten by `normalize_headers_for_body` for a body of `n` bytes
/// frames that body by its length: it announces no chunked transfer
/// encoding, and its first `Content-Length` reads as `n`. This holds of every
/// head whose lines are broken by CRLF only (no line holds a lone line feed).
pub proof fn lemma_normalized_head_framing(text: Seq<char>, n: nat)
    requires
        n <= usize::MAX,
        no_line_feeds(segments_from(text, 0)),
    ensures
        framing_of(encode_utf8(normalized_head(text, n))) == Framing::Length(n as usize),
{
    reveal_strlit("content-length");
    reveal_strlit("transfer-encoding");
    let segs = segments_from(text, 0);
    let extra: Seq<Seq<char>> = if has_content_length(segs) { Seq::empty() } else { seq![content_length_line(n)] };
    let lines = normalized_lines(segs, n) + extra;
    let te = name_bytes("transfer-encoding"@);
    let cl = name_bytes("content-length"@);
    lemma_normalized_values(segs, n);
    lemma_content_length_line(n);
    lemma_lines_value_concat(normalized_lines(segs, n), extra, te);
    lemma_lines_value_concat(normalized_lines(segs, n), extra, cl);
    if !has_content_length(segs) {
        lemma_one_line_value(content_length_line(n), te);
        lemma_one_line_value(content_length_line(n), cl);
    } else {
        assert(extra =~= Seq::<Seq<char>>::empty());
    }
    let nl = normalized_lines(segs, n);
    assert(no_line_feeds(lines)) by {
        assert forall|i: int, k: int| 0 <= i < lines.len() && 0 <= k < lines[i].len() implies #[trigger] lines[i][k] != '\n' by {
            if i >= nl.len() {
                assert(lines[i] == extra[i - nl.len()]);
                assert(extra[i - nl.len()] == content_length_line(n));
            } else {
                assert(lines[i] == nl[i]);
            }
        }
    }
    assert(normalized_head(text, n) == crate::proxy::terminated(lines) + crlf());
    lemma_header_of_lines(lines, te);
    lemma_header_of_lines(lines, cl);
    let h = encode_utf8(normalized_head(text, n));
    assert(!is_chunked_of(h));
    // The value reads back as `n`.
    let d = decimal(n);
    vstd::utf8::encode_utf8_valid_utf8(d);
    vstd::utf8::encode_utf8_decode_utf8(d);
    lemma_decimal_ascii(n);
    lemma_decimal_digits(n);
    assert(!is_white_space(d[0]));
    assert(!is_white_space(d[d.len() - 1]));
    assert(skip_ws(d, 0) == 0);
    assert(skip_ws_back(d, d.len() as int) == d.len());
    assert(trimmed(d) =~= d);
    assert(parse_unsigned(d, 10) == Some(n));
    assert(content_length_of(h) == Some(n));
}

} // verus!
