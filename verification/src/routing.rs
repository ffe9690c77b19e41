//! What the proxy reads from a well-shaped request: the port of a request's
//! URL, and the player and slot of an emblem path.
use vstd::prelude::*;
use crate::bytes::{first_occurrence, lemma_find_from, occurs_at};
use crate::head_framing::lemma_encode_avoids;
use crate::proxy::{
    after_scheme, crlf_bytes, digit_run_end, first_two_words, forward_of, host_and_port, port_or, request_line,
    request_line_end, route_of, url_split, userhash_slot_at, userhash_slot_from, RouteView,
};
use crate::text::{
    decimal, digit_value, digits_value, is_white_space, lemma_decimal_digits, parse_unsigned, skip_word, skip_ws,
    split_once_char, uppercase,
};
use vstd::utf8::{encode_utf8, encode_utf8_decode_utf8, encode_utf8_valid_utf8};

verus! {

/// `c` is an ASCII hexadecimal digit: `0`-`9`, `a`-`f` or `A`-`F`.
pub open spec fn is_hex_char(c: char) -> bool {
    let v = c as u32;
    (0x30 <= v <= 0x39) || (0x61 <= v <= 0x66) || (0x41 <= v <= 0x46)
}

/// `c` is an ASCII decimal digit.
pub open spec fn is_decimal_char(c: char) -> bool {
    0x30 <= c as u32 <= 0x39
}

/// A run of digits of `radix` from `i` that ends at `k` is what
/// `digit_run_end` finds.
proof fn lemma_run_end_at(s: Seq<char>, i: int, k: int, radix: int)
    requires
        0 <= i <= k <= s.len(),
        forall|m: int| i <= m < k ==> digit_value(#[trigger] s[m], radix) >= 0,
        k < s.len() ==> digit_value(s[k], radix) < 0,
    ensures
        digit_run_end(s, i, radix) == k,
    decreases k - i,
{
    if i < k {
        lemma_run_end_at(s, i + 1, k, radix);
    }
}

/// The first occurrence of `needle` is at `p` when it occurs there and
/// nowhere before.
pub(crate) proof fn lemma_first_at<A>(data: Seq<A>, needle: Seq<A>, p: int)
    requires
        needle.len() > 0,
        occurs_at(data, needle, p),
        forall|q: int| 0 <= q < p ==> !occurs_at(data, needle, q),
    ensures
        first_occurrence(data, needle) == Some(p),
{
    lemma_find_from(data, needle, 0);
}

/// The slot of an emblem path is read in base ten: a path that begins with
/// `/u`, one or more hexadecimal digits, `.slot_` and the decimal spelling
/// of `n`, followed by anything that does not begin with a decimal digit,
/// names the player `u` and those hexadecimal digits, and slot `n`.
pub proof fn lemma_slot_is_read_in_decimal(hex: Seq<char>, n: u32, tail: Seq<char>)
    requires
        hex.len() > 0,
        forall|i: int| 0 <= i < hex.len() ==> is_hex_char(#[trigger] hex[i]),
        tail.len() > 0 ==> !is_decimal_char(tail[0]),
    ensures
        userhash_slot_from(seq!['/', 'u'] + hex + ".slot_"@ + decimal(n as nat) + tail, 0)
            == Some((seq!['u'] + hex, n)),
{
    reveal_strlit(".slot_");
    let d = decimal(n as nat);
    lemma_decimal_digits(n as nat);
    let s = seq!['/', 'u'] + hex + ".slot_"@ + d + tail;
    let j: int = 2 + hex.len() as int;
    let d0: int = j + 6;
    let de: int = d0 + d.len() as int;
    assert forall|m: int| 2 <= m < j implies digit_value(#[trigger] s[m], 16) >= 0 by {
        assert(s[m] == hex[m - 2]);
        assert(is_hex_char(hex[m - 2]));
    }
    assert(s[j] == '.');
    lemma_run_end_at(s, 2, j, 16);
    assert(s.subrange(j, j + 6) =~= ".slot_"@);
    assert forall|m: int| d0 <= m < de implies digit_value(#[trigger] s[m], 10) >= 0 by {
        assert(s[m] == d[m - d0]);
    }
    if de < s.len() {
        assert(s[de] == tail[0]);
    }
    lemma_run_end_at(s, d0, de, 10);
    assert(s.subrange(d0, de) =~= d);
    assert(s.subrange(1, j) =~= seq!['u'] + hex);
    assert(userhash_slot_at(s, 0) == Some((seq!['u'] + hex, n)));
}

/// No character of `s` is white space.
pub open spec fn no_white_space(s: Seq<char>) -> bool {
    forall|i: int| 0 <= i < s.len() ==> !is_white_space(#[trigger] s[i])
}

/// `skip_ws` from `i` stops at `k` when only white space lies between.
proof fn lemma_skip_ws_at(s: Seq<char>, i: int, k: int)
    requires
        0 <= i <= k <= s.len(),
        forall|m: int| i <= m < k ==> is_white_space(#[trigger] s[m]),
        k < s.len() ==> !is_white_space(s[k]),
    ensures
        skip_ws(s, i) == k,
    decreases k - i,
{
    if i < k {
        lemma_skip_ws_at(s, i + 1, k);
    }
}

/// `skip_word` from `i` stops at `k` when no white space lies between.
proof fn lemma_skip_word_at(s: Seq<char>, i: int, k: int)
    requires
        0 <= i <= k <= s.len(),
        forall|m: int| i <= m < k ==> !is_white_space(#[trigger] s[m]),
        k < s.len() ==> is_white_space(s[k]),
    ensures
        skip_word(s, i) == k,
    decreases k - i,
{
    if i < k {
        lemma_skip_word_at(s, i + 1, k);
    }
}

/// The URL `http://host:p` followed by `path`.
pub open spec fn http_url(host: Seq<char>, p: u16, path: Seq<char>) -> Seq<char> {
    "http://"@ + host + seq![':'] + decimal(p as nat) + path
}

/// The request whose first line is `method url HTTP/1.1`, in UTF-8, and
/// whose head and body go on with `rest`.
pub open spec fn request_for(method: Seq<char>, url: Seq<char>, rest: Seq<u8>) -> Seq<u8> {
    encode_utf8(method + seq![' '] + url + " HTTP/1.1"@) + seq![13u8, 10u8] + rest
}

/// A plain HTTP request goes to the port that its URL names, whatever the
/// host: a request `method http://host:p/path HTTP/1.1` (the method not
/// `CONNECT`, the host without `:` or `/`, the path starting with `/`, none
/// of the three holding white space) is forwarded to `host` at port `p` for
/// `path`, and, unless the host is the emblem service, goes on exactly as
/// it came.
pub proof fn lemma_forward_goes_to_the_urls_port(
    method: Seq<char>,
    host: Seq<char>,
    p: u16,
    path: Seq<char>,
    rest: Seq<u8>,
)
    requires
        method.len() > 0,
        uppercase(method) != "CONNECT"@,
        no_white_space(method),
        no_white_space(host),
        no_white_space(path),
        forall|i: int| 0 <= i < host.len() ==> #[trigger] host[i] != ':' && host[i] != '/',
        path.len() > 0,
        path[0] == '/',
    ensures
        route_of(request_for(method, http_url(host, p, path), rest)) matches RouteView::Forward {
            host: h,
            port: q,
            path: pa,
            request,
            target,
        } && h == host && q == p && pa == path && (!target ==> request == request_for(
            method,
            http_url(host, p, path),
            rest,
        )),
{
    reveal_strlit("http://");
    reveal_strlit(" HTTP/1.1");
    broadcast use encode_utf8_decode_utf8, encode_utf8_valid_utf8;
    let d = decimal(p as nat);
    lemma_decimal_digits(p as nat);
    assert forall|i: int| 0 <= i < d.len() implies 0x30 <= (#[trigger] d[i]) as u32 <= 0x39 by {
        assert(digit_value(d[i], 10) >= 0);
    }
    let url = http_url(host, p, path);
    let hl = host.len() as int;
    let dl = d.len() as int;
    let ml = method.len() as int;
    let ul = url.len() as int;
    assert(ul == 7 + hl + 1 + dl + path.len());
    // The URL holds no white space.
    assert forall|k: int| 0 <= k < ul implies !is_white_space(#[trigger] url[k]) by {
        if k < 7 {
            assert(url[k] == "http://"@[k]);
        } else if k < 7 + hl {
            assert(url[k] == host[k - 7]);
        } else if k == 7 + hl {
            assert(url[k] == ':');
        } else if k < 8 + hl + dl {
            assert(url[k] == d[k - 8 - hl]);
        } else {
            assert(url[k] == path[k - 8 - hl - dl]);
        }
    }
    let line = method + seq![' '] + url + " HTTP/1.1"@;
    assert(line.len() == ml + 1 + ul + 9);
    assert forall|k: int| 0 <= k < line.len() implies (#[trigger] line[k]) as u32 != 13u8 as u32 by {
        if k < ml {
            assert(line[k] == method[k]);
        } else if k == ml {
        } else if k < ml + 1 + ul {
            assert(line[k] == url[k - ml - 1]);
        } else {
            assert(line[k] == " HTTP/1.1"@[k - ml - 1 - ul]);
        }
    }
    let enc = encode_utf8(line);
    lemma_encode_avoids(line, 13u8);
    let req = request_for(method, url, rest);
    assert(req == enc + seq![13u8, 10u8] + rest);
    let el = enc.len() as int;
    assert(req.subrange(el, el + 2) =~= crlf_bytes());
    assert forall|q: int| 0 <= q < el implies !occurs_at(req, crlf_bytes(), q) by {
        assert(req[q] == enc[q]);
        assert(req.subrange(q, q + 2)[0] == req[q]);
    }
    lemma_first_at(req, crlf_bytes(), el);
    assert(request_line_end(req) == el);
    assert(req.subrange(0, el) =~= enc);
    assert(request_line(req) == line);
    // The first two words are the method and the URL.
    assert(line[0] == method[0]);
    lemma_skip_ws_at(line, 0, 0);
    assert forall|m: int| 0 <= m < ml implies !is_white_space(#[trigger] line[m]) by {
        assert(line[m] == method[m]);
    }
    assert(line[ml] == ' ');
    lemma_skip_word_at(line, 0, ml);
    assert(line[ml + 1] == url[0]);
    assert(url[0] == 'h');
    lemma_skip_ws_at(line, ml, ml + 1);
    assert forall|m: int| ml + 1 <= m < ml + 1 + ul implies !is_white_space(#[trigger] line[m]) by {
        assert(line[m] == url[m - ml - 1]);
    }
    assert(line[ml + 1 + ul] == ' ');
    lemma_skip_word_at(line, ml + 1, ml + 1 + ul);
    assert(line.subrange(0, ml) =~= method);
    assert(line.subrange(ml + 1, ml + 1 + ul) =~= url);
    assert(first_two_words(line) == Some((method, url)));
    assert(route_of(req) == forward_of(uppercase(method), url, req));
    // The scheme ends at the first `://`.
    let sep = seq![':', '/', '/'];
    assert(url.subrange(4, 7) =~= sep);
    assert forall|q: int| 0 <= q < 4 implies !occurs_at(url, sep, q) by {
        assert(url.subrange(q, q + 3)[0] == url[q]);
        assert(url[q] == "http://"@[q]);
    }
    lemma_first_at(url, sep, 4);
    let after = host + seq![':'] + d + path;
    assert(after_scheme(url) =~= after);
    // The path starts at the first `/` after the scheme.
    let slash = seq!['/'];
    let pl = hl + 1 + dl;
    assert(after.subrange(pl, pl + 1) =~= slash);
    assert forall|q: int| 0 <= q < pl implies !occurs_at(after, slash, q) by {
        assert(after.subrange(q, q + 1)[0] == after[q]);
        if q < hl {
            assert(after[q] == host[q]);
        } else if q == hl {
        } else {
            assert(after[q] == d[q - hl - 1]);
        }
    }
    lemma_first_at(after, slash, pl);
    let hp = host + seq![':'] + d;
    assert(after.subrange(0, pl) =~= hp);
    assert(after.subrange(pl, after.len() as int) =~= path);
    assert(url_split(url) == (hp, path));
    // The port follows the first `:` of `host:p`.
    let colon = seq![':'];
    assert(hp.subrange(hl, hl + 1) =~= colon);
    assert forall|q: int| 0 <= q < hl implies !occurs_at(hp, colon, q) by {
        assert(hp.subrange(q, q + 1)[0] == hp[q]);
        assert(hp[q] == host[q]);
    }
    lemma_first_at(hp, colon, hl);
    assert(hp.subrange(0, hl) =~= host);
    assert(hp.subrange(hl + 1, hp.len() as int) =~= d);
    assert(split_once_char(hp, ':') == Some((host, d)));
    assert(parse_unsigned(d, 10) == Some(p as nat));
    assert(port_or(d, 80) == p);
    assert(host_and_port(hp) == (host, p));
}

} // verus!
