//! Decoding a chunked body step by step gives back the data it was made of.
use vstd::prelude::*;
use crate::bytes::{first_occurrence, lemma_find_from, occurs_at};
use crate::proxy::{chunk_size_of, chunk_step_of, crlf_bytes, trailers_complete, ChunkStep};

verus! {

/// A line that holds no carriage return.
#[verifier::opaque]
pub open spec fn no_cr(l: Seq<u8>) -> bool {
    forall|k: int| 0 <= k < l.len() ==> #[trigger] l[k] != 13
}

/// The trailer section: each trailer line followed by a line break, then an
/// empty line.
pub open spec fn trailer_section(trailers: Seq<Seq<u8>>) -> Seq<u8>
    decreases trailers.len(),
{
    if trailers.len() == 0 {
        crlf_bytes()
    } else {
        trailers[0] + crlf_bytes() + trailer_section(trailers.drop_first())
    }
}

/// A chunked body: each chunk as its size line, a line break, its data and a
/// line break; then the last size line, a line break and the trailer
/// section.
pub open spec fn chunked_body(chunks: Seq<(Seq<u8>, Seq<u8>)>, last: Seq<u8>, trailers: Seq<Seq<u8>>) -> Seq<u8>
    decreases chunks.len(),
{
    if chunks.len() == 0 {
        last + crlf_bytes() + trailer_section(trailers)
    } else {
        chunks[0].0 + crlf_bytes() + chunks[0].1 + crlf_bytes() + chunked_body(chunks.drop_first(), last, trailers)
    }
}

/// A well-formed chunked body: every size line (hexadecimal in either case,
/// with any leading zeros, extensions after `;`, surrounding white space)
/// reads as its chunk's length, which is not zero; the last size line reads
/// as zero; trailer lines are not empty; and no line holds a carriage return.
pub open spec fn well_formed_chunks(chunks: Seq<(Seq<u8>, Seq<u8>)>, last: Seq<u8>, trailers: Seq<Seq<u8>>) -> bool {
    &&& forall|i: int| 0 <= i < chunks.len() ==> {
        &&& no_cr((#[trigger] chunks[i]).0)
        &&& chunk_size_of(chunks[i].0) == chunks[i].1.len()
        &&& chunks[i].1.len() > 0
    }
    &&& no_cr(last)
    &&& chunk_size_of(last) == 0
    &&& forall|j: int| 0 <= j < trailers.len() ==> (#[trigger] trailers[j]).len() > 0 && no_cr(trailers[j])
}

/// The data of the chunks, one after the other.
pub open spec fn joined_chunks(chunks: Seq<(Seq<u8>, Seq<u8>)>) -> Seq<u8>
    decreases chunks.len(),
{
    if chunks.len() == 0 {
        Seq::empty()
    } else {
        chunks[0].1 + joined_chunks(chunks.drop_first())
    }
}

/// What decoding steps give when each works on what the step before left,
/// without waiting for more input: the data taken until a step finds the
/// body complete; `None` when a step would wait or stop, or after `fuel`
/// steps.
pub open spec fn decode_steps(raw: Seq<u8>, fuel: nat) -> Option<Seq<u8>>
    decreases fuel,
{
    if fuel == 0 {
        None
    } else {
        match chunk_step_of(raw, false) {
            ChunkStep::Done => Some(Seq::empty()),
            ChunkStep::Data { start, end, next: Some(n) } => if start <= end <= n <= raw.len() {
                match decode_steps(raw.subrange(n as int, raw.len() as int), (fuel - 1) as nat) {
                    Some(rest) => Some(raw.subrange(start as int, end as int) + rest),
                    None => None,
                }
            } else {
                None
            },
            _ => None,
        }
    }
}

/// The first line break of `line`, a line break and more comes right after
/// a line that holds no carriage return.
proof fn lemma_first_crlf(line: Seq<u8>, rest: Seq<u8>)
    requires
        no_cr(line),
    ensures
        first_occurrence(line + crlf_bytes() + rest, crlf_bytes()) == Some(line.len() as int),
{
    let raw = line + crlf_bytes() + rest;
    let n = line.len() as int;
    assert(raw[n] == 13u8);
    assert(raw[n + 1] == 10u8);
    assert(raw.subrange(n, n + 2) =~= crlf_bytes());
    assert(occurs_at(raw, crlf_bytes(), n));
    lemma_find_from(raw, crlf_bytes(), 0);
    let r = first_occurrence(raw, crlf_bytes());
    match r {
        Some(p) => {
            if p < n {
                lemma_no_crlf_in_line(line, rest, p);
                assert(false);
            } else if p > n {
                assert(!occurs_at(raw, crlf_bytes(), n));
                assert(false);
            }
        },
        None => {
            assert(!occurs_at(raw, crlf_bytes(), n));
            assert(false);
        },
    }
}

proof fn lemma_no_crlf_in_line(line: Seq<u8>, rest: Seq<u8>, p: int)
    requires
        no_cr(line),
        0 <= p < line.len(),
    ensures
        !occurs_at(line + crlf_bytes() + rest, crlf_bytes(), p),
{
    let raw = line + crlf_bytes() + rest;
    reveal(no_cr);
    assert(raw[p] == line[p]);
    assert(line[p] != 13);
    if occurs_at(raw, crlf_bytes(), p) {
        assert(raw.subrange(p, p + 2)[0] == raw[p]);
    }
}

/// A trailer section ends the body, wherever it starts.
proof fn lemma_trailers(raw: Seq<u8>, pos: int, trailers: Seq<Seq<u8>>)
    requires
        0 <= pos <= raw.len(),
        raw.subrange(pos, raw.len() as int) == trailer_section(trailers),
        forall|j: int| 0 <= j < trailers.len() ==> (#[trigger] trailers[j]).len() > 0 && no_cr(trailers[j]),
    ensures
        trailers_complete(raw, pos),
    decreases trailers.len(),
{
    let t = raw.subrange(pos, raw.len() as int);
    if trailers.len() == 0 {
        assert(no_cr(Seq::<u8>::empty())) by {
            reveal(no_cr);
        }
        lemma_first_crlf(Seq::empty(), Seq::empty());
        assert(Seq::<u8>::empty() + crlf_bytes() + Seq::<u8>::empty() =~= t);
    } else {
        let t0 = trailers[0];
        let tail = trailers.drop_first();
        assert(no_cr(t0));
        lemma_first_crlf(t0, trailer_section(tail));
        assert(t == t0 + crlf_bytes() + trailer_section(tail));
        let next = pos + t0.len() + 2;
        let k = t0.len() as int + 2;
        assert(t.subrange(k, t.len() as int) =~= trailer_section(tail));
        assert(raw.subrange(next, raw.len() as int) =~= t.subrange(k, t.len() as int));
        assert forall|j: int| 0 <= j < tail.len() implies (#[trigger] tail[j]).len() > 0 && no_cr(tail[j]) by {
            assert(tail[j] == trailers[j + 1]);
        }
        lemma_trailers(raw, next, tail);
    }
}

/// The last size line and the trailer section end the body.
proof fn lemma_last_chunk(last: Seq<u8>, trailers: Seq<Seq<u8>>)
    requires
        no_cr(last),
        chunk_size_of(last) == 0,
        forall|j: int| 0 <= j < trailers.len() ==> (#[trigger] trailers[j]).len() > 0 && no_cr(trailers[j]),
    ensures
        chunk_step_of(last + crlf_bytes() + trailer_section(trailers), false) == ChunkStep::Done,
{
    let raw = last + crlf_bytes() + trailer_section(trailers);
    lemma_first_crlf(last, trailer_section(trailers));
    assert(raw.subrange(0, last.len() as int) =~= last);
    let pos = last.len() as int + 2;
    assert(raw.subrange(pos, raw.len() as int) =~= trailer_section(trailers));
    lemma_trailers(raw, pos, trailers);
}

/// A complete chunk in front of the rest is taken whole.
proof fn lemma_chunk_step(line: Seq<u8>, data: Seq<u8>, rest: Seq<u8>)
    requires
        no_cr(line),
        chunk_size_of(line) == data.len(),
        data.len() > 0,
        (line + crlf_bytes() + data + crlf_bytes() + rest).len() <= usize::MAX,
    ensures
        ({
            let raw = line + crlf_bytes() + data + crlf_bytes() + rest;
            let hl = line.len() as int;
            &&& chunk_step_of(raw, false) == ChunkStep::Data {
                start: (hl + 2) as usize,
                end: (hl + 2 + data.len()) as usize,
                next: Some((hl + 4 + data.len()) as usize),
            }
            &&& hl + 4 + data.len() <= raw.len()
            &&& raw.subrange(hl + 2, hl + 2 + data.len()) == data
            &&& raw.subrange(hl + 4 + data.len(), raw.len() as int) == rest
        }),
{
    let raw = line + crlf_bytes() + data + crlf_bytes() + rest;
    let hl = line.len() as int;
    lemma_first_crlf(line, data + crlf_bytes() + rest);
    assert(line + crlf_bytes() + (data + crlf_bytes() + rest) =~= raw);
    assert(raw.subrange(0, hl) =~= line);
    assert(raw.subrange(hl + 2, hl + 2 + data.len()) =~= data);
    assert(raw.subrange(hl + 4 + data.len(), raw.len() as int) =~= rest);
}

/// Decoding a well-formed chunked body, one step after another and without
/// waiting for more input, gives back the chunks' data, and ends with the
/// body found complete.
pub proof fn lemma_chunked_round_trip(chunks: Seq<(Seq<u8>, Seq<u8>)>, last: Seq<u8>, trailers: Seq<Seq<u8>>)
    requires
        well_formed_chunks(chunks, last, trailers),
        chunked_body(chunks, last, trailers).len() <= usize::MAX,
    ensures
        decode_steps(chunked_body(chunks, last, trailers), chunks.len() + 1) == Some(joined_chunks(chunks)),
    decreases chunks.len(),
{
    if chunks.len() == 0 {
        lemma_last_chunk(last, trailers);
        assert(joined_chunks(chunks) =~= Seq::<u8>::empty());
    } else {
        let c0 = chunks[0];
        let tail = chunks.drop_first();
        let rest = chunked_body(tail, last, trailers);
        assert(no_cr(c0.0) && chunk_size_of(c0.0) == c0.1.len() && c0.1.len() > 0);
        lemma_chunk_step(c0.0, c0.1, rest);
        assert forall|i: int| 0 <= i < tail.len() implies {
            &&& no_cr((#[trigger] tail[i]).0)
            &&& chunk_size_of(tail[i].0) == tail[i].1.len()
            &&& tail[i].1.len() > 0
        } by {
            assert(tail[i] == chunks[i + 1]);
        }
        lemma_chunked_round_trip(tail, last, trailers);
    }
}

} // verus!
