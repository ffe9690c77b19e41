//! Decoding of a captured emblem slot: an optional HTTP head followed by
//! up to 32 fixed 44-byte layer records.
use vstd::prelude::*;
use crate::bytes::{find_subslice, first_occurrence, lemma_find_from, occurs_at};

verus! {

/// Size in bytes of one layer record.
pub const LAYER_SIZE: usize = 44;
/// Number of layer records in a full slot.
pub const NUM_LAYERS: usize = 32;
/// Shape id of an unused layer.
pub const EMPTY_SHAPE: u16 = 65535;

/// One used layer of an emblem. The nine floating-point fields of the record
/// are kept as the bit patterns of little-endian IEEE-754 `f32` values
/// (`f32::from_bits` turns them into numbers).
#[derive(Debug, Clone, Copy)]
pub struct Layer {
    pub index: usize,
    pub shape: u16,
    pub r: u32,
    pub g: u32,
    pub b: u32,
    pub a: u32,
    pub x: u32,
    pub y: u32,
    pub sx: u32,
    pub sy: u32,
    pub rot: u32,
    pub outlined: bool,
    pub flipped: bool,
}

/// The blank line that ends an HTTP head.
pub open spec fn head_end() -> Seq<u8> {
    seq![13u8, 10u8, 13u8, 10u8]
}

/// What follows the first blank line of `data`, or all of `data` when it has none.
pub open spec fn http_body(data: Seq<u8>) -> Seq<u8> {
    match first_occurrence(data, head_end()) {
        Some(p) => data.subrange(p + 4, data.len() as int),
        None => data,
    }
}

/// Little-endian 16-bit value at `off`.
pub open spec fn le_u16(s: Seq<u8>, off: int) -> u16 {
    (s[off] as int + 256 * s[off + 1] as int) as u16
}

/// Little-endian 32-bit value at `off`.
pub open spec fn le_u32(s: Seq<u8>, off: int) -> u32 {
    (s[off] as int + 256 * s[off + 1] as int + 65536 * s[off + 2] as int + 16777216 * s[off + 3] as int) as u32
}

/// Offset of record `i` in a body.
pub open spec fn record_start(i: int) -> int {
    i * 44
}

/// The shape id of record `i`.
pub open spec fn record_shape(body: Seq<u8>, i: int) -> u16 {
    le_u16(body, record_start(i))
}

/// The layer that record `i` of `body` describes.
pub open spec fn record_layer(body: Seq<u8>, i: int) -> Layer {
    let o = record_start(i);
    Layer {
        index: i as usize,
        shape: le_u16(body, o),
        r: le_u32(body, o + 4),
        g: le_u32(body, o + 8),
        b: le_u32(body, o + 12),
        a: le_u32(body, o + 16),
        x: le_u32(body, o + 20),
        y: le_u32(body, o + 24),
        sx: le_u32(body, o + 28),
        sy: le_u32(body, o + 32),
        rot: le_u32(body, o + 36),
        outlined: body[o + 40] != 0,
        flipped: body[o + 41] != 0,
    }
}

/// Number of whole records a body holds, at most 32.
pub open spec fn record_count(body: Seq<u8>) -> int {
    if body.len() / 44 < 32 { (body.len() / 44) as int } else { 32 }
}

/// The used layers among the first `n` records, in record order.
pub open spec fn layers_upto(body: Seq<u8>, n: int) -> Seq<Layer>
    decreases n,
{
    if n <= 0 {
        Seq::empty()
    } else if record_shape(body, n - 1) == 65535u16 {
        layers_upto(body, n - 1)
    } else {
        layers_upto(body, n - 1).push(record_layer(body, n - 1))
    }
}

/// The used layers of a slot's bytes.
pub open spec fn slot_layers(data: Seq<u8>) -> Seq<Layer> {
    layers_upto(http_body(data), record_count(http_body(data)))
}

/// Every layer taken from the first `n` records comes from a used record
/// below `n`, and the layers come in strictly increasing record order.
pub proof fn lemma_layers_upto_ordered(body: Seq<u8>, n: int)
    requires
        n <= 32,
    ensures
        forall|j: int| #![trigger layers_upto(body, n)[j]]
            0 <= j < layers_upto(body, n).len() ==> {
                let l = layers_upto(body, n)[j];
                &&& 0 <= l.index < n
                &&& l == record_layer(body, l.index as int)
                &&& record_shape(body, l.index as int) != 65535u16
            },
        forall|j: int, k: int|
            0 <= j < k < layers_upto(body, n).len() ==> #[trigger] layers_upto(body, n)[j].index
                < #[trigger] layers_upto(body, n)[k].index,
    decreases n,
{
    if n > 0 {
        lemma_layers_upto_ordered(body, n - 1);
        let prev = layers_upto(body, n - 1);
        if record_shape(body, n - 1) != 65535u16 {
            let cur = prev.push(record_layer(body, n - 1));
            assert(layers_upto(body, n) == cur);
            assert forall|j: int| #![trigger cur[j]] 0 <= j < cur.len() implies {
                let l = cur[j];
                &&& 0 <= l.index < n
                &&& l == record_layer(body, l.index as int)
                &&& record_shape(body, l.index as int) != 65535u16
            } by {
                if j < prev.len() {
                    assert(cur[j] == prev[j]);
                }
            }
            assert forall|j: int, k: int| 0 <= j < k < cur.len() implies #[trigger] cur[j].index
                < #[trigger] cur[k].index by {
                assert(cur[j] == prev[j]);
                if k < prev.len() {
                    assert(cur[k] == prev[k]);
                }
            }
        }
    }
}

/// At most one layer per record.
pub proof fn lemma_layers_upto_len(body: Seq<u8>, n: int)
    requires
        0 <= n,
    ensures
        layers_upto(body, n).len() <= n,
    decreases n,
{
    if n > 0 {
        lemma_layers_upto_len(body, n - 1);
    }
}

/// Every used record below `n` gives exactly one layer.
pub proof fn lemma_layers_upto_complete(body: Seq<u8>, n: int, i: int)
    requires
        0 <= i < n <= 32,
        record_shape(body, i) != 65535u16,
    ensures
        exists|j: int| 0 <= j < layers_upto(body, n).len() && #[trigger] layers_upto(body, n)[j].index == i,
    decreases n,
{
    lemma_layers_upto_ordered(body, n - 1);
    if i == n - 1 {
        let s = layers_upto(body, n);
        assert(s[s.len() - 1].index == i);
    } else {
        lemma_layers_upto_complete(body, n - 1, i);
        let j = choose|j: int| 0 <= j < layers_upto(body, n - 1).len() && #[trigger] layers_upto(body, n - 1)[j].index == i;
        assert(layers_upto(body, n)[j] == layers_upto(body, n - 1)[j]);
    }
}

/// A head that ends at its first blank line is removed whole: the body
/// that follows it comes back unchanged, whatever the head said.
pub proof fn lemma_http_body_of_framed(head: Seq<u8>, body: Seq<u8>)
    requires
        first_occurrence(head, head_end()) == Some(head.len() - 4),
    ensures
        http_body(head + body) == body,
{
    let data = head + body;
    lemma_find_from(head, head_end(), 0);
    lemma_find_from(data, head_end(), 0);
    let p = head.len() - 4;
    assert(data.subrange(p, p + 4) =~= head.subrange(p, p + 4));
    assert(occurs_at(data, head_end(), p));
    assert forall|q: int| 0 <= q < p implies !occurs_at(data, head_end(), q) by {
        assert(!occurs_at(head, head_end(), q));
        assert(data.subrange(q, q + 4) =~= head.subrange(q, q + 4));
    }
    assert(data.subrange(p + 4, data.len() as int) =~= body);
}

/// Bytes without a blank line are all body.
pub proof fn lemma_http_body_without_head(data: Seq<u8>)
    requires
        forall|q: int| !occurs_at(data, head_end(), q),
    ensures
        http_body(data) == data,
{
    lemma_find_from(data, head_end(), 0);
}

/// Returns what follows the first blank line (`\r\n\r\n`) of `data`, or
/// `data` itself when it holds no blank line.
pub fn strip_http(data: &[u8]) -> (r: &[u8])
    ensures
        r@ == http_body(data@),
{
    let n = data.len();
    let crlf2: [u8; 4] = [13u8, 10u8, 13u8, 10u8];
    let needle: &[u8] = crlf2.as_slice();
    assert(needle@ =~= head_end());
    match find_subslice(data, needle) {
        Some(pos) => {
            proof {
                lemma_find_from(data@, head_end(), 0);
            }
            &data[pos + 4..n]
        },
        None => data,
    }
}

fn read_u16_le(body: &[u8], off: usize) -> (v: u16)
    requires
        off + 2 <= body@.len(),
    ensures
        v == le_u16(body@, off as int),
{
    (body[off] as u16) + (body[off + 1] as u16) * 256
}

fn read_u32_le(body: &[u8], off: usize) -> (v: u32)
    requires
        off + 4 <= body@.len(),
    ensures
        v == le_u32(body@, off as int),
{
    (body[off] as u32) + (body[off + 1] as u32) * 256 + (body[off + 2] as u32) * 65536
        + (body[off + 3] as u32) * 16777216
}

/// The layers in an emblem slot, with any HTTP head in front of the records
/// skipped. At most 32 records are read; a trailing partial record is ignored,
/// and so is every record whose shape is `EMPTY_SHAPE`.
pub fn parse_slot_bytes(data: &[u8]) -> (layers: Vec<Layer>)
    ensures
        layers@ == slot_layers(data@),
        layers@.len() <= NUM_LAYERS,
        forall|j: int| #![trigger layers@[j]] 0 <= j < layers@.len() ==> layers@[j].index < NUM_LAYERS
            && layers@[j].shape != EMPTY_SHAPE,
        forall|j: int, k: int| 0 <= j < k < layers@.len() ==> #[trigger] layers@[j].index
            < #[trigger] layers@[k].index,
{
    let body = strip_http(data);
    let blen = body.len();
    let count: usize = if blen / LAYER_SIZE < NUM_LAYERS { blen / LAYER_SIZE } else { NUM_LAYERS };
    let mut layers: Vec<Layer> = Vec::with_capacity(count);
    let mut i: usize = 0;
    while i < count
        invariant
            body@ == http_body(data@),
            blen == body@.len(),
            count == record_count(body@),
            i <= count,
            layers@ == layers_upto(body@, i as int),
        decreases count - i,
    {
        let o = i * LAYER_SIZE;
        assert(o + 44 <= blen) by (nonlinear_arith)
            requires o == i * 44, i < count, count <= blen / 44;
        let shape = read_u16_le(body, o);
        if shape != EMPTY_SHAPE {
            let layer = Layer {
                index: i,
                shape,
                r: read_u32_le(body, o + 4),
                g: read_u32_le(body, o + 8),
                b: read_u32_le(body, o + 12),
                a: read_u32_le(body, o + 16),
                x: read_u32_le(body, o + 20),
                y: read_u32_le(body, o + 24),
                sx: read_u32_le(body, o + 28),
                sy: read_u32_le(body, o + 32),
                rot: read_u32_le(body, o + 36),
                outlined: body[o + 40] != 0,
                flipped: body[o + 41] != 0,
            };
            layers.push(layer);
        }
        i = i + 1;
    }
    proof {
        lemma_layers_upto_ordered(body@, count as int);
        lemma_layers_upto_len(body@, count as int);
    }
    layers
}

} // verus!
