//! Sliding-window maximum and minimum over a byte sequence.
use vstd::prelude::*;
use std::collections::VecDeque;

verus! {

/// `x` is at least as extreme as `y`: not smaller for a maximum, not larger for a minimum.
pub open spec fn at_least(x: u8, y: u8, is_max: bool) -> bool {
    if is_max { x >= y } else { x <= y }
}

/// The more extreme of two values (the first on a tie).
pub open spec fn pick(x: u8, y: u8, is_max: bool) -> u8 {
    if at_least(x, y, is_max) { x } else { y }
}

/// Maximum (or minimum) of `s[start .. start + len]`.
pub open spec fn window_extreme(s: Seq<u8>, start: int, len: int, is_max: bool) -> u8
    decreases len,
{
    if len <= 1 {
        s[start]
    } else {
        pick(window_extreme(s, start, len - 1, is_max), s[start + len - 1], is_max)
    }
}

/// `input` with `r` copies of its first value in front and `r` of its last behind.
pub open spec fn padded(input: Seq<u8>, r: int) -> Seq<u8> {
    Seq::new(
        (input.len() + 2 * r) as nat,
        |p: int| if p < r { input[0] } else if p < r + input.len() { input[p - r] } else {
            input[input.len() - 1]
        },
    )
}

/// Sliding maximum (or minimum) of odd width `k` over `input` padded by
/// `k / 2` at both ends: position `j` holds the extreme of the `k` values
/// centred on input position `j`.
pub open spec fn sliding_extreme(input: Seq<u8>, k: int, is_max: bool) -> Seq<u8> {
    Seq::new(input.len(), |j: int| window_extreme(padded(input, k / 2), j, k, is_max))
}

/// The extreme of a non-empty window is one of its values and is at least as
/// extreme as every value in it.
pub proof fn lemma_window_extreme(s: Seq<u8>, start: int, len: int, is_max: bool)
    requires
        0 <= start,
        1 <= len,
        start + len <= s.len(),
    ensures
        exists|m: int| start <= m < start + len && s[m] == window_extreme(s, start, len, is_max),
        forall|m: int| start <= m < start + len ==> at_least(window_extreme(s, start, len, is_max), #[trigger] s[m], is_max),
    decreases len,
{
    if len <= 1 {
        assert(s[start] == window_extreme(s, start, len, is_max));
    } else {
        lemma_window_extreme(s, start, len - 1, is_max);
        let m0 = choose|m: int| start <= m < start + len - 1 && s[m] == window_extreme(s, start, len - 1, is_max);
        if at_least(window_extreme(s, start, len - 1, is_max), s[start + len - 1], is_max) {
            assert(s[m0] == window_extreme(s, start, len, is_max));
        } else {
            assert(s[start + len - 1] == window_extreme(s, start, len, is_max));
        }
    }
}

/// A value of the window that is at least as extreme as all of it is its extreme.
pub proof fn lemma_window_extreme_unique(s: Seq<u8>, start: int, len: int, is_max: bool, m: int)
    requires
        0 <= start,
        1 <= len,
        start + len <= s.len(),
        start <= m < start + len,
        forall|q: int| start <= q < start + len ==> at_least(s[m], #[trigger] s[q], is_max),
    ensures
        window_extreme(s, start, len, is_max) == s[m],
{
    lemma_window_extreme(s, start, len, is_max);
    let w = choose|q: int| start <= q < start + len && s[q] == window_extreme(s, start, len, is_max);
    assert(at_least(s[m], s[w], is_max));
    assert(at_least(window_extreme(s, start, len, is_max), s[m], is_max));
}

/// The monotone queue after position `i - 1` has been taken in: its positions
/// increase and lie in the last window, their values strictly decrease in
/// extremity, the newest position is queued, and every position of the last
/// window is matched by a queued position at or after it that is at least as
/// extreme.
#[verifier::opaque]
pub open spec fn queue_ok(dq: Seq<usize>, pad: Seq<u8>, i: int, k: int, is_max: bool) -> bool {
    &&& forall|a: int| 0 <= a < dq.len() ==> #[trigger] dq[a] < i && dq[a] + k >= i
    &&& i <= pad.len()
    &&& forall|a: int, b: int| 0 <= a < b < dq.len() ==> #[trigger] dq[a] < #[trigger] dq[b]
    &&& forall|a: int, b: int| 0 <= a < b < dq.len() ==> !at_least(#[trigger] pad[dq[b] as int], #[trigger] pad[dq[a] as int], is_max)
    &&& i > 0 ==> dq.len() > 0 && dq[dq.len() - 1] == i - 1
    &&& forall|m: int| #![trigger pad[m]] 0 <= m < i && m + k >= i ==>
        exists|a: int| 0 <= a < dq.len() && m <= #[trigger] dq[a] && at_least(pad[dq[a] as int], pad[m], is_max)
}

/// Queued positions lie before `i`.
pub proof fn lemma_queue_bounds(dq: Seq<usize>, pad: Seq<u8>, i: int, k: int, is_max: bool)
    requires
        queue_ok(dq, pad, i, k, is_max),
    ensures
        forall|a: int| 0 <= a < dq.len() ==> #[trigger] dq[a] < i,
        i <= pad.len(),
{
    reveal(queue_ok);
}

#[verifier::rlimit(40)]
/// Taking in position `i` after dropping the queued positions it dominates:
/// the queue then describes position `i` with a window one longer.
pub proof fn lemma_queue_push(dq0: Seq<usize>, kept: int, pad: Seq<u8>, i: int, k: int, is_max: bool)
    requires
        queue_ok(dq0, pad, i, k, is_max),
        0 <= i < pad.len(),
        pad.len() + k <= usize::MAX,
        k >= 1,
        0 <= kept <= dq0.len(),
        forall|a: int| kept <= a < dq0.len() ==> at_least(pad[i], #[trigger] pad[dq0[a] as int], is_max),
        kept > 0 ==> !at_least(pad[i], pad[dq0[kept - 1] as int], is_max),
    ensures
        queue_ok(dq0.subrange(0, kept).push(i as usize), pad, i + 1, k + 1, is_max),
{
    reveal(queue_ok);
    let dq1 = dq0.subrange(0, kept).push(i as usize);
    assert(dq1[kept] == i);
    assert forall|a: int, b: int| 0 <= a < b < dq1.len() implies !at_least(
        #[trigger] pad[dq1[b] as int],
        #[trigger] pad[dq1[a] as int],
        is_max,
    ) by {
        assert(dq1[a] == dq0[a]);
        if b < kept {
            assert(dq1[b] == dq0[b]);
        } else if a < kept - 1 {
            assert(!at_least(pad[dq0[kept - 1] as int], pad[dq0[a] as int], is_max));
        }
    }
    assert forall|a: int, b: int| 0 <= a < b < dq1.len() implies #[trigger] dq1[a] < #[trigger] dq1[b] by {
        assert(dq1[a] == dq0[a]);
        if b < kept {
            assert(dq1[b] == dq0[b]);
        }
    }
    assert forall|m: int| #![trigger pad[m]] 0 <= m < i + 1 && m + k + 1 >= i + 1 implies exists|a: int|
        0 <= a < dq1.len() && m <= #[trigger] dq1[a] && at_least(pad[dq1[a] as int], pad[m], is_max) by {
        if m == i {
            assert(dq1[kept] == i);
        } else {
            let a0 = choose|a: int| 0 <= a < dq0.len() && m <= #[trigger] dq0[a] && at_least(pad[dq0[a] as int], pad[m], is_max);
            if a0 < kept {
                assert(dq1[a0] == dq0[a0]);
            } else {
                assert(at_least(pad[dq1[kept] as int], pad[m], is_max));
            }
        }
    }
    assert forall|a: int| 0 <= a < dq1.len() implies #[trigger] dq1[a] < i + 1 && dq1[a] + k + 1 >= i + 1 by {
        if a < kept {
            assert(dq1[a] == dq0[a]);
        }
    }
}

/// Dropping the front when it has left the window of length `k` ending at
/// `i - 1` turns a queue for windows of length `k + 1` into one for `k`.
pub proof fn lemma_queue_trim(dq1: Seq<usize>, pad: Seq<u8>, i: int, k: int, is_max: bool)
    requires
        queue_ok(dq1, pad, i, k + 1, is_max),
        i >= 1,
        k >= 1,
    ensures
        dq1.len() > 0,
        ({
            let dq2 = if dq1[0] + k < i { dq1.subrange(1, dq1.len() as int) } else { dq1 };
            &&& dq2.len() > 0
            &&& queue_ok(dq2, pad, i, k, is_max)
        }),
{
    reveal(queue_ok);
    let dq2 = if dq1[0] + k < i { dq1.subrange(1, dq1.len() as int) } else { dq1 };
    if dq1[0] + k < i {
        assert(dq1.len() > 1) by {
            assert(dq1[dq1.len() - 1] == i - 1);
        }
        assert forall|m: int| #![trigger pad[m]] 0 <= m < i && m + k >= i implies exists|a: int|
            0 <= a < dq2.len() && m <= #[trigger] dq2[a] && at_least(pad[dq2[a] as int], pad[m], is_max) by {
            let a1 = choose|a: int| 0 <= a < dq1.len() && m <= #[trigger] dq1[a] && at_least(pad[dq1[a] as int], pad[m], is_max);
            assert(a1 != 0);
            assert(dq2[a1 - 1] == dq1[a1]);
        }
        assert forall|a: int| 0 <= a < dq2.len() implies #[trigger] dq2[a] < i && dq2[a] + k >= i by {
            assert(dq2[a] == dq1[a + 1]);
            assert(dq1[0] < dq1[a + 1]);
        }
        assert forall|a: int, b: int| 0 <= a < b < dq2.len() implies #[trigger] dq2[a] < #[trigger] dq2[b] by {
            assert(dq2[a] == dq1[a + 1]);
            assert(dq2[b] == dq1[b + 1]);
        }
        assert forall|a: int, b: int| 0 <= a < b < dq2.len() implies !at_least(
            #[trigger] pad[dq2[b] as int],
            #[trigger] pad[dq2[a] as int],
            is_max,
        ) by {
            assert(dq2[a] == dq1[a + 1]);
            assert(dq2[b] == dq1[b + 1]);
        }
        assert(dq2[dq2.len() - 1] == dq1[dq1.len() - 1]);
    } else {
        assert forall|a: int| 0 <= a < dq2.len() implies #[trigger] dq2[a] < i && dq2[a] + k >= i by {
            if a > 0 {
                assert(dq1[0] < dq1[a]);
            }
        }
    }
}

/// Once a full window of length `k` ends at `i - 1`, the front of the queue
/// holds its extreme.
pub proof fn lemma_queue_front(dq: Seq<usize>, pad: Seq<u8>, i: int, k: int, is_max: bool)
    requires
        queue_ok(dq, pad, i, k, is_max),
        i >= k >= 1,
    ensures
        dq.len() > 0,
        dq[0] < i,
        window_extreme(pad, i - k, k, is_max) == pad[dq[0] as int],
{
    reveal(queue_ok);
    let j = i - k;
    assert forall|q: int| j <= q < j + k implies at_least(pad[dq[0] as int], #[trigger] pad[q], is_max) by {
        let a = choose|a: int| 0 <= a < dq.len() && q <= #[trigger] dq[a] && at_least(pad[dq[a] as int], pad[q], is_max);
        if a > 0 {
            assert(!at_least(pad[dq[a] as int], pad[dq[0] as int], is_max));
        }
    }
    lemma_window_extreme_unique(pad, j, k, is_max, dq[0] as int);
}

/// Sliding maximum (`is_max`) or minimum of width `k` over `input`, with the
/// input's end values repeated `k / 2` times beyond each end. Uses a
/// monotone queue of candidate positions, so each value enters and leaves it once.
pub fn sliding_extreme_1d(input: &[u8], k: usize, is_max: bool) -> (out: Vec<u8>)
    requires
        input@.len() > 0 ==> k % 2 == 1,
        input@.len() > 0 ==> input@.len() + 2 * k <= usize::MAX,
    ensures
        out@ == sliding_extreme(input@, k as int, is_max),
{
    let n = input.len();
    if n == 0 {
        assert(sliding_extreme(input@, k as int, is_max) =~= Seq::<u8>::empty());
        return Vec::new();
    }
    let radius = k / 2;
    let mut padded_v: Vec<u8> = Vec::with_capacity(n + 2 * radius);
    let mut p: usize = 0;
    let total = n + 2 * radius;
    let ghost pad = padded(input@, radius as int);
    while p < total
        invariant
            n == input@.len(),
            n > 0,
            total == n + 2 * radius,
            radius == k / 2,
            pad == padded(input@, radius as int),
            p <= total,
            padded_v@ == pad.subrange(0, p as int),
        decreases total - p,
    {
        let v = if p < radius { input[0] } else if p < radius + n { input[p - radius] } else { input[n - 1] };
        padded_v.push(v);
        p = p + 1;
        assert(padded_v@ =~= pad.subrange(0, p as int));
    }
    assert(padded_v@ =~= pad);

    let mut out: Vec<u8> = Vec::new();
    let mut fill: usize = 0;
    while fill < n
        invariant
            fill <= n,
            out@.len() == fill,
            forall|j: int| 0 <= j < fill ==> out@[j] == 0u8,
        decreases n - fill,
    {
        out.push(0u8);
        fill = fill + 1;
    }

    let mut dq: VecDeque<usize> = VecDeque::new();
    let mut i: usize = 0;
    proof {
        reveal(queue_ok);
    }
    while i < total
        invariant
            n == input@.len(),
            n > 0,
            k >= 1,
            total == n + 2 * radius,
            total + k <= usize::MAX,
            radius == k / 2,
            padded_v@ == pad,
            pad == padded(input@, radius as int),
            pad.len() == total,
            i <= total,
            out@.len() == n,
            queue_ok(dq@, pad, i as int, k as int, is_max),
            forall|j: int| #![trigger out@[j]] 0 <= j < n ==> out@[j] == (if j + k <= i {
                window_extreme(pad, j, k as int, is_max)
            } else {
                0u8
            }),
            k % 2 == 1,
        decreases total - i,
    {
        let v = padded_v[i];
        let ghost dq0 = dq@;
        proof {
            lemma_queue_bounds(dq0, pad, i as int, k as int, is_max);
        }
        // drop queued positions that the new value dominates
        while dq.len() > 0 && dominates(v, padded_v[dq[dq.len() - 1]], is_max)
            invariant
                padded_v@ == pad,
                pad.len() == total,
                v == pad[i as int],
                i < total,
                dq@.len() <= dq0.len(),
                dq@ == dq0.subrange(0, dq@.len() as int),
                forall|a: int| dq@.len() <= a < dq0.len() ==> at_least(v, #[trigger] pad[dq0[a] as int], is_max),
                forall|a: int| 0 <= a < dq0.len() ==> #[trigger] dq0[a] < i,
            decreases dq@.len(),
        {
            assert(dq@[dq@.len() - 1] == dq0[dq@.len() - 1]);
            let _ = dq.pop_back();
        }
        let ghost kept = dq@.len();
        proof {
            if kept > 0 {
                assert(dq@[kept - 1] == dq0[kept - 1]);
            }
            lemma_queue_push(dq0, kept as int, pad, i as int, k as int, is_max);
        }
        dq.push_back(i);
        assert(dq@ == dq0.subrange(0, kept as int).push(i));
        proof {
            lemma_queue_trim(dq@, pad, i + 1, k as int, is_max);
        }
        if dq[0] + k <= i {
            let _ = dq.pop_front();
        }
        proof {
            if i + 1 >= k {
                lemma_queue_front(dq@, pad, i + 1, k as int, is_max);
            }
        }
        if i + 1 >= k {
            let j = i + 1 - k;
            assert(j < n) by {
                assert(2 * (k / 2) + 1 == k) by (nonlinear_arith)
                    requires k % 2 == 1;
            }
            let e = padded_v[dq[0]];
            out.set(j, e);
        }
        i = i + 1;
    }
    proof {
        assert(2 * (k / 2) + 1 == k) by (nonlinear_arith)
            requires k % 2 == 1;
        assert(out@ =~= sliding_extreme(input@, k as int, is_max));
    }
    out
}

fn dominates(v: u8, queued: u8, is_max: bool) -> (r: bool)
    ensures
        r == at_least(v, queued, is_max),
{
    if is_max { queued <= v } else { queued >= v }
}

} // verus!
