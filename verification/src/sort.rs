//! A stable insertion sort with a caller-given strict weak order.
use vstd::prelude::*;

verus! {

/// `lt` is a strict weak order: irreflexive, transitive, and with
/// incomparability transitive.
pub open spec fn strict_weak_order<T>(lt: spec_fn(T, T) -> bool) -> bool {
    &&& forall|a: T| !(#[trigger] lt(a, a))
    &&& forall|a: T, b: T, c: T| #[trigger] lt(a, b) && #[trigger] lt(b, c) ==> lt(a, c)
    &&& forall|a: T, b: T, c: T| #[trigger] lt(a, b) ==> lt(a, c) || #[trigger] lt(c, b)
}

/// Some position of `perm` holds `v`.
pub open spec fn hits(perm: Seq<int>, v: int) -> bool {
    exists|p: int| 0 <= p < perm.len() && perm[p] == v
}

/// `output` is `input` rearranged by `perm` (output position `i` holds input
/// position `perm[i]`), ordered by `lt`, with elements that `lt` does not tell
/// apart kept in their input order.
pub open spec fn stable_perm<T>(input: Seq<T>, output: Seq<T>, lt: spec_fn(T, T) -> bool, perm: Seq<int>) -> bool {
    &&& perm.len() == input.len()
    &&& output.len() == input.len()
    &&& forall|i: int| 0 <= i < perm.len() ==> 0 <= #[trigger] perm[i] < input.len() && output[i] == input[perm[i]]
    &&& forall|i: int, j: int| 0 <= i < j < perm.len() ==> #[trigger] perm[i] != #[trigger] perm[j]
    &&& forall|v: int| 0 <= v < input.len() ==> #[trigger] hits(perm, v)
    &&& forall|i: int, j: int| 0 <= i < j < output.len() ==> !lt(#[trigger] output[j], #[trigger] output[i])
    &&& forall|i: int, j: int| 0 <= i < j < output.len() && !lt(#[trigger] output[i], #[trigger] output[j]) ==> perm[i] < perm[j]
}

/// `output` is the stable sort of `input` by `lt`.
pub open spec fn sorted_stably<T>(input: Seq<T>, output: Seq<T>, lt: spec_fn(T, T) -> bool) -> bool {
    exists|perm: Seq<int>| #[trigger] stable_perm(input, output, lt, perm)
}

/// Sorts `v` stably by the order that `less` computes (`less(a, b)` says that
/// `a` goes strictly before `b`).
pub fn stable_sort_by<T, F: Fn(&T, &T) -> bool>(v: Vec<T>, less: F, Ghost(lt): Ghost<spec_fn(T, T) -> bool>) -> (r: Vec<T>)
    requires
        strict_weak_order(lt),
        forall|a: &T, b: &T| #[trigger] less.requires((a, b)),
        forall|a: &T, b: &T, res: bool| less.ensures((a, b), res) ==> res == lt(*a, *b),
    ensures
        sorted_stably(v@, r@, lt),
{
    let ghost input = v@;
    let n = v.len();
    let mut rest = v;
    let mut out: Vec<T> = Vec::new();
    let ghost mut perm: Seq<int> = Seq::empty();
    let mut i: usize = 0;
    while i < n
        invariant
            strict_weak_order(lt),
            forall|a: &T, b: &T| #[trigger] less.requires((a, b)),
            forall|a: &T, b: &T, res: bool| less.ensures((a, b), res) ==> res == lt(*a, *b),
            n == input.len(),
            i <= n,
            rest@ == input.subrange(i as int, n as int),
            perm.len() == i,
            out@.len() == i,
            forall|p: int| 0 <= p < i ==> 0 <= #[trigger] perm[p] < i && out@[p] == input[perm[p]],
            forall|p: int, q: int| 0 <= p < q < i ==> #[trigger] perm[p] != #[trigger] perm[q],
            forall|v: int| 0 <= v < i ==> #[trigger] hits(perm, v),
            forall|p: int, q: int| 0 <= p < q < i ==> !lt(#[trigger] out@[q], #[trigger] out@[p]),
            forall|p: int, q: int| 0 <= p < q < i && !lt(#[trigger] out@[p], #[trigger] out@[q]) ==> perm[p] < perm[q],
        decreases n - i,
    {
        let x = rest.remove(0);
        assert(x == input[i as int]);
        let mut j: usize = 0;
        while j < out.len() && !less(&x, &out[j])
            invariant
                forall|a: &T, b: &T| #[trigger] less.requires((a, b)),
                forall|a: &T, b: &T, res: bool| less.ensures((a, b), res) ==> res == lt(*a, *b),
                j <= out@.len(),
                forall|p: int| 0 <= p < j ==> !lt(x, #[trigger] out@[p]),
            decreases out@.len() - j,
        {
            j = j + 1;
        }
        let ghost old_out = out@;
        let ghost old_perm = perm;
        out.insert(j, x);
        proof {
            perm = old_perm.insert(j as int, i as int);
            assert(j < old_out.len() ==> lt(x, old_out[j as int]));
            assert forall|p: int| 0 <= p < i + 1 implies 0 <= #[trigger] perm[p] < i + 1 && out@[p] == input[perm[p]] by {
                if p < j {
                    assert(perm[p] == old_perm[p]);
                } else if p > j {
                    assert(perm[p] == old_perm[p - 1]);
                }
            }
            assert forall|p: int, q: int| 0 <= p < q < i + 1 implies #[trigger] perm[p] != #[trigger] perm[q] by {
                if p < j {
                    assert(perm[p] == old_perm[p]);
                } else if p > j {
                    assert(perm[p] == old_perm[p - 1]);
                }
                if q < j {
                    assert(perm[q] == old_perm[q]);
                } else if q > j {
                    assert(perm[q] == old_perm[q - 1]);
                }
            }
            assert forall|v: int| 0 <= v < i + 1 implies #[trigger] hits(perm, v) by {
                if v == i {
                    assert(perm[j as int] == v);
                } else {
                    assert(hits(old_perm, v));
                    let p0 = choose|p: int| 0 <= p < old_perm.len() && #[trigger] old_perm[p] == v;
                    if p0 < j {
                        assert(perm[p0] == v);
                    } else {
                        assert(perm[p0 + 1] == v);
                    }
                }
            }
            assert forall|p: int, q: int| 0 <= p < q < i + 1 implies !lt(#[trigger] out@[q], #[trigger] out@[p]) by {
                if q < j {
                    assert(out@[q] == old_out[q] && out@[p] == old_out[p]);
                } else if q == j {
                    assert(out@[p] == old_out[p]);
                } else if p < j {
                    assert(out@[q] == old_out[q - 1] && out@[p] == old_out[p]);
                    assert(!lt(old_out[q - 1], old_out[j as int]) || q - 1 == j);
                    if lt(old_out[q - 1], old_out[p]) {
                        assert(lt(x, old_out[j as int]));
                        if q - 1 > j {
                            assert(!lt(old_out[q - 1], old_out[j as int]));
                        }
                        assert(lt(x, old_out[q - 1]) || lt(old_out[q - 1], old_out[j as int]));
                    }
                } else if p == j {
                    assert(out@[q] == old_out[q - 1]);
                    if lt(old_out[q - 1], x) {
                        assert(lt(old_out[q - 1], old_out[j as int]));
                        if q - 1 > j {
                            assert(!lt(old_out[q - 1], old_out[j as int]));
                        }
                    }
                } else {
                    assert(out@[q] == old_out[q - 1] && out@[p] == old_out[p - 1]);
                }
            }
            assert forall|p: int, q: int| 0 <= p < q < i + 1 && !lt(#[trigger] out@[p], #[trigger] out@[q]) implies perm[p] < perm[q] by {
                if q < j {
                    assert(out@[q] == old_out[q] && out@[p] == old_out[p]);
                    assert(perm[p] == old_perm[p] && perm[q] == old_perm[q]);
                } else if q == j {
                    assert(perm[p] == old_perm[p]);
                } else if p < j {
                    assert(out@[q] == old_out[q - 1] && out@[p] == old_out[p]);
                    assert(perm[p] == old_perm[p] && perm[q] == old_perm[q - 1]);
                } else if p == j {
                    assert(out@[q] == old_out[q - 1]);
                    assert(lt(x, old_out[j as int]));
                    if q - 1 > j {
                        assert(!lt(old_out[q - 1], old_out[j as int]));
                        assert(lt(x, old_out[q - 1]) || lt(old_out[q - 1], old_out[j as int]));
                    }
                } else {
                    assert(out@[q] == old_out[q - 1] && out@[p] == old_out[p - 1]);
                    assert(perm[p] == old_perm[p - 1] && perm[q] == old_perm[q - 1]);
                }
            }
            assert(rest@ =~= input.subrange(i + 1, n as int));
        }
        i = i + 1;
    }
    assert(input.subrange(n as int, n as int).len() == 0);
    assert(stable_perm(input, out@, lt, perm));
    out
}

/// Lexicographic order of character strings by code point, which is the
/// order `String`'s `Ord` gives (UTF-8 preserves code-point order).
pub open spec fn lex_lt(a: Seq<char>, b: Seq<char>) -> bool
    decreases a.len(),
{
    if a.len() == 0 {
        b.len() > 0
    } else if b.len() == 0 {
        false
    } else if a[0] != b[0] {
        (a[0] as int) < (b[0] as int)
    } else {
        lex_lt(a.drop_first(), b.drop_first())
    }
}

pub proof fn lemma_lex_irreflexive(a: Seq<char>)
    ensures
        !lex_lt(a, a),
    decreases a.len(),
{
    if a.len() > 0 {
        lemma_lex_irreflexive(a.drop_first());
    }
}

pub proof fn lemma_lex_transitive(a: Seq<char>, b: Seq<char>, c: Seq<char>)
    requires
        lex_lt(a, b),
        lex_lt(b, c),
    ensures
        lex_lt(a, c),
    decreases a.len(),
{
    if a.len() > 0 && b.len() > 0 && c.len() > 0 {
        if a[0] == b[0] && b[0] == c[0] {
            lemma_lex_transitive(a.drop_first(), b.drop_first(), c.drop_first());
        }
    }
}

pub proof fn lemma_lex_total(a: Seq<char>, b: Seq<char>)
    ensures
        a == b || lex_lt(a, b) || lex_lt(b, a),
    decreases a.len(),
{
    if a.len() > 0 && b.len() > 0 {
        if a[0] == b[0] {
            lemma_lex_total(a.drop_first(), b.drop_first());
            if a.drop_first() == b.drop_first() {
                assert(a =~= seq![a[0]] + a.drop_first());
                assert(b =~= seq![b[0]] + b.drop_first());
            }
        } else {
            assert((a[0] as int) != (b[0] as int));
        }
    } else if a.len() == 0 && b.len() == 0 {
        assert(a =~= b);
    }
}

/// `a` sorts strictly before `b` as `String`s.
pub fn str_lt(a: &str, b: &str) -> (r: bool)
    ensures
        r == lex_lt(a@, b@),
{
    let x = crate::text::to_chars(a);
    let y = crate::text::to_chars(b);
    let mut i: usize = 0;
    proof {
        assert(a@.subrange(0, a@.len() as int) =~= a@);
        assert(b@.subrange(0, b@.len() as int) =~= b@);
    }
    while i < x.len() && i < y.len() && x[i] == y[i]
        invariant
            x@ == a@,
            y@ == b@,
            i <= x@.len(),
            i <= y@.len(),
            lex_lt(a@, b@) == lex_lt(a@.subrange(i as int, a@.len() as int), b@.subrange(i as int, b@.len() as int)),
        decreases x@.len() - i,
    {
        proof {
            let sa = a@.subrange(i as int, a@.len() as int);
            let sb = b@.subrange(i as int, b@.len() as int);
            assert(sa.drop_first() =~= a@.subrange(i + 1, a@.len() as int));
            assert(sb.drop_first() =~= b@.subrange(i + 1, b@.len() as int));
        }
        i = i + 1;
    }
    if i == x.len() {
        i < y.len()
    } else if i == y.len() {
        false
    } else {
        x[i] < y[i]
    }
}

/// A stable sort by an order that only looks at the elements' views is a
/// stable sort of the views.
pub proof fn lemma_stable_perm_view<T: View>(
    input: Seq<T>,
    output: Seq<T>,
    lt: spec_fn(T, T) -> bool,
    ltv: spec_fn(T::V, T::V) -> bool,
    perm: Seq<int>,
)
    requires
        stable_perm(input, output, lt, perm),
        forall|a: T, b: T| #[trigger] lt(a, b) == ltv(a@, b@),
    ensures
        stable_perm(input.map_values(|t: T| t@), output.map_values(|t: T| t@), ltv, perm),
{
    let iv = input.map_values(|t: T| t@);
    let ov = output.map_values(|t: T| t@);
    assert forall|i: int, j: int| 0 <= i < j < ov.len() implies !ltv(#[trigger] ov[j], #[trigger] ov[i]) by {
        assert(!lt(output[j], output[i]));
    }
    assert forall|i: int, j: int| 0 <= i < j < ov.len() && !ltv(#[trigger] ov[i], #[trigger] ov[j]) implies perm[i] < perm[j] by {
        assert(!lt(output[i], output[j]));
    }
}

} // verus!
