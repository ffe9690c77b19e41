//! Search in sequences, and byte-string helpers shared by the format
//! parser and the proxy.
use vstd::prelude::*;

verus! {

/// `needle` occurs in `data` starting at index `i`.
pub open spec fn occurs_at<A>(data: Seq<A>, needle: Seq<A>, i: int) -> bool {
    &&& 0 <= i
    &&& i + needle.len() <= data.len()
    &&& data.subrange(i, i + needle.len()) == needle
}

/// The first index at or after `start` where a non-empty `needle` occurs.
pub open spec fn find_from<A>(data: Seq<A>, needle: Seq<A>, start: int) -> Option<int>
    decreases data.len() - start,
{
    if needle.len() == 0 || start < 0 || start + needle.len() > data.len() {
        None
    } else if occurs_at(data, needle, start) {
        Some(start)
    } else {
        find_from(data, needle, start + 1)
    }
}

/// The first occurrence of a non-empty `needle` in `data`; `None` for an empty needle.
pub open spec fn first_occurrence<A>(data: Seq<A>, needle: Seq<A>) -> Option<int> {
    find_from(data, needle, 0)
}

/// `find_from` returns the least index at or after `start` where the needle occurs.
pub proof fn lemma_find_from<A>(data: Seq<A>, needle: Seq<A>, start: int)
    requires
        0 <= start,
    ensures
        match find_from(data, needle, start) {
            Some(p) => start <= p && occurs_at(data, needle, p) && needle.len() > 0
                && forall|q: int| start <= q < p ==> !occurs_at(data, needle, q),
            None => needle.len() == 0 || forall|q: int| start <= q ==> !occurs_at(data, needle, q),
        },
    decreases data.len() - start,
{
    if needle.len() == 0 || start + needle.len() > data.len() {
    } else if occurs_at(data, needle, start) {
    } else {
        lemma_find_from(data, needle, start + 1);
    }
}

fn occurs_at_exec(data: &[u8], needle: &[u8], i: usize) -> (r: bool)
    requires
        i + needle@.len() <= data@.len(),
    ensures
        r == occurs_at(data@, needle@, i as int),
{
    let n = data.len();
    let mut k: usize = 0;
    while k < needle.len()
        invariant
            n == data@.len(),
            k <= needle@.len(),
            i + needle@.len() <= data@.len(),
            forall|m: int| 0 <= m < k ==> data@[i + m] == needle@[m],
        decreases needle@.len() - k,
    {
        if data[i + k] != needle[k] {
            assert(data@.subrange(i as int, i + needle@.len())[k as int] != needle@[k as int]);
            return false;
        }
        k = k + 1;
    }
    assert(data@.subrange(i as int, i + needle@.len()) =~= needle@);
    true
}

/// The index of the first occurrence of `needle` in `data`, or `None` when
/// there is none or the needle is empty.
pub fn find_subslice(data: &[u8], needle: &[u8]) -> (r: Option<usize>)
    ensures
        r == (match first_occurrence(data@, needle@) {
            Some(p) => Some(p as usize),
            None => None::<usize>,
        }),
        r matches Some(p) ==> (occurs_at(data@, needle@, p as int)
            && forall|q: int| 0 <= q < p ==> !occurs_at(data@, needle@, q)),
        r is None ==> (needle@.len() == 0 || forall|q: int| !occurs_at(data@, needle@, q)),
{
    proof {
        lemma_find_from(data@, needle@, 0);
    }
    if needle.len() == 0 || data.len() < needle.len() {
        return None;
    }
    let last = data.len() - needle.len();
    let mut i: usize = 0;
    while i <= last
        invariant
            last == data@.len() - needle@.len(),
            last < usize::MAX,
            needle@.len() > 0,
            i <= last + 1,
            find_from(data@, needle@, 0) == find_from(data@, needle@, i as int),
            forall|q: int| 0 <= q < i ==> !occurs_at(data@, needle@, q),
        decreases last + 1 - i,
    {
        if occurs_at_exec(data, needle, i) {
            assert(find_from(data@, needle@, i as int) == Some(i as int));
            return Some(i);
        }
        i = i + 1;
    }
    None
}

/// The two byte strings are equal.
pub fn bytes_equal(a: &[u8], b: &[u8]) -> (r: bool)
    ensures
        r == (a@ == b@),
{
    if a.len() != b.len() {
        return false;
    }
    let n = a.len();
    let mut i: usize = 0;
    while i < n
        invariant
            n == a@.len(),
            n == b@.len(),
            i <= n,
            forall|m: int| 0 <= m < i ==> a@[m] == b@[m],
        decreases n - i,
    {
        if a[i] != b[i] {
            return false;
        }
        i = i + 1;
    }
    assert(a@ =~= b@);
    true
}

/// A copy of the bytes of `s`.
pub fn copy_bytes(s: &[u8]) -> (r: Vec<u8>)
    ensures
        r@ == s@,
{
    let mut out: Vec<u8> = Vec::new();
    let mut i: usize = 0;
    while i < s.len()
        invariant
            i <= s@.len(),
            out@ == s@.subrange(0, i as int),
        decreases s@.len() - i,
    {
        out.push(s[i]);
        i = i + 1;
        assert(out@ =~= s@.subrange(0, i as int));
    }
    assert(out@ =~= s@);
    out
}

/// Appends the bytes of `s` to `out`.
pub fn append_bytes(out: &mut Vec<u8>, s: &[u8])
    ensures
        final(out)@ == old(out)@ + s@,
{
    let ghost start = out@;
    let mut i: usize = 0;
    while i < s.len()
        invariant
            i <= s@.len(),
            out@ == start + s@.subrange(0, i as int),
        decreases s@.len() - i,
    {
        out.push(s[i]);
        i = i + 1;
        assert(out@ =~= start + s@.subrange(0, i as int));
    }
    assert(s@.subrange(0, s@.len() as int) =~= s@);
}

} // verus!
