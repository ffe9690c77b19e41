//! Bookkeeping of the emblem library: group and slot naming, group order,
//! labels, and the listings built from what is on disk.
use vstd::prelude::*;
use crate::bytes::{bytes_equal, copy_bytes};
use crate::emblem::format::{http_body, strip_http};
use crate::sort::{hits, lemma_stable_perm_view, stable_perm, lex_lt, lemma_lex_irreflexive, lemma_lex_total, lemma_lex_transitive, stable_sort_by, sorted_stably, strict_weak_order};
use crate::text::{
    all_digits, chars_start_with, chars_to_string, decimal, decimal_string, digit_value, lemma_parse_zero_padded,
    parse_u64_radix, parse_unsigned, push_decimal, same_chars, to_chars, zero_padded, zero_padded_string, trim_str,
    trimmed,
};

verus! {

/// Name of the file that holds slot `slot` of a group: `slot_{slot}.bin`.
pub open spec fn slot_file_name_spec(slot: u32) -> Seq<char> {
    "slot_"@ + decimal(slot as nat) + ".bin"@
}

/// Name of the cached thumbnail of a slot at a size: `thumb_{slot}_{size}.png`.
pub open spec fn thumb_file_name_spec(slot: u32, size: u32) -> Seq<char> {
    "thumb_"@ + decimal(slot as nat) + "_"@ + decimal(size as nat) + ".png"@
}

fn push_str(out: &mut Vec<char>, s: &str)
    ensures
        final(out)@ == old(out)@ + s@,
{
    let cs = to_chars(s);
    let ghost before = out@;
    let mut i: usize = 0;
    while i < cs.len()
        invariant
            cs@ == s@,
            i <= cs@.len(),
            out@ == before + cs@.subrange(0, i as int),
        decreases cs@.len() - i,
    {
        out.push(cs[i]);
        i = i + 1;
        assert(out@ =~= before + cs@.subrange(0, i as int));
    }
    assert(cs@.subrange(0, cs@.len() as int) =~= cs@);
}

/// `slot_{slot}.bin`, the file of a slot inside its group's directory.
pub fn slot_file_name(slot: u32) -> (r: String)
    ensures
        r@ == slot_file_name_spec(slot),
{
    let mut cs: Vec<char> = Vec::new();
    push_str(&mut cs, "slot_");
    push_decimal(slot as u64, &mut cs);
    push_str(&mut cs, ".bin");
    assert(cs@ =~= slot_file_name_spec(slot));
    chars_to_string(cs.as_slice())
}

/// `thumb_{slot}_{size}.png`, the cached thumbnail of a slot at a size.
pub fn thumb_file_name(slot: u32, size: u32) -> (r: String)
    ensures
        r@ == thumb_file_name_spec(slot, size),
{
    let mut cs: Vec<char> = Vec::new();
    push_str(&mut cs, "thumb_");
    push_decimal(slot as u64, &mut cs);
    push_str(&mut cs, "_");
    push_decimal(size as u64, &mut cs);
    push_str(&mut cs, ".png");
    assert(cs@ =~= thumb_file_name_spec(slot, size));
    chars_to_string(cs.as_slice())
}

/// `name` is a cached thumbnail of `slot` at any size: it starts with
/// `thumb_{slot}_` and ends with `.png`.
pub open spec fn is_thumb_of_spec(name: Seq<char>, slot: u32) -> bool {
    let p = "thumb_"@ + decimal(slot as nat) + "_"@;
    &&& p.len() <= name.len()
    &&& name.subrange(0, p.len() as int) == p
    &&& 4 <= name.len()
    &&& name.subrange(name.len() - 4, name.len() as int) == ".png"@
}

/// Whether a file in a group's directory is a cached thumbnail of `slot`.
pub fn is_thumb_of(name: &str, slot: u32) -> (r: bool)
    ensures
        r == is_thumb_of_spec(name@, slot),
{
    let cs = to_chars(name);
    let mut p: Vec<char> = Vec::new();
    push_str(&mut p, "thumb_");
    push_decimal(slot as u64, &mut p);
    push_str(&mut p, "_");
    let suffix = to_chars(".png");
    proof {
        reveal_strlit(".png");
    }
    if !chars_start_with(cs.as_slice(), 0, p.as_slice()) {
        return false;
    }
    if cs.len() < 4 {
        return false;
    }
    chars_start_with(cs.as_slice(), cs.len() - 4, suffix.as_slice())
}

/// The slot number named by a file name `slot_<digits>.bin`: the digits
/// must be present, all ASCII digits, and fit in a `u32`.
pub open spec fn slot_number_of(name: Seq<char>) -> Option<u32> {
    if name.len() >= 9 && name.subrange(0, 5) == "slot_"@ && name.subrange(name.len() - 4, name.len() as int)
        == ".bin"@ {
        let d = name.subrange(5, name.len() - 4);
        if d.len() > 0 && all_digits(d, 10) && crate::text::digits_value(d, 10) <= u32::MAX {
            Some(crate::text::digits_value(d, 10) as u32)
        } else {
            None
        }
    } else {
        None
    }
}

/// Reads the slot number out of a slot file name, as above.
pub fn parse_slot_filename(name: &str) -> (r: Option<u32>)
    ensures
        r == slot_number_of(name@),
{
    proof {
        reveal_strlit("slot_");
        reveal_strlit(".bin");
    }
    let cs = to_chars(name);
    let n = cs.len();
    if n < 9 {
        return None;
    }
    let pre = to_chars("slot_");
    let suf = to_chars(".bin");
    if !chars_start_with(cs.as_slice(), 0, pre.as_slice()) || !chars_start_with(cs.as_slice(), n - 4, suf.as_slice()) {
        return None;
    }
    let digits = &cs.as_slice()[5..n - 4];
    let ghost d = name@.subrange(5, n - 4);
    assert(digits@ == d);
    if digits.len() > 0 && digits[0] == '+' {
        assert(digit_value(d[0], 10) < 0);
        return None;
    }
    match parse_u64_radix(digits, 10) {
        Some(v) => {
            if v <= u32::MAX as u64 {
                Some(v as u32)
            } else {
                None
            }
        },
        None => None,
    }
}

/// A group's number when its name reads as a `u64` (`str::parse::<u64>`).
pub open spec fn group_number(name: Seq<char>) -> Option<nat> {
    match parse_unsigned(name, 10) {
        Some(v) => if v <= u64::MAX { Some(v) } else { None },
        None => None,
    }
}

/// Library order of group names: numbered groups first, by number; then
/// the others, by name.
pub open spec fn group_before(a: Seq<char>, b: Seq<char>) -> bool {
    match (group_number(a), group_number(b)) {
        (Some(x), Some(y)) => x < y,
        (Some(_), None) => true,
        (None, Some(_)) => false,
        (None, None) => lex_lt(a, b),
    }
}

/// The library order on group-name strings.
pub open spec fn group_lt() -> spec_fn(String, String) -> bool {
    |a: String, b: String| group_before(a@, b@)
}

/// The library order is a strict weak order.
pub proof fn lemma_group_order()
    ensures
        strict_weak_order(group_lt()),
{
    let lt = group_lt();
    assert forall|a: String| !(#[trigger] lt(a, a)) by {
        lemma_lex_irreflexive(a@);
    }
    assert forall|a: String, b: String, c: String| #[trigger] lt(a, b) && #[trigger] lt(b, c) implies lt(a, c) by {
        if group_number(a@) is None && group_number(b@) is None && group_number(c@) is None {
            lemma_lex_transitive(a@, b@, c@);
        }
    }
    assert forall|a: String, b: String, c: String| #[trigger] lt(a, b) implies lt(a, c) || #[trigger] lt(c, b) by {
        if group_number(a@) is None && group_number(b@) is None && group_number(c@) is None {
            lemma_lex_total(a@, c@);
            lemma_lex_total(c@, b@);
            if lex_lt(c@, a@) {
                lemma_lex_transitive(c@, a@, b@);
            }
            if c@ == a@ {
            }
        }
    }
}

fn group_number_exec(name: &str) -> (r: Option<u64>)
    ensures
        r == (match group_number(name@) {
            Some(v) => Some(v as u64),
            None => None::<u64>,
        }),
{
    let cs = to_chars(name);
    parse_u64_radix(cs.as_slice(), 10)
}

/// Whether group `a` comes before group `b` in the library order.
pub fn group_before_exec(a: &str, b: &str) -> (r: bool)
    ensures
        r == group_before(a@, b@),
{
    match (group_number_exec(a), group_number_exec(b)) {
        (Some(x), Some(y)) => x < y,
        (Some(_), None) => true,
        (None, Some(_)) => false,
        (None, None) => crate::sort::str_lt(a, b),
    }
}

/// The names other than the selection's directory, in their order.
pub open spec fn without_active(s: Seq<String>) -> Seq<String>
    decreases s.len(),
{
    if s.len() == 0 {
        Seq::empty()
    } else if s.last()@ == "_active"@ {
        without_active(s.drop_last())
    } else {
        without_active(s.drop_last()).push(s.last())
    }
}

/// The group directories of the library in library order: the selection's
/// directory is left out, and groups that the order does not tell apart keep
/// the order they were listed in.
pub fn sort_group_names(names: Vec<String>) -> (r: Vec<String>)
    ensures
        sorted_stably(without_active(names@), r@, group_lt()),
{
    let mut kept: Vec<String> = Vec::new();
    let n = names.len();
    let mut i: usize = 0;
    while i < n
        invariant
            n == names@.len(),
            i <= n,
            kept@ == without_active(names@.subrange(0, i as int)),
        decreases n - i,
    {
        proof {
            assert(names@.subrange(0, i + 1).drop_last() =~= names@.subrange(0, i as int));
        }
        if !same_chars(names[i].as_str(), crate::paths::ACTIVE_NAME) {
            kept.push(names[i].clone());
        }
        i = i + 1;
    }
    assert(names@.subrange(0, n as int) =~= names@);
    proof {
        lemma_group_order();
    }
    stable_sort_by(kept, group_name_before, Ghost(group_lt()))
}

fn group_name_before(a: &String, b: &String) -> (r: bool)
    ensures
        r == group_before(a@, b@),
{
    group_before_exec(a.as_str(), b.as_str())
}

/// The slot numbers named by a directory's file names, in listing order.
pub open spec fn slot_numbers_of(names: Seq<String>) -> Seq<u32>
    decreases names.len(),
{
    if names.len() == 0 {
        Seq::empty()
    } else {
        match slot_number_of(names.last()@) {
            Some(v) => slot_numbers_of(names.drop_last()).push(v),
            None => slot_numbers_of(names.drop_last()),
        }
    }
}

/// Ascending order of slot numbers.
pub open spec fn slot_lt() -> spec_fn(u32, u32) -> bool {
    |a: u32, b: u32| a < b
}

fn slot_less(a: &u32, b: &u32) -> (r: bool)
    ensures
        r == (*a < *b),
{
    *a < *b
}

/// The slots of a group given the file names in its directory: the numbers
/// of the `slot_<n>.bin` files, ascending.
pub fn slot_numbers(names: &Vec<String>) -> (r: Vec<u32>)
    ensures
        sorted_stably(slot_numbers_of(names@), r@, slot_lt()),
{
    let mut found: Vec<u32> = Vec::new();
    let n = names.len();
    let mut i: usize = 0;
    while i < n
        invariant
            n == names@.len(),
            i <= n,
            found@ == slot_numbers_of(names@.subrange(0, i as int)),
        decreases n - i,
    {
        proof {
            assert(names@.subrange(0, i + 1).drop_last() =~= names@.subrange(0, i as int));
        }
        match parse_slot_filename(names[i].as_str()) {
            Some(v) => found.push(v),
            None => {},
        }
        i = i + 1;
    }
    assert(names@.subrange(0, n as int) =~= names@);
    stable_sort_by(found, slot_less, Ghost(slot_lt()))
}

/// A group's number when its name reads as a `u32` (`str::parse::<u32>`).
pub open spec fn group_u32(name: Seq<char>) -> Option<nat> {
    match parse_unsigned(name, 10) {
        Some(v) => if v <= u32::MAX { Some(v) } else { None },
        None => None,
    }
}

/// The highest `u32` group number among `groups`.
pub open spec fn max_group_u32(groups: Seq<String>) -> Option<nat>
    decreases groups.len(),
{
    if groups.len() == 0 {
        None
    } else {
        let rest = max_group_u32(groups.drop_last());
        match (group_u32(groups.last()@), rest) {
            (Some(v), Some(m)) => Some(if v < m { m } else { v }),
            (Some(v), None) => Some(v),
            (None, r) => r,
        }
    }
}

/// The number a new group gets: one past the highest group number, or 1.
pub open spec fn next_index_of(groups: Seq<String>) -> nat {
    match max_group_u32(groups) {
        Some(m) => m + 1,
        None => 1,
    }
}

/// Every numbered group is at most the highest number.
pub proof fn lemma_max_group_bounds(groups: Seq<String>)
    ensures
        forall|i: int| 0 <= i < groups.len() && group_u32(#[trigger] groups[i]@) is Some ==>
            max_group_u32(groups) is Some && group_u32(groups[i]@)->0 <= max_group_u32(groups)->0,
        max_group_u32(groups) matches Some(m) ==> m <= u32::MAX,
    decreases groups.len(),
{
    if groups.len() > 0 {
        lemma_max_group_bounds(groups.drop_last());
        assert forall|i: int| 0 <= i < groups.len() && group_u32(#[trigger] groups[i]@) is Some implies
            max_group_u32(groups) is Some && group_u32(groups[i]@)->0 <= max_group_u32(groups)->0 by {
            if i < groups.len() - 1 {
                assert(groups[i] == groups.drop_last()[i]);
            }
        }
    }
}

/// The highest group number is `u32::MAX`, so no next number exists.
pub fn group_index_exhausted(groups: &Vec<String>) -> (r: bool)
    ensures
        r == (max_group_u32(groups@) == Some(u32::MAX as nat)),
{
    proof {
        lemma_max_group_bounds(groups@);
    }
    match max_group_number(groups) {
        Some(m) => m == u32::MAX,
        None => false,
    }
}

fn max_group_number(groups: &Vec<String>) -> (r: Option<u32>)
    ensures
        r == (match max_group_u32(groups@) {
            Some(m) => Some(m as u32),
            None => None::<u32>,
        }),
{
    let n = groups.len();
    let mut best: Option<u32> = None;
    let mut i: usize = 0;
    while i < n
        invariant
            n == groups@.len(),
            i <= n,
            best == (match max_group_u32(groups@.subrange(0, i as int)) {
                Some(m) => Some(m as u32),
                None => None::<u32>,
            }),
        decreases n - i,
    {
        proof {
            assert(groups@.subrange(0, i + 1).drop_last() =~= groups@.subrange(0, i as int));
            lemma_max_group_bounds(groups@.subrange(0, i as int));
        }
        let cs = to_chars(groups[i].as_str());
        let v = parse_u64_radix(cs.as_slice(), 10);
        match v {
            Some(x) => {
                if x <= u32::MAX as u64 {
                    let x32 = x as u32;
                    best = match best {
                        Some(m) => Some(if x32 < m { m } else { x32 }),
                        None => Some(x32),
                    };
                }
            },
            None => {},
        }
        i = i + 1;
    }
    assert(groups@.subrange(0, n as int) =~= groups@);
    best
}

/// The number for a new group: one past the highest group whose name reads
/// as a `u32`, or 1 when there is none.
pub fn next_group_index(groups: &Vec<String>) -> (r: u32)
    requires
        max_group_u32(groups@) != Some(u32::MAX as nat),
    ensures
        r == next_index_of(groups@),
{
    proof {
        lemma_max_group_bounds(groups@);
    }
    match max_group_number(groups) {
        Some(m) => m + 1,
        None => 1,
    }
}

/// Name of the group with number `idx`: at least three digits (`{idx:03}`).
pub open spec fn group_name_spec(idx: nat) -> Seq<char> {
    zero_padded(idx, 3)
}

/// `format!("{idx:03}")`.
pub fn group_name(idx: u32) -> (r: String)
    ensures
        r@ == group_name_spec(idx as nat),
{
    zero_padded_string(idx as u64, 3)
}

/// A new group never takes an existing group's name: its name reads as a
/// number above every numbered group, and differs from every other name.
pub proof fn lemma_new_group_name_is_fresh(groups: Seq<String>)
    requires
        max_group_u32(groups) != Some(u32::MAX as nat),
    ensures
        forall|i: int| 0 <= i < groups.len() ==> #[trigger] groups[i]@ != group_name_spec(next_index_of(groups)),
{
    lemma_max_group_bounds(groups);
    let idx = next_index_of(groups);
    lemma_parse_zero_padded(idx, 3);
    assert forall|i: int| 0 <= i < groups.len() implies #[trigger] groups[i]@ != group_name_spec(idx) by {
        if groups[i]@ == group_name_spec(idx) {
            assert(group_u32(groups[i]@) == Some(idx));
        }
    }
}

/// What the library records about a group: whose emblems were captured
/// into it, when it was first written, and the user's label for each slot
/// (keyed by the slot number in decimal).
#[derive(Debug, Clone)]
pub struct GroupMeta {
    pub userhash: Option<String>,
    pub first_captured: Option<String>,
    // A list with distinct keys rather than a map: Verus proves next to
    // nothing of a `HashMap` keyed by `String`, and this list's invariant
    // (`keys_distinct`) says what a map would give.
    pub labels: Vec<(String, String)>,
}

/// The label stored under `key`; a later entry wins over an earlier one.
pub open spec fn label_lookup(entries: Seq<(String, String)>, key: Seq<char>) -> Option<Seq<char>>
    decreases entries.len(),
{
    if entries.len() == 0 {
        None
    } else if entries.last().0@ == key {
        Some(entries.last().1@)
    } else {
        label_lookup(entries.drop_last(), key)
    }
}

/// No key is stored twice.
pub open spec fn keys_distinct(entries: Seq<(String, String)>) -> bool {
    forall|i: int, j: int| 0 <= i < j < entries.len() ==> #[trigger] entries[i].0@ != #[trigger] entries[j].0@
}

impl GroupMeta {
    /// Each slot has at most one label.
    pub open spec fn wf(&self) -> bool {
        keys_distinct(self.labels@)
    }

    /// The label of the slot whose decimal number is `key`.
    pub open spec fn label(&self, key: Seq<char>) -> Option<Seq<char>> {
        label_lookup(self.labels@, key)
    }
}

impl Default for GroupMeta {
    /// No owner, no capture time, no labels.
    fn default() -> (r: Self)
        ensures
            r.userhash is None,
            r.first_captured is None,
            r.labels@.len() == 0,
    {
        GroupMeta { userhash: None, first_captured: None, labels: Vec::new() }
    }
}

/// The entries of `entries` whose key is not `key`, in order.
pub open spec fn without_key(entries: Seq<(String, String)>, key: Seq<char>) -> Seq<(String, String)>
    decreases entries.len(),
{
    if entries.len() == 0 {
        Seq::empty()
    } else if entries.last().0@ == key {
        without_key(entries.drop_last(), key)
    } else {
        without_key(entries.drop_last(), key).push(entries.last())
    }
}

/// Dropping a key forgets its label and keeps every other label.
pub proof fn lemma_without_key(entries: Seq<(String, String)>, key: Seq<char>)
    ensures
        forall|k: Seq<char>| #[trigger] label_lookup(without_key(entries, key), k) == (if k == key {
            None
        } else {
            label_lookup(entries, k)
        }),
        forall|i: int| 0 <= i < without_key(entries, key).len() ==> #[trigger] without_key(entries, key)[i].0@ != key,
        keys_distinct(entries) ==> keys_distinct(without_key(entries, key)),
        forall|i: int| 0 <= i < without_key(entries, key).len() ==> exists|j: int| 0 <= j < entries.len() && #[trigger] without_key(entries, key)[i] == entries[j],
    decreases entries.len(),
{
    if entries.len() > 0 {
        let rest = entries.drop_last();
        let last = entries.last();
        lemma_without_key(rest, key);
        let w = without_key(entries, key);
        let wr = without_key(rest, key);
        if last.0@ != key {
            assert(w == wr.push(last));
            assert(w.drop_last() =~= wr);
            assert forall|k: Seq<char>| #[trigger] label_lookup(w, k) == (if k == key {
                None
            } else {
                label_lookup(entries, k)
            }) by {
                assert(label_lookup(wr, k) == (if k == key { None } else { label_lookup(rest, k) }));
            }
            assert forall|i: int| 0 <= i < w.len() implies #[trigger] w[i].0@ != key by {
                if i < wr.len() {
                    assert(w[i] == wr[i]);
                }
            }
            assert forall|i: int| 0 <= i < w.len() implies exists|j: int| 0 <= j < entries.len() && #[trigger] w[i] == entries[j] by {
                if i < wr.len() {
                    let j = choose|j: int| 0 <= j < rest.len() && #[trigger] wr[i] == rest[j];
                    assert(w[i] == wr[i]);
                    assert(rest[j] == entries[j]);
                } else {
                    assert(w[i] == entries[entries.len() - 1]);
                }
            }
            if keys_distinct(entries) {
                assert(keys_distinct(rest)) by {
                    assert forall|i: int, j: int| 0 <= i < j < rest.len() implies #[trigger] rest[i].0@ != #[trigger] rest[j].0@ by {
                        assert(rest[i] == entries[i] && rest[j] == entries[j]);
                    }
                }
                assert forall|i: int, j: int| 0 <= i < j < w.len() implies #[trigger] w[i].0@ != #[trigger] w[j].0@ by {
                    if j == w.len() - 1 {
                        let jj = choose|jj: int| 0 <= jj < rest.len() && #[trigger] wr[i] == rest[jj];
                        assert(w[i] == wr[i]);
                        assert(rest[jj] == entries[jj]);
                        assert(w[j] == entries[entries.len() - 1]);
                    } else {
                        assert(w[i] == wr[i] && w[j] == wr[j]);
                    }
                }
            }
        } else {
            assert(w == wr);
            assert forall|k: Seq<char>| #[trigger] label_lookup(w, k) == (if k == key {
                None
            } else {
                label_lookup(entries, k)
            }) by {
                assert(label_lookup(wr, k) == (if k == key { None } else { label_lookup(rest, k) }));
            }
            assert forall|i: int| 0 <= i < w.len() implies exists|j: int| 0 <= j < entries.len() && #[trigger] w[i] == entries[j] by {
                let j = choose|j: int| 0 <= j < rest.len() && #[trigger] wr[i] == rest[j];
                assert(rest[j] == entries[j]);
            }
            if keys_distinct(entries) {
                assert(keys_distinct(rest)) by {
                    assert forall|i: int, j: int| 0 <= i < j < rest.len() implies #[trigger] rest[i].0@ != #[trigger] rest[j].0@ by {
                        assert(rest[i] == entries[i] && rest[j] == entries[j]);
                    }
                }
            }
        }
    }
}

fn without_key_exec(entries: &Vec<(String, String)>, key: &str) -> (r: Vec<(String, String)>)
    ensures
        r@.len() == without_key(entries@, key@).len(),
        forall|i: int| 0 <= i < r@.len() ==> #[trigger] r@[i].0@ == without_key(entries@, key@)[i].0@ && r@[i].1@
            == without_key(entries@, key@)[i].1@,
{
    let n = entries.len();
    let mut out: Vec<(String, String)> = Vec::new();
    let mut i: usize = 0;
    while i < n
        invariant
            n == entries@.len(),
            i <= n,
            out@.len() == without_key(entries@.subrange(0, i as int), key@).len(),
            forall|q: int| 0 <= q < out@.len() ==> #[trigger] out@[q].0@ == without_key(entries@.subrange(0, i as int), key@)[q].0@
                && out@[q].1@ == without_key(entries@.subrange(0, i as int), key@)[q].1@,
        decreases n - i,
    {
        proof {
            assert(entries@.subrange(0, i + 1).drop_last() =~= entries@.subrange(0, i as int));
            assert(entries@.subrange(0, i + 1).last() == entries@[i as int]);
        }
        let ghost prev = without_key(entries@.subrange(0, i as int), key@);
        let ghost next = without_key(entries@.subrange(0, i + 1), key@);
        if !same_chars(entries[i].0.as_str(), key) {
            let k = entries[i].0.clone();
            let v = entries[i].1.clone();
            assert(next == prev.push(entries@[i as int]));
            let ghost before = out@;
            out.push((k, v));
            proof {
                assert forall|q: int| 0 <= q < out@.len() implies #[trigger] out@[q].0@ == next[q].0@ && out@[q].1@ == next[q].1@ by {
                    if q < before.len() {
                        assert(out@[q] == before[q]);
                        assert(next[q] == prev[q]);
                    }
                }
            }
        } else {
            assert(next == prev);
        }
        i = i + 1;
    }
    assert(entries@.subrange(0, n as int) =~= entries@);
    out
}

/// Labels that agree key by key and value by value look up alike.
pub proof fn lemma_lookup_same_views(a: Seq<(String, String)>, b: Seq<(String, String)>)
    requires
        a.len() == b.len(),
        forall|i: int| 0 <= i < a.len() ==> #[trigger] a[i].0@ == b[i].0@ && a[i].1@ == b[i].1@,
    ensures
        forall|k: Seq<char>| #[trigger] label_lookup(a, k) == label_lookup(b, k),
        keys_distinct(a) == keys_distinct(b),
    decreases a.len(),
{
    if a.len() > 0 {
        assert forall|i: int| 0 <= i < a.drop_last().len() implies #[trigger] a.drop_last()[i].0@ == b.drop_last()[i].0@
            && a.drop_last()[i].1@ == b.drop_last()[i].1@ by {
            assert(a.drop_last()[i] == a[i] && b.drop_last()[i] == b[i]);
        }
        lemma_lookup_same_views(a.drop_last(), b.drop_last());
        assert(a.last() == a[a.len() - 1]);
        assert(b.last() == b[b.len() - 1]);
        assert forall|k: Seq<char>| #[trigger] label_lookup(a, k) == label_lookup(b, k) by {
            assert(label_lookup(a.drop_last(), k) == label_lookup(b.drop_last(), k));
        }
        if keys_distinct(a) {
            assert forall|i: int, j: int| 0 <= i < j < b.len() implies #[trigger] b[i].0@ != #[trigger] b[j].0@ by {
                assert(a[i].0@ != a[j].0@);
            }
        }
        if keys_distinct(b) {
            assert forall|i: int, j: int| 0 <= i < j < a.len() implies #[trigger] a[i].0@ != #[trigger] a[j].0@ by {
                assert(b[i].0@ != b[j].0@);
            }
        }
    }
}

/// Sets the label of `slot` in a group's record; an empty label removes it.
/// Nothing else in the record changes.
pub fn set_emblem_label(meta: &mut GroupMeta, slot: u32, label: &str)
    requires
        old(meta).wf(),
    ensures
        final(meta).wf(),
        final(meta).userhash == old(meta).userhash,
        final(meta).first_captured == old(meta).first_captured,
        final(meta).label(decimal(slot as nat)) == (if label@.len() == 0 { None } else { Some(label@) }),
        forall|k: Seq<char>| k != decimal(slot as nat) ==> #[trigger] final(meta).label(k) == old(meta).label(k),
{
    let key = decimal_string(slot as u64);
    let ghost old_entries = meta.labels@;
    let ks = key.as_str();
    let mut entries = without_key_exec(&meta.labels, ks);
    assert(ks@ == key@);
    assert(entries@.len() == without_key(old_entries, key@).len());
    proof {
        lemma_without_key(old_entries, key@);
        lemma_lookup_same_views(entries@, without_key(old_entries, key@));
    }
    if label.unicode_len() > 0 {
        let ghost before = entries@;
        entries.push((key, String::from_str(label)));
        proof {
            assert(entries@.drop_last() == before);
            assert forall|i: int, j: int| 0 <= i < j < entries@.len() implies #[trigger] entries@[i].0@ != #[trigger] entries@[j].0@ by {
                assert(entries@[i] == before[i]);
                assert(before[i].0@ == without_key(old_entries, key@)[i].0@);
                if j == entries@.len() - 1 {
                    assert(without_key(old_entries, key@)[i].0@ != key@);
                } else {
                    assert(entries@[j] == before[j]);
                    assert(before[j].0@ == without_key(old_entries, key@)[j].0@);
                }
            }
            assert forall|k: Seq<char>| k != key@ implies #[trigger] label_lookup(entries@, k) == label_lookup(old_entries, k) by {
                assert(label_lookup(before, k) == label_lookup(without_key(old_entries, key@), k));
            }
        }
    }
    meta.labels = entries;
}

/// Forgets the label of `slot`; nothing else in the record changes.
pub fn remove_label(meta: &mut GroupMeta, slot: u32)
    requires
        old(meta).wf(),
    ensures
        final(meta).wf(),
        final(meta).userhash == old(meta).userhash,
        final(meta).first_captured == old(meta).first_captured,
        final(meta).label(decimal(slot as nat)) is None,
        forall|k: Seq<char>| k != decimal(slot as nat) ==> #[trigger] final(meta).label(k) == old(meta).label(k),
{
    proof {
        reveal_strlit("");
    }
    set_emblem_label(meta, slot, "");
}

/// Where a capture from a player goes.
pub enum CaptureTarget {
    /// The newest group already belongs to the player.
    Existing(String),
    /// A new group with this name, to be recorded with this metadata.
    New(String, GroupMeta),
}

/// The newest group belongs to the player whose `userhash` is given.
pub open spec fn newest_group_is_players(groups: Seq<String>, newest_meta: Option<&GroupMeta>, userhash: Seq<char>) -> bool {
    &&& groups.len() > 0
    &&& newest_meta matches Some(m)
    &&& m.userhash matches Some(u)
    &&& u@ == userhash
}

/// Picks the group a capture from `userhash` goes into. Consecutive
/// captures from one player share a group: the newest group (last in
/// library order, whose record is `newest_meta`) is reused when it belongs
/// to the same player; otherwise a new group is opened, numbered one past
/// the highest group, owned by the player and first written at `now`.
pub fn get_or_create_capture_group(
    groups: &Vec<String>,
    newest_meta: Option<&GroupMeta>,
    userhash: &str,
    now: String,
) -> (r: CaptureTarget)
    requires
        !newest_group_is_players(groups@, newest_meta, userhash@) ==> max_group_u32(groups@) != Some(
            u32::MAX as nat,
        ),
    ensures
        newest_group_is_players(groups@, newest_meta, userhash@) ==> (r matches CaptureTarget::Existing(name)
            && name@ == groups@.last()@),
        !newest_group_is_players(groups@, newest_meta, userhash@) ==> (r matches CaptureTarget::New(name, meta)
            && name@ == group_name_spec(next_index_of(groups@))
            && (meta.userhash matches Some(u) && u@ == userhash@)
            && (meta.first_captured matches Some(t) && t@ == now@)
            && meta.labels@.len() == 0),
{
    let n = groups.len();
    if n > 0 {
        if let Some(m) = newest_meta {
            if let Some(u) = &m.userhash {
                if same_chars(u.as_str(), userhash) {
                    return CaptureTarget::Existing(groups[n - 1].clone());
                }
            }
        }
    }
    let idx = next_group_index(groups);
    let name = group_name(idx);
    let meta = GroupMeta { userhash: Some(String::from_str(userhash)), first_captured: Some(now), labels: Vec::new() };
    CaptureTarget::New(name, meta)
}

/// Consecutive captures from one player share a group. When a capture
/// opens a new group for a player in a library whose groups are all
/// numbered (each number a `u32`), the new group comes after every existing
/// one in library order, so it is the newest group; with its record, the
/// player's next capture is recognized as going to it.
pub proof fn lemma_new_capture_group_is_newest(
    groups: Seq<String>,
    new_name: String,
    meta: GroupMeta,
    userhash: Seq<char>,
)
    requires
        forall|i: int| 0 <= i < groups.len() ==> group_u32(#[trigger] groups[i]@) is Some,
        max_group_u32(groups) != Some(u32::MAX as nat),
        new_name@ == group_name_spec(next_index_of(groups)),
        meta.userhash matches Some(u) && u@ == userhash,
    ensures
        forall|i: int| 0 <= i < groups.len() ==> group_before(#[trigger] groups[i]@, new_name@),
        newest_group_is_players(groups.push(new_name), Some(&meta), userhash),
{
    lemma_max_group_bounds(groups);
    let idx = next_index_of(groups);
    lemma_parse_zero_padded(idx, 3);
    assert(group_number(new_name@) == Some(idx));
    assert forall|i: int| 0 <= i < groups.len() implies group_before(#[trigger] groups[i]@, new_name@) by {
        assert(group_u32(groups[i]@) is Some);
        assert(group_number(groups[i]@) == group_u32(groups[i]@));
    }
    assert(groups.push(new_name).last() == new_name);
}

/// One emblem of the library as the user interface lists it.
#[derive(Debug, Clone)]
pub struct EmblemInfo {
    pub id: String,
    pub group: String,
    pub slot: u32,
    pub label: String,
    pub captured_at: String,
}

/// The text of an `EmblemInfo`.
pub struct EmblemView {
    pub id: Seq<char>,
    pub group: Seq<char>,
    pub slot: u32,
    pub label: Seq<char>,
    pub captured_at: Seq<char>,
}

impl View for EmblemInfo {
    type V = EmblemView;

    open spec fn view(&self) -> EmblemView {
        EmblemView {
            id: self.id@,
            group: self.group@,
            slot: self.slot,
            label: self.label@,
            captured_at: self.captured_at@,
        }
    }
}

/// A group as found on disk: its name, its record (`None` when missing or
/// unreadable), and its slot numbers in ascending order.
#[derive(Debug, Clone)]
pub struct GroupListing {
    pub group: String,
    pub meta: Option<GroupMeta>,
    pub slots: Vec<u32>,
}

/// The listing entry of `slot` in `group`: id `group:slot`, the slot's label
/// and the group's capture time, each empty when not recorded.
pub open spec fn emblem_view_of(group: Seq<char>, meta: Option<GroupMeta>, slot: u32) -> EmblemView {
    let key = decimal(slot as nat);
    EmblemView {
        id: group + ":"@ + key,
        group: group,
        slot: slot,
        label: match meta {
            Some(m) => match m.label(key) {
                Some(l) => l,
                None => Seq::empty(),
            },
            None => Seq::empty(),
        },
        captured_at: match meta {
            Some(m) => match m.first_captured {
                Some(t) => t@,
                None => Seq::empty(),
            },
            None => Seq::empty(),
        },
    }
}

/// What is written is what is listed: once a group's record gives `slot`
/// the label `label` (as `set_emblem_label` leaves it), the group's listing
/// shows that label for the emblem, and an empty label shows as none.
pub proof fn lemma_listed_label(meta: GroupMeta, group: Seq<char>, slot: u32, label: Seq<char>)
    requires
        meta.label(decimal(slot as nat)) == (if label.len() == 0 { None } else { Some(label) }),
    ensures
        emblem_view_of(group, Some(meta), slot).label == label,
{
    if label.len() == 0 {
        assert(label =~= Seq::<char>::empty());
    }
}

/// Entries of the first `k` slots of a group.
pub open spec fn group_emblems(l: GroupListing, k: int) -> Seq<EmblemView> {
    Seq::new(k as nat, |j: int| emblem_view_of(l.group@, l.meta, l.slots@[j]))
}

/// All entries, group by group and slot by slot.
pub open spec fn listing_emblems(ls: Seq<GroupListing>) -> Seq<EmblemView>
    decreases ls.len(),
{
    if ls.len() == 0 {
        Seq::empty()
    } else {
        listing_emblems(ls.drop_last()) + group_emblems(ls.last(), ls.last().slots@.len() as int)
    }
}

/// Newest capture first: `a` before `b` when its capture time sorts after.
pub open spec fn newest_first() -> spec_fn(EmblemView, EmblemView) -> bool {
    |a: EmblemView, b: EmblemView| lex_lt(b.captured_at, a.captured_at)
}

/// The same order on `EmblemInfo`s.
pub open spec fn newest_first_info() -> spec_fn(EmblemInfo, EmblemInfo) -> bool {
    |a: EmblemInfo, b: EmblemInfo| lex_lt(b.captured_at@, a.captured_at@)
}

/// Newest-first is a strict weak order.
pub proof fn lemma_newest_first_order()
    ensures
        strict_weak_order(newest_first_info()),
        strict_weak_order(newest_first()),
{
    let lt = newest_first_info();
    assert forall|a: EmblemInfo| !(#[trigger] lt(a, a)) by {
        lemma_lex_irreflexive(a.captured_at@);
    }
    assert forall|a: EmblemInfo, b: EmblemInfo, c: EmblemInfo| #[trigger] lt(a, b) && #[trigger] lt(b, c) implies lt(a, c) by {
        lemma_lex_transitive(c.captured_at@, b.captured_at@, a.captured_at@);
    }
    assert forall|a: EmblemInfo, b: EmblemInfo, c: EmblemInfo| #[trigger] lt(a, b) implies lt(a, c) || #[trigger] lt(c, b) by {
        lemma_lex_total(a.captured_at@, c.captured_at@);
        lemma_lex_total(c.captured_at@, b.captured_at@);
        if lex_lt(a.captured_at@, c.captured_at@) {
            lemma_lex_transitive(b.captured_at@, a.captured_at@, c.captured_at@);
        }
    }
    let lv = newest_first();
    assert forall|a: EmblemView| !(#[trigger] lv(a, a)) by {
        lemma_lex_irreflexive(a.captured_at);
    }
    assert forall|a: EmblemView, b: EmblemView, c: EmblemView| #[trigger] lv(a, b) && #[trigger] lv(b, c) implies lv(a, c) by {
        lemma_lex_transitive(c.captured_at, b.captured_at, a.captured_at);
    }
    assert forall|a: EmblemView, b: EmblemView, c: EmblemView| #[trigger] lv(a, b) implies lv(a, c) || #[trigger] lv(c, b) by {
        lemma_lex_total(a.captured_at, c.captured_at);
        lemma_lex_total(c.captured_at, b.captured_at);
        if lex_lt(a.captured_at, c.captured_at) {
            lemma_lex_transitive(b.captured_at, a.captured_at, c.captured_at);
        }
    }
}

fn emblem_newer(a: &EmblemInfo, b: &EmblemInfo) -> (r: bool)
    ensures
        r == lex_lt(b.captured_at@, a.captured_at@),
{
    crate::sort::str_lt(b.captured_at.as_str(), a.captured_at.as_str())
}

/// The label stored under `key`, looked up as `label_lookup` does.
pub fn label_for(meta: &GroupMeta, key: &str) -> (r: Option<String>)
    ensures
        r matches Some(l) ==> meta.label(key@) == Some(l@),
        r is None ==> meta.label(key@) is None,
{
    let mut i = meta.labels.len();
    assert(meta.labels@.subrange(0, i as int) =~= meta.labels@);
    while i > 0
        invariant
            i <= meta.labels@.len(),
            label_lookup(meta.labels@, key@) == label_lookup(meta.labels@.subrange(0, i as int), key@),
        decreases i,
    {
        proof {
            let pre = meta.labels@.subrange(0, i as int);
            assert(pre.drop_last() =~= meta.labels@.subrange(0, i - 1));
            assert(pre.last() == meta.labels@[i - 1]);
        }
        if same_chars(meta.labels[i - 1].0.as_str(), key) {
            return Some(meta.labels[i - 1].1.clone());
        }
        i = i - 1;
    }
    None
}

fn emblem_info_of(group: &String, meta: &Option<GroupMeta>, slot: u32) -> (r: EmblemInfo)
    ensures
        r@ == emblem_view_of(group@, *meta, slot),
{
    proof {
        reveal_strlit(":");
    }
    let key = decimal_string(slot as u64);
    let mut id = group.clone();
    id.append(":");
    id.append(key.as_str());
    let label = match meta {
        Some(m) => match label_for(m, key.as_str()) {
            Some(l) => l,
            None => String::new(),
        },
        None => String::new(),
    };
    let captured_at = match meta {
        Some(m) => match &m.first_captured {
            Some(t) => t.clone(),
            None => String::new(),
        },
        None => String::new(),
    };
    let r = EmblemInfo { id, group: group.clone(), slot, label, captured_at };
    assert(r@.label =~= emblem_view_of(group@, *meta, slot).label);
    assert(r@.captured_at =~= emblem_view_of(group@, *meta, slot).captured_at);
    r
}

/// Every emblem of the library, newest capture first. `listing` holds the
/// groups in library order; within a group the slots come in the order
/// given, and emblems with the same capture time keep that order.
pub fn list_emblems(listing: &Vec<GroupListing>) -> (r: Vec<EmblemInfo>)
    ensures
        sorted_stably(listing_emblems(listing@), r@.map_values(|e: EmblemInfo| e@), newest_first()),
{
    let mut all: Vec<EmblemInfo> = Vec::new();
    let n = listing.len();
    let mut g: usize = 0;
    while g < n
        invariant
            n == listing@.len(),
            g <= n,
            all@.map_values(|e: EmblemInfo| e@) == listing_emblems(listing@.subrange(0, g as int)),
        decreases n - g,
    {
        let l = &listing[g];
        let ghost base = all@.map_values(|e: EmblemInfo| e@);
        let mut j: usize = 0;
        while j < l.slots.len()
            invariant
                j <= l.slots@.len(),
                all@.map_values(|e: EmblemInfo| e@) == base + group_emblems(*l, j as int),
            decreases l.slots@.len() - j,
        {
            let e = emblem_info_of(&l.group, &l.meta, l.slots[j]);
            let ghost before = all@;
            all.push(e);
            proof {
                assert(all@.map_values(|e: EmblemInfo| e@) =~= base + group_emblems(*l, j + 1)) by {
                    assert(all@ == before.push(e));
                    assert(before.map_values(|e: EmblemInfo| e@) == base + group_emblems(*l, j as int));
                    let lhs = all@.map_values(|e: EmblemInfo| e@);
                    let rhs = base + group_emblems(*l, j + 1);
                    let bm = before.map_values(|e: EmblemInfo| e@);
                    let g0 = group_emblems(*l, j as int);
                    let g1 = group_emblems(*l, j + 1);
                    assert(bm.len() == before.len());
                    assert(bm == base + g0);
                    assert(g0.len() == j && g1.len() == j + 1);
                    assert(lhs.len() == before.len() + 1);
                    assert(lhs.len() == rhs.len());
                    assert forall|q: int| 0 <= q < lhs.len() implies lhs[q] == rhs[q] by {
                        if q < before.len() {
                            assert(lhs[q] == bm[q]);
                            assert(bm[q] == (base + g0)[q]);
                            if q >= base.len() {
                                assert(g0[q - base.len()] == g1[q - base.len()]);
                            }
                        } else {
                            assert(lhs[q] == e@);
                            assert(rhs[q] == g1[j as int]);
                        }
                    }
                }
            }
            j = j + 1;
        }
        proof {
            let sub = listing@.subrange(0, g + 1);
            assert(sub.drop_last() =~= listing@.subrange(0, g as int));
            assert(sub.last() == listing@[g as int]);
        }
        g = g + 1;
    }
    assert(listing@.subrange(0, n as int) =~= listing@);
    let ghost unsorted = all@;
    proof {
        lemma_newest_first_order();
    }
    let sorted = stable_sort_by(all, emblem_newer, Ghost(newest_first_info()));
    proof {
        let perm = choose|perm: Seq<int>| #[trigger] stable_perm(unsorted, sorted@, newest_first_info(), perm);
        lemma_stable_perm_view(unsorted, sorted@, newest_first_info(), newest_first(), perm);
    }
    sorted
}

/// An emblem and its slot file's bytes (`None` when the file could not be read).
pub type EmblemWithData = (EmblemInfo, Option<Vec<u8>>);

/// What an emblem's slot file holds after its HTTP head.
pub open spec fn item_body(item: EmblemWithData) -> Option<Seq<u8>> {
    match item.1 {
        Some(d) => Some(http_body(d@)),
        None => None,
    }
}

/// The emblems whose slot body is `b`, in order.
pub open spec fn bucket_of(items: Seq<EmblemWithData>, b: Seq<u8>) -> Seq<EmblemView>
    decreases items.len(),
{
    if items.len() == 0 {
        Seq::empty()
    } else if item_body(items.last()) == Some(b) {
        bucket_of(items.drop_last(), b).push(items.last().0@)
    } else {
        bucket_of(items.drop_last(), b)
    }
}

/// The different slot bodies, in order of first appearance.
pub open spec fn distinct_bodies(items: Seq<EmblemWithData>) -> Seq<Seq<u8>>
    decreases items.len(),
{
    if items.len() == 0 {
        Seq::empty()
    } else {
        let d = distinct_bodies(items.drop_last());
        match item_body(items.last()) {
            Some(b) => if d.contains(b) { d } else { d.push(b) },
            None => d,
        }
    }
}

/// The bodies among `bodies` that more than one emblem has.
pub open spec fn shared_bodies(items: Seq<EmblemWithData>, bodies: Seq<Seq<u8>>) -> Seq<Seq<u8>>
    decreases bodies.len(),
{
    if bodies.len() == 0 {
        Seq::empty()
    } else if bucket_of(items, bodies.last()).len() > 1 {
        shared_bodies(items, bodies.drop_last()).push(bodies.last())
    } else {
        shared_bodies(items, bodies.drop_last())
    }
}

/// The bodies that more than one emblem has, in order of first appearance.
pub open spec fn duplicate_bodies(items: Seq<EmblemWithData>) -> Seq<Seq<u8>> {
    shared_bodies(items, distinct_bodies(items))
}

/// Oldest capture first.
pub open spec fn oldest_first() -> spec_fn(EmblemView, EmblemView) -> bool {
    |a: EmblemView, b: EmblemView| lex_lt(a.captured_at, b.captured_at)
}

/// Oldest capture first, on `EmblemInfo`s.
pub open spec fn oldest_first_info() -> spec_fn(EmblemInfo, EmblemInfo) -> bool {
    |a: EmblemInfo, b: EmblemInfo| lex_lt(a.captured_at@, b.captured_at@)
}

/// Larger groups first.
pub open spec fn larger_first() -> spec_fn(Vec<EmblemInfo>, Vec<EmblemInfo>) -> bool {
    |a: Vec<EmblemInfo>, b: Vec<EmblemInfo>| a@.len() > b@.len()
}

/// The views of a group of emblems.
pub open spec fn views(g: Seq<EmblemInfo>) -> Seq<EmblemView> {
    g.map_values(|e: EmblemInfo| e@)
}

/// Taking one more emblem in.
pub proof fn lemma_bucket_step(items: Seq<EmblemWithData>, i: int, b: Seq<u8>)
    requires
        0 <= i < items.len(),
    ensures
        bucket_of(items.subrange(0, i + 1), b) == (if item_body(items[i]) == Some(b) {
            bucket_of(items.subrange(0, i), b).push(items[i].0@)
        } else {
            bucket_of(items.subrange(0, i), b)
        }),
{
    let s = items.subrange(0, i + 1);
    assert(s.drop_last() =~= items.subrange(0, i));
    assert(s.last() == items[i]);
}

/// A body is among the distinct bodies exactly when some emblem has it.
pub proof fn lemma_distinct_bodies(items: Seq<EmblemWithData>)
    ensures
        forall|b: Seq<u8>| #[trigger] distinct_bodies(items).contains(b) <==> bucket_of(items, b).len() > 0,
        forall|k1: int, k2: int| 0 <= k1 < k2 < distinct_bodies(items).len() ==> #[trigger] distinct_bodies(items)[k1]
            != #[trigger] distinct_bodies(items)[k2],
    decreases items.len(),
{
    if items.len() > 0 {
        lemma_distinct_bodies(items.drop_last());
        let d = distinct_bodies(items.drop_last());
        assert forall|b: Seq<u8>| #[trigger] distinct_bodies(items).contains(b) <==> bucket_of(items, b).len() > 0 by {
            assert(d.contains(b) <==> bucket_of(items.drop_last(), b).len() > 0);
            if let Some(x) = item_body(items.last()) {
                if !d.contains(x) {
                    assert(d.push(x).contains(b) <==> (d.contains(b) || b == x)) by {
                        if b == x {
                            assert(d.push(x)[d.len() as int] == x);
                        }
                        if d.push(x).contains(b) {
                            let k = choose|k: int| 0 <= k < d.push(x).len() && d.push(x)[k] == b;
                            if k < d.len() {
                                assert(d[k] == b);
                            }
                        }
                        if d.contains(b) {
                            let k = choose|k: int| 0 <= k < d.len() && d[k] == b;
                            assert(d.push(x)[k] == b);
                        }
                    }
                }
            }
        }
        if let Some(x) = item_body(items.last()) {
            if !d.contains(x) {
                let e = d.push(x);
                assert forall|k1: int, k2: int| 0 <= k1 < k2 < e.len() implies #[trigger] e[k1] != #[trigger] e[k2] by {
                    if k2 == d.len() {
                        assert(e[k1] == d[k1]);
                        if d[k1] == x {
                            assert(d.contains(x));
                        }
                    } else {
                        assert(e[k1] == d[k1] && e[k2] == d[k2]);
                    }
                }
            }
        }
    }
}

fn clone_info(e: &EmblemInfo) -> (r: EmblemInfo)
    ensures
        r@ == e@,
{
    EmblemInfo {
        id: e.id.clone(),
        group: e.group.clone(),
        slot: e.slot,
        label: e.label.clone(),
        captured_at: e.captured_at.clone(),
    }
}

fn clone_group_push(g: &Vec<EmblemInfo>, e: &EmblemInfo) -> (r: Vec<EmblemInfo>)
    ensures
        views(r@) == views(g@).push(e@),
        r@.len() == g@.len() + 1,
{
    let mut out: Vec<EmblemInfo> = Vec::new();
    let mut i: usize = 0;
    while i < g.len()
        invariant
            i <= g@.len(),
            out@.len() == i,
            forall|q: int| 0 <= q < i ==> #[trigger] out@[q]@ == g@[q]@,
        decreases g@.len() - i,
    {
        out.push(clone_info(&g[i]));
        i = i + 1;
    }
    out.push(clone_info(e));
    assert(views(out@) =~= views(g@).push(e@));
    out
}

fn find_body(bodies: &Vec<Vec<u8>>, body: &Vec<u8>) -> (r: Option<usize>)
    ensures
        r matches Some(k) ==> k < bodies@.len() && bodies@[k as int]@ == body@,
        r is None ==> forall|q: int| 0 <= q < bodies@.len() ==> #[trigger] bodies@[q]@ != body@,
{
    let mut k: usize = 0;
    while k < bodies.len()
        invariant
            k <= bodies@.len(),
            forall|q: int| 0 <= q < k ==> #[trigger] bodies@[q]@ != body@,
        decreases bodies@.len() - k,
    {
        if bytes_equal(bodies[k].as_slice(), body.as_slice()) {
            return Some(k);
        }
        k = k + 1;
    }
    None
}

fn emblem_older(a: &EmblemInfo, b: &EmblemInfo) -> (r: bool)
    ensures
        r == lex_lt(a.captured_at@, b.captured_at@),
{
    crate::sort::str_lt(a.captured_at.as_str(), b.captured_at.as_str())
}

fn group_larger(a: &Vec<EmblemInfo>, b: &Vec<EmblemInfo>) -> (r: bool)
    ensures
        r == (a@.len() > b@.len()),
{
    a.len() > b.len()
}

/// Oldest-first and larger-first are strict weak orders.
pub proof fn lemma_duplicate_orders()
    ensures
        strict_weak_order(oldest_first_info()),
        strict_weak_order(larger_first()),
{
    let lt = oldest_first_info();
    assert forall|a: EmblemInfo| !(#[trigger] lt(a, a)) by {
        lemma_lex_irreflexive(a.captured_at@);
    }
    assert forall|a: EmblemInfo, b: EmblemInfo, c: EmblemInfo| #[trigger] lt(a, b) && #[trigger] lt(b, c) implies lt(a, c) by {
        lemma_lex_transitive(a.captured_at@, b.captured_at@, c.captured_at@);
    }
    assert forall|a: EmblemInfo, b: EmblemInfo, c: EmblemInfo| #[trigger] lt(a, b) implies lt(a, c) || #[trigger] lt(c, b) by {
        lemma_lex_total(a.captured_at@, c.captured_at@);
        lemma_lex_total(c.captured_at@, b.captured_at@);
        if lex_lt(c.captured_at@, a.captured_at@) {
            lemma_lex_transitive(c.captured_at@, a.captured_at@, b.captured_at@);
        }
    }
}

/// Group `i` of `r` holds the emblems of the shared body `perm[i]` of
/// `duplicate_bodies`, oldest first, and each shared body has one group.
pub open spec fn duplicates_arranged(items: Seq<EmblemWithData>, r: Seq<Vec<EmblemInfo>>, perm: Seq<int>) -> bool {
    &&& perm.len() == r.len()
    &&& r.len() == duplicate_bodies(items).len()
    &&& forall|i: int| 0 <= i < perm.len() ==> 0 <= #[trigger] perm[i] < perm.len()
    &&& forall|i: int, j: int| 0 <= i < j < perm.len() ==> #[trigger] perm[i] != #[trigger] perm[j]
    &&& forall|v: int| 0 <= v < perm.len() ==> #[trigger] hits(perm, v)
    &&& forall|i: int| 0 <= i < r.len() ==> sorted_stably(
        bucket_of(items, duplicate_bodies(items)[perm[i]]),
        #[trigger] views(r[i]@),
        oldest_first(),
    )
}

/// Emblems whose slot files hold the same body after the HTTP head, grouped.
/// Only bodies shared by two or more emblems give a group; each group lists
/// its emblems oldest capture first (ties keep the input order), and larger
/// groups come first. `perm` in the contract is the order in which the
/// groups of `duplicate_bodies` appear; groups of equal size may come in any
/// order. Emblems whose file could not be read are left out.
pub fn find_duplicate_groups(items: &Vec<EmblemWithData>) -> (r: Vec<Vec<EmblemInfo>>)
    ensures
        exists|perm: Seq<int>| #[trigger] duplicates_arranged(items@, r@, perm),
        forall|i: int, j: int| 0 <= i < j < r@.len() ==> #[trigger] r@[i]@.len() >= #[trigger] r@[j]@.len(),
{
    // Buckets are a list of distinct bodies with their emblems, in place of
    // a hash map keyed by bytes, of which Verus proves next to nothing.
    let n = items.len();
    let mut bodies: Vec<Vec<u8>> = Vec::new();
    let mut groups: Vec<Vec<EmblemInfo>> = Vec::new();
    let mut i: usize = 0;
    while i < n
        invariant
            n == items@.len(),
            i <= n,
            bodies@.len() == groups@.len(),
            bodies@.map_values(|b: Vec<u8>| b@) == distinct_bodies(items@.subrange(0, i as int)),
            forall|k: int| 0 <= k < groups@.len() ==> #[trigger] views(groups@[k]@) == bucket_of(items@.subrange(0, i as int), bodies@[k]@),
        decreases n - i,
    {
        proof {
            lemma_distinct_bodies(items@.subrange(0, i as int));
            let s = items@.subrange(0, i + 1);
            assert(s.drop_last() =~= items@.subrange(0, i as int));
            assert(s.last() == items@[i as int]);
        }
        let ghost bview = bodies@.map_values(|b: Vec<u8>| b@);
        match &items[i].1 {
            Some(data) => {
                let body = copy_bytes(strip_http(data.as_slice()));
                let pos = find_body(&bodies, &body);
                if pos.is_some() {
                    let k = pos.unwrap();
                    assert(bodies@[k as int]@ == body@);
                    let updated = clone_group_push(&groups[k], &items[i].0);
                    let ghost old_groups = groups@;
                    groups.set(k, updated);
                    proof {
                        assert(bview.contains(body@)) by {
                            assert(bview[k as int] == body@);
                        }
                        assert forall|q: int| 0 <= q < groups@.len() implies #[trigger] views(groups@[q]@) == bucket_of(items@.subrange(0, i + 1), bodies@[q]@) by {
                            lemma_bucket_step(items@, i as int, bodies@[q]@);
                            if q != k {
                                assert(groups@[q] == old_groups[q]);
                                assert(bview[q] != bview[k as int]);
                            }
                        }
                    }
                } else {
                    proof {
                        assert(!bview.contains(body@)) by {
                            if bview.contains(body@) {
                                let q = choose|q: int| 0 <= q < bview.len() && bview[q] == body@;
                                assert(bview[q] == bodies@[q]@);
                            }
                        }
                        assert(bucket_of(items@.subrange(0, i as int), body@).len() == 0);
                    }
                    let mut g: Vec<EmblemInfo> = Vec::new();
                    g.push(clone_info(&items[i].0));
                    let ghost old_groups = groups@;
                    let ghost old_bodies = bodies@;
                    bodies.push(body);
                    groups.push(g);
                    proof {
                        assert(bodies@.map_values(|b: Vec<u8>| b@) =~= bview.push(body@));
                        assert forall|q: int| 0 <= q < groups@.len() implies #[trigger] views(groups@[q]@) == bucket_of(items@.subrange(0, i + 1), bodies@[q]@) by {
                            lemma_bucket_step(items@, i as int, bodies@[q]@);
                            if q < old_groups.len() {
                                assert(groups@[q] == old_groups[q]);
                                assert(bodies@[q] == old_bodies[q]);
                                assert(bview[q] == bodies@[q]@);
                                if bodies@[q]@ == body@ {
                                    assert(bview.contains(body@));
                                }
                            } else {
                                assert(views(groups@[q]@) =~= seq![items@[i as int].0@]);
                                assert(bucket_of(items@.subrange(0, i as int), body@) =~= Seq::<EmblemView>::empty());
                            }
                        }
                    }
                }
            },
            None => {
                proof {
                    assert forall|q: int| 0 <= q < groups@.len() implies #[trigger] views(groups@[q]@) == bucket_of(items@.subrange(0, i + 1), bodies@[q]@) by {
                        lemma_bucket_step(items@, i as int, bodies@[q]@);
                    }
                }
            },
        }
        i = i + 1;
    }
    assert(items@.subrange(0, n as int) =~= items@);
    let ghost all_bodies = bodies@.map_values(|b: Vec<u8>| b@);
    proof {
        lemma_duplicate_orders();
    }
    // keep the shared bodies, each group oldest first
    let mut kept: Vec<Vec<EmblemInfo>> = Vec::new();
    let ghost mut kept_bodies: Seq<Seq<u8>> = Seq::empty();
    let m = groups.len();
    let mut k: usize = 0;
    while k < m
        invariant
            m == groups@.len(),
            m == bodies@.len(),
            k <= m,
            all_bodies == bodies@.map_values(|b: Vec<u8>| b@),
            all_bodies == distinct_bodies(items@),
            forall|q: int| 0 <= q < groups@.len() ==> #[trigger] views(groups@[q]@) == bucket_of(items@, bodies@[q]@),
            strict_weak_order(oldest_first_info()),
            kept_bodies == shared_bodies(items@, all_bodies.subrange(0, k as int)),
            kept@.len() == kept_bodies.len(),
            forall|q: int| 0 <= q < kept@.len() ==> sorted_stably(bucket_of(items@, kept_bodies[q]), #[trigger] views(kept@[q]@), oldest_first()),
        decreases m - k,
    {
        proof {
            let sub = all_bodies.subrange(0, k + 1);
            assert(sub.drop_last() =~= all_bodies.subrange(0, k as int));
            assert(sub.last() == bodies@[k as int]@);
        }
        assert(views(groups@[k as int]@).len() == groups@[k as int]@.len());
        assert(all_bodies[k as int] == bodies@[k as int]@);
        if groups[k].len() > 1 {
            let mut g: Vec<EmblemInfo> = Vec::new();
            let mut q: usize = 0;
            while q < groups[k].len()
                invariant
                    k < groups@.len(),
                    q <= groups@[k as int]@.len(),
                    g@.len() == q,
                    forall|t: int| 0 <= t < q ==> #[trigger] g@[t]@ == groups@[k as int]@[t]@,
                decreases groups@[k as int]@.len() - q,
            {
                g.push(clone_info(&groups[k][q]));
                q = q + 1;
            }
            assert(views(g@) =~= views(groups@[k as int]@));
            let ghost unsorted = g@;
            let sorted = stable_sort_by(g, emblem_older, Ghost(oldest_first_info()));
            proof {
                let perm = choose|perm: Seq<int>| #[trigger] stable_perm(unsorted, sorted@, oldest_first_info(), perm);
                lemma_stable_perm_view(unsorted, sorted@, oldest_first_info(), oldest_first(), perm);
                assert(stable_perm(views(unsorted), views(sorted@), oldest_first(), perm));
                kept_bodies = kept_bodies.push(bodies@[k as int]@);
            }
            let ghost old_kept = kept@;
            kept.push(sorted);
            proof {
                assert forall|q: int| 0 <= q < kept@.len() implies sorted_stably(bucket_of(items@, kept_bodies[q]), #[trigger] views(kept@[q]@), oldest_first()) by {
                    if q < old_kept.len() {
                        assert(kept@[q] == old_kept[q]);
                    }
                }
            }
        }
        k = k + 1;
    }
    assert(all_bodies.subrange(0, m as int) =~= all_bodies);
    let ghost unsorted_groups = kept@;
    let r = stable_sort_by(kept, group_larger, Ghost(larger_first()));
    proof {
        let perm = choose|perm: Seq<int>| #[trigger] stable_perm(unsorted_groups, r@, larger_first(), perm);
        assert forall|i: int| 0 <= i < r@.len() implies sorted_stably(
            bucket_of(items@, duplicate_bodies(items@)[perm[i]]),
            #[trigger] views(r@[i]@),
            oldest_first(),
        ) by {
            assert(r@[i] == unsorted_groups[perm[i]]);
        }
        assert forall|i: int, j: int| 0 <= i < j < r@.len() implies #[trigger] r@[i]@.len() >= #[trigger] r@[j]@.len() by {
            assert(!larger_first()(r@[j], r@[i]));
        }
        assert(duplicates_arranged(items@, r@, perm));
    }
    r
}

/// A new single-emblem group, as stored by an import.
pub struct NewEmblem {
    pub group: String,
    pub meta: GroupMeta,
    pub info: EmblemInfo,
}

/// The label an import records: the given label without surrounding white
/// space, or none when that leaves nothing.
pub open spec fn import_label(label: Option<Seq<char>>) -> Option<Seq<char>> {
    match label {
        Some(l) => if trimmed(l).len() > 0 { Some(trimmed(l)) } else { None },
        None => None,
    }
}

/// The record of an emblem imported into new group number `idx` at time
/// `captured_at`: slot 1 of group `{idx:03}`, with the trimmed label when
/// one is left.
pub fn new_emblem_record(idx: u32, captured_at: String, label: Option<&str>) -> (r: NewEmblem)
    ensures
        r.group@ == group_name_spec(idx as nat),
        r.meta.wf(),
        r.meta.userhash is None,
        r.meta.first_captured matches Some(t) && t@ == captured_at@,
        r.meta.label(decimal(1)) == import_label(match label { Some(l) => Some(l@), None => None }),
        forall|k: Seq<char>| k != decimal(1) ==> #[trigger] r.meta.label(k) is None,
        r.info@ == emblem_view_of(r.group@, Some(r.meta), 1),
        r.info.label@ == (match import_label(match label { Some(l) => Some(l@), None => None }) {
            Some(l) => l,
            None => Seq::<char>::empty(),
        }),
{
    let group = group_name(idx);
    let mut labels: Vec<(String, String)> = Vec::new();
    let key = decimal_string(1);
    let kept: Option<&str> = match label {
        Some(l) => {
            let t = trim_str(l);
            if t.unicode_len() > 0 { Some(t) } else { None }
        },
        None => None,
    };
    match kept {
        Some(t) => {
            labels.push((key, String::from_str(t)));
        },
        None => {},
    }
    assert(labels@.len() == 0 || (labels@.len() == 1 && labels@[0].0@ == decimal(1)));
    proof {
        assert forall|k: Seq<char>| k != decimal(1) implies #[trigger] label_lookup(labels@, k) is None by {
            if labels@.len() == 1 {
                assert(labels@.drop_last().len() == 0);
                assert(labels@.last() == labels@[0]);
                assert(label_lookup(labels@.drop_last(), k) is None);
            }
        }
        if labels@.len() == 1 {
            assert(labels@.drop_last().len() == 0);
        }
    }
    let meta_opt = Some(GroupMeta { userhash: None, first_captured: Some(captured_at), labels });
    let info = emblem_info_of(&group, &meta_opt, 1);
    let meta = meta_opt.unwrap();
    NewEmblem { group, meta, info }
}

/// The message an import gives for a file too small to be an emblem.
pub open spec fn too_small_message() -> Seq<char> {
    "That file doesn't look like a valid emblem. It's smaller than a full 32-layer capture."@
}

/// Checks a file offered for import: its body (after any HTTP head) must
/// hold at least the 32 full layer records; otherwise the error says so.
pub fn validate_import(data: &[u8]) -> (r: Result<(), String>)
    ensures
        r is Ok <==> http_body(data@).len() >= 1408,
        r matches Err(m) ==> m@ == too_small_message(),
{
    let body = strip_http(data);
    if body.len() < crate::emblem::format::LAYER_SIZE * crate::emblem::format::NUM_LAYERS {
        Err(String::from_str("That file doesn't look like a valid emblem. It's smaller than a full 32-layer capture."))
    } else {
        Ok(())
    }
}

} // verus!
