//! Library backups: which files go into a backup archive, and how the
//! entries of an archive are gathered into groups to restore.
use vstd::prelude::*;
use crate::bytes::copy_bytes;
use crate::paths::ACTIVE_NAME;
use crate::sort::{lex_lt, lemma_lex_irreflexive, lemma_lex_transitive, lemma_lex_total, str_lt};
use crate::text::{chars_start_with, chars_to_string, parse_unsigned, parse_u64_radix, same_chars, split_once_char, split_once_exec, to_chars};

verus! {

/// What a file of a group directory is to a backup.
#[derive(Debug, Clone, Copy, PartialEq, Eq, Structural)]
pub enum BackupFile {
    /// An emblem, `slot_*.bin`.
    Slot,
    /// The group's `meta.json`.
    Meta,
    /// Anything else, left out.
    Other,
}

/// A file name that starts with `prefix` and ends with `suffix`, the two not
/// overlapping.
pub open spec fn framed_by(name: Seq<char>, prefix: Seq<char>, suffix: Seq<char>) -> bool {
    &&& name.len() >= prefix.len() + suffix.len()
    &&& name.subrange(0, prefix.len() as int) == prefix
    &&& name.subrange(name.len() - suffix.len(), name.len() as int) == suffix
}

/// The kind of a file named `name`: `slot_` ... `.bin` is an emblem.
pub open spec fn backup_file_kind(name: Seq<char>) -> BackupFile {
    if framed_by(name, "slot_"@, ".bin"@) {
        BackupFile::Slot
    } else if name == "meta.json"@ {
        BackupFile::Meta
    } else {
        BackupFile::Other
    }
}

/// Classifies a group directory's file for a backup, as `backup_file_kind`.
pub fn backup_file(name: &str) -> (r: BackupFile)
    ensures
        r == backup_file_kind(name@),
{
    proof {
        reveal_strlit("slot_");
        reveal_strlit(".bin");
        reveal_strlit("meta.json");
    }
    let cs = to_chars(name);
    let pre = to_chars("slot_");
    let suf = to_chars(".bin");
    if cs.len() >= 9 && chars_start_with(cs.as_slice(), 0, pre.as_slice())
        && chars_start_with(cs.as_slice(), cs.len() - 4, suf.as_slice()) {
        BackupFile::Slot
    } else if same_chars(name, "meta.json") {
        BackupFile::Meta
    } else {
        BackupFile::Other
    }
}

/// One file to put into a backup archive.
#[derive(Debug, Clone)]
pub struct ExportItem {
    /// The group directory it is read from.
    pub group: String,
    /// Its name in that directory.
    pub file: String,
    /// Its name in the archive, `group/file`.
    pub archive_name: String,
}

/// The backed-up files of one group directory, in the order given, each as
/// (group, file, archive name).
pub open spec fn group_exports(group: Seq<char>, files: Seq<String>) -> Seq<(Seq<char>, Seq<char>, Seq<char>)>
    decreases files.len(),
{
    if files.len() == 0 {
        Seq::empty()
    } else {
        let prev = group_exports(group, files.drop_last());
        let f = files.last()@;
        if backup_file_kind(f) is Other {
            prev
        } else {
            prev.push((group, f, group + seq!['/'] + f))
        }
    }
}

/// The number of emblems among a group's files.
pub open spec fn group_slot_count(files: Seq<String>) -> nat
    decreases files.len(),
{
    if files.len() == 0 {
        0
    } else {
        group_slot_count(files.drop_last()) + if backup_file_kind(files.last()@) is Slot { 1nat } else { 0nat }
    }
}

/// All backed-up files of the listed group directories, group by group.
pub open spec fn library_exports(dirs: Seq<(String, Vec<String>)>) -> Seq<(Seq<char>, Seq<char>, Seq<char>)>
    decreases dirs.len(),
{
    if dirs.len() == 0 {
        Seq::empty()
    } else {
        library_exports(dirs.drop_last()) + group_exports(dirs.last().0@, dirs.last().1@)
    }
}

/// The number of emblems in the listed group directories.
pub open spec fn library_slot_count(dirs: Seq<(String, Vec<String>)>) -> nat
    decreases dirs.len(),
{
    if dirs.len() == 0 {
        0
    } else {
        library_slot_count(dirs.drop_last()) + group_slot_count(dirs.last().1@)
    }
}

/// The (group, file, archive name) of an export item.
pub open spec fn export_view(e: ExportItem) -> (Seq<char>, Seq<char>, Seq<char>) {
    (e.group@, e.file@, e.archive_name@)
}

/// The files of `dirs` (each a group and the names of its files) that a
/// backup holds, and how many of them are emblems: `slot_*.bin` and
/// `meta.json` files are kept, each under the name `group/file`.
pub fn plan_export(dirs: &Vec<(String, Vec<String>)>) -> (r: (Vec<ExportItem>, usize))
    ensures
        r.0@.map_values(|e: ExportItem| export_view(e)) == library_exports(dirs@),
        r.1 == library_slot_count(dirs@),
{
    let mut items: Vec<ExportItem> = Vec::new();
    let mut count: usize = 0;
    let mut d: usize = 0;
    while d < dirs.len()
        invariant
            d <= dirs@.len(),
            items@.map_values(|e: ExportItem| export_view(e)) == library_exports(dirs@.subrange(0, d as int)),
            count == library_slot_count(dirs@.subrange(0, d as int)),
            count <= items@.len(),
        decreases dirs@.len() - d,
    {
        let group = &dirs[d].0;
        let files = &dirs[d].1;
        let ghost before = items@.map_values(|e: ExportItem| export_view(e));
        let ghost count_before = count;
        let mut k: usize = 0;
        while k < files.len()
            invariant
                d < dirs@.len(),
                group == &dirs@[d as int].0,
                files == &dirs@[d as int].1,
                k <= files@.len(),
                items@.map_values(|e: ExportItem| export_view(e)) == before + group_exports(group@, files@.subrange(0, k as int)),
                count == count_before + group_slot_count(files@.subrange(0, k as int)),
                count <= items@.len(),
            decreases files@.len() - k,
        {
            let name = &files[k];
            let kind = backup_file(name.as_str());
            let ghost sub = files@.subrange(0, k as int + 1);
            assert(sub.drop_last() =~= files@.subrange(0, k as int));
            assert(sub.last() == files@[k as int]);
            match kind {
                BackupFile::Other => {},
                _ => {
                    let mut an = to_chars(group.as_str());
                    an.push('/');
                    let fc = to_chars(name.as_str());
                    let mut j: usize = 0;
                    let ghost base = an@;
                    while j < fc.len()
                        invariant
                            j <= fc@.len(),
                            an@ == base + fc@.subrange(0, j as int),
                        decreases fc@.len() - j,
                    {
                        an.push(fc[j]);
                        j = j + 1;
                        assert(an@ =~= base + fc@.subrange(0, j as int));
                    }
                    assert(fc@.subrange(0, fc@.len() as int) =~= fc@);
                    let item = ExportItem {
                        group: chars_to_string(group_chars(group).as_slice()),
                        file: chars_to_string(fc.as_slice()),
                        archive_name: chars_to_string(an.as_slice()),
                    };
                    assert(an@ =~= group@ + seq!['/'] + name@);
                    let ghost old_items = items@;
                    let ghost prev = group_exports(group@, files@.subrange(0, k as int));
                    items.push(item);
                    let total = items.len();
                    assert(items@.map_values(|e: ExportItem| export_view(e)) =~= old_items.map_values(
                        |e: ExportItem| export_view(e),
                    ).push(export_view(item)));
                    assert(export_view(item) == (group@, name@, group@ + seq!['/'] + name@));
                    assert(before + prev.push(export_view(item)) =~= (before + prev).push(export_view(item)));
                    if kind == BackupFile::Slot {
                        count = count + 1;
                    }
                    assert(count <= total);
                },
            }
            k = k + 1;
        }
        assert(files@.subrange(0, files@.len() as int) =~= files@);
        let ghost sub = dirs@.subrange(0, d as int + 1);
        assert(sub.drop_last() =~= dirs@.subrange(0, d as int));
        assert(sub.last() == dirs@[d as int]);
        d = d + 1;
    }
    assert(dirs@.subrange(0, dirs@.len() as int) =~= dirs@);
    (items, count)
}

/// The characters of a group name.
fn group_chars(group: &String) -> (r: Vec<char>)
    ensures
        r@ == group@,
{
    to_chars(group.as_str())
}

/// One entry of a backup archive as read back.
#[derive(Debug, Clone)]
pub struct ArchiveEntry {
    /// Its path in the archive.
    pub name: String,
    /// It is a directory.
    pub is_dir: bool,
    /// Its contents.
    pub data: Vec<u8>,
}

/// The group and file an archive entry names: `group/file`, split at the
/// first `/`, for a file (not a directory) whose group is neither empty nor
/// the selection's directory.
pub open spec fn entry_place(e: ArchiveEntry) -> Option<(Seq<char>, Seq<char>)> {
    if e.is_dir {
        None
    } else {
        match split_once_char(e.name@, '/') {
            Some(gf) => if gf.0.len() == 0 || gf.0 == ACTIVE_NAME@ { None } else { Some(gf) },
            None => None,
        }
    }
}

/// The slot a restored file name gives: `slot_<n>.bin` where `n` reads as
/// a `u32` (`str::parse`).
pub open spec fn restored_slot_number(file: Seq<char>) -> Option<u32> {
    if framed_by(file, "slot_"@, ".bin"@) {
        match parse_unsigned(file.subrange(5, file.len() - 4), 10) {
            Some(v) => if v <= u32::MAX { Some(v as u32) } else { None },
            None => None,
        }
    } else {
        None
    }
}

/// The emblems of group `g` in the archive `es`, in archive order.
pub open spec fn restored_slots(es: Seq<ArchiveEntry>, g: Seq<char>) -> Seq<(u32, Seq<u8>)>
    decreases es.len(),
{
    if es.len() == 0 {
        Seq::empty()
    } else {
        let prev = restored_slots(es.drop_last(), g);
        match entry_place(es.last()) {
            Some(gf) => if gf.0 == g && gf.1 != "meta.json"@ {
                match restored_slot_number(gf.1) {
                    Some(n) => prev.push((n, es.last().data@)),
                    None => prev,
                }
            } else {
                prev
            },
            None => prev,
        }
    }
}

/// The contents of the last `meta.json` of group `g` in the archive `es`.
pub open spec fn restored_meta(es: Seq<ArchiveEntry>, g: Seq<char>) -> Option<Seq<u8>>
    decreases es.len(),
{
    if es.len() == 0 {
        None
    } else {
        match entry_place(es.last()) {
            Some(gf) => if gf.0 == g && gf.1 == "meta.json"@ {
                Some(es.last().data@)
            } else {
                restored_meta(es.drop_last(), g)
            },
            None => restored_meta(es.drop_last(), g),
        }
    }
}

/// A group to restore from a backup.
#[derive(Debug, Clone)]
pub struct RestoreGroup {
    /// Its name in the archive.
    pub group: String,
    /// The contents of its `meta.json`, if it had one.
    pub meta: Option<Vec<u8>>,
    /// Its emblems, as slot number and contents, in archive order.
    pub slots: Vec<(u32, Vec<u8>)>,
}

/// Slot numbers and contents, by value.
pub open spec fn slots_view(s: Seq<(u32, Vec<u8>)>) -> Seq<(u32, Seq<u8>)> {
    Seq::new(s.len(), |i: int| (s[i].0, s[i].1@))
}

/// Optional contents, by value.
pub open spec fn bytes_view(m: Option<Vec<u8>>) -> Option<Seq<u8>> {
    match m {
        Some(v) => Some(v@),
        None => None,
    }
}

/// The view of a slice of an archive: its first `k` entries.
spec fn prefix(es: Seq<ArchiveEntry>, k: int) -> Seq<ArchiveEntry> {
    es.subrange(0, k)
}

/// The group and file named by an archive entry, as `entry_place`.
fn entry_place_exec(e: &ArchiveEntry) -> (r: Option<(String, String)>)
    ensures
        match entry_place(*e) {
            Some(gf) => r matches Some(x) && x.0@ == gf.0 && x.1@ == gf.1,
            None => r is None,
        },
{
    if e.is_dir {
        return None;
    }
    let cs = to_chars(e.name.as_str());
    match split_once_exec(cs.as_slice(), '/') {
        Some((g, f)) => {
            let gs = chars_to_string(g);
            if g.len() == 0 || same_chars(gs.as_str(), ACTIVE_NAME) {
                None
            } else {
                Some((gs, chars_to_string(f)))
            }
        },
        None => None,
    }
}

/// The slot number of a restored file, as `restored_slot_number`.
fn restored_slot_exec(file: &str) -> (r: Option<u32>)
    ensures
        r == restored_slot_number(file@),
{
    proof {
        reveal_strlit("slot_");
        reveal_strlit(".bin");
    }
    let cs = to_chars(file);
    let n = cs.len();
    let pre = to_chars("slot_");
    let suf = to_chars(".bin");
    if n < 9 || !chars_start_with(cs.as_slice(), 0, pre.as_slice()) || !chars_start_with(
        cs.as_slice(),
        n - 4,
        suf.as_slice(),
    ) {
        return None;
    }
    let digits = &cs.as_slice()[5..n - 4];
    assert(digits@ =~= file@.subrange(5, n - 4));
    match parse_u64_radix(digits, 10) {
        Some(v) => if v <= u32::MAX as u64 { Some(v as u32) } else { None },
        None => None,
    }
}

/// What an archive entry adds to group `g`: a slot, the meta file, or nothing.
fn entry_for_group(e: &ArchiveEntry, g: &str) -> (r: (Option<u32>, bool))
    ensures
        r.0 == (match entry_place(*e) {
            Some(gf) => if gf.0 == g@ && gf.1 != "meta.json"@ { restored_slot_number(gf.1) } else { None },
            None => None,
        }),
        r.1 == (match entry_place(*e) {
            Some(gf) => gf.0 == g@ && gf.1 == "meta.json"@,
            None => false,
        }),
{
    proof {
        reveal_strlit("meta.json");
    }
    match entry_place_exec(e) {
        Some((eg, f)) => {
            if same_chars(eg.as_str(), g) {
                if same_chars(f.as_str(), "meta.json") {
                    (None, true)
                } else {
                    (restored_slot_exec(f.as_str()), false)
                }
            } else {
                (None, false)
            }
        },
        None => (None, false),
    }
}

/// The groups that have emblems in the archive `es`.
pub open spec fn has_restored_slots(es: Seq<ArchiveEntry>, g: Seq<char>) -> bool {
    restored_slots(es, g).len() > 0
}

/// `v` is strictly increasing in string order.
pub open spec fn strictly_sorted(v: Seq<String>) -> bool {
    forall|i: int, j: int| 0 <= i < j < v.len() ==> lex_lt(#[trigger] v[i]@, #[trigger] v[j]@)
}

/// `g` is one of the names of `v`.
pub open spec fn has_name(v: Seq<String>, g: Seq<char>) -> bool {
    exists|i: int| 0 <= i < v.len() && #[trigger] v[i]@ == g
}

/// Adds `g` to a strictly sorted list of names, keeping it so.
fn insert_name(v: &mut Vec<String>, g: String)
    requires
        strictly_sorted(old(v)@),
    ensures
        strictly_sorted(final(v)@),
        forall|x: Seq<char>| has_name(final(v)@, x) <==> (has_name(old(v)@, x) || x == g@),
{
    let mut i: usize = 0;
    while i < v.len() && str_lt(v[i].as_str(), g.as_str())
        invariant
            i <= v@.len(),
            forall|m: int| 0 <= m < i ==> lex_lt(#[trigger] v@[m]@, g@),
        decreases v@.len() - i,
    {
        i = i + 1;
    }
    if i < v.len() && same_chars(v[i].as_str(), g.as_str()) {
        assert(has_name(v@, g@));
        assert(v@ == old(v)@);
        return;
    }
    let ghost old_v = v@;
    proof {
        if i < v@.len() {
            lemma_lex_total(v@[i as int]@, g@);
            assert(lex_lt(g@, v@[i as int]@));
            assert forall|m: int| i <= m < old_v.len() implies lex_lt(g@, #[trigger] old_v[m]@) by {
                if m > i {
                    lemma_lex_transitive(g@, old_v[i as int]@, old_v[m]@);
                }
            }
        }
    }
    v.insert(i, g);
    assert(v@ == old_v.insert(i as int, g));
    proof {
        assert forall|a: int, b: int| 0 <= a < b < v@.len() implies lex_lt(#[trigger] v@[a]@, #[trigger] v@[b]@) by {
            if b < i {
                assert(v@[a] == old_v[a]);
                assert(v@[b] == old_v[b]);
            } else if a < i && b == i {
            } else if a < i && b > i {
                assert(v@[a] == old_v[a]);
                assert(v@[b] == old_v[b - 1]);
            } else if a == i {
                assert(v@[b] == old_v[b - 1]);
            } else {
                assert(v@[a] == old_v[a - 1]);
                assert(v@[b] == old_v[b - 1]);
            }
        }
        assert forall|x: Seq<char>| has_name(v@, x) <==> (has_name(old_v, x) || x == g@) by {
            if has_name(v@, x) {
                let m = choose|m: int| 0 <= m < v@.len() && #[trigger] v@[m]@ == x;
                if m < i {
                    assert(old_v[m]@ == x);
                } else if m > i {
                    assert(old_v[m - 1]@ == x);
                }
            }
            if has_name(old_v, x) {
                let m = choose|m: int| 0 <= m < old_v.len() && #[trigger] old_v[m]@ == x;
                if m < i {
                    assert(v@[m]@ == x);
                } else {
                    assert(v@[m + 1]@ == x);
                }
            }
            if x == g@ {
                assert(v@[i as int]@ == x);
            }
        }
        assert(old_v == old(v)@);
        assert(forall|x: Seq<char>| has_name(v@, x) <==> (has_name(old(v)@, x) || x == g@));
    }
}

/// The names of the groups that have emblems in `es`, sorted and without
/// repeats.
fn restored_group_names(es: &Vec<ArchiveEntry>) -> (r: Vec<String>)
    ensures
        strictly_sorted(r@),
        forall|g: Seq<char>| has_name(r@, g) <==> has_restored_slots(es@, g),
{
    let mut names: Vec<String> = Vec::new();
    let mut k: usize = 0;
    while k < es.len()
        invariant
            k <= es@.len(),
            strictly_sorted(names@),
            forall|g: Seq<char>| has_name(names@, g) <==> has_restored_slots(prefix(es@, k as int), g),
        decreases es@.len() - k,
    {
        let e = &es[k];
        let ghost sub = prefix(es@, k + 1);
        assert(sub.drop_last() =~= prefix(es@, k as int));
        assert(sub.last() == es@[k as int]);
        let place = entry_place_exec(e);
        match place {
            Some((g, f)) => {
                let is_meta = same_chars(f.as_str(), "meta.json");
                proof {
                    reveal_strlit("meta.json");
                }
                if !is_meta {
                    match restored_slot_exec(f.as_str()) {
                        Some(_) => {
                            let ghost gv = g@;
                            insert_name(&mut names, g);
                            assert forall|h: Seq<char>| has_name(names@, h) <==> has_restored_slots(sub, h) by {
                                if h != gv {
                                    assert(restored_slots(sub, h) == restored_slots(prefix(es@, k as int), h));
                                }
                            }
                        },
                        None => {
                            assert forall|h: Seq<char>| has_name(names@, h) <==> has_restored_slots(sub, h) by {
                                assert(restored_slots(sub, h) == restored_slots(prefix(es@, k as int), h));
                            }
                        },
                    }
                } else {
                    assert forall|h: Seq<char>| has_name(names@, h) <==> has_restored_slots(sub, h) by {
                        assert(restored_slots(sub, h) == restored_slots(prefix(es@, k as int), h));
                    }
                }
            },
            None => {
                assert forall|h: Seq<char>| has_name(names@, h) <==> has_restored_slots(sub, h) by {
                    assert(restored_slots(sub, h) == restored_slots(prefix(es@, k as int), h));
                }
            },
        }
        k = k + 1;
    }
    assert(prefix(es@, es@.len() as int) =~= es@);
    names
}

/// The emblems and meta file of group `g` in `es`.
fn gather_group(es: &Vec<ArchiveEntry>, g: &str) -> (r: (Option<Vec<u8>>, Vec<(u32, Vec<u8>)>))
    ensures
        bytes_view(r.0) == restored_meta(es@, g@),
        slots_view(r.1@) == restored_slots(es@, g@),
{
    let mut meta: Option<Vec<u8>> = None;
    let mut slots: Vec<(u32, Vec<u8>)> = Vec::new();
    let mut k: usize = 0;
    while k < es.len()
        invariant
            k <= es@.len(),
            bytes_view(meta) == restored_meta(prefix(es@, k as int), g@),
            slots_view(slots@) == restored_slots(prefix(es@, k as int), g@),
        decreases es@.len() - k,
    {
        let e = &es[k];
        let ghost sub = prefix(es@, k + 1);
        assert(sub.drop_last() =~= prefix(es@, k as int));
        assert(sub.last() == es@[k as int]);
        let (slot, is_meta) = entry_for_group(e, g);
        if is_meta {
            meta = Some(copy_bytes(e.data.as_slice()));
        }
        match slot {
            Some(n) => {
                let ghost before = slots@;
                slots.push((n, copy_bytes(e.data.as_slice())));
                assert(slots_view(slots@) =~= slots_view(before).push((n, e.data@)));
            },
            None => {},
        }
        k = k + 1;
    }
    assert(prefix(es@, es@.len() as int) =~= es@);
    (meta, slots)
}

// The groups are gathered in a `Vec` kept strictly sorted by name, in place
// of an ordered map keyed by `String`, of which Verus proves next to nothing;
// `strictly_sorted` states the order and uniqueness such a map would give.
/// The groups to restore from the archive entries `es`: every group that
/// has at least one emblem, once, in string order of its name, with its
/// emblems in archive order and the contents of its last `meta.json`.
pub fn plan_restore(es: &Vec<ArchiveEntry>) -> (r: Vec<RestoreGroup>)
    ensures
        forall|i: int, j: int| 0 <= i < j < r@.len() ==> lex_lt(#[trigger] r@[i].group@, #[trigger] r@[j].group@),
        forall|i: int| 0 <= i < r@.len() ==> {
            &&& has_restored_slots(es@, #[trigger] r@[i].group@)
            &&& slots_view(r@[i].slots@) == restored_slots(es@, r@[i].group@)
            &&& bytes_view(r@[i].meta) == restored_meta(es@, r@[i].group@)
        },
        forall|g: Seq<char>| has_restored_slots(es@, g) ==> exists|i: int| 0 <= i < r@.len() && #[trigger] r@[i].group@ == g,
{
    let names = restored_group_names(es);
    let mut out: Vec<RestoreGroup> = Vec::new();
    let mut i: usize = 0;
    while i < names.len()
        invariant
            i <= names@.len(),
            out@.len() == i,
            strictly_sorted(names@),
            forall|g: Seq<char>| has_name(names@, g) <==> has_restored_slots(es@, g),
            forall|m: int| 0 <= m < i ==> (#[trigger] out@[m]).group@ == names@[m]@,
            forall|m: int| 0 <= m < i ==> {
                &&& slots_view((#[trigger] out@[m]).slots@) == restored_slots(es@, out@[m].group@)
                &&& bytes_view(out@[m].meta) == restored_meta(es@, out@[m].group@)
            },
        decreases names@.len() - i,
    {
        let g = &names[i];
        let (meta, slots) = gather_group(es, g.as_str());
        let name = chars_to_string(group_chars(g).as_slice());
        out.push(RestoreGroup { group: name, meta, slots });
        i = i + 1;
    }
    proof {
        assert forall|a: int| 0 <= a < out@.len() implies has_restored_slots(es@, #[trigger] out@[a].group@) by {
            assert(has_name(names@, names@[a]@));
        }
        assert forall|g: Seq<char>| has_restored_slots(es@, g) implies exists|m: int| 0 <= m < out@.len() && #[trigger] out@[m].group@ == g by {
            assert(has_name(names@, g));
            let m = choose|m: int| 0 <= m < names@.len() && #[trigger] names@[m]@ == g;
            assert(out@[m].group@ == g);
        }
    }
    out
}

/// A group name a backup can carry: not empty, without `/`, and not the
/// selection's directory.
pub open spec fn valid_group(g: Seq<char>) -> bool {
    &&& g.len() > 0
    &&& forall|i: int| 0 <= i < g.len() ==> g[i] != '/'
    &&& g != ACTIVE_NAME@
}

/// The archive `es` holds the exported files `items`, in order: each a file
/// entry under the item's archive name, with the contents `contents` gives
/// for its group and file.
pub open spec fn archive_holds(
    es: Seq<ArchiveEntry>,
    items: Seq<(Seq<char>, Seq<char>, Seq<char>)>,
    contents: spec_fn(Seq<char>, Seq<char>) -> Seq<u8>,
) -> bool {
    &&& es.len() == items.len()
    &&& forall|i: int| 0 <= i < es.len() ==> {
        &&& !(#[trigger] es[i]).is_dir
        &&& es[i].name@ == items[i].2
        &&& es[i].data@ == contents(items[i].0, items[i].1)
    }
}

/// The emblems among a group's files: those named `slot_<n>.bin` with `n` a
/// `u32`, in order, with their contents.
pub open spec fn dir_slots(g: Seq<char>, files: Seq<String>, contents: spec_fn(Seq<char>, Seq<char>) -> Seq<u8>) -> Seq<(u32, Seq<u8>)>
    decreases files.len(),
{
    if files.len() == 0 {
        Seq::empty()
    } else {
        let prev = dir_slots(g, files.drop_last(), contents);
        match restored_slot_number(files.last()@) {
            Some(n) => prev.push((n, contents(g, files.last()@))),
            None => prev,
        }
    }
}

/// The contents of a group's last `meta.json`, if it has one.
pub open spec fn dir_meta(g: Seq<char>, files: Seq<String>, contents: spec_fn(Seq<char>, Seq<char>) -> Seq<u8>) -> Option<Seq<u8>>
    decreases files.len(),
{
    if files.len() == 0 {
        None
    } else if files.last()@ == "meta.json"@ {
        Some(contents(g, files.last()@))
    } else {
        dir_meta(g, files.drop_last(), contents)
    }
}

/// The emblems of group `g` across the listed directories, in order.
pub open spec fn library_slots(dirs: Seq<(String, Vec<String>)>, g: Seq<char>, contents: spec_fn(Seq<char>, Seq<char>) -> Seq<u8>) -> Seq<(u32, Seq<u8>)>
    decreases dirs.len(),
{
    if dirs.len() == 0 {
        Seq::empty()
    } else {
        library_slots(dirs.drop_last(), g, contents) + if dirs.last().0@ == g {
            dir_slots(g, dirs.last().1@, contents)
        } else {
            Seq::empty()
        }
    }
}

/// The contents of the last `meta.json` of group `g` in the listed directories.
pub open spec fn library_meta(dirs: Seq<(String, Vec<String>)>, g: Seq<char>, contents: spec_fn(Seq<char>, Seq<char>) -> Seq<u8>) -> Option<Seq<u8>>
    decreases dirs.len(),
{
    if dirs.len() == 0 {
        None
    } else if dirs.last().0@ == g && dir_meta(g, dirs.last().1@, contents) is Some {
        dir_meta(g, dirs.last().1@, contents)
    } else {
        library_meta(dirs.drop_last(), g, contents)
    }
}

/// What is restored from two archives one after the other: the emblems of
/// both, and the later meta file.
proof fn lemma_restored_concat(es1: Seq<ArchiveEntry>, es2: Seq<ArchiveEntry>, g: Seq<char>)
    ensures
        restored_slots(es1 + es2, g) == restored_slots(es1, g) + restored_slots(es2, g),
        restored_meta(es1 + es2, g) == (match restored_meta(es2, g) {
            Some(x) => Some(x),
            None => restored_meta(es1, g),
        }),
    decreases es2.len(),
{
    if es2.len() == 0 {
        assert(es1 + es2 =~= es1);
        assert(restored_slots(es1, g) + restored_slots(es2, g) =~= restored_slots(es1, g));
    } else {
        lemma_restored_concat(es1, es2.drop_last(), g);
        assert((es1 + es2).drop_last() =~= es1 + es2.drop_last());
        assert((es1 + es2).last() == es2.last());
        let a = restored_slots(es1, g);
        let b = restored_slots(es2.drop_last(), g);
        match entry_place(es2.last()) {
            Some(gf) => if gf.0 == g && gf.1 != "meta.json"@ {
                match restored_slot_number(gf.1) {
                    Some(n) => {
                        assert(a + b.push((n, es2.last().data@)) =~= (a + b).push((n, es2.last().data@)));
                    },
                    None => {},
                }
            },
            None => {},
        }
    }
}

/// `group/file` splits back into the group and the file when the group
/// has no `/`.
proof fn lemma_split_archive_name(h: Seq<char>, f: Seq<char>)
    requires
        valid_group(h),
    ensures
        split_once_char(h + seq!['/'] + f, '/') == Some((h, f)),
{
    let s = h + seq!['/'] + f;
    let n = h.len() as int;
    crate::bytes::lemma_find_from(s, seq!['/'], 0);
    assert(s.subrange(n, n + 1) =~= seq!['/']);
    assert(crate::bytes::occurs_at(s, seq!['/'], n));
    match crate::bytes::first_occurrence(s, seq!['/']) {
        Some(p) => {
            if p < n {
                assert(s.subrange(p, p + 1)[0] == s[p]);
                assert(s[p] == h[p]);
            }
            assert(p == n);
        },
        None => {},
    }
    assert(s.subrange(0, n) =~= h);
    assert(s.subrange(n + 1, s.len() as int) =~= f);
}

/// An archive of one group's exported files restores that group's emblems
/// and meta file, and nothing for any other group.
proof fn lemma_group_restore(
    h: Seq<char>,
    files: Seq<String>,
    es: Seq<ArchiveEntry>,
    contents: spec_fn(Seq<char>, Seq<char>) -> Seq<u8>,
    g: Seq<char>,
)
    requires
        valid_group(h),
        archive_holds(es, group_exports(h, files), contents),
    ensures
        restored_slots(es, g) == (if g == h { dir_slots(h, files, contents) } else { Seq::empty() }),
        restored_meta(es, g) == (if g == h { dir_meta(h, files, contents) } else { None }),
    decreases files.len(),
{
    reveal_strlit("meta.json");
    reveal_strlit("slot_");
    reveal_strlit(".bin");
    if files.len() == 0 {
        assert(es.len() == 0);
    } else {
        let f = files.last()@;
        let prev = group_exports(h, files.drop_last());
        if backup_file_kind(f) is Other {
            lemma_group_restore(h, files.drop_last(), es, contents, g);
            assert(!framed_by(f, "slot_"@, ".bin"@));
            assert(restored_slot_number(f) is None);
        } else {
            let x = (h, f, h + seq!['/'] + f);
            assert(group_exports(h, files) == prev.push(x));
            let es0 = es.drop_last();
            assert forall|i: int| 0 <= i < es0.len() implies {
                &&& !(#[trigger] es0[i]).is_dir
                &&& es0[i].name@ == prev[i].2
                &&& es0[i].data@ == contents(prev[i].0, prev[i].1)
            } by {
                assert(es0[i] == es[i]);
                assert(prev.push(x)[i] == prev[i]);
            }
            lemma_group_restore(h, files.drop_last(), es0, contents, g);
            let e = es.last();
            assert(e == es[es.len() - 1]);
            assert(prev.push(x)[es.len() - 1] == x);
            lemma_split_archive_name(h, f);
            assert(entry_place(e) == Some((h, f)));
            if f == "meta.json"@ {
                assert(f.subrange(0, 5) != "slot_"@) by {
                    assert(f.subrange(0, 5)[0] == 'm');
                }
                assert(restored_slot_number(f) is None);
            }
        }
    }
}

/// Restoring a backup gives back the library it was made from: when the
/// archive holds exactly the files a backup of `dirs` lists, with their
/// contents, every group gets back the emblems its directories held (each
/// `slot_<n>.bin` whose `n` is a `u32`, in order, with its contents) and the
/// contents of its last `meta.json`; other groups get nothing.
pub proof fn lemma_backup_round_trip(
    dirs: Seq<(String, Vec<String>)>,
    es: Seq<ArchiveEntry>,
    contents: spec_fn(Seq<char>, Seq<char>) -> Seq<u8>,
    g: Seq<char>,
)
    requires
        forall|i: int| 0 <= i < dirs.len() ==> valid_group(#[trigger] dirs[i].0@),
        archive_holds(es, library_exports(dirs), contents),
    ensures
        restored_slots(es, g) == library_slots(dirs, g, contents),
        restored_meta(es, g) == library_meta(dirs, g, contents),
    decreases dirs.len(),
{
    if dirs.len() == 0 {
        assert(es.len() == 0);
    } else {
        let init = dirs.drop_last();
        let h = dirs.last().0@;
        let files = dirs.last().1@;
        let head = library_exports(init);
        let tail = group_exports(h, files);
        assert(library_exports(dirs) == head + tail);
        let k = head.len() as int;
        let es1 = es.subrange(0, k);
        let es2 = es.subrange(k, es.len() as int);
        assert(es =~= es1 + es2);
        assert forall|i: int| 0 <= i < es1.len() implies {
            &&& !(#[trigger] es1[i]).is_dir
            &&& es1[i].name@ == head[i].2
            &&& es1[i].data@ == contents(head[i].0, head[i].1)
        } by {
            assert(es1[i] == es[i]);
            assert((head + tail)[i] == head[i]);
        }
        assert forall|i: int| 0 <= i < es2.len() implies {
            &&& !(#[trigger] es2[i]).is_dir
            &&& es2[i].name@ == tail[i].2
            &&& es2[i].data@ == contents(tail[i].0, tail[i].1)
        } by {
            assert(es2[i] == es[k + i]);
            assert((head + tail)[k + i] == tail[i]);
        }
        assert(forall|i: int| 0 <= i < init.len() ==> #[trigger] init[i] == dirs[i]);
        assert(valid_group(dirs[dirs.len() - 1].0@));
        lemma_backup_round_trip(init, es1, contents, g);
        lemma_group_restore(h, files, es2, contents, g);
        lemma_restored_concat(es1, es2, g);
        if h == g {
        } else {
            assert(library_slots(init, g, contents) + Seq::<(u32, Seq<u8>)>::empty() =~= library_slots(init, g, contents));
            assert(restored_slots(es1, g) + Seq::<(u32, Seq<u8>)>::empty() =~= restored_slots(es1, g));
        }
    }
}

} // verus!
