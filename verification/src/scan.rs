//! Turning what a directory walk or a change notification reports into
//! index entries.
use vstd::prelude::*;
use vstd::hash_set::StringHashSet;
use crate::text::{bytes_contain, bytes_end_with, bytes_eq_ignore_ascii_case, eq_ascii_nocase, occurs_in, spec_lowercase, to_lowercase, utf8};
use crate::types::FileInfo;

verus! {

/// Directory names the index skips.
pub open spec fn ignored_names() -> Seq<Seq<char>> {
    seq![
        "node_modules"@,
        ".git"@,
        "AppData"@,
        "$Recycle.Bin"@,
        "Windows"@,
        "System32"@,
        "ProgramData"@,
        "Recovery"@,
    ]
}

/// `name` equals one of the ignored names, up to ASCII case.
pub open spec fn is_ignored(name: Seq<char>) -> bool {
    exists|k: int| 0 <= k < ignored_names().len() && eq_ascii_nocase(utf8(name), utf8(#[trigger] ignored_names()[k]))
}

/// Whether a directory entry called `name` is skipped by the walk.
pub fn is_ignored_name(name: &str) -> (r: bool)
    ensures
        r == is_ignored(name@),
{
    let b = name.as_bytes();
    let r = bytes_eq_ignore_ascii_case(b, "node_modules".as_bytes())
        || bytes_eq_ignore_ascii_case(b, ".git".as_bytes())
        || bytes_eq_ignore_ascii_case(b, "AppData".as_bytes())
        || bytes_eq_ignore_ascii_case(b, "$Recycle.Bin".as_bytes())
        || bytes_eq_ignore_ascii_case(b, "Windows".as_bytes())
        || bytes_eq_ignore_ascii_case(b, "System32".as_bytes())
        || bytes_eq_ignore_ascii_case(b, "ProgramData".as_bytes())
        || bytes_eq_ignore_ascii_case(b, "Recovery".as_bytes());
    proof {
        if r {
            let names = ignored_names();
            if eq_ascii_nocase(utf8(name@), utf8(names[0])) {
                assert(eq_ascii_nocase(utf8(name@), utf8(names[0])));
            }
        }
        if is_ignored(name@) {
            let k = choose|k: int| 0 <= k < ignored_names().len() && eq_ascii_nocase(utf8(name@), utf8(#[trigger] ignored_names()[k]));
            assert(0 <= k < 8);
        }
    }
    r
}

/// `f` is a fresh index entry for a file called `name` at `path` of
/// `size` bytes.
pub open spec fn fresh_entry(f: FileInfo, name: String, path: String, size: u64) -> bool {
    &&& f.name == name
    &&& f.name_lowercase@ == spec_lowercase(name@)
    &&& f.path == path
    &&& f.size == size
    &&& !f.is_dir
    &&& f.open_count == 0
    &&& f.icon_index == -1
}

/// One entry a disk walk reports: path, name, whether it is a directory,
/// size.
pub type WalkEntry = (String, String, bool, u64);

/// The walk entries an index scan keeps: not a directory, and not already
/// indexed when a set of known paths is given.
pub open spec fn kept_entries(e: Seq<WalkEntry>, known: Option<Set<Seq<char>>>) -> Seq<WalkEntry>
    decreases e.len(),
{
    if e.len() == 0 {
        Seq::empty()
    } else {
        let rest = kept_entries(e.drop_last(), known);
        let x = e.last();
        let seen = match known {
            Some(k) => k.contains(x.0@),
            None => false,
        };
        if seen || x.2 {
            rest
        } else {
            rest.push(x)
        }
    }
}

/// The walk entry `x` names a path already indexed.
pub open spec fn is_known(known: Option<Set<Seq<char>>>, x: WalkEntry) -> bool {
    match known {
        Some(k) => k.contains(x.0@),
        None => false,
    }
}

/// A scan keeps exactly the new files: every entry that is not a
/// directory and whose path is not known is kept, whatever its size or
/// name, and every entry kept is such an entry of the walk.
pub proof fn lemma_scan_keeps_new_files(e: Seq<WalkEntry>, known: Option<Set<Seq<char>>>)
    ensures
        forall|j: int| 0 <= j < e.len() && !e[j].2 && !is_known(known, e[j]) ==> #[trigger] kept_entries(e, known).contains(e[j]),
        forall|x: WalkEntry| #[trigger] kept_entries(e, known).contains(x) ==> e.contains(x) && !x.2 && !is_known(known, x),
        kept_entries(e, known).len() <= e.len(),
    decreases e.len(),
{
    if e.len() > 0 {
        let d = e.drop_last();
        lemma_scan_keeps_new_files(d, known);
        let kept = kept_entries(e, known);
        let rest = kept_entries(d, known);
        assert forall|j: int| 0 <= j < e.len() && !e[j].2 && !is_known(known, e[j]) implies #[trigger] kept.contains(e[j]) by {
            if j < e.len() - 1 {
                assert(d[j] == e[j]);
                assert(rest.contains(d[j]));
                let w = choose|w: int| 0 <= w < rest.len() && rest[w] == d[j];
                assert(kept[w] == rest[w]);
            } else {
                assert(kept[kept.len() - 1] == e.last());
            }
        }
        assert forall|x: WalkEntry| #[trigger] kept.contains(x) implies e.contains(x) && !x.2 && !is_known(known, x) by {
            let w = choose|w: int| 0 <= w < kept.len() && kept[w] == x;
            if w < rest.len() {
                assert(rest[w] == x);
                assert(rest.contains(x));
                let v = choose|v: int| 0 <= v < d.len() && d[v] == x;
                assert(e[v] == x);
            } else {
                assert(x == e.last());
                assert(e[e.len() - 1] == x);
            }
        }
    }
}

/// Builds index entries for the files a disk walk found, skipping
/// directories and, when `known` is given, paths already indexed.
pub fn scanned_files(entries: Vec<WalkEntry>, known: Option<&StringHashSet>) -> (r: Vec<FileInfo>)
    ensures
        ({
            let kept = kept_entries(entries@, match known { Some(k) => Some(k@), None => None });
            &&& r@.len() == kept.len()
            &&& forall|i: int| 0 <= i < kept.len() ==> fresh_entry(#[trigger] r@[i], kept[i].1, kept[i].0, kept[i].3)
        }),
        forall|j: int| #![trigger entries@[j]]
            0 <= j < entries@.len() && !entries@[j].2 && !is_known(
                match known { Some(k) => Some(k@), None => None },
                entries@[j],
            ) ==> exists|i: int|
                0 <= i < r@.len() && (#[trigger] r@[i]).path == entries@[j].0 && r@[i].name == entries@[j].1 && r@[i].size
                    == entries@[j].3 && !r@[i].is_dir && r@[i].open_count == 0 && r@[i].name_lowercase@ == spec_lowercase(
                    entries@[j].1@,
                ),
{
    let ghost all = entries@;
    let ghost kset = match known { Some(k) => Some(k@), None => None };
    let mut out: Vec<FileInfo> = Vec::new();
    for e in it: entries
        invariant
            it.seq() == all,
            kset == match known { Some(k) => Some(k@), None => None::<Set<Seq<char>>> },
            out@.len() == kept_entries(all.take(it.index() as int), kset).len(),
            forall|i: int| 0 <= i < out@.len() ==> fresh_entry(#[trigger] out@[i], kept_entries(all.take(it.index() as int), kset)[i].1, kept_entries(all.take(it.index() as int), kset)[i].0, kept_entries(all.take(it.index() as int), kset)[i].3),
    {
        let ghost before = all.take(it.index() as int);
        proof {
            assert(all.take(it.index() + 1).drop_last() =~= before);
            assert(all.take(it.index() + 1).last() == e);
        }
        let (path, name, is_dir, size) = e;
        let seen = match known {
            Some(k) => k.contains(path.as_str()),
            None => false,
        };
        if !seen && !is_dir {
            let lower = to_lowercase(name.as_str());
            out.push(FileInfo { name, name_lowercase: lower, path, size, is_dir: false, open_count: 0, icon_index: -1 });
        }
    }
    proof {
        assert(all.take(all.len() as int) =~= all);
        lemma_scan_keeps_new_files(all, kset);
        let kept = kept_entries(all, kset);
        assert forall|j: int| #![trigger all[j]]
            0 <= j < all.len() && !all[j].2 && !is_known(kset, all[j]) implies exists|i: int|
            0 <= i < out@.len() && (#[trigger] out@[i]).path == all[j].0 && out@[i].name == all[j].1 && out@[i].size == all[j].3
                && !out@[i].is_dir && out@[i].open_count == 0 && out@[i].name_lowercase@ == spec_lowercase(all[j].1@) by {
            assert(kept.contains(all[j]));
            let i = choose|i: int| 0 <= i < kept.len() && kept[i] == all[j];
            assert(fresh_entry(out@[i], kept[i].1, kept[i].0, kept[i].3));
        }
    }
    out
}

/// An index entry for a file that a change notification reported, unless
/// its lowercase name is one of the ignored names.
pub fn new_file_entry(name: String, path: String, size: u64) -> (r: Option<FileInfo>)
    ensures
        is_ignored(spec_lowercase(name@)) ==> r is None,
        !is_ignored(spec_lowercase(name@)) ==> (r matches Some(f) && fresh_entry(f, name, path, size)),
{
    let lower = to_lowercase(name.as_str());
    if is_ignored_name(lower.as_str()) {
        return None;
    }
    Some(FileInfo { name, name_lowercase: lower, path, size, is_dir: false, open_count: 0, icon_index: -1 })
}

/// The ignored names in lower case, as they show in a lowercase path.
pub open spec fn ignored_names_lower() -> Seq<Seq<char>> {
    seq![
        "node_modules"@,
        ".git"@,
        "appdata"@,
        "$recycle.bin"@,
        "windows"@,
        "system32"@,
        "programdata"@,
        "recovery"@,
    ]
}

/// `n` is a whole component of the path `l` that follows a backslash:
/// `\n\` occurs in it, or it ends with `\n`.
pub open spec fn has_component(l: Seq<u8>, n: Seq<char>) -> bool {
    occurs_in(utf8(seq!['\\'] + n + seq!['\\']), l) || utf8(seq!['\\'] + n).is_suffix_of(l)
}

/// A change to `path` is skipped: one of the components of its lowercase
/// form is an ignored name.
pub open spec fn change_ignored(path: Seq<char>) -> bool {
    exists|k: int| 0 <= k < ignored_names_lower().len() && has_component(utf8(spec_lowercase(path)), #[trigger] ignored_names_lower()[k])
}

/// Whether `name` is a component of the (lowercase) path bytes `l`.
fn component_match(l: &[u8], name: &str) -> (r: bool)
    ensures
        r == has_component(l@, name@),
{
    let mut needle = "\\".to_owned();
    proof {
        reveal_strlit("\\");
    }
    needle.append(name);
    assert(needle@ =~= seq!['\\'] + name@);
    let at_end = bytes_end_with(l, needle.as_str().as_bytes());
    assert(at_end == utf8(seq!['\\'] + name@).is_suffix_of(l@));
    needle.append("\\");
    let inside = bytes_contain(l, needle.as_str().as_bytes());
    assert(needle@ =~= seq!['\\'] + name@ + seq!['\\']);
    assert(inside == occurs_in(utf8(seq!['\\'] + name@ + seq!['\\']), l@));
    inside || at_end
}

/// Whether a change reported for `path` is ignored: its lowercase form has
/// an ignored name as a whole component.
pub fn is_ignored_change(path: &str) -> (r: bool)
    ensures
        r == change_ignored(path@),
{
    let lower = to_lowercase(path);
    let b = lower.as_str().as_bytes();
    let r = component_match(b, "node_modules") || component_match(b, ".git") || component_match(b, "appdata")
        || component_match(b, "$recycle.bin") || component_match(b, "windows") || component_match(b, "system32")
        || component_match(b, "programdata") || component_match(b, "recovery");
    proof {
        let l = utf8(spec_lowercase(path@));
        let names = ignored_names_lower();
        if change_ignored(path@) {
            let k = choose|k: int| 0 <= k < names.len() && has_component(l, #[trigger] names[k]);
            assert(0 <= k < 8);
        }
        if r {
            assert(has_component(l, names[0]) || has_component(l, names[1]) || has_component(l, names[2])
                || has_component(l, names[3]) || has_component(l, names[4]) || has_component(l, names[5])
                || has_component(l, names[6]) || has_component(l, names[7]));
        }
    }
    r
}

} // verus!
