//! The file index: the files ordered by lowercase name, and a map from
//! each path to the position of its file.
use vstd::prelude::*;
use vstd::hash_map::StringHashMap;
use vstd::hash_set::StringHashSet;
use crate::order::{name_key, ByName};
use crate::order::Descending;
use crate::sort::{is_sorted_permutation, sort_by_order, sorted_by_order, SortOrder};
use crate::search::{has_path, is_boundary, lower_bound};
use crate::text::{bytes_le, lemma_lex_antisym, lemma_lex_trans, lex_le, spec_lowercase, to_lowercase};
use crate::types::FileInfo;

verus! {

/// The map from each indexed path to the position of its file.
pub type PathMap = StringHashMap<usize>;

/// The path map that rebuilding from `s` produces: each path maps to the
/// last position at which it occurs.
pub open spec fn spec_path_map(s: Seq<FileInfo>) -> Map<Seq<char>, usize>
    decreases s.len(),
{
    if s.len() == 0 {
        Map::empty()
    } else {
        spec_path_map(s.drop_last()).insert(s.last().path@, (s.len() - 1) as usize)
    }
}

/// The index is ordered by lowercase name.
pub open spec fn names_sorted(s: Seq<FileInfo>) -> bool {
    sorted_by_order::<FileInfo, ByName>(s)
}

/// No two files share a path.
pub open spec fn paths_distinct(s: Seq<FileInfo>) -> bool {
    forall|i: int, j: int| 0 <= i < j < s.len() ==> (#[trigger] s[i]).path@ != (#[trigger] s[j]).path@
}

/// `m` maps every path of `s` to its position, and nothing else.
pub open spec fn path_map_matches(s: Seq<FileInfo>, m: Map<Seq<char>, usize>) -> bool {
    &&& forall|p: Seq<char>| #[trigger] m.contains_key(p) ==> m[p] < s.len() && s[m[p] as int].path@ == p
    &&& forall|i: int| 0 <= i < s.len() ==> #[trigger] m.contains_key(s[i].path@)
}

/// `b` is `a` with its lowercase name set from its name.
pub open spec fn relowered(a: FileInfo, b: FileInfo) -> bool {
    &&& b.name == a.name
    &&& b.name_lowercase@ == spec_lowercase(a.name@)
    &&& b.path == a.path
    &&& b.size == a.size
    &&& b.is_dir == a.is_dir
    &&& b.open_count == a.open_count
    &&& b.icon_index == a.icon_index
}

/// A rebuilt path map sends each path of the index to a position holding a
/// file with that path, and knows every path of the index.
pub proof fn lemma_rebuilt_map_matches(s: Seq<FileInfo>)
    requires
        s.len() <= usize::MAX,
    ensures
        path_map_matches(s, spec_path_map(s)),
    decreases s.len(),
{
    if s.len() > 0 {
        let t = s.drop_last();
        lemma_rebuilt_map_matches(t);
        assert forall|i: int| 0 <= i < s.len() implies #[trigger] spec_path_map(s).contains_key(s[i].path@) by {
            if i < s.len() - 1 {
                assert(t[i] == s[i]);
            }
        }
        assert forall|p: Seq<char>| #[trigger] spec_path_map(s).contains_key(p) implies spec_path_map(s)[p] < s.len()
            && s[spec_path_map(s)[p] as int].path@ == p by {
            if p != s.last().path@ {
                assert(t[spec_path_map(t)[p] as int] == s[spec_path_map(t)[p] as int]);
            }
        }
    }
}

/// When no two files share a path, the rebuilt map sends each file's path
/// to that file's position.
pub proof fn lemma_rebuilt_map_positions(s: Seq<FileInfo>, i: int)
    requires
        s.len() <= usize::MAX,
        paths_distinct(s),
        0 <= i < s.len(),
    ensures
        spec_path_map(s).contains_key(s[i].path@),
        spec_path_map(s)[s[i].path@] == i,
{
    lemma_rebuilt_map_matches(s);
    assert(spec_path_map(s).contains_key(s[i].path@));
    let j = spec_path_map(s)[s[i].path@] as int;
    assert(0 <= j < s.len() && s[j].path@ == s[i].path@);
    if j != i {
        if i < j {
            assert(s[i].path@ != s[j].path@);
        } else {
            assert(s[j].path@ != s[i].path@);
        }
    }
}

/// With a rebuilt path map, `record_open` finds the file of every path in
/// the index.
pub proof fn lemma_rebuilt_map_finds(s: Seq<FileInfo>, i: int)
    requires
        s.len() <= usize::MAX,
        0 <= i < s.len(),
    ensures
        map_finds(s, spec_path_map(s), s[i].path@),
{
    lemma_rebuilt_map_matches(s);
    assert(spec_path_map(s).contains_key(s[i].path@));
}

/// Rebuilds `map` from `files`.
pub fn rebuild_path_map(files: &Vec<FileInfo>, map: &mut StringHashMap<usize>)
    ensures
        final(map)@ == spec_path_map(files@),
{
    map.clear();
    let mut i: usize = 0;
    while i < files.len()
        invariant
            i <= files.len(),
            map@ == spec_path_map(files@.take(i as int)),
        decreases files.len() - i,
    {
        proof {
            assert(files@.take(i + 1).drop_last() =~= files@.take(i as int));
        }
        map.insert(files[i].path.clone(), i);
        i = i + 1;
    }
    assert(files@.take(files.len() as int) =~= files@);
}

/// A path map built from `files`.
pub fn build_path_map(files: &Vec<FileInfo>) -> (m: StringHashMap<usize>)
    ensures
        m@ == spec_path_map(files@),
{
    let mut m = StringHashMap::new();
    rebuild_path_map(files, &mut m);
    m
}

/// The paths of `files`, as a set.
pub fn path_set(files: &Vec<FileInfo>) -> (r: StringHashSet)
    ensures
        forall|p: Seq<char>| #[trigger] r@.contains(p) <==> exists|i: int| 0 <= i < files@.len() && (#[trigger] files@[i]).path@ == p,
{
    let mut r = StringHashSet::new();
    let mut i: usize = 0;
    while i < files.len()
        invariant
            i <= files.len(),
            forall|p: Seq<char>| #[trigger] r@.contains(p) <==> exists|k: int| 0 <= k < i && (#[trigger] files@[k]).path@ == p,
        decreases files.len() - i,
    {
        r.insert(files[i].path.clone());
        proof {
            assert forall|p: Seq<char>| #[trigger] r@.contains(p) <==> exists|k: int| 0 <= k < i + 1 && (#[trigger] files@[k]).path@ == p by {
                if p == files@[i as int].path@ {
                    assert(files@[i as int].path@ == p);
                }
            }
        }
        i = i + 1;
    }
    r
}

/// Puts a freshly loaded cache in shape: sets each file's lowercase name
/// from its name (the cache does not store it) and builds the path map.
pub fn index_from_cache(cached: Vec<FileInfo>) -> (r: (Vec<FileInfo>, StringHashMap<usize>))
    ensures
        r.0@.len() == cached@.len(),
        forall|i: int| 0 <= i < cached@.len() ==> relowered(cached@[i], #[trigger] r.0@[i]),
        r.1@ == spec_path_map(r.0@),
{
    let mut files: Vec<FileInfo> = Vec::new();
    let ghost src = cached@;
    for fi in it: cached
        invariant
            it.seq() == src,
            files@.len() == it.index(),
            forall|i: int| 0 <= i < it.index() ==> relowered(src[i], #[trigger] files@[i]),
    {
        let lower = to_lowercase(fi.name.as_str());
        files.push(FileInfo {
            name: fi.name,
            name_lowercase: lower,
            path: fi.path,
            size: fi.size,
            is_dir: fi.is_dir,
            open_count: fi.open_count,
            icon_index: fi.icon_index,
        });
    }
    let map = build_path_map(&files);
    (files, map)
}

/// `b` is `a` opened once more (the count stops at `u32::MAX`).
pub open spec fn opened_once_more(a: FileInfo, b: FileInfo) -> bool {
    &&& b == FileInfo { open_count: b.open_count, ..a }
    &&& b.open_count == if a.open_count == u32::MAX { u32::MAX } else { (a.open_count + 1) as u32 }
}

/// Whether the path map points at a file with path `p`.
pub open spec fn map_finds(s: Seq<FileInfo>, m: Map<Seq<char>, usize>, p: Seq<char>) -> bool {
    m.contains_key(p) && m[p] < s.len() && s[m[p] as int].path@ == p
}

/// Counts one more opening of the file with path `path`, found through
/// the path map. Returns whether such a file was found.
pub fn record_open(files: &mut Vec<FileInfo>, path_map: &StringHashMap<usize>, path: &str) -> (found: bool)
    ensures
        found == map_finds(old(files)@, path_map@, path@),
        found ==> ({
            let idx = path_map@[path@] as int;
            &&& final(files)@.len() == old(files)@.len()
            &&& opened_once_more(old(files)@[idx], final(files)@[idx])
            &&& forall|j: int| 0 <= j < old(files)@.len() && j != idx ==> #[trigger] final(files)@[j] == old(files)@[j]
        }),
        !found ==> final(files)@ == old(files)@,
{
    match path_map.get(path) {
        Some(idx_ref) => {
            let idx = *idx_ref;
            if idx < files.len() {
                let same = {
                    let p = &files[idx].path;
                    crate::text::same_text(p.as_str(), path)
                };
                if same {
                    let mut f = files[idx].clone();
                    f.open_count = f.open_count.saturating_add(1);
                    files.set(idx, f);
                    return true;
                }
            }
            false
        },
        None => false,
    }
}

/// Merges newly scanned files into the index: appended to the existing
/// files when there were any (otherwise they replace them), then the whole
/// index is ordered by lowercase name and the path map rebuilt.
pub fn merge_scanned(files: &mut Vec<FileInfo>, path_map: &mut StringHashMap<usize>, new_files: Vec<FileInfo>, has_existing: bool)
    ensures
        is_sorted_permutation::<FileInfo, ByName>(
            final(files)@,
            if has_existing { old(files)@ + new_files@ } else { new_files@ },
        ),
        final(path_map)@ == spec_path_map(final(files)@),
{
    let mut all = new_files;
    if has_existing {
        let mut merged: Vec<FileInfo> = Vec::new();
        std::mem::swap(&mut merged, files);
        merged.append(&mut all);
        all = merged;
    }
    let sorted = sort_by_order::<FileInfo, ByName>(&all);
    *files = sorted;
    rebuild_path_map(files, path_map);
}

/// How many of the paths `ps` the map knows.
pub open spec fn count_known(ps: Seq<Seq<char>>, m: Map<Seq<char>, usize>) -> nat
    decreases ps.len(),
{
    if ps.len() == 0 {
        0
    } else {
        count_known(ps.drop_first(), m) + if m.contains_key(ps[0]) { 1nat } else { 0nat }
    }
}

/// Removes the paths `ps` from the map one after another, collecting the
/// positions it held for them; gives the positions and the map left over.
pub open spec fn drain_positions(ps: Seq<Seq<char>>, m: Map<Seq<char>, usize>) -> (Seq<usize>, Map<Seq<char>, usize>)
    decreases ps.len(),
{
    if ps.len() == 0 {
        (Seq::empty(), m)
    } else if m.contains_key(ps[0]) {
        let rest = drain_positions(ps.drop_first(), m.remove(ps[0]));
        (seq![m[ps[0]]] + rest.0, rest.1)
    } else {
        drain_positions(ps.drop_first(), m)
    }
}

/// Removes the files at positions `l`, one after another, skipping a
/// position past the end.
pub open spec fn remove_positions(s: Seq<FileInfo>, l: Seq<usize>) -> Seq<FileInfo>
    decreases l.len(),
{
    if l.len() == 0 {
        s
    } else {
        let s1 = if l[0] < s.len() { s.remove(l[0] as int) } else { s };
        remove_positions(s1, l.drop_first())
    }
}

/// The files of `s` whose position is not in `l`, in order.
pub open spec fn keep_unlisted(s: Seq<FileInfo>, l: Seq<usize>) -> Seq<FileInfo>
    decreases s.len(),
{
    if s.len() == 0 {
        s
    } else {
        let r = keep_unlisted(s.drop_last(), l);
        if l.contains((s.len() - 1) as usize) { r } else { r.push(s.last()) }
    }
}

/// The files of `s` whose path is not among `ps`, in order.
pub open spec fn files_without_paths(s: Seq<FileInfo>, ps: Seq<Seq<char>>) -> Seq<FileInfo>
    decreases s.len(),
{
    if s.len() == 0 {
        s
    } else {
        let r = files_without_paths(s.drop_last(), ps);
        if ps.contains(s.last().path@) { r } else { r.push(s.last()) }
    }
}

/// `l` lists positions from the highest down, each once.
pub open spec fn strictly_descending(l: Seq<usize>) -> bool {
    forall|i: int, j: int| 0 <= i < j < l.len() ==> l[i] > l[j]
}

/// Which positions a list names matters only below the length.
pub proof fn lemma_keep_unlisted_same(s: Seq<FileInfo>, a: Seq<usize>, b: Seq<usize>)
    requires
        s.len() <= usize::MAX + 1,
        forall|i: usize| i < s.len() ==> #[trigger] a.contains(i) == b.contains(i),
    ensures
        keep_unlisted(s, a) == keep_unlisted(s, b),
    decreases s.len(),
{
    if s.len() > 0 {
        lemma_keep_unlisted_same(s.drop_last(), a, b);
        assert(a.contains((s.len() - 1) as usize) == b.contains((s.len() - 1) as usize));
    }
}

/// Removing the highest listed position first, then the rest.
proof fn lemma_keep_unlisted_remove(s: Seq<FileInfo>, l: Seq<usize>)
    requires
        s.len() <= usize::MAX,
        l.len() > 0,
        l[0] < s.len(),
        forall|j: int| 0 < j < l.len() ==> #[trigger] l[j] < l[0],
    ensures
        keep_unlisted(s.remove(l[0] as int), l.drop_first()) == keep_unlisted(s, l),
    decreases s.len(),
{
    let r = l[0] as int;
    let n = s.len() as int;
    let l2 = l.drop_first();
    if r == n - 1 {
        assert(s.remove(r) =~= s.drop_last());
        assert(l.contains((n - 1) as usize)) by {
            assert(l[0] == (n - 1) as usize);
        }
        assert forall|i: usize| i < n - 1 implies #[trigger] l2.contains(i) == l.contains(i) by {
            if l.contains(i) {
                let w = choose|w: int| 0 <= w < l.len() && l[w] == i;
                assert(w != 0);
                assert(l2[w - 1] == i);
            }
            if l2.contains(i) {
                let w = choose|w: int| 0 <= w < l2.len() && l2[w] == i;
                assert(l[w + 1] == i);
            }
        }
        lemma_keep_unlisted_same(s.drop_last(), l2, l);
    } else {
        let t = s.drop_last();
        lemma_keep_unlisted_remove(t, l);
        assert(s.remove(r).drop_last() =~= t.remove(r));
        assert(s.remove(r).last() == s.last());
        assert(!l2.contains((n - 2) as usize)) by {
            if l2.contains((n - 2) as usize) {
                let w = choose|w: int| 0 <= w < l2.len() && l2[w] == (n - 2) as usize;
                assert(l[w + 1] < l[0]);
            }
        }
        assert(!l.contains((n - 1) as usize)) by {
            if l.contains((n - 1) as usize) {
                let w = choose|w: int| 0 <= w < l.len() && l[w] == (n - 1) as usize;
                if w > 0 {
                    assert(l[w] < l[0]);
                }
            }
        }
    }
}

/// Removing distinct positions from the highest down leaves exactly the
/// files at the other positions.
pub proof fn lemma_remove_descending(s: Seq<FileInfo>, l: Seq<usize>)
    requires
        s.len() <= usize::MAX,
        strictly_descending(l),
        forall|j: int| 0 <= j < l.len() ==> #[trigger] l[j] < s.len(),
    ensures
        remove_positions(s, l) == keep_unlisted(s, l),
    decreases l.len(),
{
    if l.len() == 0 {
        lemma_keep_unlisted_none(s, l);
    } else {
        let s1 = s.remove(l[0] as int);
        let l2 = l.drop_first();
        assert forall|j: int| 0 <= j < l2.len() implies l2[j] < s1.len() by {
            assert(l[j + 1] < l[0]);
        }
        lemma_remove_descending(s1, l2);
        lemma_keep_unlisted_remove(s, l);
    }
}

/// With nothing listed, every file is kept.
proof fn lemma_keep_unlisted_none(s: Seq<FileInfo>, l: Seq<usize>)
    requires
        l.len() == 0,
    ensures
        keep_unlisted(s, l) == s,
    decreases s.len(),
{
    if s.len() > 0 {
        lemma_keep_unlisted_none(s.drop_last(), l);
        assert(s.drop_last().push(s.last()) =~= s);
    }
}

/// The positions drained from a map whose entries point at files with
/// their path: below the length, each once, and exactly the positions of
/// the files whose path is among `ps` and mapped to that position.
proof fn lemma_drain_positions(s: Seq<FileInfo>, ps: Seq<Seq<char>>, m: Map<Seq<char>, usize>)
    requires
        forall|p: Seq<char>| #[trigger] m.contains_key(p) ==> m[p] < s.len() && s[m[p] as int].path@ == p,
    ensures
        ({
            let d = drain_positions(ps, m).0;
            &&& forall|j: int| 0 <= j < d.len() ==> #[trigger] d[j] < s.len()
            &&& d.no_duplicates()
            &&& forall|i: usize| i < s.len() ==> (#[trigger] d.contains(i) <==> (ps.contains(s[i as int].path@)
                && m.contains_key(s[i as int].path@) && m[s[i as int].path@] == i))
        }),
    decreases ps.len(),
{
    if ps.len() > 0 {
        let p0 = ps[0];
        let rest = ps.drop_first();
        if m.contains_key(p0) {
            let m1 = m.remove(p0);
            lemma_drain_positions(s, rest, m1);
            let d1 = drain_positions(rest, m1).0;
            let d = drain_positions(ps, m).0;
            assert(d == seq![m[p0]] + d1);
            assert forall|j: int| 0 <= j < d.len() implies #[trigger] d[j] < s.len() by {
                if j > 0 {
                    assert(d[j] == d1[j - 1]);
                }
            }
            assert(!d1.contains(m[p0])) by {
                if d1.contains(m[p0]) {
                    let i = m[p0];
                    assert(m1.contains_key(s[i as int].path@));
                }
            }
            assert(d.no_duplicates()) by {
                assert forall|a: int, b: int| 0 <= a < d.len() && 0 <= b < d.len() && a != b implies d[a] != d[b] by {
                    if a == 0 {
                        assert(d[b] == d1[b - 1]);
                    } else if b == 0 {
                        assert(d[a] == d1[a - 1]);
                    } else {
                        assert(d[a] == d1[a - 1] && d[b] == d1[b - 1]);
                    }
                }
            }
            assert forall|i: usize| i < s.len() implies (#[trigger] d.contains(i) <==> (ps.contains(s[i as int].path@)
                && m.contains_key(s[i as int].path@) && m[s[i as int].path@] == i)) by {
                let q = s[i as int].path@;
                if d.contains(i) {
                    let w = choose|w: int| 0 <= w < d.len() && d[w] == i;
                    if w == 0 {
                        assert(ps[0] == q);
                    } else {
                        assert(d1[w - 1] == i);
                        assert(d1.contains(i));
                        let v = choose|v: int| 0 <= v < rest.len() && rest[v] == q;
                        assert(ps[v + 1] == q);
                    }
                }
                if ps.contains(q) && m.contains_key(q) && m[q] == i {
                    if q == p0 {
                        assert(d[0] == i);
                    } else {
                        let v = choose|v: int| 0 <= v < ps.len() && ps[v] == q;
                        assert(v != 0);
                        assert(rest[v - 1] == q);
                        assert(d1.contains(i));
                        let w = choose|w: int| 0 <= w < d1.len() && d1[w] == i;
                        assert(d[w + 1] == i);
                    }
                }
            }
        } else {
            lemma_drain_positions(s, rest, m);
            let d = drain_positions(ps, m).0;
            assert forall|i: usize| i < s.len() implies (#[trigger] d.contains(i) <==> (ps.contains(s[i as int].path@)
                && m.contains_key(s[i as int].path@) && m[s[i as int].path@] == i)) by {
                let q = s[i as int].path@;
                if d.contains(i) {
                    assert(rest.contains(q));
                    let v = choose|v: int| 0 <= v < rest.len() && rest[v] == q;
                    assert(ps[v + 1] == q);
                }
                if ps.contains(q) && m.contains_key(q) && m[q] == i {
                    let v = choose|v: int| 0 <= v < ps.len() && ps[v] == q;
                    assert(v != 0);
                    assert(rest[v - 1] == q);
                }
            }
        }
    }
}

/// Keeping the unlisted positions is keeping the files whose path is not
/// given, when exactly the positions of those files are listed.
proof fn lemma_keep_unlisted_is_without(s: Seq<FileInfo>, l: Seq<usize>, ps: Seq<Seq<char>>)
    requires
        s.len() <= usize::MAX,
        forall|i: usize| i < s.len() ==> (#[trigger] l.contains(i) <==> ps.contains(s[i as int].path@)),
    ensures
        keep_unlisted(s, l) == files_without_paths(s, ps),
    decreases s.len(),
{
    if s.len() > 0 {
        let t = s.drop_last();
        assert forall|i: usize| i < t.len() implies (#[trigger] l.contains(i) <==> ps.contains(t[i as int].path@)) by {
            assert(t[i as int] == s[i as int]);
        }
        lemma_keep_unlisted_is_without(t, l, ps);
        let last = (s.len() - 1) as usize;
        assert(l.contains(last) <==> ps.contains(s[last as int].path@));
    }
}

/// Removing paths from an index whose files have distinct paths and whose
/// path map is in step removes exactly the files with those paths and
/// keeps the others in order.
pub proof fn lemma_remove_paths_exact(s: Seq<FileInfo>, m: Map<Seq<char>, usize>, ps: Seq<Seq<char>>, l: Seq<usize>)
    requires
        s.len() <= usize::MAX,
        paths_distinct(s),
        path_map_matches(s, m),
        is_sorted_permutation::<usize, Descending>(l, drain_positions(ps, m).0),
    ensures
        remove_positions(s, l) == files_without_paths(s, ps),
{
    let d = drain_positions(ps, m).0;
    lemma_drain_positions(s, ps, m);
    d.lemma_multiset_has_no_duplicates();
    l.to_multiset_ensures();
    d.to_multiset_ensures();
    assert forall|x: usize| l.to_multiset().contains(x) implies l.to_multiset().count(x) == 1 by {
        assert(d.to_multiset().contains(x));
    }
    l.lemma_multiset_has_no_duplicates_conv();
    assert forall|x: usize| #[trigger] l.contains(x) <==> d.contains(x) by {
        assert(l.to_multiset().count(x) == d.to_multiset().count(x));
    }
    assert(strictly_descending(l)) by {
        assert forall|i: int, j: int| 0 <= i < j < l.len() implies l[i] > l[j] by {
            assert(Descending::le(l[i], l[j]));
            assert(l[i] != l[j]);
        }
    }
    assert forall|j: int| 0 <= j < l.len() implies #[trigger] l[j] < s.len() by {
        assert(l.contains(l[j]));
        let w = choose|w: int| 0 <= w < d.len() && d[w] == l[j];
    }
    lemma_remove_descending(s, l);
    assert forall|i: usize| i < s.len() implies (#[trigger] l.contains(i) <==> ps.contains(s[i as int].path@)) by {
        let q = s[i as int].path@;
        assert(m.contains_key(q));
        let v = m[q] as int;
        if v != i as int {
            if v < i as int {
                assert(s[v].path@ != s[i as int].path@);
            } else {
                assert(s[i as int].path@ != s[v].path@);
            }
        }
    }
    lemma_keep_unlisted_is_without(s, l, ps);
}

/// The views of some strings.
pub open spec fn views_of(v: Seq<String>) -> Seq<Seq<char>> {
    v.map_values(|s: String| s@)
}

/// Removing files keeps the index ordered by lowercase name.
pub proof fn lemma_removal_keeps_order(s: Seq<FileInfo>, l: Seq<usize>)
    requires
        names_sorted(s),
    ensures
        names_sorted(remove_positions(s, l)),
    decreases l.len(),
{
    if l.len() > 0 {
        let s1 = if l[0] < s.len() { s.remove(l[0] as int) } else { s };
        if l[0] < s.len() {
            let r = l[0] as int;
            assert forall|i: int, j: int| 0 <= i < j < s1.len() implies ByName::le(#[trigger] s1[i], #[trigger] s1[j]) by {
                let a = if i < r { i } else { i + 1 };
                let b = if j < r { j } else { j + 1 };
                assert(s1[i] == s[a] && s1[j] == s[b]);
            }
        }
        lemma_removal_keeps_order(s1, l.drop_first());
    }
}

/// Removes the files positioned at `positions`, highest first, then
/// rebuilds the path map.
fn remove_at_positions(files: &mut Vec<FileInfo>, path_map: &mut StringHashMap<usize>, positions: &Vec<usize>)
    ensures
        exists|l: Seq<usize>|
            is_sorted_permutation::<usize, Descending>(l, positions@) && #[trigger] remove_positions(old(files)@, l) == final(files)@,
        final(path_map)@ == spec_path_map(final(files)@),
{
    let order = sort_by_order::<usize, Descending>(positions);
    let ghost l = order@;
    let ghost start = files@;
    let mut k: usize = 0;
    assert(l.skip(0) =~= l);
    while k < order.len()
        invariant
            k <= order.len(),
            l == order@,
            remove_positions(start, l) == remove_positions(files@, l.skip(k as int)),
        decreases order.len() - k,
    {
        let idx = order[k];
        assert(l.skip(k as int).drop_first() =~= l.skip(k + 1));
        assert(l.skip(k as int)[0] == idx);
        if idx < files.len() {
            files.remove(idx);
        }
        k = k + 1;
    }
    assert(l.skip(order.len() as int) =~= Seq::<usize>::empty());
    rebuild_path_map(files, path_map);
    assert(remove_positions(start, l) == files@);
}

/// Removes the files whose paths are among `paths` and known to the path
/// map, then rebuilds the map. Returns how many of the given paths the map
/// knew; when none, nothing changes.
pub fn remove_paths(files: &mut Vec<FileInfo>, path_map: &mut StringHashMap<usize>, paths: &Vec<String>) -> (removed: usize)
    ensures
        removed == count_known(views_of(paths@), old(path_map)@),
        removed == 0 ==> final(files)@ == old(files)@ && final(path_map)@ == old(path_map)@,
        removed > 0 ==> exists|l: Seq<usize>|
            is_sorted_permutation::<usize, Descending>(l, drain_positions(views_of(paths@), old(path_map)@).0)
                && #[trigger] remove_positions(old(files)@, l) == final(files)@,
        removed > 0 ==> final(path_map)@ == spec_path_map(final(files)@),
{
    let ghost ps = views_of(paths@);
    let ghost m0 = path_map@;
    let mut known: usize = 0;
    let mut i: usize = 0;
    assert(ps.skip(0) =~= ps);
    while i < paths.len()
        invariant
            i <= paths.len(),
            ps == views_of(paths@),
            ps.len() == paths@.len(),
            path_map@ == m0,
            known <= i,
            count_known(ps, m0) == known + count_known(ps.skip(i as int), m0),
        decreases paths.len() - i,
    {
        assert(ps.skip(i as int).drop_first() =~= ps.skip(i + 1));
        assert(ps.skip(i as int)[0] == paths@[i as int]@);
        if path_map.contains_key(paths[i].as_str()) {
            known = known + 1;
        }
        i = i + 1;
    }
    assert(ps.skip(paths.len() as int) =~= Seq::<Seq<char>>::empty());
    if known == 0 {
        return 0;
    }
    let mut positions: Vec<usize> = Vec::new();
    let mut j: usize = 0;
    while j < paths.len()
        invariant
            j <= paths.len(),
            ps == views_of(paths@),
            ps.len() == paths@.len(),
            drain_positions(ps, m0).0 == positions@ + drain_positions(ps.skip(j as int), path_map@).0,
        decreases paths.len() - j,
    {
        assert(ps.skip(j as int).drop_first() =~= ps.skip(j + 1));
        assert(ps.skip(j as int)[0] == paths@[j as int]@);
        let ghost before = path_map@;
        match path_map.get(paths[j].as_str()) {
            Some(idx_ref) => {
                let idx = *idx_ref;
                path_map.remove(paths[j].as_str());
                assert(positions@.push(idx) + drain_positions(ps.skip(j + 1), path_map@).0 =~= positions@ + (
                    seq![idx] + drain_positions(ps.skip(j + 1), path_map@).0));
                positions.push(idx);
            },
            None => {},
        }
        j = j + 1;
    }
    assert(ps.skip(paths.len() as int) =~= Seq::<Seq<char>>::empty());
    assert(positions@ =~= drain_positions(ps, m0).0);
    remove_at_positions(files, path_map, &positions);
    known
}

/// Where a file with name key `q` goes in the index.
pub open spec fn insertion_point(s: Seq<FileInfo>, q: Seq<u8>) -> int {
    choose|k: int| is_boundary(s, q, k)
}

/// In an ordered index there is only one place to insert a key.
pub proof fn lemma_boundary_unique(s: Seq<FileInfo>, q: Seq<u8>, k1: int, k2: int)
    requires
        names_sorted(s),
        is_boundary(s, q, k1),
        is_boundary(s, q, k2),
    ensures
        k1 == k2,
{
    if k1 < k2 {
        assert(ByName::le(s[k1], s[k2 - 1]) || k1 == k2 - 1);
        if k1 < k2 - 1 {
            lemma_lex_trans(q, name_key(s[k1]), name_key(s[k2 - 1]));
        }
    } else if k2 < k1 {
        assert(ByName::le(s[k2], s[k1 - 1]) || k2 == k1 - 1);
        if k2 < k1 - 1 {
            lemma_lex_trans(q, name_key(s[k2]), name_key(s[k1 - 1]));
        }
    }
}

/// Puts `path@` at position `from`, `from + 1`, ... for each file from
/// `from` on.
pub open spec fn reindex_from(m: Map<Seq<char>, usize>, s: Seq<FileInfo>, from: int) -> Map<Seq<char>, usize>
    decreases s.len() - from,
{
    if from < 0 || from >= s.len() {
        m
    } else {
        reindex_from(m.insert(s[from].path@, from as usize), s, from + 1)
    }
}

/// The index and path map once the file the map gives for path `p`, if
/// any, is taken out; the map is then rebuilt from the files left.
pub open spec fn drop_path(s: Seq<FileInfo>, m: Map<Seq<char>, usize>, p: Seq<char>) -> (Seq<FileInfo>, Map<Seq<char>, usize>) {
    if map_finds(s, m, p) {
        let s1 = s.remove(m[p] as int);
        (s1, spec_path_map(s1))
    } else {
        (s, m)
    }
}

/// The index and path map after inserting `f` at position `k`; the map
/// is updated for `f` and every file after it.
pub open spec fn insert_at(s: Seq<FileInfo>, m: Map<Seq<char>, usize>, f: FileInfo, k: int) -> (Seq<FileInfo>, Map<Seq<char>, usize>) {
    let s2 = s.insert(k, f);
    (s2, reindex_from(m, s2, k))
}

/// `f` as it goes into the index: when the map gives an entry with its
/// path, that entry's open count is kept.
pub open spec fn carried(s: Seq<FileInfo>, m: Map<Seq<char>, usize>, f: FileInfo) -> FileInfo {
    if map_finds(s, m, f.path@) {
        FileInfo { open_count: s[m[f.path@] as int].open_count, ..f }
    } else {
        f
    }
}

/// `g` is `f` but for its open count.
pub open spec fn same_but_count(g: FileInfo, f: FileInfo) -> bool {
    g == FileInfo { open_count: g.open_count, ..f }
}

/// Adding or updating `f`: the entry with its path, if any, goes, then `f`
/// (with that entry's open count) is inserted where its lowercase name
/// belongs.
pub open spec fn insert_one(s: Seq<FileInfo>, m: Map<Seq<char>, usize>, f: FileInfo) -> (Seq<FileInfo>, Map<Seq<char>, usize>) {
    let d = drop_path(s, m, f.path@);
    insert_at(d.0, d.1, carried(s, m, f), insertion_point(d.0, name_key(f)))
}

/// Adding the files `fs` in turn, each (after its old entry goes) at a
/// place its name could be inserted, can lead from `(s, m)` to `(t, n)`.
pub open spec fn inserts_reach(s: Seq<FileInfo>, m: Map<Seq<char>, usize>, fs: Seq<FileInfo>, t: Seq<FileInfo>, n: Map<Seq<char>, usize>) -> bool
    decreases fs.len(),
{
    if fs.len() == 0 {
        t == s && n == m
    } else {
        let d = drop_path(s, m, fs[0].path@);
        let g = carried(s, m, fs[0]);
        exists|k: int| #![trigger insert_at(d.0, d.1, g, k)]
            is_boundary(d.0, name_key(fs[0]), k) && inserts_reach(insert_at(d.0, d.1, g, k).0, insert_at(d.0, d.1, g, k).1, fs.drop_first(), t, n)
    }
}

/// `insert_one` for each file of `fs` in turn.
pub open spec fn insert_all(s: Seq<FileInfo>, m: Map<Seq<char>, usize>, fs: Seq<FileInfo>) -> (Seq<FileInfo>, Map<Seq<char>, usize>)
    decreases fs.len(),
{
    if fs.len() == 0 {
        (s, m)
    } else {
        let (s1, m1) = insert_one(s, m, fs[0]);
        insert_all(s1, m1, fs.drop_first())
    }
}

/// The index is in shape: ordered by lowercase name, no two files share a
/// path, and the path map sends each path to the position of its file.
pub open spec fn index_valid(s: Seq<FileInfo>, m: Map<Seq<char>, usize>) -> bool {
    &&& s.len() < usize::MAX
    &&& names_sorted(s)
    &&& paths_distinct(s)
    &&& path_map_matches(s, m)
}

/// What adding the files `fs` to the index `s` leaves in `t`: the last file
/// given for each path, and every old file whose path was not given; a
/// file whose path was in `s` keeps the open count it had there.
pub open spec fn insert_all_contents(s: Seq<FileInfo>, fs: Seq<FileInfo>, t: Seq<FileInfo>) -> bool {
    &&& forall|g: FileInfo| #[trigger] t.contains(g) ==> (exists|i: int| 0 <= i < fs.len() && same_but_count(g, #[trigger] fs[i]))
        || (s.contains(g) && !has_path(fs, g.path@))
    &&& forall|g: FileInfo| #[trigger] s.contains(g) && !has_path(fs, g.path@) ==> t.contains(g)
    &&& forall|i: int| 0 <= i < fs.len() && !has_path(fs.skip(i + 1), fs[i].path@) ==> (exists|g: FileInfo| #[trigger] t.contains(g) && same_but_count(g, fs[i]))
    &&& forall|g: FileInfo, h: FileInfo| #[trigger] t.contains(g) && #[trigger] s.contains(h) && g.path@ == h.path@ ==> g.open_count == h.open_count
}

/// An ordered index has a place to insert any key.
pub proof fn lemma_boundary_exists(s: Seq<FileInfo>, q: Seq<u8>)
    requires
        names_sorted(s),
    ensures
        exists|k: int| is_boundary(s, q, k),
    decreases s.len(),
{
    if s.len() == 0 {
        assert(is_boundary(s, q, 0));
    } else {
        let t = s.drop_last();
        assert(names_sorted(t)) by {
            assert forall|i: int, j: int| 0 <= i < j < t.len() implies ByName::le(#[trigger] t[i], #[trigger] t[j]) by {
                assert(t[i] == s[i] && t[j] == s[j]);
            }
        }
        lemma_boundary_exists(t, q);
        let k = choose|k: int| is_boundary(t, q, k);
        if k < t.len() {
            assert(t[k] == s[k]);
            if k > 0 {
                assert(t[k - 1] == s[k - 1]);
            }
            assert(is_boundary(s, q, k));
        } else if lex_le(q, name_key(s.last())) {
            if k > 0 {
                assert(t[k - 1] == s[k - 1]);
            }
            assert(is_boundary(s, q, k));
        } else {
            crate::text::lemma_lex_total(q, name_key(s.last()));
            assert(is_boundary(s, q, s.len() as int));
        }
    }
}

/// What re-indexing the files from `from` on does to the path map.
proof fn lemma_reindex_from(m: Map<Seq<char>, usize>, s: Seq<FileInfo>, from: int)
    requires
        0 <= from <= s.len(),
        s.len() <= usize::MAX,
    ensures
        forall|p: Seq<char>| #[trigger] reindex_from(m, s, from).contains_key(p) <==> (m.contains_key(p) || exists|i: int| from <= i < s.len() && s[i].path@ == p),
        forall|p: Seq<char>| (exists|i: int| from <= i < s.len() && s[i].path@ == p) ==> ({
            let v = #[trigger] reindex_from(m, s, from)[p] as int;
            from <= v < s.len() && s[v].path@ == p
        }),
        forall|p: Seq<char>| !(exists|i: int| from <= i < s.len() && s[i].path@ == p) && m.contains_key(p) ==> #[trigger] reindex_from(m, s, from)[p] == m[p],
    decreases s.len() - from,
{
    if from < s.len() {
        let m1 = m.insert(s[from].path@, from as usize);
        lemma_reindex_from(m1, s, from + 1);
        assert(reindex_from(m, s, from) == reindex_from(m1, s, from + 1));
        assert forall|p: Seq<char>| #[trigger] reindex_from(m, s, from).contains_key(p) <==> (m.contains_key(p) || exists|i: int| from <= i < s.len() && s[i].path@ == p) by {
            if exists|i: int| from + 1 <= i < s.len() && s[i].path@ == p {
                let i = choose|i: int| from + 1 <= i < s.len() && s[i].path@ == p;
                assert(from <= i < s.len() && s[i].path@ == p);
            }
            if exists|i: int| from <= i < s.len() && s[i].path@ == p {
                let i = choose|i: int| from <= i < s.len() && s[i].path@ == p;
                if i > from {
                    assert(from + 1 <= i < s.len() && s[i].path@ == p);
                }
            }
        }
        assert forall|p: Seq<char>| (exists|i: int| from <= i < s.len() && s[i].path@ == p) implies ({
            let v = #[trigger] reindex_from(m, s, from)[p] as int;
            from <= v < s.len() && s[v].path@ == p
        }) by {
            if !(exists|i: int| from + 1 <= i < s.len() && s[i].path@ == p) {
                let i = choose|i: int| from <= i < s.len() && s[i].path@ == p;
                if i > from {
                    assert(from + 1 <= i < s.len() && s[i].path@ == p);
                }
                assert(p == s[from].path@);
            }
        }
        assert forall|p: Seq<char>| !(exists|i: int| from <= i < s.len() && s[i].path@ == p) && m.contains_key(p) implies #[trigger] reindex_from(m, s, from)[p] == m[p] by {
            assert(p != s[from].path@);
            if exists|i: int| from + 1 <= i < s.len() && s[i].path@ == p {
                let i = choose|i: int| from + 1 <= i < s.len() && s[i].path@ == p;
                assert(from <= i < s.len() && s[i].path@ == p);
            }
        }
    }
}

/// Taking a file out of an ordered index leaves it ordered.
proof fn lemma_sorted_remove(s: Seq<FileInfo>, j: int)
    requires
        names_sorted(s),
        0 <= j < s.len(),
    ensures
        names_sorted(s.remove(j)),
{
    let s1 = s.remove(j);
    assert forall|a: int, b: int| 0 <= a < b < s1.len() implies ByName::le(#[trigger] s1[a], #[trigger] s1[b]) by {
        let a0 = if a < j { a } else { a + 1 };
        let b0 = if b < j { b } else { b + 1 };
        assert(s1[a] == s[a0] && s1[b] == s[b0]);
    }
}

/// Inserting a file at a place its name can go keeps an index ordered.
proof fn lemma_sorted_insert(s: Seq<FileInfo>, f: FileInfo, k: int)
    requires
        names_sorted(s),
        is_boundary(s, name_key(f), k),
    ensures
        names_sorted(s.insert(k, f)),
{
    let s2 = s.insert(k, f);
    if k < s.len() {
        if lex_le(name_key(s[k]), name_key(f)) {
            lemma_lex_antisym(name_key(s[k]), name_key(f));
        }
    }
    assert forall|i: int, j: int| 0 <= i < j < s2.len() implies ByName::le(#[trigger] s2[i], #[trigger] s2[j]) by {
        if j < k {
            assert(s2[i] == s[i] && s2[j] == s[j]);
        } else if j == k {
            assert(s2[i] == s[i]);
            assert(ByName::le(s[i], s[k - 1]) || i == k - 1);
            crate::text::lemma_lex_total(name_key(s[k - 1]), name_key(f));
            if i < k - 1 {
                lemma_lex_trans(name_key(s[i]), name_key(s[k - 1]), name_key(f));
            }
        } else if i == k {
            assert(s2[j] == s[j - 1]);
            assert(ByName::le(s[k], s[j - 1]) || j - 1 == k);
            if j - 1 > k {
                lemma_lex_trans(name_key(f), name_key(s[k]), name_key(s[j - 1]));
            }
        } else if i < k {
            assert(s2[i] == s[i] && s2[j] == s[j - 1]);
        } else {
            assert(s2[i] == s[i - 1] && s2[j] == s[j - 1]);
        }
    }
}

/// Taking out the entry of path `p` keeps the index in shape, leaves no
/// file with that path, and keeps every other file.
proof fn lemma_drop_path(s: Seq<FileInfo>, m: Map<Seq<char>, usize>, p: Seq<char>)
    requires
        index_valid(s, m),
    ensures
        index_valid(drop_path(s, m, p).0, drop_path(s, m, p).1),
        !has_path(drop_path(s, m, p).0, p),
        drop_path(s, m, p).0.len() <= s.len(),
        forall|g: FileInfo| #[trigger] drop_path(s, m, p).0.contains(g) <==> s.contains(g) && g.path@ != p,
{
    let s1 = drop_path(s, m, p).0;
    if map_finds(s, m, p) {
        let j = m[p] as int;
        lemma_sorted_remove(s, j);
        lemma_rebuilt_map_matches(s1);
        assert forall|a: int, b: int| 0 <= a < b < s1.len() implies (#[trigger] s1[a]).path@ != (#[trigger] s1[b]).path@ by {
            let a0 = if a < j { a } else { a + 1 };
            let b0 = if b < j { b } else { b + 1 };
            assert(s1[a] == s[a0] && s1[b] == s[b0]);
        }
        if has_path(s1, p) {
            let i = choose|i: int| 0 <= i < s1.len() && (#[trigger] s1[i]).path@ == p;
            let i0 = if i < j { i } else { i + 1 };
            assert(s1[i] == s[i0]);
            if i0 < j {
                assert(s[i0].path@ != s[j].path@);
            } else {
                assert(s[j].path@ != s[i0].path@);
            }
        }
        assert forall|g: FileInfo| #[trigger] s1.contains(g) <==> s.contains(g) && g.path@ != p by {
            if s1.contains(g) {
                let i = choose|i: int| 0 <= i < s1.len() && s1[i] == g;
                let i0 = if i < j { i } else { i + 1 };
                assert(s1[i] == s[i0]);
                assert(has_path(s1, g.path@) ==> g.path@ != p);
                assert(s1[i].path@ == g.path@);
            }
            if s.contains(g) && g.path@ != p {
                let i = choose|i: int| 0 <= i < s.len() && s[i] == g;
                assert(i != j);
                let i1 = if i < j { i } else { i - 1 };
                assert(s1[i1] == g);
            }
        }
    } else {
        if has_path(s, p) {
            let i = choose|i: int| 0 <= i < s.len() && (#[trigger] s[i]).path@ == p;
            assert(m.contains_key(s[i].path@));
        }
        assert forall|g: FileInfo| #[trigger] s1.contains(g) implies g.path@ != p by {
            let i = choose|i: int| 0 <= i < s.len() && s[i] == g;
            assert(s[i].path@ == g.path@);
        }
    }
}

/// Inserting a file with a new path at a place its name can go keeps the
/// index in shape and adds just that file.
proof fn lemma_insert_at_valid(s: Seq<FileInfo>, m: Map<Seq<char>, usize>, f: FileInfo, k: int)
    requires
        index_valid(s, m),
        s.len() + 1 < usize::MAX,
        !has_path(s, f.path@),
        is_boundary(s, name_key(f), k),
    ensures
        index_valid(insert_at(s, m, f, k).0, insert_at(s, m, f, k).1),
        insert_at(s, m, f, k).0.len() == s.len() + 1,
        forall|g: FileInfo| #[trigger] insert_at(s, m, f, k).0.contains(g) <==> g == f || s.contains(g),
{
    let s2 = s.insert(k, f);
    let m2 = reindex_from(m, s2, k);
    lemma_sorted_insert(s, f, k);
    lemma_reindex_from(m, s2, k);
    assert forall|a: int, b: int| 0 <= a < b < s2.len() implies (#[trigger] s2[a]).path@ != (#[trigger] s2[b]).path@ by {
        if a == k {
            assert(s2[b] == s[b - 1]);
            assert(s[b - 1].path@ == s2[b].path@);
        } else if b == k {
            assert(s2[a] == s[a]);
            assert(s[a].path@ == s2[a].path@);
        } else {
            let a0 = if a < k { a } else { a - 1 };
            let b0 = if b < k { b } else { b - 1 };
            assert(s2[a] == s[a0] && s2[b] == s[b0]);
        }
    }
    assert forall|p: Seq<char>| #[trigger] m2.contains_key(p) implies m2[p] < s2.len() && s2[m2[p] as int].path@ == p by {
        if !(exists|i: int| k <= i < s2.len() && s2[i].path@ == p) {
            let v = m[p] as int;
            if v >= k {
                assert(s2[v + 1] == s[v]);
                assert(k <= v + 1 < s2.len() && s2[v + 1].path@ == p);
            }
            assert(s2[v] == s[v]);
        }
    }
    assert forall|i: int| 0 <= i < s2.len() implies #[trigger] m2.contains_key(s2[i].path@) by {
        if i < k {
            assert(s2[i] == s[i]);
            assert(m.contains_key(s[i].path@));
        } else {
            assert(k <= i < s2.len() && s2[i].path@ == s2[i].path@);
        }
    }
    assert forall|g: FileInfo| #[trigger] s2.contains(g) <==> g == f || s.contains(g) by {
        if s2.contains(g) {
            let i = choose|i: int| 0 <= i < s2.len() && s2[i] == g;
            if i < k {
                assert(s2[i] == s[i]);
            } else if i > k {
                assert(s2[i] == s[i - 1]);
            }
        }
        if g == f {
            assert(s2[k] == f);
        }
        if s.contains(g) {
            let i = choose|i: int| 0 <= i < s.len() && s[i] == g;
            if i < k {
                assert(s2[i] == g);
            } else {
                assert(s2[i + 1] == g);
            }
        }
    }
}

/// Adding or updating one file keeps the index in shape: afterwards it
/// holds that file and every file it held at another path, and nothing
/// else; an updated file keeps the open count of the entry it replaces.
pub proof fn lemma_insert_one(s: Seq<FileInfo>, m: Map<Seq<char>, usize>, f: FileInfo)
    requires
        index_valid(s, m),
        s.len() + 1 < usize::MAX,
    ensures
        index_valid(insert_one(s, m, f).0, insert_one(s, m, f).1),
        insert_one(s, m, f).0.len() <= s.len() + 1,
        forall|g: FileInfo| #[trigger] insert_one(s, m, f).0.contains(g) <==> g == carried(s, m, f) || (s.contains(g) && g.path@ != f.path@),
        same_but_count(carried(s, m, f), f),
        forall|h: FileInfo| #[trigger] s.contains(h) && h.path@ == f.path@ ==> carried(s, m, f).open_count == h.open_count,
{
    let d = drop_path(s, m, f.path@);
    let g = carried(s, m, f);
    lemma_drop_path(s, m, f.path@);
    lemma_boundary_exists(d.0, name_key(f));
    let k = insertion_point(d.0, name_key(f));
    assert(is_boundary(d.0, name_key(f), k));
    assert(name_key(g) == name_key(f));
    assert(g.path@ == f.path@);
    lemma_insert_at_valid(d.0, d.1, g, k);
    assert forall|h: FileInfo| #[trigger] s.contains(h) && h.path@ == f.path@ implies g.open_count == h.open_count by {
        let i = choose|i: int| 0 <= i < s.len() && s[i] == h;
        assert(m.contains_key(s[i].path@));
        let j = m[f.path@] as int;
        assert(s[j].path@ == f.path@);
        if i < j {
            assert(s[i].path@ != s[j].path@);
        } else if j < i {
            assert(s[j].path@ != s[i].path@);
        }
    }
}

/// One step of a batch: what adding the first file (as `g0`) leaves,
/// followed by what adding the rest leaves, is what adding the batch
/// leaves.
proof fn lemma_contents_step(s: Seq<FileInfo>, s1: Seq<FileInfo>, g0: FileInfo, fs: Seq<FileInfo>, t: Seq<FileInfo>)
    requires
        fs.len() > 0,
        same_but_count(g0, fs[0]),
        forall|h: FileInfo| #[trigger] s.contains(h) && h.path@ == fs[0].path@ ==> g0.open_count == h.open_count,
        forall|g: FileInfo| #[trigger] s1.contains(g) <==> g == g0 || (s.contains(g) && g.path@ != fs[0].path@),
        insert_all_contents(s1, fs.drop_first(), t),
    ensures
        insert_all_contents(s, fs, t),
{
    let f = fs[0];
    let rest = fs.drop_first();
    assert(g0.path@ == f.path@);
    assert forall|g: FileInfo| #[trigger] t.contains(g) implies (exists|i: int| 0 <= i < fs.len() && same_but_count(g, #[trigger] fs[i]))
        || (s.contains(g) && !has_path(fs, g.path@)) by {
        if exists|i: int| 0 <= i < rest.len() && same_but_count(g, #[trigger] rest[i]) {
            let i = choose|i: int| 0 <= i < rest.len() && same_but_count(g, #[trigger] rest[i]);
            assert(fs[i + 1] == rest[i]);
        } else {
            assert(s1.contains(g) && !has_path(rest, g.path@));
            if g == g0 {
                assert(same_but_count(g, fs[0]));
            } else {
                assert(s.contains(g) && g.path@ != f.path@);
                if has_path(fs, g.path@) {
                    let i = choose|i: int| 0 <= i < fs.len() && (#[trigger] fs[i]).path@ == g.path@;
                    assert(i != 0);
                    assert(rest[i - 1] == fs[i]);
                }
            }
        }
    }
    assert forall|g: FileInfo| #[trigger] s.contains(g) && !has_path(fs, g.path@) implies t.contains(g) by {
        assert(fs[0].path@ != g.path@);
        assert(s1.contains(g));
        if has_path(rest, g.path@) {
            let i = choose|i: int| 0 <= i < rest.len() && (#[trigger] rest[i]).path@ == g.path@;
            assert(fs[i + 1] == rest[i]);
        }
    }
    assert forall|i: int| 0 <= i < fs.len() && !has_path(fs.skip(i + 1), fs[i].path@) implies (exists|g: FileInfo| #[trigger] t.contains(g) && same_but_count(g, fs[i])) by {
        if i == 0 {
            assert(fs.skip(1) =~= rest);
            assert(s1.contains(g0));
            assert(t.contains(g0));
        } else {
            assert(rest[i - 1] == fs[i]);
            assert(rest.skip(i) =~= fs.skip(i + 1));
        }
    }
    assert forall|g: FileInfo, h: FileInfo| #[trigger] t.contains(g) && #[trigger] s.contains(h) && g.path@ == h.path@ implies g.open_count == h.open_count by {
        if h.path@ == f.path@ {
            assert(s1.contains(g0));
        } else {
            assert(s1.contains(h));
        }
    }
}

/// Adding or updating a batch of files keeps the index in shape, and
/// leaves in it the last file given for each path together with every old
/// file whose path was not given; files already indexed keep their open
/// counts.
pub proof fn lemma_insert_all(s: Seq<FileInfo>, m: Map<Seq<char>, usize>, fs: Seq<FileInfo>)
    requires
        index_valid(s, m),
        s.len() + fs.len() < usize::MAX,
    ensures
        index_valid(insert_all(s, m, fs).0, insert_all(s, m, fs).1),
        insert_all(s, m, fs).0.len() <= s.len() + fs.len(),
        insert_all_contents(s, fs, insert_all(s, m, fs).0),
    decreases fs.len(),
{
    if fs.len() == 0 {
        let t = insert_all(s, m, fs).0;
        assert(t == s);
        assert forall|g: FileInfo| #[trigger] s.contains(g) && !has_path(fs, g.path@) implies t.contains(g) by {
        }
        assert forall|g: FileInfo, h: FileInfo| #[trigger] t.contains(g) && #[trigger] s.contains(h) && g.path@ == h.path@ implies g.open_count == h.open_count by {
            let i = choose|i: int| 0 <= i < s.len() && s[i] == g;
            let j = choose|j: int| 0 <= j < s.len() && s[j] == h;
            if i < j {
                assert(s[i].path@ != s[j].path@);
            } else if j < i {
                assert(s[j].path@ != s[i].path@);
            }
        }
    } else {
        let (s1, m1) = insert_one(s, m, fs[0]);
        lemma_insert_one(s, m, fs[0]);
        lemma_insert_all(s1, m1, fs.drop_first());
        assert(insert_all(s, m, fs) == insert_all(s1, m1, fs.drop_first()));
        lemma_contents_step(s, s1, carried(s, m, fs[0]), fs, insert_all(s1, m1, fs.drop_first()).0);
    }
}

/// Adds or updates one file: the entry with its path, if the map gives
/// one, goes, then the file is inserted at the place binary search finds
/// for its name; an ordered index stays ordered.
fn insert_file(files: &mut Vec<FileInfo>, path_map: &mut StringHashMap<usize>, file: FileInfo) -> (k: Ghost<int>)
    ensures
        is_boundary(drop_path(old(files)@, old(path_map)@, file.path@).0, name_key(file), k@),
        (final(files)@, final(path_map)@) == insert_at(
            drop_path(old(files)@, old(path_map)@, file.path@).0,
            drop_path(old(files)@, old(path_map)@, file.path@).1,
            carried(old(files)@, old(path_map)@, file),
            k@,
        ),
        names_sorted(old(files)@) ==> (final(files)@, final(path_map)@) == insert_one(old(files)@, old(path_map)@, file),
        names_sorted(old(files)@) ==> names_sorted(final(files)@),
{
    let ghost s0 = files@;
    let ghost m0 = path_map@;
    let ghost g = carried(s0, m0, file);
    let mut found: Option<usize> = None;
    match path_map.get(file.path.as_str()) {
        Some(j_ref) => {
            let j = *j_ref;
            if j < files.len() && crate::text::same_text(files[j].path.as_str(), file.path.as_str()) {
                found = Some(j);
            }
        },
        None => {},
    }
    let mut entry = file;
    match found {
        Some(j) => {
            entry.open_count = files[j].open_count;
            files.remove(j);
            rebuild_path_map(files, path_map);
        },
        None => {},
    }
    assert(entry == g);
    let ghost s = files@;
    assert((s, path_map@) == drop_path(s0, m0, g.path@));
    proof {
        if names_sorted(s0) && map_finds(s0, m0, g.path@) {
            lemma_sorted_remove(s0, m0[g.path@] as int);
        }
    }
    let q = entry.name_lowercase.as_str().as_bytes();
    let k = lower_bound(files, q);
    proof {
        if names_sorted(s) {
            let c = insertion_point(s, name_key(g));
            lemma_boundary_exists(s, name_key(g));
            lemma_boundary_unique(s, name_key(g), c, k as int);
            lemma_sorted_insert(s, g, k as int);
        }
    }
    files.insert(k, entry);
    let ghost s2 = files@;
    let mut i = k;
    let ghost m1 = path_map@;
    while i < files.len()
        invariant
            k <= i <= files.len(),
            files@ == s2,
            reindex_from(m1, s2, k as int) == reindex_from(path_map@, s2, i as int),
        decreases files.len() - i,
    {
        path_map.insert(files[i].path.clone(), i);
        i = i + 1;
    }
    Ghost(k as int)
}

/// Adds or updates each of `new_files` in turn: the entry with the same
/// path goes and the file is inserted at the place binary search finds for
/// its lowercase name, keeping the path map in step. In an index ordered by
/// lowercase name that place is unique and the index stays ordered; an
/// index in shape stays in shape and holds the last file given for each
/// path together with every old file whose path was not given.
pub fn insert_files(files: &mut Vec<FileInfo>, path_map: &mut StringHashMap<usize>, new_files: Vec<FileInfo>)
    ensures
        inserts_reach(old(files)@, old(path_map)@, new_files@, final(files)@, final(path_map)@),
        names_sorted(old(files)@) ==> (final(files)@, final(path_map)@) == insert_all(old(files)@, old(path_map)@, new_files@),
        names_sorted(old(files)@) ==> names_sorted(final(files)@),
        index_valid(old(files)@, old(path_map)@) && old(files)@.len() + new_files@.len() < usize::MAX ==> index_valid(
            final(files)@,
            final(path_map)@,
        ) && insert_all_contents(old(files)@, new_files@, final(files)@),
{
    let ghost all = new_files@;
    let ghost s0 = files@;
    let ghost m0 = path_map@;
    assert(all.skip(0) =~= all);
    for f in it: new_files
        invariant
            it.seq() == all,
            names_sorted(s0) ==> names_sorted(files@),
            names_sorted(s0) ==> insert_all(s0, m0, all) == insert_all(files@, path_map@, all.skip(it.index() as int)),
            forall|t: Seq<FileInfo>, n: Map<Seq<char>, usize>|
                #[trigger] inserts_reach(files@, path_map@, all.skip(it.index() as int), t, n) ==> inserts_reach(s0, m0, all, t, n),
    {
        let ghost cur = files@;
        let ghost cur_m = path_map@;
        let ghost rest = all.skip(it.index() as int);
        proof {
            assert(rest.drop_first() =~= all.skip(it.index() + 1));
            assert(rest[0] == f);
        }
        let k = insert_file(files, path_map, f);
        proof {
            assert forall|t: Seq<FileInfo>, n: Map<Seq<char>, usize>|
                #[trigger] inserts_reach(files@, path_map@, all.skip(it.index() + 1), t, n) implies inserts_reach(s0, m0, all, t, n) by {
                let d = drop_path(cur, cur_m, rest[0].path@);
                assert(insert_at(d.0, d.1, carried(cur, cur_m, rest[0]), k@) == (files@, path_map@));
                assert(inserts_reach(cur, cur_m, rest, t, n));
            }
        }
    }
    assert(all.skip(all.len() as int) =~= Seq::<FileInfo>::empty());
    assert(inserts_reach(files@, path_map@, Seq::<FileInfo>::empty(), files@, path_map@));
    proof {
        if index_valid(s0, m0) && s0.len() + all.len() < usize::MAX {
            lemma_insert_all(s0, m0, all);
        }
    }
}

} // verus!
