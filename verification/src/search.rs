//! Searching the index: prefix matches found by binary search, then
//! substring matches, then (optionally) fuzzy matches, ranked by how often
//! each file was opened.
use vstd::prelude::*;
use vstd::hash_set::StringHashSet;
use crate::fuzzy::{fuzzy_match, fuzzy_match_spec};
use crate::index::names_sorted;
use crate::order::{name_key, ByName, ByOpenCountDesc, ByScoreDesc};
use crate::sort::{is_sorted_permutation, sort_by_order, SortOrder};
use crate::text::{
    bytes_contain, bytes_le, bytes_start_with, lemma_lex_trans, lemma_prefix_between, lemma_prefix_le, lex_le, lex_lt,
    occurs_in, spec_lowercase, to_lowercase, utf8,
};
use crate::types::{FileInfo, ScoredFile, SearchResponse};

verus! {

/// Most results one search returns.
pub const SEARCH_LIMIT: usize = 100;

/// How many files after the prefix matches are scanned for substring matches.
pub const MAX_SUBSTRING_SCAN: usize = 10000;

/// `k` is a place where `q` could be inserted: everything before it is
/// smaller than `q` and the file at it is not.
pub open spec fn is_boundary(s: Seq<FileInfo>, q: Seq<u8>, k: int) -> bool {
    &&& 0 <= k <= s.len()
    &&& k == 0 || lex_lt(name_key(s[k - 1]), q)
    &&& k == s.len() || lex_le(q, name_key(s[k]))
}

/// The first `n` items of `s`, or all of them if there are fewer.
pub open spec fn first_n<A>(s: Seq<A>, n: int) -> Seq<A> {
    if n < s.len() { s.take(n) } else { s }
}

/// How many files from `start` on begin with `q`, stopping at the first
/// that does not and at `limit`.
pub open spec fn prefix_run_len(s: Seq<FileInfo>, q: Seq<u8>, start: int, limit: nat) -> nat
    decreases limit,
{
    if limit == 0 || start < 0 || start >= s.len() || !q.is_prefix_of(name_key(s[start])) {
        0
    } else {
        1 + prefix_run_len(s, q, start + 1, (limit - 1) as nat)
    }
}

/// The files of `s`, in order, whose lowercase name contains `q`.
pub open spec fn substring_hits(s: Seq<FileInfo>, q: Seq<u8>) -> Seq<FileInfo>
    decreases s.len(),
{
    if s.len() == 0 {
        Seq::empty()
    } else if occurs_in(q, name_key(s.last())) {
        substring_hits(s.drop_last(), q).push(s.last())
    } else {
        substring_hits(s.drop_last(), q)
    }
}

/// Some file of `s` has path `p`.
pub open spec fn has_path(s: Seq<FileInfo>, p: Seq<char>) -> bool {
    exists|k: int| 0 <= k < s.len() && (#[trigger] s[k]).path@ == p
}

/// The files of `s`, in order, whose path is not among the paths of
/// `taken` and which fuzzy-match `q`, each with its score.
pub open spec fn fuzzy_hits(s: Seq<FileInfo>, q: Seq<char>, taken: Seq<FileInfo>) -> Seq<ScoredFile>
    decreases s.len(),
{
    if s.len() == 0 {
        Seq::empty()
    } else {
        let rest = fuzzy_hits(s.drop_last(), q, taken);
        let f = s.last();
        if !has_path(taken, f.path@) && fuzzy_match_spec(f.name_lowercase@, q) is Some {
            rest.push(ScoredFile { file: f, score: fuzzy_match_spec(f.name_lowercase@, q)->0 as i32 })
        } else {
            rest
        }
    }
}

/// The prefix matches from `start`.
pub open spec fn prefix_part(s: Seq<FileInfo>, q: Seq<u8>, start: int) -> Seq<FileInfo> {
    s.subrange(start, start + prefix_run_len(s, q, start, SEARCH_LIMIT as nat))
}

/// Prefix matches, then substring matches after them (within
/// `MAX_SUBSTRING_SCAN` files), then substring matches before `start`.
pub open spec fn plain_part(s: Seq<FileInfo>, q: Seq<u8>, start: int) -> Seq<FileInfo> {
    let pre = prefix_part(s, q, start);
    if pre.len() >= SEARCH_LIMIT {
        pre
    } else {
        let end = start + pre.len();
        let scan_end = if end + MAX_SUBSTRING_SCAN < s.len() { end + MAX_SUBSTRING_SCAN } else { s.len() as int };
        let r1 = pre + first_n(substring_hits(s.subrange(end, scan_end), q), SEARCH_LIMIT - pre.len());
        if r1.len() < SEARCH_LIMIT && start > 0 {
            r1 + first_n(substring_hits(s.subrange(0, start), q), SEARCH_LIMIT - r1.len())
        } else {
            r1
        }
    }
}

/// Whether the fuzzy stage runs after the plain matches `r`.
pub open spec fn runs_fuzzy(r: Seq<FileInfo>, q: Seq<char>, use_fuzzy: bool) -> bool {
    use_fuzzy && r.len() < SEARCH_LIMIT && utf8(q).len() >= 2
}

/// The files a search gathers before ranking them: the plain matches,
/// then the best of the fuzzy matches in the order `ranked` gives them.
pub open spec fn gathered(s: Seq<FileInfo>, q: Seq<char>, use_fuzzy: bool, start: int, ranked: Seq<ScoredFile>) -> Seq<FileInfo> {
    let r = plain_part(s, utf8(q), start);
    if runs_fuzzy(r, q, use_fuzzy) {
        r + first_n(ranked, SEARCH_LIMIT - r.len()).map_values(|sf: ScoredFile| sf.file)
    } else {
        r
    }
}

/// `ranked` is the fuzzy matches for a search, best score first.
pub open spec fn ranks_fuzzy_hits(ranked: Seq<ScoredFile>, s: Seq<FileInfo>, q: Seq<char>, start: int) -> bool {
    is_sorted_permutation::<ScoredFile, ByScoreDesc>(ranked, fuzzy_hits(s, q, plain_part(s, utf8(q), start)))
}

/// Where a binary search of `s[lo..hi]` for `q` ends: it halves the range,
/// keeping the lower half when `q` is at most the middle name.
pub open spec fn bsearch(s: Seq<FileInfo>, q: Seq<u8>, lo: int, hi: int) -> int
    decreases hi - lo,
{
    if lo >= hi {
        lo
    } else {
        let mid = lo + (hi - lo) / 2;
        if lex_le(q, name_key(s[mid])) {
            bsearch(s, q, lo, mid)
        } else {
            bsearch(s, q, mid + 1, hi)
        }
    }
}

/// Where the prefix matches of the lowercase query `q` start: the place
/// binary search finds for it.
pub open spec fn search_start(s: Seq<FileInfo>, q: Seq<char>) -> int {
    bsearch(s, utf8(q), 0, s.len() as int)
}

/// `results` is what a search of index `s` for the lowercase query `q`
/// gives when `ranked` is how its fuzzy stage ordered the fuzzy matches.
pub open spec fn outcome_with(s: Seq<FileInfo>, q: Seq<char>, use_fuzzy: bool, results: Seq<FileInfo>, ranked: Seq<ScoredFile>) -> bool {
    let start = search_start(s, q);
    &&& runs_fuzzy(plain_part(s, utf8(q), start), q, use_fuzzy) ==> ranks_fuzzy_hits(ranked, s, q, start)
    &&& is_sorted_permutation::<FileInfo, ByOpenCountDesc>(results, gathered(s, q, use_fuzzy, start, ranked))
}

/// `results` is an outcome the search allows for index `s`, lowercase
/// query `q`: the gathered files, most opened first.
pub open spec fn search_outcome(s: Seq<FileInfo>, q: Seq<char>, use_fuzzy: bool, results: Seq<FileInfo>) -> bool {
    exists|ranked: Seq<ScoredFile>| #[trigger] outcome_with(s, q, use_fuzzy, results, ranked)
}

/// The binary search ends at a place where `q` can be inserted.
proof fn lemma_bsearch_boundary(s: Seq<FileInfo>, q: Seq<u8>, lo: int, hi: int)
    requires
        0 <= lo <= hi <= s.len(),
        lo == 0 || lex_lt(name_key(s[lo - 1]), q),
        hi == s.len() || lex_le(q, name_key(s[hi])),
    ensures
        is_boundary(s, q, bsearch(s, q, lo, hi)),
    decreases hi - lo,
{
    if lo < hi {
        let mid = lo + (hi - lo) / 2;
        if lex_le(q, name_key(s[mid])) {
            lemma_bsearch_boundary(s, q, lo, mid);
        } else {
            lemma_bsearch_boundary(s, q, mid + 1, hi);
        }
    }
}

/// The ranking behind a search outcome, and the fact that the search
/// starts at a place where the query can be inserted.
proof fn lemma_outcome_witness(s: Seq<FileInfo>, q: Seq<char>, use_fuzzy: bool, results: Seq<FileInfo>) -> (ranked: Seq<ScoredFile>)
    requires
        search_outcome(s, q, use_fuzzy, results),
    ensures
        outcome_with(s, q, use_fuzzy, results, ranked),
        is_boundary(s, utf8(q), search_start(s, q)),
{
    lemma_bsearch_boundary(s, utf8(q), 0, s.len() as int);
    choose|ranked: Seq<ScoredFile>| outcome_with(s, q, use_fuzzy, results, ranked)
}

/// A place to insert `q` into the index, found by binary search.
pub fn lower_bound(files: &Vec<FileInfo>, q: &[u8]) -> (r: usize)
    ensures
        r == bsearch(files@, q@, 0, files@.len() as int),
        is_boundary(files@, q@, r as int),
{
    let mut lo: usize = 0;
    let mut hi: usize = files.len();
    while lo < hi
        invariant
            lo <= hi <= files.len(),
            lo == 0 || lex_lt(name_key(files@[lo - 1]), q@),
            hi == files.len() || lex_le(q@, name_key(files@[hi as int])),
            bsearch(files@, q@, lo as int, hi as int) == bsearch(files@, q@, 0, files@.len() as int),
        decreases hi - lo,
    {
        let mid = lo + (hi - lo) / 2;
        if bytes_le(q, files[mid].name_lowercase.as_str().as_bytes()) {
            hi = mid;
        } else {
            lo = mid + 1;
        }
    }
    lo
}

/// A run of `n` matches that ends at `limit`, at the end of `s` or at a
/// file that does not match has length `n`.
proof fn lemma_prefix_run(s: Seq<FileInfo>, q: Seq<u8>, start: int, n: int, limit: nat)
    requires
        0 <= start,
        0 <= n <= limit,
        start + n <= s.len(),
        forall|k: int| start <= k < start + n ==> q.is_prefix_of(#[trigger] name_key(s[k])),
        n == limit || start + n == s.len() || !q.is_prefix_of(name_key(s[start + n])),
    ensures
        prefix_run_len(s, q, start, limit) == n,
    decreases n,
{
    if n > 0 {
        lemma_prefix_run(s, q, start + 1, n - 1, (limit - 1) as nat);
    }
}

/// Collects the files from `start` on that begin with `q`, at most
/// `SEARCH_LIMIT` of them, stopping at the first that does not.
fn collect_prefix(files: &Vec<FileInfo>, q: &[u8], start: usize) -> (r: Vec<FileInfo>)
    requires
        start <= files.len(),
    ensures
        r@ == prefix_part(files@, q@, start as int),
        start + r@.len() <= files.len(),
        r@.len() <= SEARCH_LIMIT,
{
    let mut out: Vec<FileInfo> = Vec::new();
    let mut i = start;
    while i < files.len() && out.len() < SEARCH_LIMIT
        invariant
            start <= i <= files.len(),
            out@.len() == i - start,
            out@.len() <= SEARCH_LIMIT,
            out@ == files@.subrange(start as int, i as int),
            forall|k: int| start <= k < i ==> q@.is_prefix_of(#[trigger] name_key(files@[k])),
        ensures
            start <= i <= files.len(),
            out@.len() == i - start,
            out@.len() <= SEARCH_LIMIT,
            out@ == files@.subrange(start as int, i as int),
            forall|k: int| start <= k < i ==> q@.is_prefix_of(#[trigger] name_key(files@[k])),
            i == files.len() || out@.len() == SEARCH_LIMIT || !q@.is_prefix_of(name_key(files@[i as int])),
        decreases files.len() - i,
    {
        if bytes_start_with(files[i].name_lowercase.as_str().as_bytes(), q) {
            out.push(files[i].clone());
            assert(out@ =~= files@.subrange(start as int, i + 1));
            i = i + 1;
        } else {
            break;
        }
    }
    proof {
        lemma_prefix_run(files@, q@, start as int, i - start, SEARCH_LIMIT as nat);
    }
    out
}

/// Collects, in order, the files of `files[lo..hi]` whose lowercase name
/// contains `q`.
fn collect_substring(files: &Vec<FileInfo>, q: &[u8], lo: usize, hi: usize) -> (r: Vec<FileInfo>)
    requires
        lo <= hi <= files.len(),
    ensures
        r@ == substring_hits(files@.subrange(lo as int, hi as int), q@),
{
    let mut out: Vec<FileInfo> = Vec::new();
    let mut i = lo;
    assert(files@.subrange(lo as int, lo as int) =~= Seq::<FileInfo>::empty());
    while i < hi
        invariant
            lo <= i <= hi <= files.len(),
            out@ == substring_hits(files@.subrange(lo as int, i as int), q@),
        decreases hi - i,
    {
        let ghost before = files@.subrange(lo as int, i as int);
        let ghost after = files@.subrange(lo as int, i + 1);
        assert(after.drop_last() =~= before);
        assert(after.last() == files@[i as int]);
        if bytes_contain(files[i].name_lowercase.as_str().as_bytes(), q) {
            out.push(files[i].clone());
        }
        i = i + 1;
    }
    out
}

/// Scores every file whose path is not in `taken` against the lowercase
/// query `q`, keeping those that match.
fn collect_fuzzy(files: &Vec<FileInfo>, q: &str, taken: &StringHashSet, Ghost(taken_files): Ghost<Seq<FileInfo>>) -> (r: Vec<ScoredFile>)
    requires
        forall|p: Seq<char>| #[trigger] taken@.contains(p) <==> has_path(taken_files, p),
    ensures
        r@ == fuzzy_hits(files@, q@, taken_files),
{
    let mut out: Vec<ScoredFile> = Vec::new();
    let mut i: usize = 0;
    assert(files@.subrange(0, 0) =~= Seq::<FileInfo>::empty());
    while i < files.len()
        invariant
            i <= files.len(),
            forall|p: Seq<char>| #[trigger] taken@.contains(p) <==> has_path(taken_files, p),
            out@ == fuzzy_hits(files@.subrange(0, i as int), q@, taken_files),
        decreases files.len() - i,
    {
        let ghost before = files@.subrange(0, i as int);
        let ghost after = files@.subrange(0, i + 1);
        assert(after.drop_last() =~= before);
        assert(after.last() == files@[i as int]);
        if !taken.contains(files[i].path.as_str()) {
            match fuzzy_match(files[i].name_lowercase.as_str(), q) {
                Some(score) => {
                    out.push(ScoredFile { file: files[i].clone(), score });
                },
                None => {},
            }
        }
        i = i + 1;
    }
    assert(files@.subrange(0, files.len() as int) =~= files@);
    out
}

/// Searches the index `files` for `query`: files whose lowercase name
/// starts with the lowercase query, then files whose lowercase name
/// contains it, then, when `use_fuzzy` is set and the query has at least
/// two bytes, the best fuzzy matches; at most `SEARCH_LIMIT` files, the
/// most opened first.
pub fn search_files(query: String, search_id: u32, use_fuzzy: bool, files: &Vec<FileInfo>) -> (r: SearchResponse)
    ensures
        r.search_id == search_id,
        query@.len() == 0 || files@.len() == 0 ==> r.results@.len() == 0,
        query@.len() != 0 && files@.len() != 0 ==> search_outcome(files@, spec_lowercase(query@), use_fuzzy, r.results@),
        r.results@.len() <= SEARCH_LIMIT,
{
    if query.as_str().is_empty() {
        return SearchResponse { results: Vec::new(), search_id };
    }
    let q = to_lowercase(query.as_str());
    if files.len() == 0 {
        return SearchResponse { results: Vec::new(), search_id };
    }
    let qb = q.as_str().as_bytes();
    let start = lower_bound(files, qb);
    let mut results = collect_prefix(files, qb, start);
    let ghost ranked: Seq<ScoredFile> = Seq::empty();
    if results.len() < SEARCH_LIMIT {
        let end = start + results.len();
        let remaining = SEARCH_LIMIT - results.len();
        let scan_end = if files.len() - end > MAX_SUBSTRING_SCAN { end + MAX_SUBSTRING_SCAN } else { files.len() };
        let mut after = collect_substring(files, qb, end, scan_end);
        after.truncate(remaining);
        results.append(&mut after);
        if results.len() < SEARCH_LIMIT && start > 0 {
            let remaining = SEARCH_LIMIT - results.len();
            let mut before = collect_substring(files, qb, 0, start);
            before.truncate(remaining);
            results.append(&mut before);
        }
        assert(results@ == plain_part(files@, qb@, start as int));
        if use_fuzzy && results.len() < SEARCH_LIMIT && qb.len() >= 2 {
            let remaining = SEARCH_LIMIT - results.len();
            let mut taken = StringHashSet::new();
            let mut k: usize = 0;
            while k < results.len()
                invariant
                    k <= results.len(),
                    forall|p: Seq<char>| #[trigger] taken@.contains(p) <==> has_path(results@.take(k as int), p),
                decreases results.len() - k,
            {
                taken.insert(results[k].path.clone());
                proof {
                    assert forall|p: Seq<char>| #[trigger] taken@.contains(p) <==> has_path(results@.take(k + 1), p) by {
                        if has_path(results@.take(k + 1), p) {
                            let w = choose|w: int| 0 <= w < k + 1 && (#[trigger] results@.take(k + 1)[w]).path@ == p;
                            if w < k {
                                assert(results@.take(k as int)[w] == results@.take(k + 1)[w]);
                            }
                        }
                        if has_path(results@.take(k as int), p) {
                            let w = choose|w: int| 0 <= w < k && (#[trigger] results@.take(k as int)[w]).path@ == p;
                            assert(results@.take(k + 1)[w] == results@.take(k as int)[w]);
                        }
                        if p == results@[k as int].path@ {
                            assert(results@.take(k + 1)[k as int] == results@[k as int]);
                        }
                    }
                }
                k = k + 1;
            }
            assert(results@.take(results.len() as int) =~= results@);
            let scored = collect_fuzzy(files, q.as_str(), &taken, Ghost(results@));
            let mut best = sort_by_order::<ScoredFile, ByScoreDesc>(&scored);
            proof {
                ranked = best@;
            }
            best.truncate(remaining);
            let ghost plain = results@;
            let ghost picked = best@;
            for sf in it: best
                invariant
                    it.seq() == picked,
                    results@ == plain + picked.take(it.index() as int).map_values(|x: ScoredFile| x.file),
            {
                proof {
                    assert(picked.take(it.index() + 1).map_values(|x: ScoredFile| x.file) =~= picked.take(
                        it.index() as int,
                    ).map_values(|x: ScoredFile| x.file).push(sf.file));
                }
                results.push(sf.file);
            }
            assert(picked.take(picked.len() as int) =~= picked);
            assert(results@.len() == plain.len() + picked.len());
        }
    }
    assert(results@ == gathered(files@, q@, use_fuzzy, start as int, ranked));
    assert(results@.len() <= SEARCH_LIMIT);
    let mut ranked_results = sort_by_order::<FileInfo, ByOpenCountDesc>(&results);
    let ghost sorted = ranked_results@;
    ranked_results.truncate(SEARCH_LIMIT);
    assert(ranked_results@ =~= sorted);
    assert(ranked_results@.len() <= SEARCH_LIMIT);
    assert(is_sorted_permutation::<FileInfo, ByOpenCountDesc>(ranked_results@, gathered(files@, q@, use_fuzzy, start as int, ranked)));
    assert(search_start(files@, q@) == start);
    assert(outcome_with(files@, q@, use_fuzzy, ranked_results@, ranked));
    SearchResponse { results: ranked_results, search_id }
}

/// Opened files come first: a search result is never opened fewer times
/// than a result after it.
pub proof fn lemma_results_most_opened_first(s: Seq<FileInfo>, q: Seq<char>, use_fuzzy: bool, results: Seq<FileInfo>, i: int, j: int)
    requires
        search_outcome(s, q, use_fuzzy, results),
        0 <= i < j < results.len(),
    ensures
        results[i].open_count >= results[j].open_count,
{
    let ranked = lemma_outcome_witness(s, q, use_fuzzy, results);
    let k = search_start(s, q);
    assert(ByOpenCountDesc::le(results[i], results[j]));
}

/// Turning fuzzy matching on only adds results: every result of a search
/// without it is among the results of the same search with it, and there
/// are at least as many.
pub proof fn lemma_fuzzy_only_adds(s: Seq<FileInfo>, q: Seq<char>, without: Seq<FileInfo>, with: Seq<FileInfo>)
    requires
        search_outcome(s, q, false, without),
        search_outcome(s, q, true, with),
    ensures
        with.len() >= without.len(),
        forall|j: int| 0 <= j < without.len() ==> with.contains(#[trigger] without[j]),
{
    let qb = utf8(q);
    let ranked0 = lemma_outcome_witness(s, q, false, without);
    let ranked1 = lemma_outcome_witness(s, q, true, with);
    let k0 = search_start(s, q);
    let k1 = k0;
    let plain = plain_part(s, qb, k0);
    let g0 = gathered(s, q, false, k0, ranked0);
    let g1 = gathered(s, q, true, k1, ranked1);
    assert(g0 == plain);
    assert(g1.len() >= plain.len());
    assert forall|j: int| 0 <= j < plain.len() implies g1[j] == plain[j] by {
    }
    without.to_multiset_ensures();
    with.to_multiset_ensures();
    g0.to_multiset_ensures();
    g1.to_multiset_ensures();
    assert forall|j: int| 0 <= j < without.len() implies with.contains(#[trigger] without[j]) by {
        let x = without[j];
        assert(without.contains(x));
        assert(without.to_multiset().count(x) > 0);
        assert(g0.contains(x));
        let w = choose|w: int| 0 <= w < g0.len() && g0[w] == x;
        assert(g1[w] == x);
        assert(g1.contains(x));
        assert(g1.to_multiset().count(x) > 0);
    }
}

/// How many files of `s` have a lowercase name beginning with `q`.
pub open spec fn prefix_count(s: Seq<FileInfo>, q: Seq<u8>) -> nat
    decreases s.len(),
{
    if s.len() == 0 {
        0
    } else {
        prefix_count(s.drop_last(), q) + if q.is_prefix_of(name_key(s.last())) { 1nat } else { 0nat }
    }
}

/// What a run of prefix matches consists of, and where it stops.
proof fn lemma_prefix_run_facts(s: Seq<FileInfo>, q: Seq<u8>, start: int, limit: nat)
    requires
        0 <= start,
    ensures
        ({
            let n = prefix_run_len(s, q, start, limit);
            &&& n <= limit
            &&& n == 0 || start + n <= s.len()
            &&& forall|j: int| start <= j < start + n ==> q.is_prefix_of(#[trigger] name_key(s[j]))
            &&& n < limit ==> start + n >= s.len() || !q.is_prefix_of(name_key(s[start + n]))
        }),
    decreases limit,
{
    if limit > 0 && start < s.len() && q.is_prefix_of(name_key(s[start])) {
        lemma_prefix_run_facts(s, q, start + 1, (limit - 1) as nat);
    }
}

/// A block of `b - a` files beginning with `q` means at least that many
/// such files.
proof fn lemma_prefix_count_at_least(s: Seq<FileInfo>, q: Seq<u8>, a: int, b: int)
    requires
        0 <= a <= b <= s.len(),
        forall|j: int| a <= j < b ==> q.is_prefix_of(#[trigger] name_key(s[j])),
    ensures
        prefix_count(s, q) >= b - a,
    decreases s.len(),
{
    if s.len() > 0 {
        let t = s.drop_last();
        if b == s.len() && a < b {
            assert forall|j: int| a <= j < b - 1 implies q.is_prefix_of(#[trigger] name_key(t[j])) by {
                assert(t[j] == s[j]);
            }
            lemma_prefix_count_at_least(t, q, a, b - 1);
            assert(q.is_prefix_of(name_key(s[b - 1])));
        } else if b < s.len() {
            assert forall|j: int| a <= j < b implies q.is_prefix_of(#[trigger] name_key(t[j])) by {
                assert(t[j] == s[j]);
            }
            lemma_prefix_count_at_least(t, q, a, b);
        }
    }
}

/// Search completeness for prefix matches: in an index ordered by
/// lowercase name, when fewer than `SEARCH_LIMIT` files begin with the
/// lowercase query, every one of them is among the results.
pub proof fn lemma_prefix_matches_found(s: Seq<FileInfo>, q: Seq<char>, use_fuzzy: bool, results: Seq<FileInfo>, i: int)
    requires
        names_sorted(s),
        search_outcome(s, q, use_fuzzy, results),
        prefix_count(s, utf8(q)) < SEARCH_LIMIT,
        0 <= i < s.len(),
        utf8(q).is_prefix_of(name_key(s[i])),
    ensures
        results.contains(s[i]),
{
    let qb = utf8(q);
    let ranked = lemma_outcome_witness(s, q, use_fuzzy, results);
    let k = search_start(s, q);
    let n = prefix_run_len(s, qb, k, SEARCH_LIMIT as nat) as int;
    lemma_prefix_run_facts(s, qb, k, SEARCH_LIMIT as nat);
    if n > 0 {
        lemma_prefix_count_at_least(s, qb, k, k + n);
    }
    lemma_prefix_le(qb, name_key(s[i]));
    if i < k {
        if i < k - 1 {
            assert(ByName::le(s[i], s[k - 1]));
            lemma_lex_trans(qb, name_key(s[i]), name_key(s[k - 1]));
        }
        assert(false);
    }
    if i >= k + n {
        assert(k + n < s.len());
        if i > k + n {
            if n > 0 {
                assert(ByName::le(s[k], s[k + n]));
                lemma_lex_trans(qb, name_key(s[k]), name_key(s[k + n]));
            }
            assert(ByName::le(s[k + n], s[i]));
            assert(qb.is_prefix_of(qb)) by {
                assert(qb =~= qb.subrange(0, qb.len() as int));
            }
            lemma_prefix_between(qb, qb, name_key(s[k + n]), name_key(s[i]));
        }
        assert(false);
    }
    let pre = prefix_part(s, qb, k);
    let g = gathered(s, q, use_fuzzy, k, ranked);
    assert(pre[i - k] == s[i]);
    assert(g[i - k] == s[i]);
    g.to_multiset_ensures();
    results.to_multiset_ensures();
    assert(g.contains(s[i]));
    assert(g.to_multiset().count(s[i]) > 0);
    assert(results.to_multiset() == g.to_multiset());
    assert(results.to_multiset().count(s[i]) > 0);
}

/// Substring hits are files of the list searched.
proof fn lemma_substring_hits_from(t: Seq<FileInfo>, q: Seq<u8>)
    ensures
        forall|j: int| 0 <= j < substring_hits(t, q).len() ==> t.contains(#[trigger] substring_hits(t, q)[j]),
    decreases t.len(),
{
    if t.len() > 0 {
        let u = t.drop_last();
        lemma_substring_hits_from(u, q);
        assert forall|j: int| 0 <= j < substring_hits(t, q).len() implies t.contains(#[trigger] substring_hits(t, q)[j]) by {
            if j < substring_hits(u, q).len() {
                let x = substring_hits(u, q)[j];
                assert(u.contains(x));
                let w = choose|w: int| 0 <= w < u.len() && u[w] == x;
                assert(t[w] == x);
            } else {
                assert(t[t.len() - 1] == t.last());
            }
        }
    }
}

/// Fuzzy hits are scored files of the list searched.
proof fn lemma_fuzzy_hits_from(t: Seq<FileInfo>, q: Seq<char>, taken: Seq<FileInfo>)
    ensures
        forall|j: int| 0 <= j < fuzzy_hits(t, q, taken).len() ==> t.contains(#[trigger] fuzzy_hits(t, q, taken)[j].file),
    decreases t.len(),
{
    if t.len() > 0 {
        let u = t.drop_last();
        lemma_fuzzy_hits_from(u, q, taken);
        assert forall|j: int| 0 <= j < fuzzy_hits(t, q, taken).len() implies t.contains(#[trigger] fuzzy_hits(t, q, taken)[j].file) by {
            if j < fuzzy_hits(u, q, taken).len() {
                let x = fuzzy_hits(u, q, taken)[j].file;
                assert(u.contains(x));
                let w = choose|w: int| 0 <= w < u.len() && u[w] == x;
                assert(t[w] == x);
            } else {
                assert(t[t.len() - 1] == t.last());
            }
        }
    }
}

/// The files of a subrange are files of the whole.
proof fn lemma_subrange_from(s: Seq<FileInfo>, a: int, b: int, x: FileInfo)
    requires
        0 <= a <= b <= s.len(),
        s.subrange(a, b).contains(x),
    ensures
        s.contains(x),
{
    let w = choose|w: int| 0 <= w < b - a && s.subrange(a, b)[w] == x;
    assert(s[a + w] == x);
}

/// Every search result is a file of the index.
pub proof fn lemma_results_from_index(s: Seq<FileInfo>, q: Seq<char>, use_fuzzy: bool, results: Seq<FileInfo>)
    requires
        search_outcome(s, q, use_fuzzy, results),
    ensures
        forall|j: int| 0 <= j < results.len() ==> s.contains(#[trigger] results[j]),
{
    let qb = utf8(q);
    let ranked = lemma_outcome_witness(s, q, use_fuzzy, results);
    let k = search_start(s, q);
    let g = gathered(s, q, use_fuzzy, k, ranked);
    let pre = prefix_part(s, qb, k);
    lemma_prefix_run_facts(s, qb, k, SEARCH_LIMIT as nat);
    let n = pre.len() as int;
    let end = k + n;
    let scan_end = if end + MAX_SUBSTRING_SCAN < s.len() { end + MAX_SUBSTRING_SCAN } else { s.len() as int };
    let after = substring_hits(s.subrange(end, scan_end), qb);
    let before = substring_hits(s.subrange(0, k), qb);
    lemma_substring_hits_from(s.subrange(end, scan_end), qb);
    lemma_substring_hits_from(s.subrange(0, k), qb);
    let plain = plain_part(s, qb, k);
    assert forall|j: int| 0 <= j < plain.len() implies s.contains(#[trigger] plain[j]) by {
        if j < n {
            assert(plain[j] == s[k + j]);
        } else if pre.len() < SEARCH_LIMIT {
            let r1 = pre + first_n(after, SEARCH_LIMIT - pre.len());
            if j < r1.len() {
                assert(plain[j] == after[j - n]);
                lemma_subrange_from(s, end, scan_end, after[j - n]);
            } else {
                assert(plain[j] == before[j - r1.len()]);
                lemma_subrange_from(s, 0, k, before[j - r1.len()]);
            }
        }
    }
    assert forall|j: int| 0 <= j < g.len() implies s.contains(#[trigger] g[j]) by {
        if j < plain.len() {
            assert(g[j] == plain[j]);
        } else {
            let hits = fuzzy_hits(s, q, plain);
            lemma_fuzzy_hits_from(s, q, plain);
            let x = ranked[j - plain.len()];
            assert(g[j] == x.file);
            ranked.to_multiset_ensures();
            hits.to_multiset_ensures();
            assert(ranked.contains(x));
            assert(ranked.to_multiset().count(x) > 0);
            assert(hits.contains(x));
            let w = choose|w: int| 0 <= w < hits.len() && hits[w] == x;
            assert(s.contains(hits[w].file));
        }
    }
    assert forall|j: int| 0 <= j < results.len() implies s.contains(#[trigger] results[j]) by {
        let x = results[j];
        results.to_multiset_ensures();
        g.to_multiset_ensures();
        assert(results.contains(x));
        assert(results.to_multiset().count(x) > 0);
        assert(g.contains(x));
        let w = choose|w: int| 0 <= w < g.len() && g[w] == x;
        assert(s.contains(g[w]));
    }
}

/// Every file of a list whose lowercase name contains `q` is among its
/// substring hits.
proof fn lemma_substring_hits_complete(t: Seq<FileInfo>, q: Seq<u8>)
    ensures
        forall|j: int| 0 <= j < t.len() && occurs_in(q, name_key(t[j])) ==> #[trigger] substring_hits(t, q).contains(t[j]),
    decreases t.len(),
{
    if t.len() > 0 {
        let u = t.drop_last();
        lemma_substring_hits_complete(u, q);
        let h = substring_hits(t, q);
        let hu = substring_hits(u, q);
        assert forall|j: int| 0 <= j < t.len() && occurs_in(q, name_key(t[j])) implies #[trigger] h.contains(t[j]) by {
            if j < t.len() - 1 {
                assert(u[j] == t[j]);
                assert(hu.contains(u[j]));
                let w = choose|w: int| 0 <= w < hu.len() && hu[w] == u[j];
                assert(h[w] == hu[w]);
            } else {
                assert(h[h.len() - 1] == t.last());
            }
        }
    }
}

/// `first_n` keeps everything when the result is known to be shorter than
/// the limit.
proof fn lemma_first_n_all<A>(x: Seq<A>, n: int)
    requires
        first_n(x, n).len() < n,
    ensures
        first_n(x, n) == x,
{
}

/// Substring completeness: when a search gives fewer than `SEARCH_LIMIT`
/// results, every file whose lowercase name contains the lowercase query
/// is among them, if it lies before the search start or less than
/// `MAX_SUBSTRING_SCAN` places after it.
pub proof fn lemma_substring_matches_found(s: Seq<FileInfo>, q: Seq<char>, use_fuzzy: bool, results: Seq<FileInfo>, i: int)
    requires
        search_outcome(s, q, use_fuzzy, results),
        results.len() < SEARCH_LIMIT,
        0 <= i < s.len(),
        i < search_start(s, q) + MAX_SUBSTRING_SCAN,
        occurs_in(utf8(q), name_key(s[i])),
    ensures
        results.contains(s[i]),
{
    let qb = utf8(q);
    let ranked = lemma_outcome_witness(s, q, use_fuzzy, results);
    let k = search_start(s, q);
    let g = gathered(s, q, use_fuzzy, k, ranked);
    let plain = plain_part(s, qb, k);
    let pre = prefix_part(s, qb, k);
    lemma_prefix_run_facts(s, qb, k, SEARCH_LIMIT as nat);
    results.to_multiset_ensures();
    g.to_multiset_ensures();
    assert(results.len() == g.len());
    assert(g.len() >= plain.len());
    assert forall|j: int| 0 <= j < plain.len() implies g[j] == plain[j] by {
    }
    let n = pre.len() as int;
    assert(n < SEARCH_LIMIT);
    let end = k + n;
    assert(end <= s.len());
    let scan_end = if end + MAX_SUBSTRING_SCAN < s.len() { end + MAX_SUBSTRING_SCAN } else { s.len() as int };
    let after = substring_hits(s.subrange(end, scan_end), qb);
    let r1 = pre + first_n(after, SEARCH_LIMIT - n);
    assert(plain.len() >= r1.len());
    assert forall|j: int| 0 <= j < r1.len() implies plain[j] == r1[j] by {
    }
    lemma_first_n_all(after, SEARCH_LIMIT - n);
    let w: int;
    if i < k {
        assert(k > 0);
        let before = substring_hits(s.subrange(0, k), qb);
        assert(plain == r1 + first_n(before, SEARCH_LIMIT - r1.len()));
        lemma_first_n_all(before, SEARCH_LIMIT - r1.len());
        lemma_substring_hits_complete(s.subrange(0, k), qb);
        assert(s.subrange(0, k)[i] == s[i]);
        assert(before.contains(s[i]));
        let v = choose|v: int| 0 <= v < before.len() && before[v] == s[i];
        w = r1.len() + v;
        assert(plain[w] == s[i]);
    } else if i < end {
        w = i - k;
        assert(pre[w] == s[i]);
        assert(plain[w] == s[i]);
    } else {
        assert(i < scan_end);
        lemma_substring_hits_complete(s.subrange(end, scan_end), qb);
        assert(s.subrange(end, scan_end)[i - end] == s[i]);
        assert(after.contains(s[i]));
        let v = choose|v: int| 0 <= v < after.len() && after[v] == s[i];
        w = n + v;
        assert(r1[w] == s[i]);
        assert(plain[w] == s[i]);
    }
    assert(g[w] == s[i]);
    assert(g.contains(s[i]));
    assert(g.to_multiset().count(s[i]) > 0);
    assert(results.to_multiset().count(s[i]) > 0);
}

} // verus!
