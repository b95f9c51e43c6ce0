//! The on-disk cache of the index (gzip framing of the serialized file
//! list) and the periodic clean-up of entries whose files are gone.
use vstd::prelude::*;
use vstd::hash_map::StringHashMap;
use std::io::{Read, Write};
use crate::index::{keep_unlisted, lemma_keep_unlisted_same, lemma_remove_descending, remove_positions, spec_path_map};
use crate::types::FileInfo;

verus! {

/// `std::io::Error`, which flate2's encoder and decoder report failures
/// with; declared so that it can stand in the wrappers' signatures.
#[verifier::external_type_specification]
#[verifier::external_body]
pub struct ExIoError(std::io::Error);

/// What flate2's `GzEncoder` (default level, default header) produces for
/// these bytes.
pub uninterp spec fn spec_gzip(data: Seq<u8>) -> Seq<u8>;

/// What flate2's `GzDecoder` yields when read to the end over these
/// bytes, or `None` when reading fails.
pub uninterp spec fn spec_gunzip(data: Seq<u8>) -> Option<Seq<u8>>;

/// Compresses `data` with `flate2::write::GzEncoder` into memory (new,
/// `write_all`, `finish`). The contract claims that this succeeds (writing
/// into a `Vec` cannot fail, and the encoder reports an error only when it
/// is misused) and that the result is a function of `data`, named
/// `spec_gzip`.
#[verifier::external_body]
fn gzip(data: &[u8]) -> (r: Result<Vec<u8>, std::io::Error>)
    ensures
        r is Ok,
        r matches Ok(b) ==> b@ == spec_gzip(data@),
{
    let mut e = flate2::write::GzEncoder::new(Vec::new(), flate2::Compression::default());
    match e.write_all(data) {
        Ok(()) => e.finish(),
        Err(err) => Err(err),
    }
}

/// Decompresses `data` with `flate2::read::GzDecoder` and `read_to_end`.
/// The contract claims that the outcome is a function of `data`, named
/// `spec_gunzip`, and that gzip is lossless: bytes that are the gzip of
/// some `x` decompress to `x`.
#[verifier::external_body]
fn gunzip(data: &[u8]) -> (r: Result<Vec<u8>, std::io::Error>)
    ensures
        r is Ok <==> spec_gunzip(data@) is Some,
        r matches Ok(v) ==> spec_gunzip(data@) == Some(v@),
        forall|x: Seq<u8>| #[trigger] spec_gzip(x) == data@ ==> r is Ok && r.unwrap()@ == x,
{
    let mut d = flate2::read::GzDecoder::new(data);
    let mut buf: Vec<u8> = Vec::new();
    match d.read_to_end(&mut buf) {
        Ok(_) => Ok(buf),
        Err(err) => Err(err),
    }
}

/// Why the cache could not be read.
#[derive(Debug, Clone, Copy, PartialEq, Eq, Structural)]
pub enum CacheError {
    Decompress,
}

/// Frames the serialized index for the cache file: its gzip.
pub fn encode_cache(serialized: &[u8]) -> (r: Vec<u8>)
    ensures
        r@ == spec_gzip(serialized@),
{
    match gzip(serialized) {
        Ok(b) => b,
        Err(_) => {
            proof {
                assert(false);
            }
            Vec::new()
        },
    }
}

/// Unframes the contents of a cache file, giving the serialized index.
/// What `encode_cache` produced comes back unchanged.
pub fn decode_cache(contents: &[u8]) -> (r: Result<Vec<u8>, CacheError>)
    ensures
        match r {
            Ok(v) => spec_gunzip(contents@) == Some(v@),
            Err(e) => spec_gunzip(contents@) is None && e == CacheError::Decompress,
        },
        forall|x: Seq<u8>| #[trigger] spec_gzip(x) == contents@ ==> r is Ok && r.unwrap()@ == x,
{
    match gunzip(contents) {
        Ok(v) => Ok(v),
        Err(_) => Err(CacheError::Decompress),
    }
}

/// How far apart the sampled entries of an index of `total` files are:
/// about a tenth of the files, at least 1000 and at most 10000, are
/// checked.
pub open spec fn spec_sample_step(total: nat) -> nat {
    let tenth = total / 10;
    let at_least = if tenth > 1000 { tenth } else { 1000 };
    let sample = if at_least < 10000 { at_least } else { 10000 };
    let step = total / sample;
    if step > 1 { step } else { 1 }
}

/// The distance between the entries a clean-up pass checks.
pub fn sample_step(total: usize) -> (r: usize)
    ensures
        r == spec_sample_step(total as nat),
        r >= 1,
{
    let tenth = total / 10;
    let at_least = if tenth > 1000 { tenth } else { 1000 };
    let sample = if at_least < 10000 { at_least } else { 10000 };
    let step = total / sample;
    if step > 1 { step } else { 1 }
}

/// The positions `from, from + step, from + 2*step, ...` of `s` that hold
/// files (not directories).
pub open spec fn sampled_files(s: Seq<FileInfo>, step: nat, from: nat) -> Seq<usize>
    decreases s.len() - from,
{
    if step == 0 || from >= s.len() {
        Seq::empty()
    } else {
        let rest = if from + step < s.len() { sampled_files(s, step, from + step) } else { Seq::empty() };
        if !s[from as int].is_dir {
            seq![from as usize] + rest
        } else {
            rest
        }
    }
}

/// The positions a clean-up pass checks for files that no longer exist.
pub fn stale_candidates(files: &Vec<FileInfo>, step: usize) -> (r: Vec<usize>)
    requires
        step >= 1,
    ensures
        r@ == sampled_files(files@, step as nat, 0),
{
    let mut out: Vec<usize> = Vec::new();
    let mut i: usize = 0;
    while i < files.len()
        invariant
            step >= 1,
            i <= files.len(),
            sampled_files(files@, step as nat, 0) == out@ + sampled_files(files@, step as nat, i as nat),
        decreases files.len() - i,
    {
        if !files[i].is_dir {
            assert(out@.push(i) + sampled_files(files@, step as nat, (i + step) as nat) =~= out@ + (seq![i] + sampled_files(files@, step as nat, (i + step) as nat)));
            out.push(i);
        }
        if files.len() - i <= step {
            proof {
                assert(sampled_files(files@, step as nat, (i + step) as nat) == Seq::<usize>::empty());
            }
            i = files.len();
        } else {
            i = i + step;
        }
    }
    assert(out@ + Seq::<usize>::empty() =~= out@);
    out
}

/// Removes the entries at the positions `stale` found to be gone, taking
/// the list from its end (so an ascending list is removed highest
/// first), skipping positions past the end, then rebuilds the path map.
/// Returns how many positions were given.
pub fn remove_stale(files: &mut Vec<FileInfo>, path_map: &mut StringHashMap<usize>, stale: &Vec<usize>) -> (count: usize)
    ensures
        count == stale@.len(),
        count == 0 ==> final(files)@ == old(files)@ && final(path_map)@ == old(path_map)@,
        count > 0 ==> final(files)@ == remove_positions(old(files)@, stale@.reverse()),
        count > 0 ==> final(path_map)@ == spec_path_map(final(files)@),
{
    if stale.len() == 0 {
        return 0;
    }
    let ghost l = stale@.reverse();
    let ghost start = files@;
    let mut k: usize = stale.len();
    assert(l.skip(0) =~= l);
    while k > 0
        invariant
            k <= stale.len(),
            l == stale@.reverse(),
            remove_positions(start, l) == remove_positions(files@, l.skip(stale.len() - k)),
        decreases k,
    {
        k = k - 1;
        let idx = stale[k];
        assert(l.skip(stale.len() - k - 1).drop_first() =~= l.skip(stale.len() - k));
        assert(l.skip(stale.len() - k - 1)[0] == idx);
        if idx < files.len() {
            files.remove(idx);
        }
    }
    assert(l.skip(stale.len() as int) =~= Seq::<usize>::empty());
    crate::index::rebuild_path_map(files, path_map);
    stale.len()
}

/// A clean-up pass removes exactly the files at the stale positions and
/// keeps the others in order.
pub proof fn lemma_remove_stale_exact(s: Seq<FileInfo>, stale: Seq<usize>)
    requires
        s.len() <= usize::MAX,
        forall|i: int, j: int| 0 <= i < j < stale.len() ==> stale[i] < stale[j],
        forall|j: int| 0 <= j < stale.len() ==> #[trigger] stale[j] < s.len(),
    ensures
        remove_positions(s, stale.reverse()) == keep_unlisted(s, stale),
{
    let l = stale.reverse();
    assert forall|j: int| 0 <= j < l.len() implies #[trigger] l[j] < s.len() by {
        assert(l[j] == stale[stale.len() - 1 - j]);
    }
    assert forall|i: int, j: int| 0 <= i < j < l.len() implies l[i] > l[j] by {
        assert(l[i] == stale[stale.len() - 1 - i] && l[j] == stale[stale.len() - 1 - j]);
    }
    lemma_remove_descending(s, l);
    assert forall|i: usize| i < s.len() implies #[trigger] l.contains(i) == stale.contains(i) by {
        if l.contains(i) {
            let w = choose|w: int| 0 <= w < l.len() && l[w] == i;
            assert(stale[stale.len() - 1 - w] == i);
        }
        if stale.contains(i) {
            let w = choose|w: int| 0 <= w < stale.len() && stale[w] == i;
            assert(l[stale.len() - 1 - w] == i);
        }
    }
    lemma_keep_unlisted_same(s, l, stale);
}

} // verus!
