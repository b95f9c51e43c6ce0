//! Fuzzy matching: a greedy left-to-right scan that scores how well a
//! pattern matches a text. Higher scores are better matches.
use vstd::prelude::*;
use crate::text::{chars_of, spec_lowercase, to_lowercase};

verus! {

/// Characters after which a match earns a word-start bonus.
pub open spec fn is_separator(c: char) -> bool {
    c == '/' || c == '\\' || c == ' ' || c == '_' || c == '-'
}

/// The scan state after some prefix of the text:
/// (matched pattern characters, score, run of consecutive matches,
///  position of the last match, whole pattern matched).
pub type ScanState = (nat, int, int, int, bool);

/// The score a match at position `i` adds, given the state before it.
pub open spec fn match_gain(t: Seq<char>, st: ScanState, i: int) -> (int, int) {
    let (pidx, score, cons, last, done) = st;
    let (cons1, s1) = if i == last + 1 {
        (cons + 1, score + 10 + (cons + 1) * 5)
    } else {
        (0int, score + 10)
    };
    let s2 = if pidx == 0 && i == 0 { s1 + 15 } else { s1 };
    let s3 = if i > 0 && is_separator(t[i - 1]) { s2 + 12 } else { s2 };
    let s4 = if pidx > 0 { s3 - (i - last - 1) } else { s3 };
    (cons1, s4)
}

/// Bonus for short texts, given once the whole pattern has matched.
pub open spec fn length_bonus(t: Seq<char>) -> int {
    if 100 - t.len() > 0 { 100 - t.len() } else { 0 }
}

/// The state after looking at the character at position `i`.
pub open spec fn scan_step(t: Seq<char>, p: Seq<char>, st: ScanState, i: int) -> ScanState {
    let (pidx, score, cons, last, done) = st;
    if done || !(pidx < p.len() && t[i] == p[pidx as int]) {
        st
    } else {
        let (cons1, s4) = match_gain(t, st, i);
        if pidx + 1 == p.len() {
            ((pidx + 1) as nat, s4 + length_bonus(t), cons1, i, true)
        } else {
            ((pidx + 1) as nat, s4, cons1, i, false)
        }
    }
}

/// The state after looking at the first `n` characters of `t`.
pub open spec fn scan(t: Seq<char>, p: Seq<char>, n: nat) -> ScanState
    decreases n,
{
    if n == 0 {
        (0nat, 0int, 0int, 0int, false)
    } else {
        scan_step(t, p, scan(t, p, (n - 1) as nat), n - 1)
    }
}

/// The fuzzy score of pattern `p` against text `t`: `None` when `p` is not
/// matched, `Some(0)` for an empty pattern.
pub open spec fn fuzzy_score_spec(t: Seq<char>, p: Seq<char>) -> Option<int> {
    if p.len() == 0 {
        Some(0)
    } else if scan(t, p, t.len()).4 {
        Some(scan(t, p, t.len()).1)
    } else {
        None
    }
}

/// An `i32` result agrees with an integer one.
pub open spec fn same_score(r: Option<i32>, s: Option<int>) -> bool {
    match r {
        Some(v) => s == Some(v as int),
        None => s is None,
    }
}

/// The character at position `i` extends the match of the state `st`.
pub open spec fn matches_at(t: Seq<char>, p: Seq<char>, st: ScanState, i: int) -> bool {
    !st.4 && st.0 < p.len() && t[i] == p[st.0 as int]
}

/// A matching step at position `i` computes every intermediate value within
/// `i32`: the gain of a consecutive match (`10` plus the run bonus), the
/// score before the gap penalty, the score after it, and, on the last
/// pattern character, the score with the length bonus.
pub open spec fn step_fits(t: Seq<char>, p: Seq<char>, st: ScanState, i: int) -> bool {
    let (pidx, score, cons, last, done) = st;
    let (cons1, s4) = match_gain(t, st, i);
    let gap = if pidx > 0 { i - last - 1 } else { 0 };
    &&& (i == last + 1 ==> 10 + 5 * (cons + 1) <= i32::MAX)
    &&& s4 + gap <= i32::MAX
    &&& s4 >= i32::MIN
    &&& (pidx + 1 == p.len() ==> s4 + length_bonus(t) <= i32::MAX)
}

/// Every matching step among the first `n` characters stays within `i32`.
pub open spec fn scan_fits(t: Seq<char>, p: Seq<char>, n: nat) -> bool
    decreases n,
{
    if n == 0 {
        true
    } else {
        let st = scan(t, p, (n - 1) as nat);
        scan_fits(t, p, (n - 1) as nat) && (matches_at(t, p, st, n - 1) ==> step_fits(t, p, st, n - 1))
    }
}

/// The fuzzy score of `p` against `t` where the scan stays within `i32`,
/// and `None` where it would leave it.
pub open spec fn fuzzy_score_fits(t: Seq<char>, p: Seq<char>) -> Option<int> {
    if scan_fits(t, p, t.len()) {
        fuzzy_score_spec(t, p)
    } else {
        None
    }
}

/// A scan that stays within `i32` on a text does so on each of its prefixes.
proof fn lemma_scan_fits_prefix(t: Seq<char>, p: Seq<char>, m: nat, n: nat)
    requires
        m <= n,
        scan_fits(t, p, n),
    ensures
        scan_fits(t, p, m),
    decreases n - m,
{
    if n > m {
        lemma_scan_fits_prefix(t, p, m, (n - 1) as nat);
    }
}

/// Once the pattern is matched no later step is a match, so the scan stays
/// within `i32` to the end of the text.
proof fn lemma_scan_fits_done(t: Seq<char>, p: Seq<char>, m: nat, n: nat)
    requires
        m <= n,
        scan(t, p, m).4,
        scan_fits(t, p, m),
    ensures
        scan_fits(t, p, n),
    decreases n - m,
{
    if n > m {
        lemma_scan_fits_done(t, p, m, (n - 1) as nat);
        lemma_scan_done(t, p, m, (n - 1) as nat);
    }
}

/// A matching step that would leave `i32` leaves it for the whole text.
proof fn lemma_step_overflows(t: Seq<char>, p: Seq<char>, i: nat)
    requires
        i < t.len(),
        matches_at(t, p, scan(t, p, i), i as int),
        !step_fits(t, p, scan(t, p, i), i as int),
    ensures
        !scan_fits(t, p, t.len()),
{
    if scan_fits(t, p, t.len()) {
        lemma_scan_fits_prefix(t, p, i + 1, t.len());
    }
}

/// With an empty pattern nothing is ever matched.
proof fn lemma_empty_pattern_fits(t: Seq<char>, p: Seq<char>, n: nat)
    requires
        p.len() == 0,
    ensures
        scan_fits(t, p, n),
    decreases n,
{
    if n > 0 {
        lemma_empty_pattern_fits(t, p, (n - 1) as nat);
    }
}

/// Once the pattern is matched, the state no longer changes.
proof fn lemma_scan_done(t: Seq<char>, p: Seq<char>, m: nat, n: nat)
    requires
        m <= n,
        scan(t, p, m).4,
    ensures
        scan(t, p, n) == scan(t, p, m),
    decreases n - m,
{
    if n > m {
        lemma_scan_done(t, p, m, (n - 1) as nat);
    }
}

/// Bounds on the scan state: how far the match has come, the run of
/// consecutive matches and the position of the last match.
proof fn lemma_scan_bounds(t: Seq<char>, p: Seq<char>, n: nat)
    requires
        n <= t.len(),
    ensures
        ({
            let (pidx, score, cons, last, done) = scan(t, p, n);
            &&& pidx <= n
            &&& pidx <= p.len()
            &&& 0 <= cons <= pidx
            &&& 0 <= last < n || (pidx == 0 && last == 0)
            &&& done ==> pidx == p.len()
        }),
    decreases n,
{
    if n > 0 {
        lemma_scan_bounds(t, p, (n - 1) as nat);
    }
}

/// `p` can be found in `t` in order, not necessarily contiguously.
pub open spec fn is_subsequence(p: Seq<char>, t: Seq<char>) -> bool
    decreases t.len(),
{
    if p.len() == 0 {
        true
    } else if t.len() == 0 {
        false
    } else {
        (t[0] == p[0] && is_subsequence(p.drop_first(), t.drop_first())) || is_subsequence(p, t.drop_first())
    }
}

/// Dropping the first character of a subsequence leaves a subsequence.
proof fn lemma_subsequence_drop_first(p: Seq<char>, t: Seq<char>)
    requires
        p.len() > 0,
        is_subsequence(p, t),
    ensures
        is_subsequence(p.drop_first(), t),
    decreases t.len(),
{
    if t.len() > 0 {
        if t[0] == p[0] && is_subsequence(p.drop_first(), t.drop_first()) {
            if p.len() > 1 {
                lemma_subsequence_drop_first(p.drop_first(), t.drop_first());
            }
        } else {
            lemma_subsequence_drop_first(p, t.drop_first());
        }
    }
}

/// The scan keeps track of how much of the pattern is still to be found
/// in what is left of the text.
proof fn lemma_scan_tracks_subsequence(t: Seq<char>, p: Seq<char>, n: nat)
    requires
        p.len() > 0,
        n <= t.len(),
    ensures
        ({
            let (pidx, score, cons, last, done) = scan(t, p, n);
            &&& done ==> pidx == p.len() && is_subsequence(p, t)
            &&& !done ==> pidx < p.len() && (is_subsequence(p, t) == is_subsequence(p.skip(pidx as int), t.skip(n as int)))
        }),
    decreases n,
{
    if n == 0 {
        assert(p.skip(0) =~= p);
        assert(t.skip(0) =~= t);
    } else {
        let m = (n - 1) as nat;
        lemma_scan_tracks_subsequence(t, p, m);
        lemma_scan_bounds(t, p, m);
        let (pidx, score, cons, last, done) = scan(t, p, m);
        assert(scan(t, p, n) == scan_step(t, p, scan(t, p, m), m as int));
        if !done {
            let ps = p.skip(pidx as int);
            let ts = t.skip(m as int);
            assert(ts.drop_first() =~= t.skip(n as int));
            assert(ps.drop_first() =~= p.skip(pidx as int + 1));
            assert(ts.len() > 0 && ps.len() > 0);
            assert(ts[0] == t[m as int]);
            assert(ps[0] == p[pidx as int]);
            if t[m as int] == p[pidx as int] {
                if is_subsequence(ps, ts.drop_first()) {
                    lemma_subsequence_drop_first(ps, ts.drop_first());
                }
                assert(is_subsequence(ps, ts) == is_subsequence(ps.drop_first(), ts.drop_first()));
                if pidx + 1 == p.len() {
                    assert(p.skip(pidx as int + 1).len() == 0);
                    assert(scan(t, p, n).4);
                    assert(is_subsequence(p, t));
                } else {
                    assert(!scan(t, p, n).4);
                    assert(scan(t, p, n).0 == pidx + 1);
                }
            } else {
                assert(is_subsequence(ps, ts) == is_subsequence(ps, ts.drop_first()));
                assert(scan(t, p, n) == scan(t, p, m));
            }
        } else {
            assert(scan(t, p, n) == scan(t, p, m));
        }
    }
}

/// Fuzzy matching succeeds exactly when the pattern occurs in the text as
/// a subsequence.
pub proof fn lemma_fuzzy_matches_iff_subsequence(t: Seq<char>, p: Seq<char>)
    ensures
        fuzzy_score_spec(t, p) is Some <==> is_subsequence(p, t),
{
    if p.len() > 0 {
        lemma_scan_tracks_subsequence(t, p, t.len());
        let (pidx, score, cons, last, done) = scan(t, p, t.len());
        if !done {
            assert(t.skip(t.len() as int).len() == 0);
            assert(p.skip(pidx as int).len() > 0);
        }
    }
}

/// Scanning the first `n` characters of `t + e` goes as scanning them in
/// `t`, except that a completed match earns the length bonus of `t + e`.
proof fn lemma_scan_extended(t: Seq<char>, e: Seq<char>, p: Seq<char>, n: nat)
    requires
        n <= t.len(),
    ensures
        ({
            let a = scan(t, p, n);
            let b = scan(t + e, p, n);
            &&& b.0 == a.0 && b.2 == a.2 && b.3 == a.3 && b.4 == a.4
            &&& b.1 == if a.4 { a.1 - length_bonus(t) + length_bonus(t + e) } else { a.1 }
        }),
    decreases n,
{
    if n > 0 {
        let m = (n - 1) as nat;
        lemma_scan_extended(t, e, p, m);
        let i = m as int;
        let u = t + e;
        assert(u[i] == t[i]);
        if i > 0 {
            assert(u[i - 1] == t[i - 1]);
        }
    }
}

/// Appending text to a matched text changes its fuzzy score only through
/// the length bonus: the score loses the bonus of the shorter text and
/// gains that of the longer one.
pub proof fn lemma_append_changes_only_length_bonus(t: Seq<char>, e: Seq<char>, p: Seq<char>)
    requires
        p.len() > 0,
        fuzzy_score_spec(t, p) is Some,
    ensures
        fuzzy_score_spec(t + e, p) == Some(fuzzy_score_spec(t, p)->0 - length_bonus(t) + length_bonus(t + e)),
        fuzzy_score_spec(t + e, p)->0 <= fuzzy_score_spec(t, p)->0,
{
    lemma_scan_extended(t, e, p, t.len());
    lemma_scan_done(t + e, p, t.len(), (t + e).len());
}

/// A scan of `t` that stays within `i32` does so on `t + e` too, up to
/// the end of `t`: only the length bonus differs, and it is no larger.
proof fn lemma_scan_fits_extended(t: Seq<char>, e: Seq<char>, p: Seq<char>, n: nat)
    requires
        n <= t.len(),
        scan_fits(t, p, n),
    ensures
        scan_fits(t + e, p, n),
    decreases n,
{
    if n > 0 {
        let m = (n - 1) as nat;
        lemma_scan_fits_extended(t, e, p, m);
        lemma_scan_extended(t, e, p, m);
        let i = m as int;
        let u = t + e;
        assert(u[i] == t[i]);
        if i > 0 {
            assert(u[i - 1] == t[i - 1]);
        }
        assert(length_bonus(u) <= length_bonus(t));
    }
}

/// The same law where scores are kept within `i32`: appending text to a
/// matched text, the whole still at most `i32::MAX` characters long,
/// changes the score only through the length bonus.
pub proof fn lemma_append_within_i32(t: Seq<char>, e: Seq<char>, p: Seq<char>)
    requires
        p.len() > 0,
        fuzzy_score_fits(t, p) is Some,
    ensures
        fuzzy_score_fits(t + e, p) == Some(fuzzy_score_fits(t, p)->0 - length_bonus(t) + length_bonus(t + e)),
{
    lemma_append_changes_only_length_bonus(t, e, p);
    lemma_scan_fits_extended(t, e, p, t.len());
    lemma_scan_extended(t, e, p, t.len());
    lemma_scan_fits_done(t + e, p, t.len(), (t + e).len());
}

/// Scores `pattern` against `text` character by character. The scan is
/// carried out in `i64`, so that a step whose score would leave `i32` is
/// seen before it is taken; the scan then stops with `None`.
pub fn fuzzy_score(text: &Vec<char>, pattern: &Vec<char>) -> (r: Option<i32>)
    requires
        text.len() <= i32::MAX,
    ensures
        same_score(r, fuzzy_score_fits(text@, pattern@)),
{
    if pattern.len() == 0 {
        proof {
            lemma_empty_pattern_fits(text@, pattern@, text@.len());
        }
        return Some(0);
    }
    let ghost t = text@;
    let ghost p = pattern@;
    let mut pattern_idx: usize = 0;
    let mut score: i64 = 0;
    let mut consecutive: i64 = 0;
    let mut last_match_idx: usize = 0;
    let mut i: usize = 0;
    while i < text.len()
        invariant
            t == text@,
            p == pattern@,
            0 < p.len(),
            text.len() <= i32::MAX,
            i <= text.len(),
            i32::MIN <= score <= i32::MAX,
            scan(t, p, i as nat) == (pattern_idx as nat, score as int, consecutive as int, last_match_idx as int, false),
            scan_fits(t, p, i as nat),
        decreases text.len() - i,
    {
        proof {
            lemma_scan_bounds(t, p, i as nat);
        }
        let ghost st = scan(t, p, i as nat);
        assert(scan(t, p, (i + 1) as nat) == scan_step(t, p, st, i as int));
        if pattern_idx < pattern.len() && text[i] == pattern[pattern_idx] {
            let run: i64 = if i == last_match_idx + 1 { consecutive + 1 } else { 0 };
            let mut s: i64 = score + 10;
            if i == last_match_idx + 1 {
                if 10 + run * 5 > i32::MAX as i64 {
                    proof {
                        lemma_step_overflows(t, p, i as nat);
                    }
                    return None;
                }
                s = s + run * 5;
            }
            if pattern_idx == 0 && i == 0 {
                s = s + 15;
            }
            if i > 0 && (text[i - 1] == '/' || text[i - 1] == '\\' || text[i - 1] == ' ' || text[i - 1] == '_'
                || text[i - 1] == '-') {
                s = s + 12;
            }
            let ghost gap_penalty: int = if pattern_idx > 0 { i - last_match_idx - 1 } else { 0 };
            assert(s == match_gain(t, st, i as int).1 + gap_penalty);
            if s > i32::MAX as i64 {
                proof {
                    lemma_step_overflows(t, p, i as nat);
                }
                return None;
            }
            if pattern_idx > 0 {
                let gap = i - last_match_idx - 1;
                s = s - gap as i64;
            }
            assert(match_gain(t, st, i as int) == (run as int, s as int));
            if s < i32::MIN as i64 {
                proof {
                    lemma_step_overflows(t, p, i as nat);
                }
                return None;
            }
            consecutive = run;
            score = s;
            last_match_idx = i;
            pattern_idx = pattern_idx + 1;
            if pattern_idx == pattern.len() {
                let len = text.len() as i64;
                let bonus = if 100 - len > 0 { 100 - len } else { 0 };
                assert(length_bonus(t) == bonus as int);
                if score + bonus > i32::MAX as i64 {
                    proof {
                        lemma_step_overflows(t, p, i as nat);
                    }
                    return None;
                }
                score = score + bonus;
                proof {
                    assert(scan_fits(t, p, (i + 1) as nat));
                    lemma_scan_done(t, p, (i + 1) as nat, text.len() as nat);
                    lemma_scan_fits_done(t, p, (i + 1) as nat, text.len() as nat);
                }
                return Some(score as i32);
            }
        }
        i = i + 1;
    }
    None
}

/// What `fuzzy_match` gives for a text and a pattern: the fuzzy score of
/// their lowercase forms, or `None` where the lowercase text is longer than
/// `i32::MAX` characters or the score would leave `i32` on the way.
pub open spec fn fuzzy_match_spec(text: Seq<char>, pattern: Seq<char>) -> Option<int> {
    let t = spec_lowercase(text);
    let p = spec_lowercase(pattern);
    if t.len() <= i32::MAX {
        fuzzy_score_fits(t, p)
    } else {
        None
    }
}

/// The fuzzy score of `pattern` against `text`, both first put in lower
/// case with `str::to_lowercase`.
pub fn fuzzy_match(text: &str, pattern: &str) -> (r: Option<i32>)
    ensures
        same_score(r, fuzzy_match_spec(text@, pattern@)),
{
    let text_lower = to_lowercase(text);
    let pattern_lower = to_lowercase(pattern);
    let text_chars = chars_of(text_lower.as_str());
    let pattern_chars = chars_of(pattern_lower.as_str());
    if text_chars.len() > i32::MAX as usize {
        return None;
    }
    fuzzy_score(&text_chars, &pattern_chars)
}

/// `fuzzy_match` ignores case in the pattern as in the text: patterns (and
/// texts) with the same lowercase form get the same answer, a match means
/// the lowercase pattern occurs in order in the lowercase text, and such
/// an occurrence gives a match whenever the score stays within `i32`.
pub proof fn lemma_fuzzy_match_ignores_case(text: Seq<char>, pattern: Seq<char>, text2: Seq<char>, pattern2: Seq<char>)
    ensures
        spec_lowercase(text) == spec_lowercase(text2) && spec_lowercase(pattern) == spec_lowercase(pattern2) ==> fuzzy_match_spec(text, pattern)
            == fuzzy_match_spec(text2, pattern2),
        fuzzy_match_spec(text, pattern) is Some ==> is_subsequence(spec_lowercase(pattern), spec_lowercase(text)),
        is_subsequence(spec_lowercase(pattern), spec_lowercase(text)) && spec_lowercase(text).len() <= i32::MAX && scan_fits(
            spec_lowercase(text),
            spec_lowercase(pattern),
            spec_lowercase(text).len(),
        ) ==> fuzzy_match_spec(text, pattern) is Some,
{
    lemma_fuzzy_matches_iff_subsequence(spec_lowercase(text), spec_lowercase(pattern));
}

} // verus!
