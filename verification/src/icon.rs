//! File icons: turning a captured bitmap into a data URI, and the key an
//! icon is cached under.
use vstd::prelude::*;
use base64::Engine;
use vstd::hash_map::StringHashMap;
use crate::text::{same_text, spec_lowercase, to_lowercase};
use crate::png::{encode_png, spec_png};

verus! {

/// The character of the standard base64 alphabet for the six-bit value
/// `v`.
pub open spec fn b64_char(v: int) -> char {
    if v < 26 {
        (65 + v) as char
    } else if v < 52 {
        (97 + v - 26) as char
    } else if v < 62 {
        (48 + v - 52) as char
    } else if v == 62 {
        '+'
    } else {
        '/'
    }
}

/// Standard base64 with `=` padding: each group of three bytes becomes
/// four characters of six bits each; a last group of one or two bytes is
/// filled out with `=`.
pub open spec fn spec_base64(d: Seq<u8>) -> Seq<char>
    decreases d.len(),
{
    if d.len() == 0 {
        Seq::empty()
    } else {
        let a = d[0] as int;
        let b = if d.len() > 1 { d[1] as int } else { 0 };
        let c = if d.len() > 2 { d[2] as int } else { 0 };
        let head = seq![b64_char(a / 4), b64_char((a % 4) * 16 + b / 16), b64_char((b % 16) * 4 + c / 64), b64_char(c % 64)];
        if d.len() == 1 {
            head.take(2) + seq!['=', '=']
        } else if d.len() == 2 {
            head.take(3) + seq!['=']
        } else {
            head + spec_base64(d.skip(3))
        }
    }
}

/// Base64 gives four characters per started group of three bytes.
pub proof fn lemma_base64_len(d: Seq<u8>)
    ensures
        spec_base64(d).len() == 4 * ((d.len() + 2) / 3),
    decreases d.len(),
{
    if d.len() >= 3 {
        lemma_base64_len(d.skip(3));
    }
}

/// Encodes bytes with `base64::engine::general_purpose::STANDARD.encode`:
/// the standard alphabet with `=` padding. The contract claims that the
/// result is `spec_base64` of the bytes; the precondition keeps the
/// encoded length within `usize`, which the crate would otherwise panic on.
#[verifier::external_body]
fn base64_standard(data: &[u8]) -> (r: String)
    requires
        4 * ((data@.len() + 2) / 3) <= usize::MAX,
    ensures
        r@ == spec_base64(data@),
{
    base64::engine::general_purpose::STANDARD.encode(data)
}

/// The base64 of `n` bytes fits in memory, with room to spare.
pub open spec fn base64_fits(n: nat) -> bool {
    n / 3 < usize::MAX / 4 - 1
}

/// The data URI of a captured icon: a PNG file of the bitmap, in base64;
/// `None` when the PNG cannot be written or its base64 would not fit.
pub open spec fn spec_icon_uri(bgra: Seq<u8>, width: u32, height: u32) -> Option<Seq<char>> {
    match spec_png(bgra, width, height) {
        Some(p) => if base64_fits(p.len()) {
            Some("data:image/png;base64,"@ + spec_base64(p))
        } else {
            None
        },
        None => None,
    }
}

/// The data URI of a captured icon bitmap (top-down BGRA pixels, `width`
/// by `height`): `data:image/png;base64,` and the base64 of its PNG file,
/// four characters per started group of three bytes.
pub fn icon_data_uri(bgra: &Vec<u8>, width: u32, height: u32) -> (r: Option<String>)
    requires
        bgra@.len() == 4 * width * height,
    ensures
        r matches Some(u) ==> spec_icon_uri(bgra@, width, height) == Some(u@),
        r is None ==> spec_icon_uri(bgra@, width, height) is None,
        r matches Some(u) ==> spec_png(bgra@, width, height) matches Some(p) && u@.len() == 22 + 4 * ((p.len() + 2) / 3),
{
    let png = match encode_png(bgra, width, height) {
        Some(p) => p,
        None => {
            return None;
        },
    };
    if png.len() / 3 >= usize::MAX / 4 - 1 {
        return None;
    }
    assert(4 * ((png@.len() + 2) / 3) <= usize::MAX) by (nonlinear_arith)
        requires
            png@.len() / 3 < usize::MAX / 4 - 1,
    ;
    let encoded = base64_standard(png.as_slice());
    let mut uri = "data:image/png;base64,".to_owned();
    uri.append(encoded.as_str());
    proof {
        reveal_strlit("data:image/png;base64,");
        lemma_base64_len(png@);
    }
    Some(uri)
}

/// Extensions whose files each have an icon of their own.
pub open spec fn unique_icon_exts() -> Seq<Seq<char>> {
    seq!["exe"@, "lnk"@, "dll"@, "ico"@, "scr"@, "cpl"@, "msc"@]
}

/// Whether files with (lowercase) extension `ext` have icons of their own.
pub fn has_own_icon(ext: &str) -> (r: bool)
    ensures
        r == unique_icon_exts().contains(ext@),
{
    let r = same_text(ext, "exe") || same_text(ext, "lnk") || same_text(ext, "dll") || same_text(ext, "ico")
        || same_text(ext, "scr") || same_text(ext, "cpl") || same_text(ext, "msc");
    proof {
        let u = unique_icon_exts();
        if u.contains(ext@) {
            let k = choose|k: int| 0 <= k < u.len() && u[k] == ext@;
            assert(0 <= k < 7);
        }
        if r {
            assert(u[0] == ext@ || u[1] == ext@ || u[2] == ext@ || u[3] == ext@ || u[4] == ext@ || u[5] == ext@ || u[6] == ext@);
        }
    }
    r
}

/// The key an icon is cached under, given the path and what
/// `Path::extension` found in it: per file for extensions with icons of
/// their own, otherwise per lowercase extension (`_folder_` when there is
/// none).
pub open spec fn spec_icon_key(path: Seq<char>, extension: Option<Seq<char>>) -> Seq<char> {
    let ext = match extension {
        Some(e) => spec_lowercase(e),
        None => spec_lowercase("_folder_"@),
    };
    if unique_icon_exts().contains(ext) {
        "file:"@ + path
    } else {
        "ext:"@ + ext
    }
}

/// Programs, shortcuts, libraries, icon files, screen savers, control
/// panel items and management consoles (extensions `exe`, `lnk`, `dll`,
/// `ico`, `scr`, `cpl`, `msc`, in any case) get a key of their own path;
/// every other extension gets the key of its lowercase form.
pub proof fn lemma_icon_key_by_extension(path: Seq<char>, e: Seq<char>)
    ensures
        ({
            let x = spec_lowercase(e);
            x == "exe"@ || x == "lnk"@ || x == "dll"@ || x == "ico"@ || x == "scr"@ || x == "cpl"@ || x == "msc"@
        }) ==> spec_icon_key(path, Some(e)) == "file:"@ + path,
        ({
            let x = spec_lowercase(e);
            x != "exe"@ && x != "lnk"@ && x != "dll"@ && x != "ico"@ && x != "scr"@ && x != "cpl"@ && x != "msc"@
        }) ==> spec_icon_key(path, Some(e)) == "ext:"@ + spec_lowercase(e),
{
    let x = spec_lowercase(e);
    let u = unique_icon_exts();
    if x == "exe"@ || x == "lnk"@ || x == "dll"@ || x == "ico"@ || x == "scr"@ || x == "cpl"@ || x == "msc"@ {
        assert(u[0] == x || u[1] == x || u[2] == x || u[3] == x || u[4] == x || u[5] == x || u[6] == x);
        assert(u.contains(x));
    }
    if u.contains(x) {
        let k = choose|k: int| 0 <= k < u.len() && u[k] == x;
        assert(0 <= k < 7);
    }
}

/// Files with icons of their own are cached per path: two different
/// paths of such files never share a key, so one's icon is never handed
/// out for the other.
pub proof fn lemma_program_icons_per_path(p1: Seq<char>, e1: Seq<char>, p2: Seq<char>, e2: Seq<char>)
    requires
        unique_icon_exts().contains(spec_lowercase(e1)),
        unique_icon_exts().contains(spec_lowercase(e2)),
        p1 != p2,
    ensures
        spec_icon_key(p1, Some(e1)) != spec_icon_key(p2, Some(e2)),
{
    let k1 = spec_icon_key(p1, Some(e1));
    let k2 = spec_icon_key(p2, Some(e2));
    reveal_strlit("file:");
    assert(k1.skip(5) =~= p1);
    assert(k2.skip(5) =~= p2);
}

/// Files whose extensions have the same lowercase form and no icons of
/// their own share one cache key, whatever their paths.
pub proof fn lemma_same_extension_shares_key(p1: Seq<char>, e1: Seq<char>, p2: Seq<char>, e2: Seq<char>)
    requires
        spec_lowercase(e1) == spec_lowercase(e2),
        !unique_icon_exts().contains(spec_lowercase(e1)),
    ensures
        spec_icon_key(p1, Some(e1)) == spec_icon_key(p2, Some(e2)),
{
}

/// The icon cache key for `path`, whose extension is `extension`.
pub fn icon_cache_key_for(path: &str, extension: Option<&str>) -> (r: String)
    ensures
        r@ == spec_icon_key(path@, opt_view(extension)),
{
    let ext = match extension {
        Some(e) => to_lowercase(e),
        None => to_lowercase("_folder_"),
    };
    if has_own_icon(ext.as_str()) {
        let mut key = "file:".to_owned();
        key.append(path);
        key
    } else {
        let mut key = "ext:".to_owned();
        key.append(ext.as_str());
        key
    }
}

/// `e` can be what `Path::extension` finds in `path`: nothing, or a run
/// of characters without a `.` that follows a `.` somewhere in the path.
pub open spec fn extension_candidate(path: Seq<char>, e: Option<Seq<char>>) -> bool {
    match e {
        Some(x) => !x.contains('.') && exists|i: int|
            0 <= i && i + x.len() + 1 <= path.len() && #[trigger] path.subrange(i, i + x.len() + 1) == seq!['.'] + x,
        None => true,
    }
}

/// A string slice as the sequence of its characters, if any.
pub open spec fn opt_view(e: Option<&str>) -> Option<Seq<char>> {
    match e {
        Some(x) => Some(x@),
        None => None,
    }
}

/// A letter or a digit of ASCII.
pub open spec fn is_alnum(c: char) -> bool {
    ('a' <= c && c <= 'z') || ('A' <= c && c <= 'Z') || ('0' <= c && c <= '9')
}

/// `path` plainly ends in the extension `x`: it ends with `.` and `x`, `x`
/// is not empty and holds no `.` and no separator, a letter or digit comes
/// before the `.`, and the path does not begin with two separators (the
/// start of a Windows UNC or device path).
pub open spec fn plain_extension(path: Seq<char>, x: Seq<char>) -> bool {
    &&& x.len() > 0
    &&& !x.contains('.') && !x.contains('/') && !x.contains('\\')
    &&& path.len() >= x.len() + 2
    &&& path.subrange(path.len() - x.len() - 1, path.len() as int) == seq!['.'] + x
    &&& is_alnum(path[path.len() - x.len() - 2])
    &&& !(path.len() >= 2 && (path[0] == '/' || path[0] == '\\') && (path[1] == '/' || path[1] == '\\'))
}

/// What `Path::extension` gives for `path`, as a string slice (the path is
/// made from the `str` and the extension turned back into one, which cannot
/// fail). The contract claims what the documentation says of every result:
/// the extension holds no `.` and a `.` followed by it occurs in the path;
/// and, when the path plainly ends in an extension, that extension is the
/// result, since it is then the part of the file name after its last `.`.
/// Which `.` is used otherwise depends on how the platform splits a path
/// into components, which is left unsaid.
#[verifier::external_body]
fn path_extension(path: &str) -> (r: Option<&str>)
    ensures
        extension_candidate(path@, opt_view(r)),
        forall|x: Seq<char>| #[trigger] plain_extension(path@, x) ==> opt_view(r) == Some(x),
{
    match std::path::Path::new(path).extension() {
        Some(e) => e.to_str(),
        None => None,
    }
}

/// The icon cache key for `path`: `icon_cache_key_for` applied to the
/// extension `Path::extension` finds.
pub fn icon_cache_key(path: &str) -> (r: String)
    ensures
        exists|e: Option<Seq<char>>| extension_candidate(path@, e) && #[trigger] spec_icon_key(path@, e) == r@,
        !path@.contains('.') ==> r@ == spec_icon_key(path@, None),
        forall|x: Seq<char>| #[trigger] plain_extension(path@, x) ==> r@ == spec_icon_key(path@, Some(x)),
{
    let ext = path_extension(path);
    let r = icon_cache_key_for(path, ext);
    assert(spec_icon_key(path@, opt_view(ext)) == r@);
    proof {
        if let Some(e) = ext {
            let x = e@;
            let i = choose|i: int|
                0 <= i && i + x.len() + 1 <= path@.len() && #[trigger] path@.subrange(i, i + x.len() + 1) == seq!['.'] + x;
            assert(path@.subrange(i, i + x.len() + 1)[0] == path@[i]);
            assert(path@.contains('.'));
        }
    }
    r
}

/// An icon kept by `remember` is what `lookup` then finds under its key,
/// and the icons under every other key stay as they were.
pub proof fn lemma_lookup_after_remember(before: Map<Seq<char>, String>, key: Seq<char>, icon: String, other: Seq<char>)
    ensures
        before.insert(key, icon).contains_key(key),
        before.insert(key, icon)[key] == icon,
        other != key ==> (before.insert(key, icon).contains_key(other) == before.contains_key(other)),
        other != key && before.contains_key(other) ==> before.insert(key, icon)[other] == before[other],
{
}

/// Icons already extracted, by cache key.
pub struct IconCache {
    pub icons: StringHashMap<String>,
}

impl IconCache {
    /// An empty icon cache.
    pub fn new() -> (r: IconCache)
        ensures
            r.icons@ == Map::<Seq<char>, String>::empty(),
    {
        IconCache { icons: StringHashMap::new() }
    }

    /// The icon cached under `key`, if any.
    pub fn lookup(&self, key: &str) -> (r: Option<String>)
        ensures
            r is Some <==> self.icons@.contains_key(key@),
            r matches Some(v) ==> v == self.icons@[key@],
    {
        match self.icons.get(key) {
            Some(v) => Some(v.clone()),
            None => None,
        }
    }

    /// Hands on the outcome of extracting the icon for `key`, keeping a
    /// successfully extracted icon in the cache.
    pub fn remember(&mut self, key: String, fetched: Result<String, String>) -> (r: Result<String, String>)
        ensures
            r == fetched,
            fetched matches Ok(icon) ==> final(self).icons@ == old(self).icons@.insert(key@, icon),
            fetched is Err ==> final(self).icons@ == old(self).icons@,
    {
        match fetched {
            Ok(icon) => {
                self.icons.insert(key, icon.clone());
                Ok(icon)
            },
            Err(e) => Err(e),
        }
    }
}

} // verus!
