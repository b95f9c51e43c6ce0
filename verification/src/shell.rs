//! Paths handed to the Windows shell.
use vstd::prelude::*;
use crate::text::chars_of;

verus! {

/// The prefix Windows puts before extended-length paths.
pub open spec fn verbatim_prefix() -> Seq<char> {
    seq!['\\', '\\', '?', '\\']
}

/// `path` without a leading verbatim prefix.
pub open spec fn spec_strip_verbatim(path: Seq<char>) -> Seq<char> {
    if verbatim_prefix().is_prefix_of(path) {
        path.skip(4)
    } else {
        path
    }
}

/// Removes a leading `\\?\` from `path`.
pub fn strip_verbatim_prefix(path: &str) -> (r: String)
    ensures
        r@ == spec_strip_verbatim(path@),
{
    let cs = chars_of(path);
    if cs.len() >= 4 && cs[0] == '\\' && cs[1] == '\\' && cs[2] == '?' && cs[3] == '\\' {
        assert(verbatim_prefix() =~= path@.subrange(0, 4));
        let rest = path.substring_char(4, cs.len());
        rest.to_owned()
    } else {
        proof {
            if verbatim_prefix().is_prefix_of(path@) {
                assert(path@[0] == verbatim_prefix()[0]);
                assert(path@[1] == verbatim_prefix()[1]);
                assert(path@[2] == verbatim_prefix()[2]);
                assert(path@[3] == verbatim_prefix()[3]);
            }
        }
        path.to_owned()
    }
}

/// The argument that makes Explorer open the folder of `path` with the
/// file selected: `/select,"<path>"`.
pub fn explorer_select_arg(path: &str) -> (r: String)
    ensures
        r@ == "/select,\""@ + spec_strip_verbatim(path@) + "\""@,
{
    let clean = strip_verbatim_prefix(path);
    let mut arg = "/select,\"".to_owned();
    arg.append(clean.as_str());
    arg.append("\"");
    arg
}

/// `ShellExecuteW` reports failure by returning a value of at most 32.
pub fn shell_execute_failed(code: i32) -> (r: bool)
    ensures
        r == (code <= 32),
{
    code <= 32
}

} // verus!
