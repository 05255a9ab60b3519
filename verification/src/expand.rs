//! Shell-style shorthand expansion at the front of path handling.
//!
//! Raw paths from configuration lines or the command line may carry a
//! leading `~` or `$VAR` references.  Expansion asks the environment, so
//! its outcome cannot be pinned down; everything after it — making the
//! path absolute, cleaning it, resolving symlinks — is verified exactly on
//! the expanded bytes.
use vstd::prelude::*;

use crate::paths::AbsPath;
use crate::paths::normalize_spec;
use crate::resolve::LinkTable;
use crate::resolve::resolve_spec;

verus! {

/// The byte `$`.
pub const DOLLAR: u8 = 36;

/// The byte `~`.
pub const TILDE: u8 = 126;

/// Expansion failed: an unset variable was referenced, or the input was
/// not valid text.
#[derive(Debug)]
pub struct ExpandError {}

/// Every byte is plain ASCII.
pub open spec fn all_ascii(s: Seq<u8>) -> bool {
    forall|i: int| 0 <= i < s.len() ==> s[i] < 128
}

/// The bytes hold no shell shorthand: no `$` anywhere, no leading `~`.
pub open spec fn no_shorthand(s: Seq<u8>) -> bool {
    &&& forall|i: int| 0 <= i < s.len() ==> s[i] != DOLLAR
    &&& (s.len() == 0 || s[0] != TILDE)
}

/// Relies on shellexpand::full: it expands `$VAR`/`${VAR}` references and
/// a leading `~`; an input without `$` is returned borrowed by the
/// variable pass, and one without a leading `~` is returned borrowed by
/// the tilde pass, so an ASCII input with no shorthand comes back
/// unchanged.
#[verifier::external_body]
fn expand_full(raw: &Vec<u8>) -> (r: Result<Vec<u8>, ExpandError>)
    ensures
        match r {
            Ok(e) => all_ascii(raw@) && no_shorthand(raw@) ==> e@ == raw@,
            Err(_) => !(all_ascii(raw@) && no_shorthand(raw@)),
        },
{
    let s = match core::str::from_utf8(raw.as_slice()) {
        Ok(s) => s,
        Err(_) => return Err(ExpandError {}),
    };
    match shellexpand::full(s) {
        Ok(cow) => Ok(cow.into_owned().into_bytes()),
        Err(_) => Err(ExpandError {}),
    }
}

/// Expand shorthand in `raw`, then make it absolute against `cwd` and
/// clean it lexically.  Without shorthand the result is exactly the
/// normalized input.
pub fn expand_and_normalize(raw: &Vec<u8>, cwd: &AbsPath) -> (r: Result<AbsPath, ExpandError>)
    requires
        cwd.wf(),
    ensures
        r matches Ok(p) ==> p.wf(),
        all_ascii(raw@) && no_shorthand(raw@) ==> (r matches Ok(p) && p@ == normalize_spec(
            raw@,
            cwd@,
        )),
{
    match expand_full(raw) {
        Ok(e) => Ok(AbsPath::normalize(&e, cwd)),
        Err(e) => Err(e),
    }
}

/// Expand shorthand in `raw`, then resolve it through the link table.
/// Without shorthand the result is exactly the resolved input.
pub fn expand_and_resolve(links: &LinkTable, raw: &Vec<u8>, cwd: &AbsPath) -> (r: Result<
    AbsPath,
    ExpandError,
>)
    requires
        cwd.wf(),
    ensures
        r matches Ok(p) ==> p.wf(),
        all_ascii(raw@) && no_shorthand(raw@) ==> (r matches Ok(p) && p@ == resolve_spec(
            links@,
            raw@,
            cwd@,
        )),
{
    match expand_full(raw) {
        Ok(e) => Ok(crate::resolve::resolve_in(links, &e, cwd)),
        Err(e) => Err(e),
    }
}

} // verus!
