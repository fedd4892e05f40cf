//! Resolution of a request target against the server's fixed authority.
use vstd::prelude::*;

verus! {

use vstd::string::StrSliceExecFns;

/// The absolute, percent-encoded path obtained by joining a request target
/// against the server's fixed authority; `None` when the target cannot be
/// joined into a valid URL.
pub uninterp spec fn joined_path(target: Seq<char>) -> Option<Seq<char>>;

/// Printable ASCII other than space: what the engine accepts in a resolved
/// path before it is used as a lookup key or serialized back to the wire.
pub open spec fn is_wire_char(c: char) -> bool {
    (c as u32) > 32 && (c as u32) < 127
}

/// Non-control ASCII. A joined URL's path is made of these: controls and
/// everything above `~` are always percent-encoded, but a space survives in
/// the opaque path of a URL that cannot be a base (a `mailto:` target).
pub open spec fn is_encoded_ascii_char(c: char) -> bool {
    (c as u32) >= 32 && (c as u32) < 127
}

/// A path the engine serves: non-empty, absolute, and made of printable
/// ASCII without spaces. The grammar rejects a request whose target resolves
/// to anything else.
pub open spec fn wire_safe_path(p: Seq<char>) -> bool {
    &&& p.len() >= 1
    &&& p[0] == '/'
    &&& forall|i: int| 0 <= i < p.len() ==> #[trigger] is_wire_char(p[i])
}

/// Relies on `url::Url::join` (against the fixed base `http://localhost/`)
/// and `url::Url::path`. The joined path depends on the target alone, and it
/// is a percent-encoded ASCII string in which controls are escaped. No more
/// is promised: a target carrying its own scheme replaces the base whole,
/// and the path of a URL that cannot be a base is an arbitrary string that
/// may be empty, keep its spaces, and start with anything.
#[verifier::external_body]
pub(crate) fn resolve_target(target: &str) -> (r: Option<String>)
    ensures
        r is Some <==> joined_path(target@) is Some,
        r matches Some(p) ==> joined_path(target@) == Some(p@),
        r matches Some(p) ==> forall|i: int|
            0 <= i < p@.len() ==> #[trigger] is_encoded_ascii_char(p@[i]),
{
    match url::Url::parse("http://localhost/") {
        Ok(base) => match base.join(target) {
            Ok(u) => Some(u.path().to_string()),
            Err(_) => None,
        },
        Err(_) => None,
    }
}

/// Exec check of `wire_safe_path`.
pub fn wire_safe_check(s: &str) -> (r: bool)
    ensures
        r == wire_safe_path(s@),
{
    let len = s.unicode_len();
    if len == 0 {
        return false;
    }
    if s.get_char(0) != '/' {
        return false;
    }
    let mut i: usize = 0;
    while i < len
        invariant
            0 <= i <= len,
            len == s@.len(),
            s@[0] == '/',
            forall|j: int| 0 <= j < i ==> #[trigger] is_wire_char(s@[j]),
        decreases len - i,
    {
        let c = s.get_char(i);
        let u = c as u32;
        if !(u > 32 && u < 127) {
            proof {
                assert(!is_wire_char(s@[i as int]));
            }
            return false;
        }
        i += 1;
    }
    true
}

} // verus!
