//! Titles: what may follow a code as a directory name.

use vstd::prelude::*;

verus! {

/// What `sanitise_file_name::sanitise` makes of a name with its default options.
pub uninterp spec fn sanitised(s: Seq<char>) -> Seq<char>;

/// A title is safe as a file name when sanitising leaves it as it is; such a
/// title holds no path separator and no line break.
pub open spec fn valid_title(t: Seq<char>) -> bool {
    &&& t.len() > 0
    &&& sanitised(t) == t
    &&& !t.contains('/')
    &&& !t.contains('\n')
    &&& !t.contains('\r')
}

/// Relies on `sanitise_file_name::sanitise` with its default options: the result
/// depends on the characters alone, and the default options (`most_fs_safe`,
/// `windows_safe`) remove every `/` and every C0 control character, line feed
/// and carriage return among them.
#[verifier::external_body]
fn sanitise(s: &str) -> (r: String)
    ensures
        r@ == sanitised(s@),
        !r@.contains('/'),
        !r@.contains('\n'),
        !r@.contains('\r'),
{
    sanitise_file_name::sanitise(s)
}

/// Whether `t` is a title that may name a directory.
pub fn is_valid_title(t: &str) -> (r: bool)
    ensures
        r == valid_title(t@),
        t@.contains('/') ==> !r,
{
    let clean = sanitise(t);
    let own = t.to_owned();
    t.unicode_len() > 0 && clean == own
}

} // verus!
