//! Unicode identifier classification.
//!
//! The scanner admits the full Unicode `XID_Start` / `XID_Continue` character
//! classes in identifiers.  Those classes are large generated tables in the
//! `unicode-xid` crate; here each is given a name, and the lookups are the
//! only outside calls the scanner makes.

use vstd::prelude::*;

verus! {

/// Whether `c` has the Unicode `XID_Start` property, as classified by
/// `unicode_xid::UnicodeXID::is_xid_start`.
pub uninterp spec fn xid_start(c: char) -> bool;

/// Whether `c` has the Unicode `XID_Continue` property, as classified by
/// `unicode_xid::UnicodeXID::is_xid_continue`.
pub uninterp spec fn xid_continue(c: char) -> bool;

/// Relies on `unicode_xid::UnicodeXID::is_xid_start`: a pure table lookup
/// deciding the `XID_Start` property of `c`.
#[verifier::external_body]
pub(crate) fn is_xid_start(c: char) -> (r: bool)
    ensures
        r == xid_start(c),
{
    unicode_xid::UnicodeXID::is_xid_start(c)
}

/// Relies on `unicode_xid::UnicodeXID::is_xid_continue`: a pure table lookup
/// deciding the `XID_Continue` property of `c`.
#[verifier::external_body]
pub(crate) fn is_xid_continue(c: char) -> (r: bool)
    ensures
        r == xid_continue(c),
{
    unicode_xid::UnicodeXID::is_xid_continue(c)
}

} // verus!
