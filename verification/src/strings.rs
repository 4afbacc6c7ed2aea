//! Characters and strings of the standard library, as far as the library
//! relies on them.
//!
//! The Unicode tables belong to the standard library. Each property that the
//! tokenizer reads gets a name here, and the functions below are believed to
//! compute that name.

use vstd::prelude::*;

verus! {

/// Whether `c` has the Unicode property `White_Space`.
pub uninterp spec fn unicode_whitespace(c: char) -> bool;

/// Whether `c` is alphabetic or numeric in the sense of Unicode.
pub uninterp spec fn unicode_alphanumeric(c: char) -> bool;

/// The lowercase mapping of `c`: the characters that replace it, in order.
pub uninterp spec fn unicode_lowercase(c: char) -> Seq<char>;

/// `char::is_whitespace` of the standard library: the result depends on the
/// character alone, and is what `unicode_whitespace` names.
pub assume_specification[ char::is_whitespace ](c: char) -> (r: bool)
    ensures
        r == unicode_whitespace(c),
;

/// `char::is_alphanumeric` of the standard library: the result depends on the
/// character alone, and is what `unicode_alphanumeric` names.
pub assume_specification[ char::is_alphanumeric ](c: char) -> (r: bool)
    ensures
        r == unicode_alphanumeric(c),
;

/// `char::to_lowercase` of the standard library, with the characters that its
/// iterator yields gathered in a vector: they are what `unicode_lowercase`
/// names.
#[verifier::external_body]
pub(crate) fn lowercase_of(c: char) -> (r: Vec<char>)
    ensures
        r@ == unicode_lowercase(c),
{
    c.to_lowercase().collect()
}

/// `String::push` of the standard library appends one character.
pub assume_specification[ String::push ](s: &mut String, c: char)
    ensures
        final(s)@ == old(s)@.push(c),
;

} // verus!
