//! Contracts for the `String` operations that the library relies on.

use vstd::prelude::*;

verus! {

/// `String::push` appends one character at the end and leaves the rest of
/// the string as it was.
pub assume_specification[ String::push ](s: &mut String, ch: char)
    ensures
        final(s)@ == old(s)@.push(ch),
;

/// `String::clear` removes every character.
pub assume_specification[ String::clear ](s: &mut String)
    ensures
        final(s)@ == Seq::<char>::empty(),
;

} // verus!
