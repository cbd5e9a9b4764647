//! Building text character by character.

use vstd::prelude::*;

verus! {

/// `String::push` of the standard library: the string afterwards is the
/// string before with the character at its end. Taken from the library's
/// documentation ("Appends the given char to the end of this String"), not
/// proved here.
pub assume_specification[ String::push ](s: &mut String, ch: char)
    ensures
        final(s)@ == old(s)@.push(ch),
;

} // verus!
