//! The few places where the library leans on std beyond what vstd
//! specifies: growing a string, and writing one to an output sink.

use vstd::prelude::*;

verus! {

/// Relies on String::push: appends exactly the given character.
pub assume_specification[ String::push ](s: &mut String, ch: char)
    ensures
        final(s)@ == old(s)@.push(ch),
;

/// Relies on String::push_str: appends exactly the given string.
pub assume_specification[ String::push_str ](s: &mut String, other: &str)
    ensures
        final(s)@ == old(s)@ + other@,
;

#[verifier::external_type_specification]
#[verifier::external_body]
pub struct ExIoError(std::io::Error);

/// Relies on std::io::Write::write_all: writes the whole buffer to the
/// sink, or reports the first error the sink raises. Nothing can be
/// promised of an arbitrary sink, so the result carries no contract.
#[verifier::external_body]
pub fn write_all_to<W: std::io::Write>(to: &mut W, text: &str) -> std::io::Result<()> {
    to.write_all(text.as_bytes())
}

} // verus!
