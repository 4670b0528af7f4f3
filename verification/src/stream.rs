//! The character source that a match reads from.

use char_stream::CharStream;
use vstd::prelude::*;

verus! {

/// Makes `char_stream::CharStream` known as a type of which nothing is
/// visible.
#[verifier::external_type_specification]
#[verifier::external_body]
pub struct ExCharStream(char_stream::CharStream);

/// Reads the stream to its end with `CharStream::to_string` and hands the
/// characters back in the order read.
///
/// Nothing is claimed of the characters: they come from a string, a file or
/// the standard input, as the stream was made. The call returns once the
/// stream reports its end, so the stream has to be finite.
#[verifier::external_body]
pub(crate) fn read_to_end(stream: &mut CharStream) -> (chars: Vec<char>) {
    stream.to_string().chars().collect()
}

} // verus!
