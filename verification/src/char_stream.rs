//! The character stream the scanner reads from: `itertools::PeekNth` over the
//! characters of a `&str`, with contracts stated over the characters that are
//! still to come.
use itertools::PeekNth;
use std::str::Chars;
use vstd::prelude::*;

verus! {

/// `itertools::PeekNth`, carried opaquely through the scanner.
#[verifier::external_type_specification]
#[verifier::external_body]
#[verifier::reject_recursive_types(I)]
pub struct ExPeekNth<I: Iterator>(PeekNth<I>);

/// The characters that a `PeekNth<Chars>` still holds: its look-ahead buffer
/// followed by what the underlying `Chars` has not yet produced.
pub uninterp spec fn pending(stream: PeekNth<Chars>) -> Seq<char>;

/// Calls `itertools::peek_nth(source.chars())`. Claims that the new stream
/// holds exactly the characters of `source`, in order.
#[verifier::external_body]
pub(crate) fn stream_of(source: &str) -> (stream: PeekNth<Chars<'_>>)
    ensures
        pending(stream) == source@,
{
    itertools::peek_nth(source.chars())
}

/// Calls `<PeekNth<Chars> as Iterator>::next`. Claims that it hands out the
/// first pending character and drops it, or returns `None` and changes
/// nothing when no character is pending.
#[verifier::external_body]
pub(crate) fn next_char(stream: &mut PeekNth<Chars<'_>>) -> (c: Option<char>)
    ensures
        pending(*old(stream)).len() > 0 ==> c == Some(pending(*old(stream))[0])
            && pending(*final(stream)) == pending(*old(stream)).drop_first(),
        pending(*old(stream)).len() == 0 ==> c is None && pending(*final(stream))
            == pending(*old(stream)),
{
    stream.next()
}

/// Calls `PeekNth::peek`. Claims that it returns the first pending
/// character, if any, and leaves the pending characters as they were.
#[verifier::external_body]
pub(crate) fn peek_char(stream: &mut PeekNth<Chars<'_>>) -> (c: Option<char>)
    ensures
        pending(*final(stream)) == pending(*old(stream)),
        c == (if pending(*old(stream)).len() > 0 {
            Some(pending(*old(stream))[0])
        } else {
            None
        }),
{
    stream.peek().copied()
}

/// Calls `PeekNth::peek_nth`. Claims that it returns the pending character
/// at index `n`, if there is one, and leaves the pending characters as they
/// were. `n + 1` is computed inside, so `n` stays below `usize::MAX`.
#[verifier::external_body]
pub(crate) fn peek_nth_char(stream: &mut PeekNth<Chars<'_>>, n: usize) -> (c: Option<char>)
    requires
        n < usize::MAX,
    ensures
        pending(*final(stream)) == pending(*old(stream)),
        c == (if n < pending(*old(stream)).len() {
            Some(pending(*old(stream))[n as int])
        } else {
            None
        }),
{
    stream.peek_nth(n).copied()
}

} // verus!
