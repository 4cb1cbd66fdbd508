//! Carving a byte slice into a leading piece and the rest.

use vstd::prelude::*;

verus! {

/// The number of bytes that a carve of `len` takes from a buffer of `n`
/// bytes: `len`, clamped to what is there.
pub open spec fn clamped(len: int, n: int) -> int {
    if len <= n {
        len
    } else {
        n
    }
}

/// Relies on parcelona's `split_at_revers`: it hands back
/// `(&input[count..], &input[..count])`, and panics when `count` exceeds the length.
#[verifier::external_body]
fn split_at_revers<'a>(input: &'a [u8], count: usize) -> (r: (&'a [u8], &'a [u8]))
    requires
        count <= input@.len(),
    ensures
        r.0@ == input@.subrange(count as int, input@.len() as int),
        r.1@ == input@.subrange(0, count as int),
{
    parcelona::parser_combinators::split_at_revers(input, count)
}

/// Takes the first `len` bytes of `buf` (all of it when `len` is larger) as a
/// piece, and returns `(rest, piece)`; the piece goes out before the rest.
pub fn carve(buf: &[u8], len: usize) -> (r: (&[u8], &[u8]))
    ensures
        r.0@.len() == buf@.len() - clamped(len as int, buf@.len() as int),
        r.1@ == buf@.subrange(0, clamped(len as int, buf@.len() as int)),
        r.0@ == buf@.subrange(clamped(len as int, buf@.len() as int), buf@.len() as int),
{
    let count: usize = if len <= buf.len() {
        len
    } else {
        buf.len()
    };
    split_at_revers(buf, count)
}

/// Carving never loses nor reorders a byte: the piece followed by the rest is
/// the buffer, and the rest holds `n - min(len, n)` bytes.
pub proof fn lemma_carve_reassembles(buf: Seq<u8>, len: nat)
    ensures
        buf.subrange(clamped(len as int, buf.len() as int), buf.len() as int).len() == buf.len()
            - clamped(len as int, buf.len() as int),
        buf.subrange(0, clamped(len as int, buf.len() as int)) + buf.subrange(
            clamped(len as int, buf.len() as int),
            buf.len() as int,
        ) == buf,
{
    let k = clamped(len as int, buf.len() as int);
    assert(buf.subrange(0, k) + buf.subrange(k, buf.len() as int) =~= buf);
}

} // verus!
