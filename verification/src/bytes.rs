//! Byte-string helpers shared by the codec, the router and the broker.

use vstd::prelude::*;

verus! {

/// The bytes of an ASCII text: one byte per character.
pub open spec fn ascii(s: &str) -> Seq<u8> {
    s@.map_values(|c: char| c as u8)
}

/// An ASCII text as a byte slice.
pub fn text(s: &'static str) -> (r: &'static [u8])
    requires
        vstd::string::is_ascii(s),
    ensures
        r@ == ascii(s),
{
    let r = s.as_bytes();
    assert(r@ =~= ascii(s));
    r
}

/// Compares two byte strings.
pub fn bytes_eq(a: &[u8], b: &[u8]) -> (r: bool)
    ensures
        r == (a@ == b@),
{
    if a.len() != b.len() {
        return false;
    }
    let mut i: usize = 0;
    while i < a.len()
        invariant
            i <= a.len(),
            a.len() == b.len(),
            forall|j: int| 0 <= j < i ==> a@[j] == b@[j],
        decreases a.len() - i,
    {
        if a[i] != b[i] {
            return false;
        }
        i += 1;
    }
    assert(a@ =~= b@);
    true
}

/// True if `s` begins with `prefix`.
pub fn starts_with(s: &[u8], prefix: &[u8]) -> (r: bool)
    ensures
        r == prefix@.is_prefix_of(s@),
{
    if s.len() < prefix.len() {
        return false;
    }
    let head = &s[0..prefix.len()];
    let r = bytes_eq(head, prefix);
    proof {
        if prefix@.is_prefix_of(s@) {
            assert(head@ =~= prefix@);
        }
    }
    r
}

/// Overwrites the bytes of `out` from `pos` on with `src`.
pub fn copy_into(out: &mut [u8], pos: usize, src: &[u8])
    requires
        pos + src@.len() <= old(out)@.len(),
    ensures
        final(out)@ == old(out)@.take(pos as int) + src@ + old(out)@.skip(pos + src@.len()),
{
    let ghost before = out@;
    let have: usize = out.len();
    let mut i: usize = 0;
    while i < src.len()
        invariant
            i <= src@.len(),
            pos + src@.len() <= have,
            have == out@.len(),
            out@.len() == before.len(),
            forall|j: int| pos <= j < pos + i ==> #[trigger] out@[j] == src@[j - pos],
            forall|j: int|
                0 <= j < before.len() && !(pos <= j < pos + i) ==> #[trigger] out@[j] == before[j],
        decreases src@.len() - i,
    {
        out[pos + i] = src[i];
        i += 1;
    }
    assert(out@ =~= before.take(pos as int) + src@ + before.skip(pos + src@.len()));
}

/// Copies a byte slice into a heap allocation of its own, by
/// `<Box<[u8]> as From<&[u8]>>::from`, which "allocates on the heap and
/// performs a copy of `slice` and its contents": the box holds the same bytes
/// in the same order.
#[verifier::external_body]
pub(crate) fn boxed(bytes: &[u8]) -> (b: Box<[u8]>)
    ensures
        b@ == bytes@,
{
    Box::from(bytes)
}

/// Two boxed byte strings with the same bytes are the same value.
pub proof fn lemma_boxed_ext(a: Box<[u8]>, b: Box<[u8]>)
    requires
        a@ == b@,
    ensures
        a == b,
{
    assert(a =~= b);
}

/// The same bytes in an allocation of their own.
pub(crate) fn clone_boxed(bytes: &Box<[u8]>) -> (b: Box<[u8]>)
    ensures
        b == *bytes,
{
    let b = boxed(bytes);
    proof {
        lemma_boxed_ext(b, *bytes);
    }
    b
}

} // verus!
