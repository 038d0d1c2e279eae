//! Small operations on byte slices that the decoders share.

use vstd::prelude::*;
use vstd::string::StringSliceAdditionalSpecFns;

verus! {

/// `<[T]>::as_chunks` cuts a slice into arrays of `N` elements from its
/// start, in order, and hands out what is left over at the end, which is
/// shorter than `N`. It panics where `N` is zero.
pub assume_specification<T, const N: usize>[ <[T]>::as_chunks::<N> ](s: &[T]) -> (r: (
    &[[T; N]],
    &[T],
))
    requires
        N != 0,
    ensures
        r.0@.len() == s@.len() / (N as nat),
        forall|i: int|
            0 <= i < r.0@.len() ==> (#[trigger] r.0@[i])@ == s@.subrange(i * N, i * N + N),
        r.1@ == s@.subrange(s@.len() - s@.len() % (N as nat), s@.len() as int),
;

/// Whether two slices hold the same bytes.
pub fn same_bytes(a: &[u8], b: &[u8]) -> (r: bool)
    ensures
        r == (a@ == b@),
{
    if a.len() != b.len() {
        return false;
    }
    let mut i: usize = 0;
    while i < a.len()
        invariant
            a.len() == b.len(),
            0 <= i <= a.len(),
            forall|j: int| 0 <= j < i ==> a@[j] == b@[j],
        decreases a.len() - i,
    {
        if a[i] != b[i] {
            return false;
        }
        i = i + 1;
    }
    assert(a@ =~= b@);
    true
}

/// Whether `key` is the string `name`.
pub fn key_is(key: &str, name: &str) -> (r: bool)
    ensures
        r == (key.spec_bytes() == name.spec_bytes()),
{
    same_bytes(key.as_bytes(), name.as_bytes())
}

/// A 64-bit integer narrowed to 32 bits without sign: the value modulo
/// 2^32.
pub open spec fn narrowed(v: i64) -> u32 {
    (v as int % 0x1_0000_0000) as u32
}

/// Narrows `v` to 32 bits, dropping the bits above them.
pub fn narrow(v: i64) -> (r: u32)
    ensures
        r == narrowed(v),
{
    let r: u32 = #[verifier::truncate] (v as u32);
    assert((v as u32) as int == (v as int) % 0x1_0000_0000) by (bit_vector);
    r
}

} // verus!
