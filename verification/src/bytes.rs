//! Small verified helpers over byte vectors.
//!
//! Paths, log lines and JSON text are all carried through the library as
//! `Vec<u8>`, so these helpers are shared by every module.

use vstd::prelude::*;

verus! {

/// Append all bytes of `src` to `dst`.
pub fn push_bytes(dst: &mut Vec<u8>, src: &[u8])
    ensures
        final(dst)@ == old(dst)@ + src@,
{
    let ghost prefix: Seq<u8> = dst@;
    let mut i: usize = 0;
    while i < src.len()
        invariant
            i <= src@.len(),
            dst@ == prefix + src@.subrange(0, i as int),
        decreases src@.len() - i,
    {
        dst.push(src[i]);
        i = i + 1;
        assert(prefix + src@.subrange(0, i - 1 as int) + seq![src@[i - 1]] =~= prefix
            + src@.subrange(0, i as int));
    }
    assert(prefix + src@.subrange(0, src@.len() as int) =~= prefix + src@);
}

/// Byte-for-byte equality of two vectors.
pub fn bytes_eq(a: &Vec<u8>, b: &Vec<u8>) -> (r: bool)
    ensures
        r == (a@ == b@),
{
    if a.len() != b.len() {
        assert(a@.len() != b@.len());
        return false;
    }
    let mut i: usize = 0;
    while i < a.len()
        invariant
            i <= a@.len(),
            a@.len() == b@.len(),
            forall|j: int| 0 <= j < i ==> a@[j] == b@[j],
        decreases a@.len() - i,
    {
        if a[i] != b[i] {
            return false;
        }
        i = i + 1;
    }
    proof {
        assert(a@ =~= b@);
    }
    true
}

/// Does `a` begin with `prefix`?
pub open spec fn is_prefix_of(prefix: Seq<u8>, a: Seq<u8>) -> bool {
    prefix.len() <= a.len() && a.subrange(0, prefix.len() as int) == prefix
}

/// Does `a` end with `suffix`?
pub open spec fn is_suffix_of(suffix: Seq<u8>, a: Seq<u8>) -> bool {
    suffix.len() <= a.len() && a.subrange(a.len() - suffix.len(), a.len() as int) == suffix
}

pub fn starts_with(a: &Vec<u8>, prefix: &Vec<u8>) -> (r: bool)
    ensures
        r == is_prefix_of(prefix@, a@),
{
    if prefix.len() > a.len() {
        return false;
    }
    let mut i: usize = 0;
    while i < prefix.len()
        invariant
            i <= prefix@.len(),
            prefix@.len() <= a@.len(),
            forall|j: int| 0 <= j < i ==> a@[j] == prefix@[j],
        decreases prefix@.len() - i,
    {
        if a[i] != prefix[i] {
            assert(a@.subrange(0, prefix@.len() as int)[i as int] != prefix@[i as int]);
            return false;
        }
        i = i + 1;
    }
    proof {
        assert(a@.subrange(0, prefix@.len() as int) =~= prefix@);
    }
    true
}

pub fn ends_with(a: &Vec<u8>, suffix: &Vec<u8>) -> (r: bool)
    ensures
        r == is_suffix_of(suffix@, a@),
{
    if suffix.len() > a.len() {
        return false;
    }
    let n: usize = a.len();
    let offset: usize = n - suffix.len();
    let mut i: usize = 0;
    while i < suffix.len()
        invariant
            i <= suffix@.len(),
            n == a@.len(),
            offset == a@.len() - suffix@.len(),
            forall|j: int| 0 <= j < i ==> a@[offset + j] == suffix@[j],
        decreases suffix@.len() - i,
    {
        if a[offset + i] != suffix[i] {
            assert(a@.subrange(a@.len() - suffix@.len(), a@.len() as int)[i as int]
                != suffix@[i as int]);
            return false;
        }
        i = i + 1;
    }
    proof {
        assert(a@.subrange(a@.len() - suffix@.len(), a@.len() as int) =~= suffix@);
    }
    true
}

/// The bytes of `a` from `from` (inclusive) to `to` (exclusive), as a fresh vector.
pub fn sub_bytes(a: &Vec<u8>, from: usize, to: usize) -> (r: Vec<u8>)
    requires
        from <= to <= a@.len(),
    ensures
        r@ == a@.subrange(from as int, to as int),
{
    let mut r: Vec<u8> = Vec::new();
    let mut i: usize = from;
    while i < to
        invariant
            from <= i <= to <= a@.len(),
            r@ == a@.subrange(from as int, i as int),
        decreases to - i,
    {
        r.push(a[i]);
        i = i + 1;
        assert(a@.subrange(from as int, i - 1 as int) + seq![a@[i - 1]] =~= a@.subrange(
            from as int,
            i as int,
        ));
    }
    r
}

} // verus!
