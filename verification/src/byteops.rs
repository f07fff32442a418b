//! Small executable helpers on byte vectors, each specified against the
//! mathematical `Seq<u8>` view.

use vstd::prelude::*;

verus! {

/// Byte-for-byte equality of two byte vectors.
pub fn bytes_eq(a: &Vec<u8>, b: &Vec<u8>) -> (r: bool)
    ensures
        r == (a@ == b@),
{
    if a.len() != b.len() {
        return false;
    }
    let mut i: usize = 0;
    while i < a.len()
        invariant
            i <= a.len(),
            a@.len() == b@.len(),
            forall|j: int| 0 <= j < i ==> a@[j] == b@[j],
        decreases a.len() - i,
    {
        if a[i] != b[i] {
            return false;
        }
        i += 1;
    }
    proof {
        assert(a@ =~= b@);
    }
    true
}

/// A fresh copy of a byte vector.
pub fn copy_bytes(s: &Vec<u8>) -> (r: Vec<u8>)
    ensures
        r@ == s@,
{
    copy_range(s, 0, s.len())
}

/// A fresh copy of the bytes of `s` from index `from` (inclusive) to `to`
/// (exclusive).
pub fn copy_range(s: &Vec<u8>, from: usize, to: usize) -> (r: Vec<u8>)
    requires
        from <= to <= s@.len(),
    ensures
        r@ == s@.subrange(from as int, to as int),
{
    let mut r: Vec<u8> = Vec::new();
    let mut i: usize = from;
    while i < to
        invariant
            from <= i <= to <= s@.len(),
            r@ == s@.subrange(from as int, i as int),
        decreases to - i,
    {
        r.push(s[i]);
        i += 1;
        proof {
            assert(r@ =~= s@.subrange(from as int, i as int));
        }
    }
    r
}

/// Appends a copy of `src` to `dst`.
pub fn append_bytes(dst: &mut Vec<u8>, src: &Vec<u8>)
    ensures
        final(dst)@ == old(dst)@ + src@,
{
    let mut i: usize = 0;
    while i < src.len()
        invariant
            i <= src@.len(),
            dst@ == old(dst)@ + src@.subrange(0, i as int),
        decreases src.len() - i,
    {
        dst.push(src[i]);
        i += 1;
        proof {
            assert(old(dst)@ + src@.subrange(0, i - 1) + seq![src@[i - 1]] =~= old(dst)@
                + src@.subrange(0, i as int));
        }
    }
    proof {
        assert(old(dst)@ + src@.subrange(0, src@.len() as int) =~= old(dst)@ + src@);
    }
}

/// Whether `prefix` is a prefix of `s`.
pub open spec fn starts_with(s: Seq<u8>, prefix: Seq<u8>) -> bool {
    s.len() >= prefix.len() && s.subrange(0, prefix.len() as int) == prefix
}

/// Tests whether `s` begins with the bytes of `prefix`.
pub fn has_prefix(s: &Vec<u8>, prefix: &Vec<u8>) -> (r: bool)
    ensures
        r == starts_with(s@, prefix@),
{
    if s.len() < prefix.len() {
        return false;
    }
    let mut i: usize = 0;
    while i < prefix.len()
        invariant
            i <= prefix@.len() <= s@.len(),
            forall|j: int| 0 <= j < i ==> s@[j] == prefix@[j],
        decreases prefix.len() - i,
    {
        if s[i] != prefix[i] {
            proof {
                assert(s@.subrange(0, prefix@.len() as int)[i as int] != prefix@[i as int]);
            }
            return false;
        }
        i += 1;
    }
    proof {
        assert(s@.subrange(0, prefix@.len() as int) =~= prefix@);
    }
    true
}

/// A position whose earlier positions all miss `b` and which hits `b` is the
/// first occurrence of `b`.
pub proof fn lemma_first_index(s: Seq<u8>, b: u8, i: int)
    requires
        0 <= i < s.len(),
        s[i] == b,
        forall|j: int| 0 <= j < i ==> s[j] != b,
    ensures
        s.index_of_first(b) == Some(i),
{
    s.index_of_first_ensures(b);
    assert(s.contains(b));
    let k = s.index_of_first(b).unwrap();
    if k < i {
        assert(s[k] != b);
    }
    if k > i {
        assert(s[i] != b);
    }
}

/// A sequence none of whose positions hits `b` has no first occurrence of it.
pub proof fn lemma_no_index(s: Seq<u8>, b: u8)
    requires
        forall|j: int| 0 <= j < s.len() ==> s[j] != b,
    ensures
        s.index_of_first(b) is None,
{
    s.index_of_first_ensures(b);
    if s.contains(b) {
        let w = choose|j: int| 0 <= j < s.len() && s[j] == b;
        assert(s[w] != b);
    }
}

/// The index of the first occurrence of `b` in `s`, if any.
pub fn find_byte(s: &Vec<u8>, b: u8) -> (r: Option<usize>)
    ensures
        match r {
            Some(i) => s@.index_of_first(b) == Some(i as int),
            None => s@.index_of_first(b) is None,
        },
{
    let mut i: usize = 0;
    while i < s.len()
        invariant
            i <= s@.len(),
            forall|j: int| 0 <= j < i ==> s@[j] != b,
        decreases s.len() - i,
    {
        if s[i] == b {
            proof {
                s@.index_of_first_ensures(b);
            }
            return Some(i);
        }
        i += 1;
    }
    proof {
        s@.index_of_first_ensures(b);
        if s@.contains(b) {
            let w = choose|j: int| 0 <= j < s@.len() && s@[j] == b;
            assert(s@[w] != b);
        }
    }
    None
}

} // verus!
