//! The part model: one extracted component of a composite file.
//!
//! A part is either a code segment, keyed by its display name, or a resource
//! block, keyed by its kind; in both cases it carries the ordered content
//! lines that belong to it.

use vstd::prelude::*;

use crate::byteops::bytes_eq;

verus! {

/// One extracted component: a code segment keyed by its display name, or a
/// resource block keyed by its kind, together with its content lines.
#[derive(Debug)]
pub struct Part {
    /// The segment's display name, or the resource block's kind.
    pub key: Vec<u8>,
    /// The content lines, without terminators.
    pub lines: Vec<Vec<u8>>,
}

/// The mathematical view of a [`Part`].
#[verifier::ext_equal]
pub struct PartView {
    /// The key as a byte sequence.
    pub key: Seq<u8>,
    /// The content lines as byte sequences.
    pub lines: Seq<Seq<u8>>,
}

impl View for Part {
    type V = PartView;

    open spec fn view(&self) -> PartView {
        PartView { key: self.key@, lines: self.lines.deep_view() }
    }
}

impl DeepView for Part {
    type V = PartView;

    open spec fn deep_view(&self) -> PartView {
        self.view()
    }
}

/// The keys of a sequence of parts, in order.
pub open spec fn keys_of(parts: Seq<PartView>) -> Seq<Seq<u8>> {
    parts.map_values(|p: PartView| p.key)
}

/// Whether the elements of a sequence of byte sequences are pairwise
/// distinct.
pub open spec fn all_distinct(s: Seq<Seq<u8>>) -> bool {
    forall|i: int, j: int| 0 <= i < j < s.len() ==> s[i] != s[j]
}

/// Whether the keys of a sequence of parts are pairwise distinct.
pub open spec fn distinct_keys(parts: Seq<PartView>) -> bool {
    all_distinct(keys_of(parts))
}

/// The index of the first part with the given key, if any.
pub open spec fn find_part(parts: Seq<PartView>, key: Seq<u8>) -> Option<int>
    decreases parts.len(),
{
    if parts.len() == 0 {
        None
    } else if parts[0].key == key {
        Some(0)
    } else {
        match find_part(parts.drop_first(), key) {
            Some(i) => Some(i + 1),
            None => None,
        }
    }
}

/// `find_part` finds the first index whose part bears the key, and finds one
/// exactly when some part bears the key.
pub proof fn lemma_find_part(parts: Seq<PartView>, key: Seq<u8>)
    ensures
        match find_part(parts, key) {
            Some(i) => {
                &&& 0 <= i < parts.len()
                &&& parts[i].key == key
                &&& forall|j: int| 0 <= j < i ==> parts[j].key != key
            },
            None => forall|j: int| 0 <= j < parts.len() ==> parts[j].key != key,
        },
    decreases parts.len(),
{
    if parts.len() > 0 && parts[0].key != key {
        let rest = parts.drop_first();
        lemma_find_part(rest, key);
        assert(forall|j: int| 0 <= j < rest.len() ==> rest[j] == parts[j + 1]);
        match find_part(rest, key) {
            Some(i) => {
                assert(find_part(parts, key) == Some(i + 1));
                assert forall|j: int| 0 <= j < i + 1 implies parts[j].key != key by {
                    if j > 0 {
                        assert(rest[j - 1].key != key);
                    }
                }
            },
            None => {
                assert forall|j: int| 0 <= j < parts.len() implies parts[j].key != key by {
                    if j > 0 {
                        assert(rest[j - 1].key != key);
                    }
                }
            },
        }
    }
}

/// The index of the first part of `parts` whose key equals `key`, or `None`
/// when no part bears that key.
pub fn key_position(parts: &Vec<Part>, key: &Vec<u8>) -> (r: Option<usize>)
    ensures
        match r {
            Some(i) => find_part(parts.deep_view(), key@) == Some(i as int),
            None => find_part(parts.deep_view(), key@) is None,
        },
{
    let ghost pv = parts.deep_view();
    let mut i: usize = 0;
    while i < parts.len()
        invariant
            i <= parts@.len(),
            pv == parts.deep_view(),
            pv.len() == parts@.len(),
            forall|j: int| 0 <= j < i ==> pv[j].key != key@,
        decreases parts.len() - i,
    {
        if bytes_eq(&parts[i].key, key) {
            proof {
                lemma_find_first_hit(pv, key@, i as int);
            }
            return Some(i);
        }
        i += 1;
    }
    proof {
        lemma_find_part(pv, key@);
        if find_part(pv, key@) is Some {
            let w = find_part(pv, key@).unwrap();
            assert(pv[w].key != key@);
        }
    }
    None
}

/// A position whose earlier parts all miss the key and whose part bears it is
/// where `find_part` points.
pub proof fn lemma_find_first_hit(parts: Seq<PartView>, key: Seq<u8>, i: int)
    requires
        0 <= i < parts.len(),
        parts[i].key == key,
        forall|j: int| 0 <= j < i ==> parts[j].key != key,
    ensures
        find_part(parts, key) == Some(i),
{
    lemma_find_part(parts, key);
    match find_part(parts, key) {
        Some(k) => {
            if k < i {
                assert(parts[k].key != key);
            }
            if k > i {
                assert(parts[i].key != key);
            }
        },
        None => {
            assert(parts[i].key != key);
        },
    }
}

/// Whether some part of `parts` bears the key.
pub fn key_taken(parts: &Vec<Part>, key: &Vec<u8>) -> (r: bool)
    ensures
        r == keys_of(parts.deep_view()).contains(key@),
{
    let r = key_position(parts, key);
    proof {
        lemma_find_part(parts.deep_view(), key@);
        let ks = keys_of(parts.deep_view());
        match find_part(parts.deep_view(), key@) {
            Some(i) => {
                assert(ks[i] == key@);
            },
            None => {
                if ks.contains(key@) {
                    let w = choose|j: int| 0 <= j < ks.len() && ks[j] == key@;
                    assert(parts.deep_view()[w].key != key@);
                }
            },
        }
    }
    r.is_some()
}

/// A copy of the keys of `parts`, in order.
pub fn collect_keys(parts: &Vec<Part>) -> (r: Vec<Vec<u8>>)
    ensures
        r.deep_view() == keys_of(parts.deep_view()),
{
    let ghost pv = parts.deep_view();
    let ghost ks = keys_of(pv);
    let mut r: Vec<Vec<u8>> = Vec::new();
    let mut i: usize = 0;
    while i < parts.len()
        invariant
            i <= parts@.len(),
            pv == parts.deep_view(),
            ks == keys_of(pv),
            pv.len() == parts@.len(),
            ks.len() == pv.len(),
            r@.len() == i,
            forall|t: int| 0 <= t < i ==> #[trigger] r@[t].deep_view() == ks[t],
        decreases parts.len() - i,
    {
        let k = crate::byteops::copy_bytes(&parts[i].key);
        proof {
            assert(pv[i as int] == parts@[i as int].deep_view());
            assert(ks[i as int] == pv[i as int].key);
            assert(k.deep_view() =~= ks[i as int]);
        }
        r.push(k);
        i += 1;
    }
    proof {
        assert forall|t: int| 0 <= t < ks.len() implies r.deep_view()[t] =~= ks[t] by {
            assert(r@[t].deep_view() == ks[t]);
        }
        assert(r.deep_view() =~~= ks);
    }
    r
}

} // verus!
