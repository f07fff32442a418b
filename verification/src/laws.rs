//! The library's laws: properties of the splitter and the joiner that hold
//! beyond the functions' own contracts, stated and proved as theorems.

use vstd::prelude::*;
use vstd::multiset::Multiset;

use crate::format::{comment_name, is_name_comment, is_rsc_tag, scissor_line, tag_kind, tag_line};
use crate::joiner::{code_section, emitted_parts, resource_section, select_ordered};
use crate::part::{all_distinct, distinct_keys, find_part, keys_of, lemma_find_part, PartView};
use crate::splitter::{fresh_name, run, split_spec, Machine, Phase, SplitError, SplitOutputView};

verus! {

// ---------------------------------------------------------------------------
// Counting lines
// ---------------------------------------------------------------------------

/// How many lines of `lines` equal `x`.
pub open spec fn count_line(lines: Seq<Seq<u8>>, x: Seq<u8>) -> nat
    decreases lines.len(),
{
    if lines.len() == 0 {
        0
    } else {
        count_line(lines.drop_last(), x) + if lines.last() == x {
            1nat
        } else {
            0nat
        }
    }
}

/// Counting distributes over concatenation.
proof fn lemma_count_append(a: Seq<Seq<u8>>, b: Seq<Seq<u8>>, x: Seq<u8>)
    ensures
        count_line(a + b, x) == count_line(a, x) + count_line(b, x),
    decreases b.len(),
{
    if b.len() == 0 {
        assert(a + b =~= a);
    } else {
        lemma_count_append(a, b.drop_last(), x);
        assert((a + b).drop_last() =~= a + b.drop_last());
        assert((a + b).last() == b.last());
    }
}

/// A sequence none of whose lines equals `x` counts zero.
proof fn lemma_count_absent(a: Seq<Seq<u8>>, x: Seq<u8>)
    requires
        forall|t: int| 0 <= t < a.len() ==> a[t] != x,
    ensures
        count_line(a, x) == 0,
    decreases a.len(),
{
    if a.len() > 0 {
        lemma_count_absent(a.drop_last(), x);
    }
}

/// A singleton of `x` counts one.
proof fn lemma_count_single(x: Seq<u8>)
    ensures
        count_line(seq![x], x) == 1,
{
    assert(seq![x].drop_last() =~= Seq::<Seq<u8>>::empty());
    assert(count_line(Seq::<Seq<u8>>::empty(), x) == 0);
}

/// Scissor placement: the code section of `n >= 1` segments whose content
/// is free of scissor lines holds exactly `n - 1` scissor lines, and it
/// begins with the first segment's first line and ends with the last
/// segment's last line — so the scissor is a separator, never a leading or
/// trailing terminator.
pub proof fn lemma_scissor_placement(segs: Seq<PartView>)
    requires
        segs.len() >= 1,
        forall|k: int| 0 <= k < segs.len() ==> (#[trigger] segs[k]).lines.len() > 0,
        forall|k: int, t: int|
            0 <= k < segs.len() && 0 <= t < segs[k].lines.len() ==> (#[trigger] segs[k].lines[t])
                != scissor_line(),
    ensures
        code_section(segs).len() > 0,
        count_line(code_section(segs), scissor_line()) == segs.len() - 1,
        code_section(segs)[0] == segs[0].lines[0],
        code_section(segs).last() == segs.last().lines.last(),
    decreases segs.len(),
{
    let sc = scissor_line();
    if segs.len() == 1 {
        assert(code_section(segs) == segs[0].lines);
        lemma_count_absent(segs[0].lines, sc);
    } else {
        let dl = segs.drop_last();
        let p = segs.last();
        assert(segs =~= dl.push(p));
        crate::joiner::lemma_code_section_snoc(dl, p);
        assert(code_section(segs) == code_section(dl) + seq![sc] + p.lines);
        lemma_scissor_placement(dl);
        lemma_count_append(code_section(dl) + seq![sc], p.lines, sc);
        lemma_count_append(code_section(dl), seq![sc], sc);
        lemma_count_single(sc);
        lemma_count_absent(p.lines, sc);
        assert(code_section(segs)[0] == code_section(dl)[0]);
        assert(code_section(segs).last() == p.lines.last());
    }
}

// ---------------------------------------------------------------------------
// Two-phase ordering
// ---------------------------------------------------------------------------

/// The record entries that match some part, in record order.
pub open spec fn matched_entries(order: Seq<Seq<u8>>, parts: Seq<PartView>) -> Seq<Seq<u8>>
    decreases order.len(),
{
    if order.len() == 0 {
        Seq::empty()
    } else {
        let rest = matched_entries(order.drop_last(), parts);
        if keys_of(parts).contains(order.last()) {
            rest.push(order.last())
        } else {
            rest
        }
    }
}

/// The parts whose key the record does not mention, in their original
/// order.
pub open spec fn unmentioned_parts(parts: Seq<PartView>, order: Seq<Seq<u8>>) -> Seq<PartView>
    decreases parts.len(),
{
    if parts.len() == 0 {
        Seq::empty()
    } else {
        let rest = unmentioned_parts(parts.drop_last(), order);
        if order.contains(parts.last().key) {
            rest
        } else {
            rest.push(parts.last())
        }
    }
}

/// What a pushed element adds to membership.
proof fn lemma_push_contains<A>(s: Seq<A>, x: A)
    ensures
        forall|y: A| #[trigger] s.push(x).contains(y) <==> s.contains(y) || y == x,
{
    assert forall|y: A| #[trigger] s.push(x).contains(y) implies s.contains(y) || y == x by {
        let w = choose|t: int| 0 <= t < s.push(x).len() && s.push(x)[t] == y;
        if w < s.len() {
            assert(s[w] == y);
        }
    }
    assert forall|y: A| s.contains(y) || y == x implies #[trigger] s.push(x).contains(y) by {
        if y == x {
            assert(s.push(x)[s.len() as int] == y);
        } else {
            let w = choose|t: int| 0 <= t < s.len() && s[t] == y;
            assert(s.push(x)[w] == y);
        }
    }
}

/// Pushing a part pushes its key.
proof fn lemma_keys_push(s: Seq<PartView>, p: PartView)
    ensures
        keys_of(s.push(p)) == keys_of(s).push(p.key),
{
    assert(keys_of(s.push(p)) =~= keys_of(s).push(p.key));
}

/// A key prefix restriction: the keys of a prefix are the prefix of the
/// keys, so distinctness restricts.
proof fn lemma_distinct_keys_prefix(parts: Seq<PartView>)
    requires
        distinct_keys(parts),
        parts.len() > 0,
    ensures
        distinct_keys(parts.drop_last()),
{
    let dl = parts.drop_last();
    assert forall|i: int, j: int| 0 <= i < j < dl.len() implies keys_of(dl)[i] != keys_of(
        dl,
    )[j] by {
        assert(keys_of(parts)[i] != keys_of(parts)[j]);
    }
}

/// Everything the record leaves unmentioned was among the parts.
proof fn lemma_unmentioned_from(parts: Seq<PartView>, order: Seq<Seq<u8>>)
    ensures
        forall|x: PartView|
            #[trigger] unmentioned_parts(parts, order).contains(x) ==> parts.contains(x),
    decreases parts.len(),
{
    if parts.len() > 0 {
        let dl = parts.drop_last();
        lemma_unmentioned_from(dl, order);
        assert forall|x: PartView|
            #[trigger] unmentioned_parts(parts, order).contains(x) implies parts.contains(
            x,
        ) by {
            let r = unmentioned_parts(parts, order);
            if !order.contains(parts.last().key) {
                lemma_push_contains(unmentioned_parts(dl, order), parts.last());
            }
            if x == parts.last() {
                assert(parts[parts.len() - 1] == x);
            } else {
                assert(unmentioned_parts(dl, order).contains(x));
                let v = choose|t: int| 0 <= t < dl.len() && dl[t] == x;
                assert(parts[v] == x);
            }
        }
    }
}

/// A record that mentions nothing leaves every part.
proof fn lemma_unmentioned_all(parts: Seq<PartView>, order: Seq<Seq<u8>>)
    requires
        forall|j: int| 0 <= j < parts.len() ==> !order.contains((#[trigger] parts[j]).key),
    ensures
        unmentioned_parts(parts, order) == parts,
    decreases parts.len(),
{
    if parts.len() > 0 {
        lemma_unmentioned_all(parts.drop_last(), order);
        assert(unmentioned_parts(parts, order) =~= parts);
    }
}

/// A record that mentions every part leaves nothing.
proof fn lemma_unmentioned_none(parts: Seq<PartView>, order: Seq<Seq<u8>>)
    requires
        forall|j: int| 0 <= j < parts.len() ==> order.contains((#[trigger] parts[j]).key),
    ensures
        unmentioned_parts(parts, order) == Seq::<PartView>::empty(),
    decreases parts.len(),
{
    if parts.len() > 0 {
        lemma_unmentioned_none(parts.drop_last(), order);
    }
}

/// An entry no part's key bears does not change what is left.
proof fn lemma_unmentioned_skip_entry(parts: Seq<PartView>, order: Seq<Seq<u8>>, n: Seq<u8>)
    requires
        forall|j: int| 0 <= j < parts.len() ==> (#[trigger] parts[j]).key != n,
    ensures
        unmentioned_parts(parts, order.push(n)) == unmentioned_parts(parts, order),
    decreases parts.len(),
{
    if parts.len() > 0 {
        lemma_unmentioned_skip_entry(parts.drop_last(), order, n);
        lemma_push_contains(order, n);
    }
}

/// A key is left over exactly when some part bears it and the record does
/// not mention it.
proof fn lemma_unmentioned_key(parts: Seq<PartView>, order: Seq<Seq<u8>>, n: Seq<u8>)
    ensures
        keys_of(unmentioned_parts(parts, order)).contains(n) <==> (keys_of(parts).contains(n)
            && !order.contains(n)),
    decreases parts.len(),
{
    let r = unmentioned_parts(parts, order);
    if parts.len() == 0 {
        assert(!keys_of(r).contains(n)) by {
            if keys_of(r).contains(n) {
                let w = choose|t: int| 0 <= t < keys_of(r).len() && keys_of(r)[t] == n;
            }
        }
        assert(!keys_of(parts).contains(n)) by {
            if keys_of(parts).contains(n) {
                let w = choose|t: int|
                    0 <= t < keys_of(parts).len() && keys_of(parts)[t] == n;
            }
        }
    } else {
        let dl = parts.drop_last();
        let p = parts.last();
        lemma_unmentioned_key(dl, order, n);
        let rd = unmentioned_parts(dl, order);
        // Membership of n among the parts' keys splits on the last part.
        assert(keys_of(parts).contains(n) <==> (keys_of(dl).contains(n) || p.key == n)) by {
            if keys_of(parts).contains(n) {
                let w = choose|t: int|
                    0 <= t < keys_of(parts).len() && keys_of(parts)[t] == n;
                if w < dl.len() {
                    assert(keys_of(dl)[w] == n);
                }
            }
            if keys_of(dl).contains(n) {
                let w = choose|t: int| 0 <= t < keys_of(dl).len() && keys_of(dl)[t] == n;
                assert(keys_of(parts)[w] == n);
            }
            if p.key == n {
                assert(keys_of(parts)[parts.len() - 1] == n);
            }
        }
        if order.contains(p.key) {
            assert(r == rd);
            if p.key == n {
                assert(order.contains(n));
            }
        } else {
            assert(r == rd.push(p));
            lemma_keys_push(rd, p);
            lemma_push_contains(keys_of(rd), p.key);
        }
    }
}

/// Keys left over keep their pairwise distinctness.
proof fn lemma_unmentioned_distinct(parts: Seq<PartView>, order: Seq<Seq<u8>>)
    requires
        distinct_keys(parts),
    ensures
        distinct_keys(unmentioned_parts(parts, order)),
    decreases parts.len(),
{
    if parts.len() > 0 {
        let dl = parts.drop_last();
        let p = parts.last();
        lemma_distinct_keys_prefix(parts);
        lemma_unmentioned_distinct(dl, order);
        if !order.contains(p.key) {
            let rd = unmentioned_parts(dl, order);
            let r = rd.push(p);
            lemma_unmentioned_from(dl, order);
            assert forall|i: int, j: int| 0 <= i < j < r.len() implies keys_of(r)[i] != keys_of(
                r,
            )[j] by {
                if j == r.len() - 1 {
                    assert(rd.contains(rd[i]));
                    assert(dl.contains(rd[i]));
                    let v = choose|t: int| 0 <= t < dl.len() && dl[t] == rd[i];
                    assert(keys_of(parts)[v] == rd[i].key);
                    assert(keys_of(parts)[parts.len() - 1] == p.key);
                    assert(keys_of(r)[i] == rd[i].key);
                    assert(keys_of(r)[j] == p.key);
                } else {
                    assert(keys_of(rd)[i] != keys_of(rd)[j]);
                    assert(keys_of(r)[i] == keys_of(rd)[i]);
                    assert(keys_of(r)[j] == keys_of(rd)[j]);
                }
            }
        }
    }
}

/// Consuming the lone leftover part that bears `n` leaves what a record
/// extended by `n` would have left.
proof fn lemma_unmentioned_consume(
    parts: Seq<PartView>,
    order: Seq<Seq<u8>>,
    n: Seq<u8>,
    i: int,
)
    requires
        distinct_keys(parts),
        !order.contains(n),
        find_part(unmentioned_parts(parts, order), n) == Some(i),
    ensures
        unmentioned_parts(parts, order).remove(i) == unmentioned_parts(parts, order.push(n)),
    decreases parts.len(),
{
    let r = unmentioned_parts(parts, order);
    lemma_find_part(r, n);
    if parts.len() == 0 {
        assert(false);
    } else {
        let dl = parts.drop_last();
        let p = parts.last();
        let rd = unmentioned_parts(dl, order);
        lemma_distinct_keys_prefix(parts);
        lemma_push_contains(order, n);
        if order.contains(p.key) {
            assert(r == rd);
            assert(p.key != n);
            assert(unmentioned_parts(parts, order.push(n)) == unmentioned_parts(
                dl,
                order.push(n),
            ));
            lemma_unmentioned_consume(dl, order, n, i);
        } else {
            assert(r == rd.push(p));
            if p.key == n {
                // The match is the last part itself: earlier leftovers
                // cannot bear n, since no earlier part does.
                assert forall|j: int| 0 <= j < dl.len() implies (#[trigger] dl[j]).key != n by {
                    assert(keys_of(parts)[j] == dl[j].key);
                    assert(keys_of(parts)[parts.len() - 1] == n);
                }
                assert(i == r.len() - 1) by {
                    if i < r.len() - 1 {
                        assert(rd[i] == r[i]);
                        lemma_unmentioned_from(dl, order);
                        assert(rd.contains(rd[i]));
                        assert(dl.contains(rd[i]));
                        let v = choose|t: int| 0 <= t < dl.len() && dl[t] == rd[i];
                        assert(dl[v].key != n);
                    }
                }
                assert(r.remove(i) =~= rd);
                lemma_unmentioned_skip_entry(dl, order, n);
                assert(unmentioned_parts(parts, order.push(n)) == unmentioned_parts(
                    dl,
                    order.push(n),
                ));
            } else {
                // The match lies among the earlier leftovers.
                assert(i < r.len() - 1) by {
                    if i == r.len() - 1 {
                        assert(r[i] == p);
                    }
                }
                assert(rd[i] == r[i]);
                assert forall|j: int| 0 <= j < i implies (#[trigger] rd[j]).key != n by {
                    assert(r[j] == rd[j]);
                }
                crate::part::lemma_find_first_hit(rd, n, i);
                lemma_unmentioned_consume(dl, order, n, i);
                assert(unmentioned_parts(parts, order.push(n)) == unmentioned_parts(
                    dl,
                    order.push(n),
                ).push(p));
                assert(r.remove(i) =~= rd.remove(i).push(p));
            }
        }
    }
}

/// The two-phase selection, characterized: with pairwise-distinct part keys
/// and pairwise-distinct record entries, the record-ordered prefix bears
/// exactly the record entries that match some part, in record order, and
/// the leftovers are exactly the parts the record does not mention, in
/// their original order.
pub proof fn lemma_two_phase(parts: Seq<PartView>, order: Seq<Seq<u8>>)
    requires
        distinct_keys(parts),
        all_distinct(order),
    ensures
        keys_of(select_ordered(parts, order).0) == matched_entries(order, parts),
        select_ordered(parts, order).1 == unmentioned_parts(parts, order),
    decreases order.len(),
{
    if order.len() == 0 {
        assert forall|j: int| 0 <= j < parts.len() implies !order.contains(
            (#[trigger] parts[j]).key,
        ) by {
            if order.contains(parts[j].key) {
                let w = choose|t: int| 0 <= t < order.len() && order[t] == parts[j].key;
            }
        }
        lemma_unmentioned_all(parts, order);
        assert(keys_of(select_ordered(parts, order).0) =~= matched_entries(order, parts));
    } else {
        let o = order.drop_last();
        let n = order.last();
        assert(all_distinct(o)) by {
            assert(forall|t: int| 0 <= t < o.len() ==> o[t] == order[t]);
        }
        assert(!o.contains(n)) by {
            if o.contains(n) {
                let w = choose|t: int| 0 <= t < o.len() && o[t] == n;
                assert(order[w] == order[order.len() - 1]);
            }
        }
        lemma_two_phase(parts, o);
        let taken = select_ordered(parts, o).0;
        let r = select_ordered(parts, o).1;
        lemma_find_part(r, n);
        lemma_unmentioned_key(parts, o, n);
        assert(o.push(n) =~= order);
        match find_part(r, n) {
            Some(i) => {
                assert(r[i].key == n);
                assert(keys_of(parts).contains(n)) by {
                    assert(keys_of(r)[i] == n);
                }
                lemma_keys_push(taken, r[i]);
                lemma_unmentioned_consume(parts, o, n, i);
            },
            None => {
                assert(!keys_of(parts).contains(n)) by {
                    if keys_of(parts).contains(n) {
                        assert(keys_of(r).contains(n));
                        let w = choose|t: int|
                            0 <= t < keys_of(r).len() && keys_of(r)[t] == n;
                        assert(r[w].key != n);
                    }
                }
                assert forall|j: int| 0 <= j < parts.len() implies (#[trigger] parts[j]).key
                    != n by {
                    assert(keys_of(parts)[j] == parts[j].key);
                }
                lemma_unmentioned_skip_entry(parts, o, n);
            },
        }
    }
}

/// The two-phase selection only moves parts between the taken prefix and
/// the leftovers; together they are always the discovered parts.
proof fn lemma_select_preserves(parts: Seq<PartView>, order: Seq<Seq<u8>>)
    ensures
        select_ordered(parts, order).0.to_multiset().add(
            select_ordered(parts, order).1.to_multiset(),
        ) == parts.to_multiset(),
    decreases order.len(),
{
    broadcast use vstd::multiset::group_multiset_axioms;

    if order.len() == 0 {
        let e = select_ordered(parts, order).0;
        e.to_multiset_ensures();
        assert(e.to_multiset().len() == 0);
        assert(e.to_multiset() =~= Multiset::<PartView>::empty());
        assert(Multiset::<PartView>::empty().add(parts.to_multiset()) =~= parts.to_multiset());
    } else {
        let o = order.drop_last();
        let n = order.last();
        lemma_select_preserves(parts, o);
        let e = select_ordered(parts, o).0;
        let r = select_ordered(parts, o).1;
        lemma_find_part(r, n);
        match find_part(r, n) {
            Some(i) => {
                e.to_multiset_ensures();
                r.to_multiset_ensures();
                assert(e.push(r[i]).to_multiset() =~= e.to_multiset().insert(r[i]));
                assert(r.remove(i).to_multiset() =~= r.to_multiset().remove(r[i]));
                assert(r.contains(r[i]));
                assert(r.to_multiset().count(r[i]) > 0);
                assert(e.to_multiset().insert(r[i]).add(r.to_multiset().remove(r[i]))
                    =~= e.to_multiset().add(r.to_multiset()));
            },
            None => {},
        }
    }
}

/// No part is invented or dropped: whatever the record says, the emission
/// is a permutation of the discovered parts.
pub proof fn lemma_emission_complete(parts: Seq<PartView>, order: Seq<Seq<u8>>)
    ensures
        emitted_parts(parts, order).to_multiset() == parts.to_multiset(),
{
    lemma_select_preserves(parts, order);
    vstd::seq_lib::lemma_multiset_commutative(
        select_ordered(parts, order).0,
        select_ordered(parts, order).1,
    );
}

/// Order preservation: when an order record is present, every record entry
/// matches a part, and every part is mentioned, the joiner emits the parts
/// exactly in record order — however the parts were arranged on discovery.
pub proof fn lemma_order_preserved(parts: Seq<PartView>, order: Seq<Seq<u8>>)
    requires
        distinct_keys(parts),
        all_distinct(order),
        forall|k: int| 0 <= k < order.len() ==> keys_of(parts).contains(#[trigger] order[k]),
        forall|j: int| 0 <= j < parts.len() ==> order.contains((#[trigger] parts[j]).key),
    ensures
        keys_of(emitted_parts(parts, order)) == order,
{
    lemma_two_phase(parts, order);
    lemma_matched_all(parts, order);
    lemma_unmentioned_none(parts, order);
    let taken = select_ordered(parts, order).0;
    assert(emitted_parts(parts, order) =~= taken);
    assert(keys_of(emitted_parts(parts, order)) =~= keys_of(taken));
}

/// A record all of whose entries match keeps all its entries.
proof fn lemma_matched_all(parts: Seq<PartView>, order: Seq<Seq<u8>>)
    requires
        forall|k: int| 0 <= k < order.len() ==> keys_of(parts).contains(#[trigger] order[k]),
    ensures
        matched_entries(order, parts) == order,
    decreases order.len(),
{
    if order.len() > 0 {
        lemma_matched_all(parts, order.drop_last());
        assert(matched_entries(order, parts) =~= order);
    }
}

/// Fallback ordering determinism: with no order record, resource blocks
/// whose kinds all appear in the canonical order are emitted in canonical
/// order — whichever order they were discovered in.
pub proof fn lemma_canonical_fallback(parts: Seq<PartView>)
    requires
        distinct_keys(parts),
        forall|j: int|
            0 <= j < parts.len() ==> crate::format::canonical_kinds().contains(
                (#[trigger] parts[j]).key,
            ),
    ensures
        keys_of(emitted_parts(parts, crate::format::canonical_kinds())) == matched_entries(
            crate::format::canonical_kinds(),
            parts,
        ),
{
    let canon = crate::format::canonical_kinds();
    assert(all_distinct(canon)) by {
        assert(canon[0][0] == 103 && canon[0][2] == 120 && canon[0].len() == 3);
        assert(canon[1][0] == 103 && canon[1][2] == 102 && canon[1].len() == 3);
        assert(canon[2][0] == 108 && canon[2].len() == 5);
        assert(canon[3][0] == 109 && canon[3].len() == 3);
        assert(canon[4][0] == 115 && canon[4].len() == 3);
        assert(canon[5][0] == 109 && canon[5].len() == 5);
    }
    lemma_two_phase(parts, canon);
    lemma_unmentioned_none(parts, canon);
    let taken = select_ordered(parts, canon).0;
    assert(emitted_parts(parts, canon) =~= taken);
    assert(keys_of(emitted_parts(parts, canon)) =~= keys_of(taken));
}

// ---------------------------------------------------------------------------
// Ordering by a record of the parts' own keys
// ---------------------------------------------------------------------------

/// Selecting by a prefix of the parts' own keys takes that prefix of the
/// parts.
proof fn lemma_select_self_prefix(parts: Seq<PartView>, k: int)
    requires
        0 <= k <= parts.len(),
    ensures
        select_ordered(parts, keys_of(parts).take(k)).0 == parts.take(k),
        select_ordered(parts, keys_of(parts).take(k)).1 == parts.skip(k),
    decreases k,
{
    let ks = keys_of(parts);
    if k == 0 {
        assert(ks.take(0) =~= Seq::<Seq<u8>>::empty());
        assert(select_ordered(parts, ks.take(0)).0 =~= parts.take(0));
        assert(parts.skip(0) =~= parts);
    } else {
        lemma_select_self_prefix(parts, k - 1);
        assert(ks.take(k).drop_last() =~= ks.take(k - 1));
        assert(ks.take(k).last() == parts[k - 1].key);
        let r = parts.skip(k - 1);
        assert(r[0] == parts[k - 1]);
        assert(find_part(r, parts[k - 1].key) == Some(0int));
        assert(parts.take(k - 1).push(r[0]) =~= parts.take(k));
        assert(r.remove(0) =~= parts.skip(k));
    }
}

/// A record that lists the parts' own keys, in their own order, emits every
/// part once, in that order, and leaves nothing over.
pub proof fn lemma_select_self(parts: Seq<PartView>)
    ensures
        select_ordered(parts, keys_of(parts)).0 == parts,
        select_ordered(parts, keys_of(parts)).1 == Seq::<PartView>::empty(),
        emitted_parts(parts, keys_of(parts)) == parts,
{
    lemma_select_self_prefix(parts, parts.len() as int);
    assert(keys_of(parts).take(parts.len() as int) =~= keys_of(parts));
    assert(parts.take(parts.len() as int) =~= parts);
    assert(parts.skip(parts.len() as int) =~= Seq::<PartView>::empty());
    assert(emitted_parts(parts, keys_of(parts)) =~= parts);
}

// ---------------------------------------------------------------------------
// Replayability: what the splitter's output looks like
// ---------------------------------------------------------------------------

/// A line that the tokenizer treats as plain segment content: neither a
/// scissor line nor a resource tag.
pub open spec fn plain_code_line(l: Seq<u8>) -> bool {
    l != scissor_line() && !is_rsc_tag(l)
}

/// What every produced code segment looks like: at least one line, a name
/// comment first, a key that is the collision-resolved form of the comment's
/// name against the earlier segments' keys, and plain content after the
/// first line.
pub open spec fn seg_replayable(segs: Seq<PartView>, j: int) -> bool {
    let p = segs[j];
    &&& p.lines.len() >= 1
    &&& is_name_comment(p.lines[0])
    &&& fresh_name(keys_of(segs.take(j)), comment_name(p.lines[0])) == p.key
    &&& forall|t: int| 1 <= t < p.lines.len() ==> plain_code_line(#[trigger] p.lines[t])
}

/// What every produced resource block looks like: at least one line, a kind
/// whose reconstructed tag line is again a tag, and no tag line in the body
/// after the first line.
pub open spec fn rsc_replayable(p: PartView) -> bool {
    &&& p.lines.len() >= 1
    &&& is_rsc_tag(tag_line(p.key))
    &&& forall|t: int| 1 <= t < p.lines.len() ==> !is_rsc_tag(#[trigger] p.lines[t])
}

/// The invariant the tokenizer maintains over a clean run: its shape facts,
/// pairwise-distinct segment keys, replayable parts, and a valid pending
/// kind.
pub open spec fn machine_replayable(m: Machine) -> bool {
    &&& crate::splitter::machine_shape(m)
    &&& distinct_keys(m.segments)
    &&& forall|j: int| 0 <= j < m.segments.len() ==> #[trigger] seg_replayable(m.segments, j)
    &&& forall|j: int| 0 <= j < m.resources.len() ==> rsc_replayable(#[trigger] m.resources[j])
    &&& m.phase is ResourceStart ==> is_rsc_tag(tag_line(m.pending_kind))
}

/// Every reachable machine has the structural shape facts.
proof fn lemma_run_shape(x: Seq<Seq<u8>>)
    ensures
        crate::splitter::machine_shape(run(x)),
    decreases x.len(),
{
    if x.len() > 0 {
        lemma_run_shape(x.drop_last());
        crate::splitter::lemma_step_shape(run(x.drop_last()), x.last());
    }
}

/// One step never introduces a duplicate segment key: a new segment's key
/// is collision-resolved against all earlier keys.
proof fn lemma_step_distinct(m: Machine, line: Seq<u8>)
    requires
        crate::splitter::machine_shape(m),
        distinct_keys(m.segments),
    ensures
        distinct_keys(crate::splitter::step(m, line).segments),
{
    let m2 = crate::splitter::step(m, line);
    match m.phase {
        Phase::CodeStart => {
            let keys = keys_of(m.segments);
            let base = if is_name_comment(line) {
                comment_name(line)
            } else {
                crate::splitter::placeholder_name(m.counter)
            };
            crate::splitter::lemma_fresh_not_taken(keys, base);
            let p = m2.segments.last();
            lemma_keys_push(m.segments, p);
            let k2 = keys_of(m2.segments);
            assert forall|i: int, j: int| 0 <= i < j < k2.len() implies k2[i] != k2[j] by {
                if j == k2.len() - 1 {
                    if k2[i] == p.key {
                        assert(keys[i] == p.key);
                        assert(keys.contains(p.key));
                    }
                } else {
                    assert(keys[i] != keys[j]);
                }
            }
        },
        Phase::CodeBody => {
            if line != scissor_line() && !is_rsc_tag(line) {
                assert(keys_of(m2.segments) =~= keys_of(m.segments));
            }
        },
        _ => {},
    }
}

/// Name-collision recovery: however the input names its segments, the
/// splitter's output never holds two segments under the same name, so no
/// part file is silently overwritten by another.
pub proof fn lemma_split_names_distinct(x: Seq<Seq<u8>>)
    ensures
        distinct_keys(run(x).segments),
    decreases x.len(),
{
    if x.len() == 0 {
        assert(keys_of(run(x).segments).len() == 0);
    } else {
        lemma_split_names_distinct(x.drop_last());
        lemma_run_shape(x.drop_last());
        lemma_step_distinct(run(x.drop_last()), x.last());
    }
}

/// A composite whose run never meets a resource tag where a segment's first
/// line is owed. On such input the splitter's output re-splits exactly; a
/// tag there would be swallowed as segment content and change roles on the
/// next split.
pub open spec fn clean_boundaries(x: Seq<Seq<u8>>) -> bool {
    forall|i: int|
        0 <= i < x.len() && run(x.take(i)).phase is CodeStart ==> !is_rsc_tag(#[trigger] x[i])
}

/// The scissor line reads as a name comment (naming `>8`), so a segment
/// whose first line is a scissor line is a named segment.
proof fn lemma_scissor_is_name_comment()
    ensures
        crate::format::is_name_comment(scissor_line()),
{
    let sc = scissor_line();
    assert(sc.skip(2) =~= seq![62u8, 56u8]);
    assert(!crate::format::is_ws(62u8));
    assert(!crate::format::is_ws(56u8));
    assert(crate::format::trim_front(seq![62u8, 56u8]) == seq![62u8, 56u8]);
    assert(crate::format::trim_back(seq![62u8, 56u8]) == seq![62u8, 56u8]);
}

/// One step from a replayable machine, on a line that is no tag if a
/// segment's first line is owed, leaves the machine replayable.
proof fn lemma_step_replayable(m: Machine, line: Seq<u8>)
    requires
        machine_replayable(m),
        m.phase is CodeStart ==> !is_rsc_tag(line),
    ensures
        machine_replayable(crate::splitter::step(m, line)),
{
    let m2 = crate::splitter::step(m, line);
    crate::splitter::lemma_step_shape(m, line);
    match m.phase {
        Phase::Init => {},
        Phase::CodeStart => {
            let keys = keys_of(m.segments);
            let base = if crate::format::is_name_comment(line) {
                comment_name(line)
            } else {
                crate::splitter::placeholder_name(m.counter)
            };
            let name = fresh_name(keys, base);
            if crate::format::is_name_comment(line) {
                crate::splitter::lemma_comment_name_wf(line);
            } else {
                crate::splitter::lemma_placeholder_wf(m.counter);
            }
            crate::splitter::lemma_fresh_name_wf(keys, base);
            crate::splitter::lemma_fresh_not_taken(keys, base);
            let p = m2.segments.last();
            assert(p.key == name);
            assert(m2.segments == m.segments.push(p));
            lemma_keys_push(m.segments, p);
            assert(distinct_keys(m2.segments)) by {
                let k2 = keys_of(m2.segments);
                assert forall|i: int, j: int| 0 <= i < j < k2.len() implies k2[i] != k2[j] by {
                    if j == k2.len() - 1 {
                        if k2[i] == name {
                            assert(keys[i] == name);
                            assert(keys.contains(name));
                        }
                    } else {
                        assert(keys_of(m.segments)[i] != keys_of(m.segments)[j]);
                    }
                }
            }
            assert forall|j: int| 0 <= j < m2.segments.len() implies #[trigger] seg_replayable(
                m2.segments,
                j,
            ) by {
                if j < m.segments.len() {
                    assert(seg_replayable(m.segments, j));
                    assert(m2.segments.take(j) =~= m.segments.take(j));
                    assert(m2.segments[j] == m.segments[j]);
                } else {
                    assert(m2.segments.take(j) =~= m.segments);
                    if crate::format::is_name_comment(line) {
                        assert(p.lines == seq![line]);
                        assert(p.lines[0] == line);
                    } else {
                        crate::splitter::lemma_comment_roundtrip(name);
                        assert(p.lines == seq![
                            crate::format::name_comment_line(name),
                            line,
                        ]);
                        assert(p.lines[0] == crate::format::name_comment_line(name));
                        assert(comment_name(p.lines[0]) == name);
                        crate::splitter::lemma_fresh_name(keys, name, 0);
                        assert(crate::splitter::with_suffix(name, 0) == name);
                        // The swallowed line is plain: it is no tag by
                        // hypothesis, and no scissor since a scissor line
                        // reads as a name comment.
                        lemma_scissor_is_name_comment();
                        assert(line != scissor_line());
                        assert forall|t: int| 1 <= t < p.lines.len() implies plain_code_line(
                            #[trigger] p.lines[t],
                        ) by {
                            assert(p.lines[1] == line);
                        }
                    }
                }
            }
        },
        Phase::CodeBody => {
            if line == scissor_line() {
            } else if is_rsc_tag(line) {
                crate::format::lemma_tag_roundtrip(line);
            } else {
                let segs2 = m2.segments;
                let last = m.segments.len() - 1;
                assert(segs2 == crate::splitter::append_to_last(m.segments, line));
                assert(keys_of(segs2) =~= keys_of(m.segments));
                assert forall|j: int| 0 <= j < segs2.len() implies #[trigger] seg_replayable(
                    segs2,
                    j,
                ) by {
                    assert(seg_replayable(m.segments, j));
                    assert(segs2.take(j) =~= m.segments.take(j));
                    if j < last {
                        assert(segs2[j] == m.segments[j]);
                    } else {
                        let p = m.segments[last];
                        let p2 = segs2[last];
                        assert(p2.key == p.key);
                        assert(p2.lines == p.lines.push(line));
                        assert(p2.lines[0] == p.lines[0]);
                        assert forall|t: int|
                            1 <= t < p2.lines.len() implies plain_code_line(
                            #[trigger] p2.lines[t],
                        ) by {
                            if t < p.lines.len() {
                                assert(p2.lines[t] == p.lines[t]);
                            } else {
                                assert(p2.lines[t] == line);
                            }
                        }
                    }
                }
            }
        },
        Phase::ResourceStart => {
            let p = m2.resources.last();
            assert(p.key == m.pending_kind);
            assert(p.lines == seq![line]);
            assert forall|j: int| 0 <= j < m2.resources.len() implies rsc_replayable(
                #[trigger] m2.resources[j],
            ) by {
                if j < m.resources.len() {
                    assert(m2.resources[j] == m.resources[j]);
                    assert(rsc_replayable(m.resources[j]));
                }
            }
        },
        Phase::ResourceBody => {
            if is_rsc_tag(line) {
                crate::format::lemma_tag_roundtrip(line);
            } else {
                let last = m.resources.len() - 1;
                let rscs2 = m2.resources;
                assert forall|j: int| 0 <= j < rscs2.len() implies rsc_replayable(
                    #[trigger] rscs2[j],
                ) by {
                    assert(rsc_replayable(m.resources[j]));
                    if j < last {
                        assert(rscs2[j] == m.resources[j]);
                    } else {
                        let p = m.resources[last];
                        let p2 = rscs2[last];
                        assert(p2.key == p.key);
                        assert(p2.lines == p.lines.push(line));
                        assert(p2.lines[0] == p.lines[0]);
                        assert forall|t: int| 1 <= t < p2.lines.len() implies !is_rsc_tag(
                            #[trigger] p2.lines[t],
                        ) by {
                            if t < p.lines.len() {
                                assert(p2.lines[t] == p.lines[t]);
                            } else {
                                assert(p2.lines[t] == line);
                            }
                        }
                    }
                }
            }
        },
    }
}

/// Over a composite with clean boundaries, every prefix of the run leaves
/// the machine replayable.
proof fn lemma_run_replayable(x: Seq<Seq<u8>>, i: int)
    requires
        clean_boundaries(x),
        0 <= i <= x.len(),
    ensures
        machine_replayable(run(x.take(i))),
    decreases i,
{
    if i == 0 {
        assert(x.take(0) =~= Seq::<Seq<u8>>::empty());
        let m = crate::splitter::initial_machine();
        assert(run(x.take(0)) == m);
        assert(distinct_keys(m.segments)) by {
            assert(keys_of(m.segments).len() == 0);
        }
    } else {
        lemma_run_replayable(x, i - 1);
        assert(x.take(i).drop_last() =~= x.take(i - 1));
        assert(x.take(i).last() == x[i - 1]);
        assert(run(x.take(i)) == crate::splitter::step(run(x.take(i - 1)), x[i - 1]));
        lemma_step_replayable(run(x.take(i - 1)), x[i - 1]);
    }
}

// ---------------------------------------------------------------------------
// Replaying the joined file
// ---------------------------------------------------------------------------

/// Running the machine over a single line is one step.
proof fn lemma_run_from_one(m: Machine, l: Seq<u8>)
    ensures
        crate::splitter::run_from(m, seq![l]) == crate::splitter::step(m, l),
{
    assert(seq![l].drop_last() =~= Seq::<Seq<u8>>::empty());
    assert(crate::splitter::run_from(m, Seq::<Seq<u8>>::empty()) == m);
    assert(seq![l].last() == l);
}

/// Reading plain content lines in `CodeBody` appends them all to the open
/// segment.
proof fn lemma_replay_code_lines(m: Machine, extra: Seq<Seq<u8>>)
    requires
        m.phase is CodeBody,
        m.segments.len() > 0,
        forall|t: int| 0 <= t < extra.len() ==> plain_code_line(#[trigger] extra[t]),
    ensures
        crate::splitter::run_from(m, extra) == (Machine {
            segments: m.segments.update(
                m.segments.len() - 1,
                PartView {
                    key: m.segments.last().key,
                    lines: m.segments.last().lines + extra,
                },
            ),
            ..m
        }),
    decreases extra.len(),
{
    let last = m.segments.len() - 1;
    if extra.len() == 0 {
        assert(m.segments.last().lines + extra =~= m.segments.last().lines);
        assert(m.segments.update(
            last,
            PartView { key: m.segments.last().key, lines: m.segments.last().lines + extra },
        ) =~= m.segments);
    } else {
        lemma_replay_code_lines(m, extra.drop_last());
        let m1 = crate::splitter::run_from(m, extra.drop_last());
        assert(crate::splitter::run_from(m, extra) == crate::splitter::step(m1, extra.last()));
        let l = extra.last();
        assert(plain_code_line(extra[extra.len() - 1]));
        let stepped = crate::splitter::append_to_last(m1.segments, l);
        assert(m.segments.last().lines + extra.drop_last() + seq![l] =~= m.segments.last().lines
            + extra);
        assert(stepped =~~= m.segments.update(
            last,
            PartView { key: m.segments.last().key, lines: m.segments.last().lines + extra },
        ));
    }
}

/// Reading a produced segment's lines from `CodeStart` appends exactly that
/// segment and advances the index.
proof fn lemma_replay_segment(m: Machine, p: PartView)
    requires
        m.phase is CodeStart,
        p.lines.len() >= 1,
        crate::format::is_name_comment(p.lines[0]),
        fresh_name(keys_of(m.segments), comment_name(p.lines[0])) == p.key,
        forall|t: int| 1 <= t < p.lines.len() ==> plain_code_line(#[trigger] p.lines[t]),
    ensures
        crate::splitter::run_from(m, p.lines) == (Machine {
            phase: Phase::CodeBody,
            segments: m.segments.push(p),
            counter: m.counter + 1,
            ..m
        }),
{
    let l0 = p.lines[0];
    let rest = p.lines.drop_first();
    assert(p.lines =~= seq![l0] + rest);
    crate::splitter::lemma_run_from_append(m, seq![l0], rest);
    lemma_run_from_one(m, l0);
    let p0 = PartView { key: p.key, lines: seq![l0] };
    let m1 = crate::splitter::step(m, l0);
    assert(m1 == (Machine {
        phase: Phase::CodeBody,
        segments: m.segments.push(p0),
        counter: m.counter + 1,
        ..m
    }));
    assert forall|t: int| 0 <= t < rest.len() implies plain_code_line(#[trigger] rest[t]) by {
        assert(rest[t] == p.lines[t + 1]);
    }
    lemma_replay_code_lines(m1, rest);
    let segs2 = crate::splitter::run_from(m1, rest).segments;
    assert(m1.segments.last() == p0);
    assert(p0.lines + rest =~= p.lines);
    assert(segs2 =~= m.segments.push(p));
}

/// Reading non-tag lines in `ResourceBody` appends them all to the open
/// resource block.
proof fn lemma_replay_rsc_lines(m: Machine, extra: Seq<Seq<u8>>)
    requires
        m.phase is ResourceBody,
        m.resources.len() > 0,
        forall|t: int| 0 <= t < extra.len() ==> !is_rsc_tag(#[trigger] extra[t]),
    ensures
        crate::splitter::run_from(m, extra) == (Machine {
            resources: m.resources.update(
                m.resources.len() - 1,
                PartView {
                    key: m.resources.last().key,
                    lines: m.resources.last().lines + extra,
                },
            ),
            ..m
        }),
    decreases extra.len(),
{
    let last = m.resources.len() - 1;
    if extra.len() == 0 {
        assert(m.resources.last().lines + extra =~= m.resources.last().lines);
        assert(m.resources.update(
            last,
            PartView { key: m.resources.last().key, lines: m.resources.last().lines + extra },
        ) =~= m.resources);
    } else {
        lemma_replay_rsc_lines(m, extra.drop_last());
        let m1 = crate::splitter::run_from(m, extra.drop_last());
        assert(crate::splitter::run_from(m, extra) == crate::splitter::step(m1, extra.last()));
        assert(!is_rsc_tag(extra[extra.len() - 1]));
        assert(m.resources.last().lines + extra.drop_last() + seq![extra.last()]
            =~= m.resources.last().lines + extra);
        assert(crate::splitter::append_to_last(m1.resources, extra.last())
            =~~= m.resources.update(
            last,
            PartView { key: m.resources.last().key, lines: m.resources.last().lines + extra },
        ));
    }
}

/// Reading a produced resource block's reconstructed tag line and its lines
/// appends exactly that block.
proof fn lemma_replay_resource(m: Machine, p: PartView)
    requires
        m.phase is CodeBody || m.phase is ResourceBody,
        m.segments.len() > 0,
        m.phase is ResourceBody ==> m.resources.len() > 0,
        rsc_replayable(p),
    ensures
        crate::splitter::run_from(m, seq![tag_line(p.key)] + p.lines) == (Machine {
            phase: Phase::ResourceBody,
            pending_kind: p.key,
            resources: m.resources.push(p),
            ..m
        }),
{
    let tl = tag_line(p.key);
    assert(tag_kind(tl) =~= p.key);
    assert(tl[0] == 95);
    assert(scissor_line()[0] == 45);
    assert(tl != scissor_line());
    crate::splitter::lemma_run_from_append(m, seq![tl], p.lines);
    lemma_run_from_one(m, tl);
    let m1 = crate::splitter::step(m, tl);
    assert(m1 == (Machine { phase: Phase::ResourceStart, pending_kind: p.key, ..m }));
    let l0 = p.lines[0];
    let rest = p.lines.drop_first();
    assert(p.lines =~= seq![l0] + rest);
    crate::splitter::lemma_run_from_append(m1, seq![l0], rest);
    lemma_run_from_one(m1, l0);
    let p0 = PartView { key: p.key, lines: seq![l0] };
    let m2 = crate::splitter::step(m1, l0);
    assert(m2 == (Machine {
        phase: Phase::ResourceBody,
        pending_kind: p.key,
        resources: m.resources.push(p0),
        ..m
    }));
    assert forall|t: int| 0 <= t < rest.len() implies !is_rsc_tag(#[trigger] rest[t]) by {
        assert(rest[t] == p.lines[t + 1]);
    }
    lemma_replay_rsc_lines(m2, rest);
    assert(m2.resources.last() == p0);
    assert(p0.lines + rest =~= p.lines);
    assert(crate::splitter::run_from(m2, rest).resources =~= m.resources.push(p));
}

/// A produced segment, replayable against a given key prefix.
pub open spec fn seg_replayable_from(prefix: Seq<PartView>, segs: Seq<PartView>, j: int) -> bool {
    let p = segs[j];
    &&& p.lines.len() >= 1
    &&& crate::format::is_name_comment(p.lines[0])
    &&& fresh_name(keys_of(prefix + segs.take(j)), comment_name(p.lines[0])) == p.key
    &&& forall|t: int| 1 <= t < p.lines.len() ==> plain_code_line(#[trigger] p.lines[t])
}

/// Reading a whole code section from `CodeStart` appends exactly its
/// segments.
proof fn lemma_replay_code_section(m: Machine, segs: Seq<PartView>)
    requires
        m.phase is CodeStart,
        segs.len() > 0,
        forall|j: int|
            0 <= j < segs.len() ==> #[trigger] seg_replayable_from(m.segments, segs, j),
    ensures
        crate::splitter::run_from(m, code_section(segs)) == (Machine {
            phase: Phase::CodeBody,
            segments: m.segments + segs,
            counter: m.counter + segs.len(),
            ..m
        }),
    decreases segs.len(),
{
    let p = segs[0];
    assert(seg_replayable_from(m.segments, segs, 0));
    assert(m.segments + segs.take(0) =~= m.segments);
    if segs.len() == 1 {
        assert(code_section(segs) == p.lines);
        lemma_replay_segment(m, p);
        assert(m.segments.push(p) =~= m.segments + segs);
    } else {
        assert(code_section(segs) == p.lines + seq![scissor_line()] + code_section(
            segs.drop_first(),
        ));
        lemma_replay_segment(m, p);
        let m1 = crate::splitter::run_from(m, p.lines);
        crate::splitter::lemma_run_from_append(m, p.lines, seq![scissor_line()]);
        lemma_run_from_one(m1, scissor_line());
        let m2 = crate::splitter::step(m1, scissor_line());
        assert(m2 == (Machine { phase: Phase::CodeStart, ..m1 }));
        assert(crate::splitter::run_from(m, p.lines + seq![scissor_line()]) == m2);
        let rest = segs.drop_first();
        assert forall|j: int|
            0 <= j < rest.len() implies #[trigger] seg_replayable_from(m2.segments, rest, j) by {
            assert(seg_replayable_from(m.segments, segs, j + 1));
            assert(rest[j] == segs[j + 1]);
            assert(m2.segments + rest.take(j) =~= m.segments + segs.take(j + 1));
            assert forall|t: int|
                1 <= t < rest[j].lines.len() implies plain_code_line(
                #[trigger] rest[j].lines[t],
            ) by {
                assert(plain_code_line(segs[j + 1].lines[t]));
            }
        }
        lemma_replay_code_section(m2, rest);
        crate::splitter::lemma_run_from_append(
            m,
            p.lines + seq![scissor_line()],
            code_section(rest),
        );
        assert(p.lines + seq![scissor_line()] + code_section(rest) =~= code_section(segs));
        assert(m2.segments + rest =~= m.segments + segs);
    }
}

/// Reading a whole resource section appends exactly its blocks.
proof fn lemma_replay_resource_section(m: Machine, rscs: Seq<PartView>)
    requires
        m.phase is CodeBody || m.phase is ResourceBody,
        m.segments.len() > 0,
        m.phase is ResourceBody ==> m.resources.len() > 0,
        rscs.len() > 0,
        forall|j: int| 0 <= j < rscs.len() ==> rsc_replayable(#[trigger] rscs[j]),
    ensures
        crate::splitter::run_from(m, resource_section(rscs)) == (Machine {
            phase: Phase::ResourceBody,
            pending_kind: rscs.last().key,
            resources: m.resources + rscs,
            ..m
        }),
    decreases rscs.len(),
{
    let p = rscs[0];
    assert(rsc_replayable(rscs[0]));
    assert(resource_section(rscs) == seq![tag_line(p.key)] + p.lines + resource_section(
        rscs.drop_first(),
    ));
    lemma_replay_resource(m, p);
    let m1 = crate::splitter::run_from(m, seq![tag_line(p.key)] + p.lines);
    if rscs.len() == 1 {
        assert(resource_section(rscs.drop_first()) =~= Seq::<Seq<u8>>::empty());
        assert(resource_section(rscs) =~= seq![tag_line(p.key)] + p.lines);
        assert(m.resources.push(p) =~= m.resources + rscs);
        assert(rscs.last() == p);
    } else {
        let rest = rscs.drop_first();
        assert forall|j: int| 0 <= j < rest.len() implies rsc_replayable(#[trigger] rest[j]) by {
            assert(rest[j] == rscs[j + 1]);
            assert(rsc_replayable(rscs[j + 1]));
        }
        lemma_replay_resource_section(m1, rest);
        crate::splitter::lemma_run_from_append(
            m,
            seq![tag_line(p.key)] + p.lines,
            resource_section(rest),
        );
        assert(m1.resources + rest =~= m.resources + rscs);
        assert(rest.last() == rscs.last());
    }
}

// ---------------------------------------------------------------------------
// Round-trip idempotence
// ---------------------------------------------------------------------------

/// Round-trip idempotence: splitting a well-formed composite, then joining
/// the parts with the produced order records (and any version token), then
/// splitting again, reproduces the segments and resource blocks exactly —
/// names, kinds, and content lines alike. Well-formed means the split
/// succeeds and no resource tag stands where a segment's first line is
/// owed; on such a tag the first split swallows it as content and a second
/// split would turn it back into a boundary.
#[verifier::rlimit(80)]
#[verifier::spinoff_prover]
pub proof fn lemma_round_trip(x: Seq<Seq<u8>>, version: Seq<u8>)
    requires
        split_spec(x) is Ok,
        clean_boundaries(x),
    ensures
        ({
            let s = split_spec(x)->Ok_0;
            let y = crate::joiner::join_spec(
                s.segments,
                s.resources,
                keys_of(s.segments),
                keys_of(s.resources),
                version,
            );
            &&& split_spec(y) is Ok
            &&& split_spec(y)->Ok_0.segments == s.segments
            &&& split_spec(y)->Ok_0.resources == s.resources
        }),
{
    let s = split_spec(x)->Ok_0;
    let segs = s.segments;
    let rscs = s.resources;
    lemma_run_replayable(x, x.len() as int);
    assert(x.take(x.len() as int) =~= x);
    let mfin = run(x);
    assert(machine_replayable(mfin));
    assert(mfin.phase is CodeBody || mfin.phase is ResourceBody);
    assert(segs == mfin.segments);
    assert(rscs == mfin.resources);
    assert(segs.len() > 0);

    // The order records are the parts' own keys, so the emission order is
    // the discovery order.
    lemma_select_self(segs);
    lemma_select_self(rscs);
    let y = crate::joiner::join_spec(segs, rscs, keys_of(segs), keys_of(rscs), version);
    let head = seq![
        crate::format::header_title_line(),
        crate::format::version_line(version),
        crate::format::code_marker_line(),
    ];
    assert(y == head + code_section(segs) + resource_section(rscs));

    // The header replays to `CodeStart` with nothing produced.
    let m0 = crate::splitter::initial_machine();
    let h1 = crate::format::header_title_line();
    let vl = crate::format::version_line(version);
    let mk = crate::format::code_marker_line();
    let kw = crate::format::version_keyword();
    let ma = crate::splitter::step(m0, h1);
    assert(ma == m0) by {
        assert(h1[0] == 112);
        if crate::byteops::starts_with(h1, kw) {
            assert(h1.subrange(0, 7)[0] == kw[0]);
        }
        assert(h1.len() != mk.len());
    }
    let mb = crate::splitter::step(ma, vl);
    assert(mb == (Machine { version: Some(version), ..m0 })) by {
        assert(vl.subrange(0, 7) =~= kw);
        assert(vl[7] == 32);
        assert(vl[0] == 118);
        assert(vl[1] == 101);
        assert(vl[2] == 114);
        assert(vl[3] == 115);
        assert(vl[4] == 105);
        assert(vl[5] == 111);
        assert(vl[6] == 110);
        assert forall|t: int| 0 <= t < 7 implies vl[t] != 32 by {}
        crate::byteops::lemma_first_index(vl, 32u8, 7);
        assert(vl.skip(8) =~= version);
        assert(vl[0] != mk[0]);
    }
    let mc = crate::splitter::step(mb, mk);
    assert(mc == (Machine { phase: Phase::CodeStart, version: Some(version), ..m0 })) by {
        assert(mk[0] == 95);
        if crate::byteops::starts_with(mk, kw) {
            assert(mk.subrange(0, 7)[0] == kw[0]);
        }
    }
    assert(crate::splitter::run_from(m0, head) == mc) by {
        lemma_run_from_one(m0, h1);
        crate::splitter::lemma_run_from_append(m0, seq![h1], seq![vl]);
        lemma_run_from_one(ma, vl);
        assert(seq![h1] + seq![vl] =~= seq![h1, vl]);
        assert(crate::splitter::run_from(m0, seq![h1, vl]) == mb);
        crate::splitter::lemma_run_from_append(m0, seq![h1, vl], seq![mk]);
        lemma_run_from_one(mb, mk);
        assert(seq![h1, vl] + seq![mk] =~= head);
    }

    // The code section replays to exactly the produced segments.
    assert forall|j: int|
        0 <= j < segs.len() implies #[trigger] seg_replayable_from(mc.segments, segs, j) by {
        assert(seg_replayable(segs, j));
        assert(mc.segments + segs.take(j) =~= segs.take(j));
    }
    lemma_replay_code_section(mc, segs);
    crate::splitter::lemma_run_from_append(m0, head, code_section(segs));
    let md = crate::splitter::run_from(m0, head + code_section(segs));
    assert(md.phase is CodeBody);
    assert(md.segments =~= segs);

    // The resource section replays to exactly the produced blocks.
    crate::splitter::lemma_run_from_append(m0, head + code_section(segs), resource_section(rscs));
    assert(head + code_section(segs) + resource_section(rscs) =~= y);
    if rscs.len() == 0 {
        assert(resource_section(rscs) =~= Seq::<Seq<u8>>::empty());
        assert(run(y) == md);
        assert(md.resources =~= rscs);
    } else {
        lemma_replay_resource_section(md, rscs);
        let me = run(y);
        assert(me.phase is ResourceBody);
        assert(me.segments =~= segs);
        assert(me.resources =~= rscs);
    }
}

// ---------------------------------------------------------------------------
// Truncation detection
// ---------------------------------------------------------------------------

/// Truncation detection: a composite that splits cleanly but then ends
/// immediately after one more resource tag line is rejected as truncated,
/// not accepted as an empty resource block.
pub proof fn lemma_truncation_detected(x: Seq<Seq<u8>>, tagline: Seq<u8>)
    requires
        split_spec(x) is Ok,
        is_rsc_tag(tagline),
    ensures
        split_spec(x.push(tagline)) == Err::<SplitOutputView, SplitError>(
            SplitError::TruncatedAtResourceStart,
        ),
{
    let y = x.push(tagline);
    assert(y.drop_last() =~= x);
    assert(y.last() == tagline);
    assert(run(y) == crate::splitter::step(run(x), tagline));
    assert(tagline[0] == 95);
    assert(scissor_line()[0] == 45);
    assert(tagline != scissor_line());
}

} // verus!
