//! The joiner: reassembles one composite file from scattered parts, order
//! records, and a version record.
//!
//! Ordering is two-phase: entries of an order record are consumed first, in
//! record order, each taking the first part that bears its key; parts the
//! record does not mention follow in the order they were handed in, so the
//! output is deterministic even without a record. A record entry with no
//! matching part is silently skipped, and no part is ever invented or
//! dropped. An absent or blank resource-order record falls back to the
//! canonical kind order, and an absent or blank version record falls back to
//! the default version token.

use vstd::prelude::*;

use crate::byteops::append_bytes;
use crate::format::{
    canonical_kinds, code_marker_line, default_version_token, header_title_line,
    make_canonical_kinds, make_code_marker_line, make_default_version_token,
    make_header_title_line, make_scissor_line, make_tag_line, make_version_keyword,
    scissor_line, tag_line, trim, trim_copy, version_line,
};
use crate::part::{find_part, keys_of, Part, PartView};
use crate::textlines::{lines_of, split_lines};

verus! {

// ---------------------------------------------------------------------------
// Ordering
// ---------------------------------------------------------------------------

/// The two-phase selection: the parts taken by the order record, in record
/// order, and the parts left over, in their original order. Each record
/// entry consumes the first remaining part that bears its key, so an entry
/// with no match is skipped and no part is taken twice.
pub open spec fn select_ordered(parts: Seq<PartView>, order: Seq<Seq<u8>>) -> (Seq<PartView>, Seq<
    PartView,
>)
    decreases order.len(),
{
    if order.len() == 0 {
        (Seq::empty(), parts)
    } else {
        let (taken, remaining) = select_ordered(parts, order.drop_last());
        match find_part(remaining, order.last()) {
            Some(i) => (taken.push(remaining[i]), remaining.remove(i)),
            None => (taken, remaining),
        }
    }
}

/// The full emission order: the parts the record placed, then the leftovers.
pub open spec fn emitted_parts(parts: Seq<PartView>, order: Seq<Seq<u8>>) -> Seq<PartView> {
    select_ordered(parts, order).0 + select_ordered(parts, order).1
}

// ---------------------------------------------------------------------------
// Sections of the output
// ---------------------------------------------------------------------------

/// The code section's lines: the segments' content lines with one scissor
/// line between consecutive segments, never leading or trailing.
pub open spec fn code_section(segs: Seq<PartView>) -> Seq<Seq<u8>>
    decreases segs.len(),
{
    if segs.len() == 0 {
        Seq::empty()
    } else if segs.len() == 1 {
        segs[0].lines
    } else {
        segs[0].lines + seq![scissor_line()] + code_section(segs.drop_first())
    }
}

/// The resource section's lines: each block's reconstructed tag line
/// followed by its content lines.
pub open spec fn resource_section(rscs: Seq<PartView>) -> Seq<Seq<u8>>
    decreases rscs.len(),
{
    if rscs.len() == 0 {
        Seq::empty()
    } else {
        seq![tag_line(rscs[0].key)] + rscs[0].lines + resource_section(rscs.drop_first())
    }
}

/// Appending a segment appends its lines, after a scissor line when it is
/// not the first.
pub proof fn lemma_code_section_snoc(s: Seq<PartView>, p: PartView)
    ensures
        code_section(s.push(p)) == if s.len() == 0 {
            p.lines
        } else {
            code_section(s) + seq![scissor_line()] + p.lines
        },
    decreases s.len(),
{
    let w = s.push(p);
    if s.len() == 0 {
        assert(w.len() == 1);
        assert(code_section(w) == w[0].lines);
        assert(w[0] == p);
    } else {
        assert(w.len() >= 2);
        assert(w[0] == s[0]);
        assert(w.drop_first() =~= s.drop_first().push(p));
        lemma_code_section_snoc(s.drop_first(), p);
        if s.len() == 1 {
            assert(s.drop_first().len() == 0);
            assert(code_section(w) == s[0].lines + seq![scissor_line()] + p.lines);
            assert(code_section(s) == s[0].lines);
        } else {
            assert(code_section(w) == s[0].lines + seq![scissor_line()] + (code_section(
                s.drop_first(),
            ) + seq![scissor_line()] + p.lines));
            assert(code_section(s) == s[0].lines + seq![scissor_line()] + code_section(
                s.drop_first(),
            ));
            assert(s[0].lines + seq![scissor_line()] + (code_section(s.drop_first())
                + seq![scissor_line()] + p.lines) =~= (s[0].lines + seq![scissor_line()]
                + code_section(s.drop_first())) + seq![scissor_line()] + p.lines);
        }
    }
}

/// Appending a resource block appends its tag line and its lines.
pub proof fn lemma_resource_section_snoc(s: Seq<PartView>, p: PartView)
    ensures
        resource_section(s.push(p)) == resource_section(s) + seq![tag_line(p.key)] + p.lines,
    decreases s.len(),
{
    let w = s.push(p);
    if s.len() == 0 {
        reveal_with_fuel(resource_section, 2);
        assert(w[0] == p);
        assert(w.drop_first() =~= Seq::<PartView>::empty());
        assert(resource_section(w) == seq![tag_line(p.key)] + p.lines + Seq::<Seq<u8>>::empty());
        assert(seq![tag_line(p.key)] + p.lines + Seq::<Seq<u8>>::empty() =~= resource_section(s)
            + seq![tag_line(p.key)] + p.lines);
    } else {
        assert(w[0] == s[0]);
        assert(w.drop_first() =~= s.drop_first().push(p));
        lemma_resource_section_snoc(s.drop_first(), p);
        assert(resource_section(w) == seq![tag_line(s[0].key)] + s[0].lines + (resource_section(
            s.drop_first(),
        ) + seq![tag_line(p.key)] + p.lines));
        assert(seq![tag_line(s[0].key)] + s[0].lines + (resource_section(s.drop_first())
            + seq![tag_line(p.key)] + p.lines) =~= (seq![tag_line(s[0].key)] + s[0].lines
            + resource_section(s.drop_first())) + seq![tag_line(p.key)] + p.lines);
    }
}

// ---------------------------------------------------------------------------
// Record resolution
// ---------------------------------------------------------------------------

/// The version token to emit: the trimmed version record, or the default
/// token when the record is absent or blank.
pub open spec fn resolve_version(text: Seq<u8>) -> Seq<u8> {
    if trim(text).len() == 0 {
        default_version_token()
    } else {
        trim(text)
    }
}

/// The resource order to follow: the lines of the resource-order record, or
/// the canonical kind order when the record is absent or blank.
pub open spec fn resolve_rsc_order(text: Seq<u8>) -> Seq<Seq<u8>> {
    if trim(text).len() == 0 {
        canonical_kinds()
    } else {
        lines_of(text)
    }
}

/// Resolves the version record as `resolve_version` describes.
pub fn resolve_version_record(text: &Vec<u8>) -> (r: Vec<u8>)
    ensures
        r@ == resolve_version(text@),
{
    let t = trim_copy(text, 0);
    proof {
        assert(text@.skip(0) =~= text@);
    }
    if t.len() == 0 {
        make_default_version_token()
    } else {
        t
    }
}

/// Resolves the resource-order record as `resolve_rsc_order` describes.
pub fn resolve_rsc_order_record(text: &Vec<u8>) -> (r: Vec<Vec<u8>>)
    ensures
        r.deep_view() == resolve_rsc_order(text@),
{
    let t = trim_copy(text, 0);
    proof {
        assert(text@.skip(0) =~= text@);
    }
    if t.len() == 0 {
        make_canonical_kinds()
    } else {
        split_lines(text)
    }
}

// ---------------------------------------------------------------------------
// The joined file
// ---------------------------------------------------------------------------

/// The lines of the reassembled composite file: the two header lines, the
/// code-section marker, the code section in two-phase order, then the
/// resource section in two-phase order.
pub open spec fn join_spec(
    segs: Seq<PartView>,
    rscs: Seq<PartView>,
    tab_order: Seq<Seq<u8>>,
    rsc_order: Seq<Seq<u8>>,
    version: Seq<u8>,
) -> Seq<Seq<u8>> {
    seq![header_title_line(), version_line(version), code_marker_line()] + code_section(
        emitted_parts(segs, tab_order),
    ) + resource_section(emitted_parts(rscs, rsc_order))
}

/// Splits `parts` into the record-ordered prefix and the leftovers, as
/// `select_ordered` describes.
fn select_parts(parts: Vec<Part>, order: &Vec<Vec<u8>>) -> (r: (Vec<Part>, Vec<Part>))
    ensures
        r.0.deep_view() == select_ordered(parts.deep_view(), order.deep_view()).0,
        r.1.deep_view() == select_ordered(parts.deep_view(), order.deep_view()).1,
{
    let ghost pv = parts.deep_view();
    let ghost ov = order.deep_view();
    let mut taken: Vec<Part> = Vec::new();
    let mut remaining = parts;
    let mut i: usize = 0;
    proof {
        assert(ov.take(0) =~= Seq::<Seq<u8>>::empty());
    }
    while i < order.len()
        invariant
            i <= order@.len(),
            ov == order.deep_view(),
            ov.len() == order@.len(),
            taken.deep_view() == select_ordered(pv, ov.take(i as int)).0,
            remaining.deep_view() == select_ordered(pv, ov.take(i as int)).1,
        decreases order.len() - i,
    {
        proof {
            assert(ov.take(i + 1).drop_last() =~= ov.take(i as int));
            assert(ov.take(i + 1).last() == ov[i as int]);
            assert(order@[i as int].deep_view() =~= order@[i as int]@);
        }
        let ghost dt = taken.deep_view();
        let ghost dr = remaining.deep_view();
        match crate::part::key_position(&remaining, &order[i]) {
            Some(j) => {
                proof {
                    crate::part::lemma_find_part(dr, order@[i as int]@);
                }
                let p = remaining.remove(j);
                taken.push(p);
                proof {
                    assert(remaining.deep_view() =~= dr.remove(j as int));
                    assert(taken.deep_view() =~= dt.push(dr[j as int]));
                }
            },
            None => {},
        }
        i += 1;
    }
    proof {
        assert(ov.take(ov.len() as int) =~= ov);
    }
    (taken, remaining)
}

/// Appends copies of a part's content lines to `out`.
fn push_lines(out: &mut Vec<Vec<u8>>, part: &Part)
    ensures
        final(out).deep_view() == old(out).deep_view() + part@.lines,
{
    let ghost base = old(out).deep_view();
    let mut i: usize = 0;
    while i < part.lines.len()
        invariant
            i <= part.lines@.len(),
            out.deep_view() == base + part@.lines.take(i as int),
        decreases part.lines.len() - i,
    {
        let ghost dout = out.deep_view();
        let ln = crate::byteops::copy_bytes(&part.lines[i]);
        out.push(ln);
        i += 1;
        proof {
            assert(part.lines@[i - 1].deep_view() =~= part.lines@[i - 1]@);
            assert(out.deep_view() =~= dout.push(part@.lines[i - 1]));
            assert(dout.push(part@.lines[i - 1]) =~= base + part@.lines.take(i as int));
        }
    }
    proof {
        assert(part@.lines.take(part.lines@.len() as int) =~= part@.lines);
    }
}

/// Reassembles one composite file from the discovered code segments and
/// resource blocks, the raw segment-order, resource-order, and version
/// records (each empty when absent), exactly as `join_spec` describes.
pub fn build_composite(
    segments: Vec<Part>,
    resources: Vec<Part>,
    tab_order_text: &Vec<u8>,
    rsc_order_text: &Vec<u8>,
    version_text: &Vec<u8>,
) -> (out: Vec<Vec<u8>>)
    ensures
        out.deep_view() == join_spec(
            segments.deep_view(),
            resources.deep_view(),
            lines_of(tab_order_text@),
            resolve_rsc_order(rsc_order_text@),
            resolve_version(version_text@),
        ),
{
    let ghost sv = segments.deep_view();
    let ghost rv = resources.deep_view();
    let tab_order = split_lines(tab_order_text);
    let rsc_order = resolve_rsc_order_record(rsc_order_text);
    let version = resolve_version_record(version_text);

    let mut out: Vec<Vec<u8>> = Vec::new();
    out.push(make_header_title_line());
    let mut vline = make_version_keyword();
    vline.push(32u8);
    append_bytes(&mut vline, &version);
    proof {
        assert(vline@ =~= version_line(resolve_version(version_text@)));
    }
    out.push(vline);
    out.push(make_code_marker_line());
    let ghost head = seq![
        header_title_line(),
        version_line(resolve_version(version_text@)),
        code_marker_line(),
    ];
    proof {
        assert(out.deep_view() =~~= head);
    }

    // Code section, in two-phase order.
    let (taken, remaining) = select_parts(segments, &tab_order);
    let mut emitted = taken;
    let mut rest = remaining;
    emitted.append(&mut rest);
    let ghost ev = emitted.deep_view();
    proof {
        assert(ev =~= emitted_parts(sv, lines_of(tab_order_text@)));
    }
    let mut j: usize = 0;
    proof {
        assert(ev.take(0) =~= Seq::<PartView>::empty());
        assert(out.deep_view() =~= head + code_section(ev.take(0)));
    }
    while j < emitted.len()
        invariant
            j <= emitted@.len(),
            ev == emitted.deep_view(),
            ev.len() == emitted@.len(),
            out.deep_view() == head + code_section(ev.take(j as int)),
        decreases emitted.len() - j,
    {
        let ghost dout = out.deep_view();
        if j > 0 {
            out.push(make_scissor_line());
        }
        push_lines(&mut out, &emitted[j]);
        proof {
            assert(emitted@[j as int].deep_view() == ev[j as int]);
        }
        j += 1;
        proof {
            assert(ev.take(j as int) =~= ev.take(j - 1).push(ev[j - 1]));
            lemma_code_section_snoc(ev.take(j - 1), ev[j - 1]);
            if j - 1 == 0 {
                assert(out.deep_view() =~~= head + code_section(ev.take(j as int)));
            } else {
                assert(ev.take(j - 1).len() > 0);
                assert(out.deep_view() =~~= dout + seq![scissor_line()] + ev[j - 1].lines);
                assert(out.deep_view() =~~= head + code_section(ev.take(j as int)));
            }
        }
    }
    proof {
        assert(ev.take(ev.len() as int) =~= ev);
    }
    let ghost code_done = head + code_section(ev);

    // Resource section, in two-phase order.
    let (rtaken, rremaining) = select_parts(resources, &rsc_order);
    let mut remitted = rtaken;
    let mut rrest = rremaining;
    remitted.append(&mut rrest);
    let ghost rev = remitted.deep_view();
    proof {
        assert(rev =~= emitted_parts(rv, resolve_rsc_order(rsc_order_text@)));
    }
    let mut t: usize = 0;
    proof {
        assert(rev.take(0) =~= Seq::<PartView>::empty());
        assert(code_done + resource_section(rev.take(0)) =~= code_done);
    }
    while t < remitted.len()
        invariant
            t <= remitted@.len(),
            rev == remitted.deep_view(),
            rev.len() == remitted@.len(),
            out.deep_view() == code_done + resource_section(rev.take(t as int)),
        decreases remitted.len() - t,
    {
        let ghost dout = out.deep_view();
        let tagline = make_tag_line(&remitted[t].key);
        proof {
            assert(remitted@[t as int].deep_view() == rev[t as int]);
            assert(tagline@ == tag_line(rev[t as int].key));
        }
        out.push(tagline);
        push_lines(&mut out, &remitted[t]);
        t += 1;
        proof {
            assert(rev.take(t as int) =~= rev.take(t - 1).push(rev[t - 1]));
            lemma_resource_section_snoc(rev.take(t - 1), rev[t - 1]);
            assert(out.deep_view() =~~= dout + seq![tag_line(rev[t - 1].key)] + rev[t - 1].lines);
            assert(out.deep_view() =~~= code_done + resource_section(rev.take(t as int)));
        }
    }
    proof {
        assert(rev.take(rev.len() as int) =~= rev);
        assert(out.deep_view() =~= join_spec(
            sv,
            rv,
            lines_of(tab_order_text@),
            resolve_rsc_order(rsc_order_text@),
            resolve_version(version_text@),
        ));
    }
    out
}

} // verus!
