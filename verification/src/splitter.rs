//! The splitter: a finite-state tokenizer that divides a composite file's
//! lines into code segments and resource blocks.
//!
//! The machine starts in `Init`, looking for the code-section marker and
//! capturing the header's version token on the way. `CodeStart` inspects the
//! first line of a new segment for a name comment, synthesizing a placeholder
//! name (and a name comment) when there is none. `CodeBody` copies content
//! until a scissor line or a resource tag. `ResourceStart` opens a resource
//! block for the kind carried over from its tag line, and `ResourceBody`
//! copies content until the next tag. Ending in `Init`, `CodeStart`, or
//! `ResourceStart` is a format error; ending in `CodeBody` or `ResourceBody`
//! is normal completion.

use vstd::prelude::*;

use crate::byteops::{append_bytes, copy_bytes};
use crate::format::{
    comment_name, is_code_marker, is_name_comment, is_rsc_tag, lua_tag, make_name_comment_line,
    name_comment_line, parse_version, rsc_tag, scissor_line, code_marker_line, tag_kind,
    version_of, is_scissor,
};
use crate::part::{keys_of, Part, PartView};

verus! {

// ---------------------------------------------------------------------------
// Segment naming
// ---------------------------------------------------------------------------

/// The suffix appended to a segment name to resolve a collision, `-again`.
pub open spec fn again_suffix() -> Seq<u8> {
    seq![45u8, 97u8, 103u8, 97u8, 105u8, 110u8]
}

/// The prefix of a synthesized placeholder name, `unknown-`.
pub open spec fn placeholder_prefix() -> Seq<u8> {
    seq![117u8, 110u8, 107u8, 110u8, 111u8, 119u8, 110u8, 45u8]
}

/// The decimal digits of `n`.
pub open spec fn dec_digits(n: nat) -> Seq<u8>
    decreases n,
{
    if n < 10 {
        seq![(48 + n) as u8]
    } else {
        dec_digits(n / 10).push((48 + n % 10) as u8)
    }
}

/// The placeholder name for the segment at index `n`: the prefix followed by
/// the index, zero-padded to at least two digits.
pub open spec fn placeholder_name(n: nat) -> Seq<u8> {
    placeholder_prefix() + (if n < 10 {
        seq![48u8]
    } else {
        Seq::empty()
    }) + dec_digits(n)
}

/// `base` with `k` copies of the collision suffix appended.
pub open spec fn with_suffix(base: Seq<u8>, k: nat) -> Seq<u8>
    decreases k,
{
    if k == 0 {
        base
    } else {
        with_suffix(base, (k - 1) as nat) + again_suffix()
    }
}

/// Whether `k` is the count of suffix copies at which `base` first avoids
/// every name in `names`.
pub open spec fn is_first_free(names: Seq<Seq<u8>>, base: Seq<u8>, k: nat) -> bool {
    &&& !names.contains(with_suffix(base, k))
    &&& forall|j: nat| j < k ==> names.contains(#[trigger] with_suffix(base, j))
}

/// The deterministic resolution of a name collision: `base` with as many
/// collision suffixes appended as it takes to avoid every name in `names`.
pub open spec fn fresh_name(names: Seq<Seq<u8>>, base: Seq<u8>) -> Seq<u8> {
    with_suffix(base, choose|k: nat| is_first_free(names, base, k))
}

/// Two suffix counts that are both first-free coincide.
pub proof fn lemma_first_free_unique(names: Seq<Seq<u8>>, base: Seq<u8>, k1: nat, k2: nat)
    requires
        is_first_free(names, base, k1),
        is_first_free(names, base, k2),
    ensures
        k1 == k2,
{
    if k1 < k2 {
        assert(names.contains(with_suffix(base, k1)));
    }
    if k2 < k1 {
        assert(names.contains(with_suffix(base, k2)));
    }
}

/// A name at its first-free suffix count is the fresh name, and it is not
/// among the existing names.
pub proof fn lemma_fresh_name(names: Seq<Seq<u8>>, base: Seq<u8>, k: nat)
    requires
        is_first_free(names, base, k),
    ensures
        fresh_name(names, base) == with_suffix(base, k),
        !names.contains(fresh_name(names, base)),
{
    let kk = choose|t: nat| is_first_free(names, base, t);
    assert(is_first_free(names, base, kk));
    lemma_first_free_unique(names, base, k, kk);
}

/// Each appended suffix lengthens a candidate name by the suffix's length.
proof fn lemma_with_suffix_len(base: Seq<u8>, k: nat)
    ensures
        with_suffix(base, k).len() == base.len() + 6 * k,
    decreases k,
{
    if k > 0 {
        lemma_with_suffix_len(base, (k - 1) as nat);
    }
}

/// Below any free suffix count there is a first-free one.
proof fn lemma_first_free_below(names: Seq<Seq<u8>>, base: Seq<u8>, b: nat)
    requires
        !names.contains(with_suffix(base, b)),
    ensures
        exists|k: nat| is_first_free(names, base, k),
    decreases b,
{
    if forall|j: nat| j < b ==> names.contains(#[trigger] with_suffix(base, j)) {
        assert(is_first_free(names, base, b));
    } else {
        let j = choose|j: nat| j < b && !names.contains(#[trigger] with_suffix(base, j));
        lemma_first_free_below(names, base, j);
    }
}

/// Some suffix count is first-free: candidates grow without bound, so one
/// outgrows every existing name.
pub proof fn lemma_exists_first_free(names: Seq<Seq<u8>>, base: Seq<u8>)
    ensures
        exists|k: nat| is_first_free(names, base, k),
{
    let b = max_name_len(names) + 1;
    lemma_with_suffix_len(base, b);
    if names.contains(with_suffix(base, b)) {
        lemma_max_name_len(names, with_suffix(base, b));
    }
    lemma_first_free_below(names, base, b);
}

/// The fresh name is never one of the existing names.
pub proof fn lemma_fresh_not_taken(names: Seq<Seq<u8>>, base: Seq<u8>)
    ensures
        !names.contains(fresh_name(names, base)),
{
    lemma_exists_first_free(names, base);
    let k = choose|k: nat| is_first_free(names, base, k);
    lemma_fresh_name(names, base, k);
}

/// A name in the shape every produced segment name has: nonempty, with no
/// whitespace at either end, so that trimming it is the identity.
pub open spec fn name_wf(n: Seq<u8>) -> bool {
    &&& n.len() > 0
    &&& !crate::format::is_ws(n[0])
    &&& !crate::format::is_ws(n.last())
}

/// Appending collision suffixes keeps a name well-formed.
proof fn lemma_with_suffix_wf(base: Seq<u8>, k: nat)
    requires
        name_wf(base),
    ensures
        name_wf(with_suffix(base, k)),
    decreases k,
{
    if k > 0 {
        lemma_with_suffix_wf(base, (k - 1) as nat);
        assert(with_suffix(base, k)[0] == with_suffix(base, (k - 1) as nat)[0]);
        assert(with_suffix(base, k).last() == 110u8);
    }
}

/// Resolving a collision keeps a name well-formed.
pub proof fn lemma_fresh_name_wf(names: Seq<Seq<u8>>, base: Seq<u8>)
    requires
        name_wf(base),
    ensures
        name_wf(fresh_name(names, base)),
{
    let k = choose|k: nat| is_first_free(names, base, k);
    lemma_with_suffix_wf(base, k);
}

/// The decimal digits are digits, and there is at least one.
proof fn lemma_dec_digits(n: nat)
    ensures
        dec_digits(n).len() > 0,
        48 <= dec_digits(n).last() <= 57,
    decreases n,
{
    if n >= 10 {
        lemma_dec_digits(n / 10);
    }
}

/// A placeholder name is well-formed.
pub proof fn lemma_placeholder_wf(n: nat)
    ensures
        name_wf(placeholder_name(n)),
{
    lemma_dec_digits(n);
    assert(placeholder_name(n)[0] == 117u8);
    assert(placeholder_name(n).last() == dec_digits(n).last());
}

/// The comment line synthesized for a well-formed name is a name comment
/// that names exactly that name.
pub proof fn lemma_comment_roundtrip(name: Seq<u8>)
    requires
        name_wf(name),
    ensures
        is_name_comment(name_comment_line(name)),
        comment_name(name_comment_line(name)) == name,
{
    let l = name_comment_line(name);
    assert(l.skip(2) =~= seq![32u8] + name);
    assert(crate::format::is_ws(32u8));
    assert((seq![32u8] + name).drop_first() =~= name);
    assert(crate::format::trim_front(seq![32u8] + name) == crate::format::trim_front(name));
    assert(crate::format::trim_front(name) == name);
    assert(crate::format::trim_back(name) == name);
    assert(comment_name(l) == name);
}

/// A name found in a name comment is well-formed.
pub proof fn lemma_comment_name_wf(line: Seq<u8>)
    requires
        is_name_comment(line),
    ensures
        name_wf(comment_name(line)),
{
    crate::format::lemma_trim_props(line.skip(2));
}

/// The longest length among a sequence of names.
pub open spec fn max_name_len(names: Seq<Seq<u8>>) -> nat
    decreases names.len(),
{
    if names.len() == 0 {
        0
    } else {
        let rest = max_name_len(names.drop_first());
        if names[0].len() > rest {
            names[0].len()
        } else {
            rest
        }
    }
}

/// Every contained name is no longer than the longest.
pub proof fn lemma_max_name_len(names: Seq<Seq<u8>>, n: Seq<u8>)
    requires
        names.contains(n),
    ensures
        n.len() <= max_name_len(names),
    decreases names.len(),
{
    if names.len() > 0 && names[0] != n {
        let rest = names.drop_first();
        assert(rest.contains(n)) by {
            let w = choose|j: int| 0 <= j < names.len() && names[j] == n;
            assert(rest[w - 1] == n);
        }
        lemma_max_name_len(rest, n);
    }
}

/// The collision suffix as a byte vector.
pub fn make_again_suffix() -> (r: Vec<u8>)
    ensures
        r@ == again_suffix(),
{
    let mut v: Vec<u8> = Vec::new();
    v.push(45u8);
    v.push(97u8);
    v.push(103u8);
    v.push(97u8);
    v.push(105u8);
    v.push(110u8);
    proof {
        assert(v@ =~= again_suffix());
    }
    v
}

/// Appends the decimal digits of `n` to `out`.
fn push_decimal(out: &mut Vec<u8>, n: usize)
    ensures
        final(out)@ == old(out)@ + dec_digits(n as nat),
    decreases n,
{
    if n < 10 {
        out.push(48u8 + n as u8);
        proof {
            assert(out@ =~= old(out)@ + dec_digits(n as nat));
        }
    } else {
        push_decimal(out, n / 10);
        out.push(48u8 + (n % 10) as u8);
        proof {
            assert((48 + (n as nat) % 10) as u8 == 48u8 + (n % 10) as u8);
            assert(out@ =~= old(out)@ + dec_digits(n as nat));
        }
    }
}

/// The placeholder name for segment index `counter` as a byte vector.
pub fn make_placeholder_name(counter: usize) -> (r: Vec<u8>)
    ensures
        r@ == placeholder_name(counter as nat),
{
    let mut v: Vec<u8> = Vec::new();
    v.push(117u8);
    v.push(110u8);
    v.push(107u8);
    v.push(110u8);
    v.push(111u8);
    v.push(119u8);
    v.push(110u8);
    v.push(45u8);
    if counter < 10 {
        v.push(48u8);
    }
    push_decimal(&mut v, counter);
    proof {
        assert(v@ =~= placeholder_name(counter as nat));
    }
    v
}

/// Resolves a name collision as `fresh_name` describes: appends the
/// collision suffix until the name is not already a segment key.
fn disambiguate(segments: &Vec<Part>, base: Vec<u8>) -> (name: Vec<u8>)
    ensures
        name@ == fresh_name(keys_of(segments.deep_view()), base@),
        !keys_of(segments.deep_view()).contains(name@),
{
    let ghost names = keys_of(segments.deep_view());
    let ghost base0 = base@;
    let mut name = base;
    let ghost k: nat = 0;
    proof {
        assert(with_suffix(base0, 0) == base0);
    }
    while crate::part::key_taken(segments, &name)
        invariant
            names == keys_of(segments.deep_view()),
            name@ == with_suffix(base0, k),
            forall|j: nat| j < k ==> names.contains(#[trigger] with_suffix(base0, j)),
        decreases max_name_len(names) + 6 - name@.len(),
    {
        proof {
            lemma_max_name_len(names, name@);
            k = k + 1;
        }
        let suf = make_again_suffix();
        append_bytes(&mut name, &suf);
    }
    proof {
        assert(is_first_free(names, base0, k));
        lemma_fresh_name(names, base0, k);
    }
    name
}

// ---------------------------------------------------------------------------
// The tokenizer machine
// ---------------------------------------------------------------------------

/// The tokenizer's control state.
#[derive(Clone, Copy, Debug, PartialEq, Eq, Structural)]
pub enum Phase {
    /// Reading header lines, waiting for the code-section marker.
    Init,
    /// The next line begins a new code segment.
    CodeStart,
    /// Reading a code segment's content.
    CodeBody,
    /// The next line begins the body of a new resource block.
    ResourceStart,
    /// Reading a resource block's content.
    ResourceBody,
}

/// The tokenizer's full state: control state, the kind carried from the last
/// tag line, the parts produced so far, the captured version token, and the
/// running segment index.
#[verifier::ext_equal]
pub struct Machine {
    /// The control state.
    pub phase: Phase,
    /// The resource kind carried from the most recent tag line; meaningful
    /// in `ResourceStart`.
    pub pending_kind: Seq<u8>,
    /// The code segments produced so far, the last one still open in
    /// `CodeBody`.
    pub segments: Seq<PartView>,
    /// The resource blocks produced so far, the last one still open in
    /// `ResourceBody`.
    pub resources: Seq<PartView>,
    /// The captured version token, if a header version line was seen.
    pub version: Option<Seq<u8>>,
    /// The number of segments started so far.
    pub counter: nat,
}

/// The machine before any line is read.
pub open spec fn initial_machine() -> Machine {
    Machine {
        phase: Phase::Init,
        pending_kind: Seq::empty(),
        segments: Seq::empty(),
        resources: Seq::empty(),
        version: None,
        counter: 0,
    }
}

/// `parts` with `line` appended to the content of its last part.
pub open spec fn append_to_last(parts: Seq<PartView>, line: Seq<u8>) -> Seq<PartView>
    recommends
        parts.len() > 0,
{
    parts.update(
        parts.len() - 1,
        PartView { key: parts.last().key, lines: parts.last().lines.push(line) },
    )
}

/// One transition of the tokenizer on one line.
pub open spec fn step(m: Machine, line: Seq<u8>) -> Machine {
    match m.phase {
        Phase::Init => {
            let m1 = match version_of(line) {
                Some(v) => Machine { version: Some(v), ..m },
                None => m,
            };
            if line == code_marker_line() {
                Machine { phase: Phase::CodeStart, ..m1 }
            } else {
                m1
            }
        },
        Phase::CodeStart => {
            let base = if is_name_comment(line) {
                comment_name(line)
            } else {
                placeholder_name(m.counter)
            };
            let name = fresh_name(keys_of(m.segments), base);
            let seg_lines = if is_name_comment(line) {
                seq![line]
            } else {
                seq![name_comment_line(name), line]
            };
            Machine {
                phase: Phase::CodeBody,
                segments: m.segments.push(PartView { key: name, lines: seg_lines }),
                counter: m.counter + 1,
                ..m
            }
        },
        Phase::CodeBody => {
            if line == scissor_line() {
                Machine { phase: Phase::CodeStart, ..m }
            } else if is_rsc_tag(line) {
                Machine { phase: Phase::ResourceStart, pending_kind: tag_kind(line), ..m }
            } else {
                Machine { segments: append_to_last(m.segments, line), ..m }
            }
        },
        Phase::ResourceStart => {
            Machine {
                phase: Phase::ResourceBody,
                resources: m.resources.push(
                    PartView { key: m.pending_kind, lines: seq![line] },
                ),
                ..m
            }
        },
        Phase::ResourceBody => {
            if is_rsc_tag(line) {
                Machine { phase: Phase::ResourceStart, pending_kind: tag_kind(line), ..m }
            } else {
                Machine { resources: append_to_last(m.resources, line), ..m }
            }
        },
    }
}

/// The machine after reading `lines`, starting from `m`.
pub open spec fn run_from(m: Machine, lines: Seq<Seq<u8>>) -> Machine
    decreases lines.len(),
{
    if lines.len() == 0 {
        m
    } else {
        step(run_from(m, lines.drop_last()), lines.last())
    }
}

/// The machine after reading `lines` from the initial state.
pub open spec fn run(lines: Seq<Seq<u8>>) -> Machine {
    run_from(initial_machine(), lines)
}

/// Running a concatenation runs the two halves in turn.
pub proof fn lemma_run_from_append(m: Machine, a: Seq<Seq<u8>>, b: Seq<Seq<u8>>)
    ensures
        run_from(m, a + b) == run_from(run_from(m, a), b),
    decreases b.len(),
{
    if b.len() == 0 {
        assert(a + b =~= a);
    } else {
        lemma_run_from_append(m, a, b.drop_last());
        assert((a + b).drop_last() =~= a + b.drop_last());
        assert((a + b).last() == b.last());
    }
}

/// Structural facts that hold of every reachable machine: a machine past
/// `Init` has an open segment, and one in `ResourceBody` has an open
/// resource.
pub open spec fn machine_shape(m: Machine) -> bool {
    &&& (m.phase is CodeBody || m.phase is ResourceStart || m.phase is ResourceBody)
        ==> m.segments.len() > 0
    &&& (m.phase is ResourceBody) ==> m.resources.len() > 0
    &&& (m.phase is Init) ==> m.segments.len() == 0 && m.resources.len() == 0
}

/// A step preserves the structural facts.
pub proof fn lemma_step_shape(m: Machine, line: Seq<u8>)
    requires
        machine_shape(m),
    ensures
        machine_shape(step(m, line)),
{
}

// ---------------------------------------------------------------------------
// The split result
// ---------------------------------------------------------------------------

/// Why a composite file was rejected as malformed.
#[derive(Clone, Copy, Debug, PartialEq, Eq, Structural)]
pub enum SplitError {
    /// The input ended without a code-section marker: it is not recognizable
    /// as this format.
    MissingCodeMarker,
    /// The input ended where the first line of a new code segment was owed.
    TruncatedAtSegmentStart,
    /// The input ended immediately after a resource tag line, where the
    /// block's body was owed.
    TruncatedAtResourceStart,
}

/// Everything a successful split produces: the code segments and resource
/// blocks in discovery order, and the captured version token.
#[derive(Debug)]
pub struct SplitOutput {
    /// The code segments, keyed by display name, in order of appearance.
    pub segments: Vec<Part>,
    /// The resource blocks, keyed by kind, in order of appearance.
    pub resources: Vec<Part>,
    /// The version token captured from the header, if any.
    pub version: Option<Vec<u8>>,
}

/// The mathematical view of a [`SplitOutput`].
#[verifier::ext_equal]
pub struct SplitOutputView {
    /// The code segments in order of appearance.
    pub segments: Seq<PartView>,
    /// The resource blocks in order of appearance.
    pub resources: Seq<PartView>,
    /// The captured version token, if any.
    pub version: Option<Seq<u8>>,
}

impl View for SplitOutput {
    type V = SplitOutputView;

    open spec fn view(&self) -> SplitOutputView {
        SplitOutputView {
            segments: self.segments.deep_view(),
            resources: self.resources.deep_view(),
            version: self.version.deep_view(),
        }
    }
}

/// What splitting a sequence of lines yields: the parts of the final
/// machine, or the error named by the phase the input ran out in.
pub open spec fn split_spec(lines: Seq<Seq<u8>>) -> Result<SplitOutputView, SplitError> {
    let m = run(lines);
    match m.phase {
        Phase::Init => Err(SplitError::MissingCodeMarker),
        Phase::CodeStart => Err(SplitError::TruncatedAtSegmentStart),
        Phase::ResourceStart => Err(SplitError::TruncatedAtResourceStart),
        _ => Ok(
            SplitOutputView {
                segments: m.segments,
                resources: m.resources,
                version: m.version,
            },
        ),
    }
}

impl SplitOutput {
    /// The segment order record: the segment names in order of appearance.
    pub fn tab_order(&self) -> (r: Vec<Vec<u8>>)
        ensures
            r.deep_view() == keys_of(self@.segments),
    {
        crate::part::collect_keys(&self.segments)
    }

    /// The resource order record: the resource kinds in order of appearance.
    pub fn rsc_order(&self) -> (r: Vec<Vec<u8>>)
        ensures
            r.deep_view() == keys_of(self@.resources),
    {
        crate::part::collect_keys(&self.resources)
    }
}

/// Splits a composite file, given as its sequence of lines, into code
/// segments, resource blocks, and the header's version token, exactly as
/// `split_spec` describes; rejects a truncated or unrecognizable input with
/// the error naming where it ran out.
pub fn split_composite(lines: &Vec<Vec<u8>>) -> (r: Result<SplitOutput, SplitError>)
    ensures
        match r {
            Ok(out) => split_spec(lines.deep_view()) == Ok::<SplitOutputView, SplitError>(out@),
            Err(e) => split_spec(lines.deep_view()) == Err::<SplitOutputView, SplitError>(e),
        },
{
    let ghost lv = lines.deep_view();
    let mut phase = Phase::Init;
    let mut pending_kind: Vec<u8> = Vec::new();
    let mut segments: Vec<Part> = Vec::new();
    let mut resources: Vec<Part> = Vec::new();
    let mut version: Option<Vec<u8>> = None;
    let mut counter: usize = 0;
    let mut i: usize = 0;
    proof {
        assert(lv.take(0) =~= Seq::<Seq<u8>>::empty());
    }
    while i < lines.len()
        invariant
            i <= lines@.len(),
            lv == lines.deep_view(),
            lv.len() == lines@.len(),
            counter <= i,
            phase == run(lv.take(i as int)).phase,
            pending_kind@ == run(lv.take(i as int)).pending_kind,
            segments.deep_view() == run(lv.take(i as int)).segments,
            resources.deep_view() == run(lv.take(i as int)).resources,
            version.deep_view() == run(lv.take(i as int)).version,
            counter as nat == run(lv.take(i as int)).counter,
            machine_shape(run(lv.take(i as int))),
        decreases lines.len() - i,
    {
        let ghost m = run(lv.take(i as int));
        let ghost m2 = step(m, lv[i as int]);
        proof {
            assert(lv.take(i + 1).drop_last() =~= lv.take(i as int));
            assert(lv.take(i + 1).last() == lv[i as int]);
            assert(run(lv.take(i + 1)) == m2);
            lemma_step_shape(m, lv[i as int]);
            assert(lines@[i as int].deep_view() =~= lines@[i as int]@);
        }
        let line = &lines[i];
        match phase {
            Phase::Init => {
                match parse_version(line) {
                    Some(v) => {
                        proof {
                            assert(v.deep_view() =~= v@);
                        }
                        version = Some(v);
                    },
                    None => {},
                }
                if is_code_marker(line) {
                    phase = Phase::CodeStart;
                }
            },
            Phase::CodeStart => {
                let maybe_name = lua_tag(line);
                let named = maybe_name.is_some();
                let base = match maybe_name {
                    Some(nm) => nm,
                    None => make_placeholder_name(counter),
                };
                let name = disambiguate(&segments, base);
                let mut seg_lines: Vec<Vec<u8>> = Vec::new();
                if !named {
                    seg_lines.push(make_name_comment_line(&name));
                }
                seg_lines.push(copy_bytes(line));
                let ghost namev = name@;
                segments.push(Part { key: name, lines: seg_lines });
                counter += 1;
                phase = Phase::CodeBody;
                proof {
                    let p = m2.segments.last();
                    assert(p.key == namev);
                    assert(segments@.last().deep_view().lines =~~= p.lines);
                    assert(segments@.last().deep_view() == p);
                    assert(segments.deep_view() =~= m2.segments);
                }
            },
            Phase::CodeBody => {
                if is_scissor(line) {
                    phase = Phase::CodeStart;
                } else {
                    match rsc_tag(line) {
                        Some(kind) => {
                            pending_kind = kind;
                            phase = Phase::ResourceStart;
                        },
                        None => {
                            let ln = copy_bytes(line);
                            let mut p = segments.pop().unwrap();
                            p.lines.push(ln);
                            segments.push(p);
                            proof {
                                assert(segments@.last().deep_view().lines =~~= m2.segments.last().lines);
                                assert(segments@.last().deep_view() == m2.segments.last());
                                assert(segments.deep_view() =~= m2.segments);
                            }
                        },
                    }
                }
            },
            Phase::ResourceStart => {
                let key = copy_bytes(&pending_kind);
                let mut rsc_lines: Vec<Vec<u8>> = Vec::new();
                rsc_lines.push(copy_bytes(line));
                resources.push(Part { key, lines: rsc_lines });
                phase = Phase::ResourceBody;
                proof {
                    assert(resources@.last().deep_view().lines =~~= m2.resources.last().lines);
                    assert(resources@.last().deep_view() == m2.resources.last());
                    assert(resources.deep_view() =~= m2.resources);
                }
            },
            Phase::ResourceBody => {
                match rsc_tag(line) {
                    Some(kind) => {
                        pending_kind = kind;
                        phase = Phase::ResourceStart;
                    },
                    None => {
                        let ln = copy_bytes(line);
                        let mut p = resources.pop().unwrap();
                        p.lines.push(ln);
                        resources.push(p);
                        proof {
                            assert(resources@.last().deep_view().lines =~~= m2.resources.last().lines);
                            assert(resources@.last().deep_view() == m2.resources.last());
                            assert(resources.deep_view() =~= m2.resources);
                        }
                    },
                }
            },
        }
        i += 1;
    }
    proof {
        assert(lv.take(lv.len() as int) =~= lv);
    }
    match phase {
        Phase::Init => Err(SplitError::MissingCodeMarker),
        Phase::CodeStart => Err(SplitError::TruncatedAtSegmentStart),
        Phase::ResourceStart => Err(SplitError::TruncatedAtResourceStart),
        Phase::CodeBody => Ok(SplitOutput { segments, resources, version }),
        Phase::ResourceBody => Ok(SplitOutput { segments, resources, version }),
    }
}

} // verus!
