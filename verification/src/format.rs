//! The format model: what the boundary lines of a composite cartridge file
//! look like, the canonical resource order, and the default header.
//!
//! A composite file is modelled as a sequence of lines, each line a sequence
//! of bytes (without its terminator).

use vstd::prelude::*;

use crate::byteops::{bytes_eq, copy_range, has_prefix, find_byte, starts_with};

verus! {

// ---------------------------------------------------------------------------
// Reserved tokens
// ---------------------------------------------------------------------------

/// The code-boundary (scissor) line, `-->8`.
pub open spec fn scissor_line() -> Seq<u8> {
    seq![45u8, 45u8, 62u8, 56u8]
}

/// The marker line that opens the code section, `__lua__`.
pub open spec fn code_marker_line() -> Seq<u8> {
    seq![95u8, 95u8, 108u8, 117u8, 97u8, 95u8, 95u8]
}

/// The keyword that opens the header's version line, `version`.
pub open spec fn version_keyword() -> Seq<u8> {
    seq![118u8, 101u8, 114u8, 115u8, 105u8, 111u8, 110u8]
}

/// The first line of the default header, a product-identifying comment.
pub open spec fn header_title_line() -> Seq<u8> {
    seq![
        112u8, 105u8, 99u8, 111u8, 45u8, 56u8, 32u8, 99u8, 97u8, 114u8, 116u8, 114u8, 105u8,
        100u8, 103u8, 101u8, 32u8, 47u8, 47u8, 32u8, 104u8, 116u8, 116u8, 112u8, 58u8, 47u8,
        47u8, 119u8, 119u8, 119u8, 46u8, 112u8, 105u8, 99u8, 111u8, 45u8, 56u8, 46u8, 99u8,
        111u8, 109u8,
    ]
}

/// The default version token, `41`, used when no version record is available.
pub open spec fn default_version_token() -> Seq<u8> {
    seq![52u8, 49u8]
}

/// The header's version line: the keyword, one space, then the token.
pub open spec fn version_line(token: Seq<u8>) -> Seq<u8> {
    version_keyword() + seq![32u8] + token
}

/// The tag line that introduces a resource block of kind `kind`: `__<kind>__`.
pub open spec fn tag_line(kind: Seq<u8>) -> Seq<u8> {
    seq![95u8, 95u8] + kind + seq![95u8, 95u8]
}

/// The comment line that names a segment `name`: `-- <name>`.
pub open spec fn name_comment_line(name: Seq<u8>) -> Seq<u8> {
    seq![45u8, 45u8, 32u8] + name
}

/// The canonical order of the recognized resource kinds:
/// graphics, flags, label, map, sound, music.
pub open spec fn canonical_kinds() -> Seq<Seq<u8>> {
    seq![
        seq![103u8, 102u8, 120u8],
        seq![103u8, 102u8, 102u8],
        seq![108u8, 97u8, 98u8, 101u8, 108u8],
        seq![109u8, 97u8, 112u8],
        seq![115u8, 102u8, 120u8],
        seq![109u8, 117u8, 115u8, 105u8, 99u8],
    ]
}

// ---------------------------------------------------------------------------
// Whitespace and trimming
// ---------------------------------------------------------------------------

/// The bytes the name-comment heuristic treats as whitespace (the ASCII
/// whitespace characters).
pub open spec fn is_ws(b: u8) -> bool {
    b == 9 || b == 10 || b == 11 || b == 12 || b == 13 || b == 32
}

/// `s` without its leading whitespace.
pub open spec fn trim_front(s: Seq<u8>) -> Seq<u8>
    decreases s.len(),
{
    if s.len() > 0 && is_ws(s[0]) {
        trim_front(s.drop_first())
    } else {
        s
    }
}

/// `s` without its trailing whitespace.
pub open spec fn trim_back(s: Seq<u8>) -> Seq<u8>
    decreases s.len(),
{
    if s.len() > 0 && is_ws(s.last()) {
        trim_back(s.drop_last())
    } else {
        s
    }
}

/// `s` without leading or trailing whitespace.
pub open spec fn trim(s: Seq<u8>) -> Seq<u8> {
    trim_back(trim_front(s))
}

/// A trimmed value starts and ends with non-whitespace, and trimming a
/// value that already does is the identity.
pub proof fn lemma_trim_props(s: Seq<u8>)
    ensures
        trim(s).len() > 0 ==> !is_ws(trim(s)[0]) && !is_ws(trim(s).last()),
        s.len() > 0 && !is_ws(s[0]) && !is_ws(s.last()) ==> trim(s) == s,
        trim(trim(s)) == trim(s),
{
    lemma_trim_front_props(s);
    lemma_trim_back_props(trim_front(s));
    if trim(s).len() > 0 {
        assert(!is_ws(trim(s)[0]));
        lemma_trim_front_props(trim(s));
        lemma_trim_back_props(trim(s));
    }
}

proof fn lemma_trim_front_props(s: Seq<u8>)
    ensures
        trim_front(s).len() > 0 ==> !is_ws(trim_front(s)[0]),
        trim_back(trim_front(s)).len() > 0 ==> trim_back(trim_front(s))[0] == trim_front(s)[0],
    decreases s.len(),
{
    if s.len() > 0 && is_ws(s[0]) {
        lemma_trim_front_props(s.drop_first());
    } else {
        lemma_trim_back_keeps_first(s);
    }
}

proof fn lemma_trim_back_keeps_first(s: Seq<u8>)
    ensures
        trim_back(s).len() > 0 ==> trim_back(s)[0] == s[0],
    decreases s.len(),
{
    if s.len() > 0 && is_ws(s.last()) {
        lemma_trim_back_keeps_first(s.drop_last());
    }
}

proof fn lemma_trim_back_props(s: Seq<u8>)
    ensures
        trim_back(s).len() > 0 ==> !is_ws(trim_back(s).last()),
    decreases s.len(),
{
    if s.len() > 0 && is_ws(s.last()) {
        lemma_trim_back_props(s.drop_last());
    }
}

/// A copy of `s@.skip(from)` with leading and trailing whitespace removed.
pub fn trim_copy(s: &Vec<u8>, from: usize) -> (r: Vec<u8>)
    requires
        from <= s@.len(),
    ensures
        r@ == trim(s@.skip(from as int)),
{
    let mut lo: usize = from;
    while lo < s.len() && is_ws_byte(s[lo])
        invariant
            from <= lo <= s@.len(),
            trim_front(s@.skip(from as int)) == trim_front(s@.skip(lo as int)),
        decreases s.len() - lo,
    {
        proof {
            assert(s@.skip(lo as int).drop_first() =~= s@.skip(lo as int + 1));
        }
        lo += 1;
    }
    proof {
        assert(trim_front(s@.skip(from as int)) == s@.skip(lo as int));
    }
    let mut hi: usize = s.len();
    while hi > lo && is_ws_byte(s[hi - 1])
        invariant
            from <= lo <= hi <= s@.len(),
            trim_front(s@.skip(from as int)) == s@.skip(lo as int),
            trim_back(s@.skip(lo as int)) == trim_back(s@.subrange(lo as int, hi as int)),
        decreases hi,
    {
        proof {
            assert(s@.subrange(lo as int, hi as int).drop_last() =~= s@.subrange(
                lo as int,
                hi as int - 1,
            ));
        }
        hi -= 1;
    }
    proof {
        assert(trim_back(s@.subrange(lo as int, hi as int)) == s@.subrange(lo as int, hi as int));
    }
    copy_range(s, lo, hi)
}

/// Tests a byte for ASCII whitespace.
pub fn is_ws_byte(b: u8) -> (r: bool)
    ensures
        r == is_ws(b),
{
    b == 9 || b == 10 || b == 11 || b == 12 || b == 13 || b == 32
}

// ---------------------------------------------------------------------------
// Line classification
// ---------------------------------------------------------------------------

/// Whether a line is a resource-block tag: at least 5 bytes, opening and
/// closing double underscores, and no space, `=`, or `.` between them.
pub open spec fn is_rsc_tag(line: Seq<u8>) -> bool {
    &&& line.len() > 4
    &&& line[0] == 95 && line[1] == 95
    &&& line[line.len() - 2] == 95 && line[line.len() - 1] == 95
    &&& forall|i: int|
        2 <= i < line.len() - 2 ==> !(line[i] == 32 || line[i] == 61 || line[i] == 46)
}

/// The resource kind named by a tag line: the text between the delimiters.
pub open spec fn tag_kind(line: Seq<u8>) -> Seq<u8> {
    line.subrange(2, line.len() - 2)
}

/// Whether a line is a segment-name comment: it begins with the two-byte
/// comment marker `--` and has non-whitespace content after it.
pub open spec fn is_name_comment(line: Seq<u8>) -> bool {
    line.len() > 2 && line[0] == 45 && line[1] == 45 && trim(line.skip(2)).len() > 0
}

/// The segment name carried by a name comment: the trimmed remainder.
pub open spec fn comment_name(line: Seq<u8>) -> Seq<u8> {
    trim(line.skip(2))
}

/// The version token carried by a header line, if any: for a line that
/// begins with the version keyword and contains a space, the bytes after the
/// first space.
pub open spec fn version_of(line: Seq<u8>) -> Option<Seq<u8>> {
    if starts_with(line, version_keyword()) {
        match line.index_of_first(32u8) {
            Some(i) => Some(line.skip(i + 1)),
            None => None,
        }
    } else {
        None
    }
}

/// Rebuilding a tag line from the kind a tag line carries gives the same
/// line back, so reconstructed tags are byte-exact.
pub proof fn lemma_tag_roundtrip(line: Seq<u8>)
    requires
        is_rsc_tag(line),
    ensures
        tag_line(tag_kind(line)) == line,
        is_rsc_tag(tag_line(tag_kind(line))),
{
    assert(tag_line(tag_kind(line)) =~= line);
}

/// Classifies a line as a resource-block tag, returning the kind between the
/// delimiters, or `None` for any other line.
pub fn rsc_tag(line: &Vec<u8>) -> (r: Option<Vec<u8>>)
    ensures
        match r {
            Some(kind) => is_rsc_tag(line@) && kind@ == tag_kind(line@),
            None => !is_rsc_tag(line@),
        },
{
    if line.len() <= 4 {
        return None;
    }
    let n = line.len();
    if !(line[0] == 95 && line[1] == 95 && line[n - 2] == 95 && line[n - 1] == 95) {
        return None;
    }
    let mut i: usize = 2;
    while i < n - 2
        invariant
            2 <= i <= n - 2,
            n == line@.len(),
            n > 4,
            forall|j: int| 2 <= j < i ==> !(line@[j] == 32 || line@[j] == 61 || line@[j] == 46),
        decreases n - 2 - i,
    {
        if line[i] == 32 || line[i] == 61 || line[i] == 46 {
            return None;
        }
        i += 1;
    }
    Some(copy_range(line, 2, n - 2))
}

/// Classifies a line as a segment-name comment, returning the trimmed name,
/// or `None` for any other line.
pub fn lua_tag(line: &Vec<u8>) -> (r: Option<Vec<u8>>)
    ensures
        match r {
            Some(name) => is_name_comment(line@) && name@ == comment_name(line@),
            None => !is_name_comment(line@),
        },
{
    if line.len() > 2 && line[0] == 45 && line[1] == 45 {
        let rest = trim_copy(line, 2);
        if rest.len() == 0 {
            None
        } else {
            Some(rest)
        }
    } else {
        None
    }
}

/// Extracts the version token from a header line, as `version_of` describes.
pub fn parse_version(line: &Vec<u8>) -> (r: Option<Vec<u8>>)
    ensures
        match r {
            Some(token) => version_of(line@) == Some(token@),
            None => version_of(line@) is None,
        },
{
    let kw = make_version_keyword();
    if !has_prefix(line, &kw) {
        return None;
    }
    match find_byte(line, 32u8) {
        Some(i) => {
            let n = line.len();
            proof {
                line@.index_of_first_ensures(32u8);
                assert(i < n);
                assert(line@.subrange(i + 1, line@.len() as int) =~= line@.skip(i + 1));
            }
            Some(copy_range(line, i + 1, n))
        },
        None => None,
    }
}

// ---------------------------------------------------------------------------
// Executable constructors for the reserved tokens
// ---------------------------------------------------------------------------

/// The scissor line as a byte vector.
pub fn make_scissor_line() -> (r: Vec<u8>)
    ensures
        r@ == scissor_line(),
{
    let mut v: Vec<u8> = Vec::new();
    v.push(45u8);
    v.push(45u8);
    v.push(62u8);
    v.push(56u8);
    proof {
        assert(v@ =~= scissor_line());
    }
    v
}

/// The code-section marker line as a byte vector.
pub fn make_code_marker_line() -> (r: Vec<u8>)
    ensures
        r@ == code_marker_line(),
{
    let mut v: Vec<u8> = Vec::new();
    v.push(95u8);
    v.push(95u8);
    v.push(108u8);
    v.push(117u8);
    v.push(97u8);
    v.push(95u8);
    v.push(95u8);
    proof {
        assert(v@ =~= code_marker_line());
    }
    v
}

/// The version keyword as a byte vector.
pub fn make_version_keyword() -> (r: Vec<u8>)
    ensures
        r@ == version_keyword(),
{
    let mut v: Vec<u8> = Vec::new();
    v.push(118u8);
    v.push(101u8);
    v.push(114u8);
    v.push(115u8);
    v.push(105u8);
    v.push(111u8);
    v.push(110u8);
    proof {
        assert(v@ =~= version_keyword());
    }
    v
}

/// The default header's first line as a byte vector.
pub fn make_header_title_line() -> (r: Vec<u8>)
    ensures
        r@ == header_title_line(),
{
    let mut v: Vec<u8> = Vec::new();
    v.push(112u8);
    v.push(105u8);
    v.push(99u8);
    v.push(111u8);
    v.push(45u8);
    v.push(56u8);
    v.push(32u8);
    v.push(99u8);
    v.push(97u8);
    v.push(114u8);
    v.push(116u8);
    v.push(114u8);
    v.push(105u8);
    v.push(100u8);
    v.push(103u8);
    v.push(101u8);
    v.push(32u8);
    v.push(47u8);
    v.push(47u8);
    v.push(32u8);
    v.push(104u8);
    v.push(116u8);
    v.push(116u8);
    v.push(112u8);
    v.push(58u8);
    v.push(47u8);
    v.push(47u8);
    v.push(119u8);
    v.push(119u8);
    v.push(119u8);
    v.push(46u8);
    v.push(112u8);
    v.push(105u8);
    v.push(99u8);
    v.push(111u8);
    v.push(45u8);
    v.push(56u8);
    v.push(46u8);
    v.push(99u8);
    v.push(111u8);
    v.push(109u8);
    proof {
        assert(v@ =~= header_title_line());
    }
    v
}

/// The default version token as a byte vector.
pub fn make_default_version_token() -> (r: Vec<u8>)
    ensures
        r@ == default_version_token(),
{
    let mut v: Vec<u8> = Vec::new();
    v.push(52u8);
    v.push(49u8);
    proof {
        assert(v@ =~= default_version_token());
    }
    v
}

/// The tag line for a resource kind as a byte vector.
pub fn make_tag_line(kind: &Vec<u8>) -> (r: Vec<u8>)
    ensures
        r@ == tag_line(kind@),
{
    let mut v: Vec<u8> = Vec::new();
    v.push(95u8);
    v.push(95u8);
    crate::byteops::append_bytes(&mut v, kind);
    v.push(95u8);
    v.push(95u8);
    proof {
        assert(v@ =~= tag_line(kind@));
    }
    v
}

/// The name comment line for a segment name as a byte vector.
pub fn make_name_comment_line(name: &Vec<u8>) -> (r: Vec<u8>)
    ensures
        r@ == name_comment_line(name@),
{
    let mut v: Vec<u8> = Vec::new();
    v.push(45u8);
    v.push(45u8);
    v.push(32u8);
    crate::byteops::append_bytes(&mut v, name);
    proof {
        assert(v@ =~= name_comment_line(name@));
    }
    v
}

/// The canonical resource kinds, in canonical order, as byte vectors.
pub fn make_canonical_kinds() -> (r: Vec<Vec<u8>>)
    ensures
        r.deep_view() == canonical_kinds(),
{
    let mut r: Vec<Vec<u8>> = Vec::new();
    let mut v: Vec<u8> = Vec::new();
    v.push(103u8);
    v.push(102u8);
    v.push(120u8);
    proof {
        assert(v@ =~= canonical_kinds()[0]);
    }
    r.push(v);
    let mut v: Vec<u8> = Vec::new();
    v.push(103u8);
    v.push(102u8);
    v.push(102u8);
    proof {
        assert(v@ =~= canonical_kinds()[1]);
    }
    r.push(v);
    let mut v: Vec<u8> = Vec::new();
    v.push(108u8);
    v.push(97u8);
    v.push(98u8);
    v.push(101u8);
    v.push(108u8);
    proof {
        assert(v@ =~= canonical_kinds()[2]);
    }
    r.push(v);
    let mut v: Vec<u8> = Vec::new();
    v.push(109u8);
    v.push(97u8);
    v.push(112u8);
    proof {
        assert(v@ =~= canonical_kinds()[3]);
    }
    r.push(v);
    let mut v: Vec<u8> = Vec::new();
    v.push(115u8);
    v.push(102u8);
    v.push(120u8);
    proof {
        assert(v@ =~= canonical_kinds()[4]);
    }
    r.push(v);
    let mut v: Vec<u8> = Vec::new();
    v.push(109u8);
    v.push(117u8);
    v.push(115u8);
    v.push(105u8);
    v.push(99u8);
    proof {
        assert(v@ =~= canonical_kinds()[5]);
    }
    r.push(v);
    proof {
        assert(r.deep_view() =~~= canonical_kinds());
    }
    r
}

/// Tests whether a line is exactly the scissor line.
pub fn is_scissor(line: &Vec<u8>) -> (r: bool)
    ensures
        r == (line@ == scissor_line()),
{
    let s = make_scissor_line();
    bytes_eq(line, &s)
}

/// Tests whether a line is exactly the code-section marker.
pub fn is_code_marker(line: &Vec<u8>) -> (r: bool)
    ensures
        r == (line@ == code_marker_line()),
{
    let m = make_code_marker_line();
    bytes_eq(line, &m)
}

} // verus!
