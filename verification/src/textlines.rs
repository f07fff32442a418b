//! Line discipline: how a byte stream is divided into lines and how lines
//! are written back out.
//!
//! Reading splits at each newline byte and drops one carriage return left
//! immediately before a newline; a final fragment without a newline still
//! counts as a line. Writing terminates every line with a single newline, so
//! all output is newline-normalized and a missing final newline in a source
//! is tolerated rather than treated as an error.

use vstd::prelude::*;

use crate::byteops::{copy_range, lemma_first_index, lemma_no_index};

verus! {

/// A terminated line without one trailing carriage return, if it has one.
pub open spec fn strip_cr(l: Seq<u8>) -> Seq<u8> {
    if l.len() > 0 && l.last() == 13 {
        l.drop_last()
    } else {
        l
    }
}

/// The lines of a byte stream: split at each newline, strip one carriage
/// return before a newline, and keep a final unterminated fragment.
pub open spec fn lines_of(b: Seq<u8>) -> Seq<Seq<u8>>
    decreases b.len(),
{
    if b.len() == 0 {
        Seq::empty()
    } else {
        match b.index_of_first(10u8) {
            Some(i) => {
                proof {
                    b.index_of_first_ensures(10u8);
                }
                seq![strip_cr(b.subrange(0, i))] + lines_of(b.skip(i + 1))
            },
            None => seq![b],
        }
    }
}

/// The byte stream of a sequence of lines, each terminated with one newline.
pub open spec fn render(lines: Seq<Seq<u8>>) -> Seq<u8>
    decreases lines.len(),
{
    if lines.len() == 0 {
        Seq::empty()
    } else {
        render(lines.drop_last()) + lines.last() + seq![10u8]
    }
}

/// Splits a byte stream into its lines, as `lines_of` describes.
pub fn split_lines(bytes: &Vec<u8>) -> (r: Vec<Vec<u8>>)
    ensures
        r.deep_view() == lines_of(bytes@),
{
    let n = bytes.len();
    let mut out: Vec<Vec<u8>> = Vec::new();
    let mut pos: usize = 0;
    proof {
        assert(bytes@.skip(0) =~= bytes@);
        assert(out.deep_view() + lines_of(bytes@) =~= lines_of(bytes@));
    }
    while pos < n
        invariant
            pos <= n,
            n == bytes@.len(),
            lines_of(bytes@) == out.deep_view() + lines_of(bytes@.skip(pos as int)),
        decreases n - pos,
    {
        let mut j: usize = pos;
        while j < n && bytes[j] != 10
            invariant
                pos <= j <= n,
                n == bytes@.len(),
                forall|t: int| pos <= t < j ==> bytes@[t] != 10,
            decreases n - j,
        {
            j += 1;
        }
        let ghost s = bytes@.skip(pos as int);
        let ghost dout = out.deep_view();
        if j < n {
            let end = if j > pos && bytes[j - 1] == 13 {
                j - 1
            } else {
                j
            };
            let line = copy_range(bytes, pos, end);
            proof {
                assert forall|t: int| 0 <= t < j - pos implies s[t] != 10 by {
                    assert(s[t] == bytes@[t + pos]);
                }
                lemma_first_index(s, 10u8, j - pos);
                assert(s.subrange(0, j - pos) =~= bytes@.subrange(pos as int, j as int));
                assert(s.skip(j - pos + 1) =~= bytes@.skip(j + 1));
                if j > pos && bytes@[j - 1] == 13 {
                    assert(strip_cr(s.subrange(0, j - pos)) =~= bytes@.subrange(
                        pos as int,
                        j - 1,
                    ));
                } else {
                    assert(strip_cr(s.subrange(0, j - pos)) == s.subrange(0, j - pos));
                }
                assert(line@ == strip_cr(s.subrange(0, j - pos)));
            }
            out.push(line);
            proof {
                assert(out.deep_view() =~~= dout.push(strip_cr(s.subrange(0, j - pos))));
                assert(lines_of(s) == seq![strip_cr(s.subrange(0, j - pos))] + lines_of(
                    s.skip(j - pos + 1),
                ));
                assert(dout + lines_of(s) =~~= out.deep_view() + lines_of(bytes@.skip(j + 1)));
            }
            pos = j + 1;
        } else {
            let line = copy_range(bytes, pos, n);
            proof {
                assert forall|t: int| 0 <= t < s.len() implies s[t] != 10 by {
                    assert(s[t] == bytes@[t + pos]);
                }
                lemma_no_index(s, 10u8);
                assert(line@ =~= s);
            }
            out.push(line);
            proof {
                assert(out.deep_view() =~~= dout.push(s));
                assert(lines_of(s) == seq![s]);
                assert(dout + lines_of(s) =~~= out.deep_view() + lines_of(
                    bytes@.skip(n as int),
                ));
            }
            pos = n;
        }
    }
    proof {
        assert(bytes@.skip(n as int) =~= Seq::<u8>::empty());
        assert(out.deep_view() + lines_of(Seq::<u8>::empty()) =~= out.deep_view());
    }
    out
}

/// Writes lines back into one byte stream, as `render` describes.
pub fn render_lines(lines: &Vec<Vec<u8>>) -> (r: Vec<u8>)
    ensures
        r@ == render(lines.deep_view()),
{
    let ghost lv = lines.deep_view();
    let mut r: Vec<u8> = Vec::new();
    let mut i: usize = 0;
    while i < lines.len()
        invariant
            i <= lines@.len(),
            lv == lines.deep_view(),
            lv.len() == lines@.len(),
            r@ == render(lv.take(i as int)),
        decreases lines.len() - i,
    {
        crate::byteops::append_bytes(&mut r, &lines[i]);
        r.push(10u8);
        i += 1;
        proof {
            assert(lv.take(i as int).drop_last() =~= lv.take(i - 1));
            assert(lv.take(i as int).last() == lv[i - 1]);
            assert(lines@[i - 1].deep_view() =~= lines@[i - 1]@);
            assert(r@ =~= render(lv.take(i - 1)) + lv[i - 1] + seq![10u8]);
        }
    }
    proof {
        assert(lv.take(lv.len() as int) =~= lv);
    }
    r
}

/// A line that the line discipline reproduces exactly: it contains no
/// newline and does not end with a carriage return.
pub open spec fn clean_line(l: Seq<u8>) -> bool {
    &&& forall|t: int| 0 <= t < l.len() ==> l[t] != 10
    &&& l.len() > 0 ==> l.last() != 13
}

/// For a nonempty line sequence, rendering starts with the first line, its
/// terminator, then the rendering of the rest.
pub proof fn lemma_render_front(ls: Seq<Seq<u8>>)
    requires
        ls.len() > 0,
    ensures
        render(ls) == ls[0] + seq![10u8] + render(ls.drop_first()),
    decreases ls.len(),
{
    if ls.len() == 1 {
        assert(ls.drop_last() =~= Seq::<Seq<u8>>::empty());
        assert(ls.drop_first() =~= Seq::<Seq<u8>>::empty());
        assert(render(ls) =~= ls[0] + seq![10u8] + render(ls.drop_first()));
    } else {
        let dl = ls.drop_last();
        lemma_render_front(dl);
        assert(dl[0] == ls[0]);
        assert(dl.drop_first() =~= ls.drop_first().drop_last());
        assert(ls.drop_first().last() == ls.last());
        assert(render(ls) == render(dl) + ls.last() + seq![10u8]);
        assert(render(ls.drop_first()) == render(ls.drop_first().drop_last())
            + ls.drop_first().last() + seq![10u8]);
        assert(ls[0] + seq![10u8] + render(ls.drop_first().drop_last()) + ls.last() + seq![10u8]
            =~= ls[0] + seq![10u8] + render(ls.drop_first()));
        assert(render(ls) =~= ls[0] + seq![10u8] + render(ls.drop_first()));
    }
}

/// Splitting a rendered sequence of clean lines gives the lines back.
pub proof fn lemma_lines_of_render(ls: Seq<Seq<u8>>)
    requires
        forall|k: int| 0 <= k < ls.len() ==> clean_line(#[trigger] ls[k]),
    ensures
        lines_of(render(ls)) == ls,
    decreases ls.len(),
{
    if ls.len() == 0 {
        assert(lines_of(render(ls)) =~= ls);
    } else {
        lemma_render_front(ls);
        let first = ls[0];
        let b = render(ls);
        let n0 = first.len() as int;
        assert(clean_line(first));
        assert(b.len() == n0 + 1 + render(ls.drop_first()).len());
        assert forall|t: int| 0 <= t < n0 implies b[t] != 10 by {
            assert(b[t] == first[t]);
        }
        assert(b[n0] == 10);
        lemma_first_index(b, 10u8, n0);
        assert(b.subrange(0, n0) =~= first);
        assert(strip_cr(first) == first);
        assert(b.skip(n0 + 1) =~= render(ls.drop_first()));
        assert forall|k: int| 0 <= k < ls.drop_first().len() implies clean_line(
            #[trigger] ls.drop_first()[k],
        ) by {
            assert(ls.drop_first()[k] == ls[k + 1]);
        }
        lemma_lines_of_render(ls.drop_first());
        assert(lines_of(b) == seq![first] + ls.drop_first());
        assert(seq![first] + ls.drop_first() =~= ls);
    }
}

} // verus!
