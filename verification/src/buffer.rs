//! Line-level operations on a source buffer.
//!
//! A source buffer is the in-memory text of one file, held as its sequence
//! of lines.  A pass mutates a private copy through span-indexed delete and
//! insert operations; the strip and embed passes apply them in descending
//! span-start order, so that spans not yet applied keep valid offsets.

use vstd::prelude::*;
use vstd::string::StringExecFns;

verus! {

/// `n` spaces.
pub open spec fn spec_spaces(n: int) -> Seq<char> {
    Seq::new(if n >= 0 { n as nat } else { 0 }, |i: int| ' ')
}

/// The doc-comment marker that opens every rendered doc line.
pub open spec fn doc_marker() -> Seq<char> {
    seq!['/', '/', '/', ' ']
}

/// One doc line as it stands in a source buffer: the declaration's
/// indentation, the doc-comment marker, then the text.
pub open spec fn spec_render_doc_line(indent: int, text: Seq<char>) -> Seq<char> {
    spec_spaces(indent) + doc_marker() + text
}

/// A whole doc block rendered at one indentation.
pub open spec fn spec_render_docs(indent: int, docs: Seq<Seq<char>>) -> Seq<Seq<char>> {
    docs.map_values(|t: Seq<char>| spec_render_doc_line(indent, t))
}

/// Renders one doc line as source text.
pub fn render_doc_line(indent: usize, text: &String) -> (r: String)
    ensures
        r@ == spec_render_doc_line(indent as int, text@),
{
    let mut s = String::new();
    let mut k: usize = 0;
    while k < indent
        invariant
            k <= indent,
            s@ == spec_spaces(k as int),
        decreases indent - k,
    {
        s.append(" ");
        proof {
            reveal_strlit(" ");
            assert(s@ =~= spec_spaces((k + 1) as int));
        }
        k = k + 1;
    }
    s.append("/// ");
    proof {
        reveal_strlit("/// ");
        assert(s@ =~= spec_spaces(indent as int) + doc_marker());
    }
    s.append(text.as_str());
    proof {
        assert(s@ =~= spec_render_doc_line(indent as int, text@));
    }
    s
}

/// Renders a whole doc block at one indentation.
pub fn render_docs(indent: usize, docs: &Vec<String>) -> (r: Vec<String>)
    ensures
        r.deep_view() == spec_render_docs(indent as int, docs.deep_view()),
{
    let mut r: Vec<String> = Vec::new();
    let mut i: usize = 0;
    while i < docs.len()
        invariant
            i <= docs@.len(),
            r@.len() == i,
            forall|j: int| 0 <= j < i ==> r@[j]@ == spec_render_doc_line(
                indent as int,
                docs@[j]@,
            ),
        decreases docs.len() - i,
    {
        r.push(render_doc_line(indent, &docs[i]));
        i = i + 1;
    }
    proof {
        assert(r.deep_view() =~= spec_render_docs(indent as int, docs.deep_view()));
    }
    r
}

/// Deletes `count` lines starting at `start`.
pub fn delete_range(buf: &mut Vec<String>, start: usize, count: usize)
    requires
        start + count <= old(buf)@.len(),
    ensures
        final(buf)@ == old(buf)@.subrange(0, start as int) + old(buf)@.subrange(
            (start + count) as int,
            old(buf)@.len() as int,
        ),
        final(buf).deep_view() == old(buf).deep_view().subrange(0, start as int) + old(
            buf,
        ).deep_view().subrange((start + count) as int, old(buf)@.len() as int),
{
    let mut k: usize = 0;
    while k < count
        invariant
            k <= count,
            start + count <= old(buf)@.len(),
            buf@ == old(buf)@.subrange(0, start as int) + old(buf)@.subrange(
                (start + k) as int,
                old(buf)@.len() as int,
            ),
        decreases count - k,
    {
        let ghost pre = buf@;
        buf.remove(start);
        proof {
            assert(buf@ =~= old(buf)@.subrange(0, start as int) + old(buf)@.subrange(
                (start + k + 1) as int,
                old(buf)@.len() as int,
            ));
        }
        k = k + 1;
    }
    proof {
        assert(buf.deep_view() =~= old(buf).deep_view().subrange(0, start as int) + old(
            buf,
        ).deep_view().subrange((start + count) as int, old(buf)@.len() as int));
    }
}

/// Inserts the given lines so that they start at line `at`.
pub fn insert_lines(buf: &mut Vec<String>, at: usize, lines: &Vec<String>)
    requires
        at <= old(buf)@.len(),
    ensures
        final(buf).deep_view() == old(buf).deep_view().subrange(0, at as int)
            + lines.deep_view() + old(buf).deep_view().subrange(
            at as int,
            old(buf)@.len() as int,
        ),
{
    let mut j: usize = lines.len();
    while j > 0
        invariant
            j <= lines@.len(),
            at <= old(buf)@.len(),
            buf@.len() == old(buf)@.len() + (lines@.len() - j),
            forall|p: int| 0 <= p < at ==> buf@[p] == old(buf)@[p],
            forall|p: int| j <= p < lines@.len() ==> buf@[at + (p - j)]@ == lines@[p]@,
            forall|p: int| at <= p < old(buf)@.len() ==> buf@[p + (lines@.len() - j)]
                == old(buf)@[p],
        decreases j,
    {
        j = j - 1;
        buf.insert(at, lines[j].clone());
    }
    proof {
        assert(final(buf).deep_view() =~= old(buf).deep_view().subrange(0, at as int)
            + lines.deep_view() + old(buf).deep_view().subrange(
            at as int,
            old(buf)@.len() as int,
        ));
    }
}

} // verus!
