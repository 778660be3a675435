//! The mode controller: the strip and embed passes over one compilation
//! unit, each a single pass over a source tree and its line buffer.
//!
//! Strip collects every documented declaration, builds a doc store from
//! the non-empty doc blocks, and deletes the doc-comment spans from the
//! buffer in descending span-start order.  Embed walks the declarations of
//! a doc-free buffer, looks each address up in a store, and inserts the
//! rendered doc lines immediately before each declaration, again in
//! descending span-start order.  Stale store entries — addresses with no
//! matching declaration — are skipped, never fatal; [`stale_entries`]
//! lists them so a caller can report the warnings.

use vstd::prelude::*;
use crate::tree::SourceTree;
use crate::visit::clone_string_vec;
use crate::visit::spec_visit;
use crate::visit::visit_source_tree;
use crate::address::Address;
use crate::address::Declaration;
use crate::address::DeclarationV;
use crate::address::PassError;
use crate::address::SegV;
use crate::address::addr_eq;
use crate::address::assign_addresses;
use crate::address::clone_address;
use crate::address::decl_seq_view;
use crate::address::spec_assign;
use crate::address::unique_addresses;
use crate::buffer::delete_range;
use crate::buffer::insert_lines;
use crate::buffer::render_doc_line;
use crate::buffer::render_docs;
use crate::buffer::spec_render_doc_line;
use crate::buffer::spec_render_docs;
use crate::store::DocRecord;
use crate::store::DocStore;
use crate::store::RecV;
use crate::store::lookup;
use crate::store::spec_lookup;

verus! {

/// First line of a declaration's doc block: the doc lines sit immediately
/// before the declaration's own line.
pub open spec fn doc_start(d: DeclarationV) -> int {
    d.line - d.docs.len()
}

/// The declaration and its doc block stand in the buffer where its spans
/// say: the block's lines hold exactly the rendered doc text.
pub open spec fn decl_wf(d: DeclarationV, buf: Seq<Seq<char>>) -> bool {
    &&& 0 <= doc_start(d)
    &&& d.line < buf.len()
    &&& forall|k: int| 0 <= k < d.docs.len() ==> buf[doc_start(d) + k] == spec_render_doc_line(
        d.indent,
        d.docs[k],
    )
}

/// Declarations appear in ascending source order with disjoint doc spans.
pub open spec fn decls_ordered(ds: Seq<DeclarationV>) -> bool {
    forall|i: int| 0 <= i < ds.len() - 1 ==> ds[i].line < doc_start(ds[i + 1])
}

/// A declaration sequence consistent with its buffer: what the frontend
/// guarantees of a tree it parsed out of that buffer.
pub open spec fn source_wf(ds: Seq<DeclarationV>, buf: Seq<Seq<char>>) -> bool {
    &&& forall|i: int| 0 <= i < ds.len() ==> decl_wf(ds[i], buf)
    &&& decls_ordered(ds)
}

/// The buffer with one declaration's doc block removed.
pub open spec fn delete_block(buf: Seq<Seq<char>>, d: DeclarationV) -> Seq<Seq<char>> {
    buf.subrange(0, doc_start(d)) + buf.subrange(d.line, buf.len() as int)
}

/// The buffer after the strip pass: every doc block deleted, in descending
/// span-start order, so that spans not yet applied keep valid offsets.
pub open spec fn spec_strip_buf(buf: Seq<Seq<char>>, ds: Seq<DeclarationV>) -> Seq<Seq<char>>
    decreases ds.len(),
{
    if ds.len() == 0 {
        buf
    } else {
        spec_strip_buf(delete_block(buf, ds.last()), ds.drop_last())
    }
}

/// The store built by the strip pass: one record per documented
/// declaration, in source order; declarations without docs yield no record
/// at all, so the store never accumulates blank entries.
pub open spec fn spec_strip_records(ds: Seq<DeclarationV>) -> Seq<RecV>
    decreases ds.len(),
{
    if ds.len() == 0 {
        Seq::empty()
    } else {
        let head: Seq<RecV> = if ds.first().docs.len() > 0 {
            seq![RecV { addr: ds.first().address, lines: ds.first().docs }]
        } else {
            Seq::empty()
        };
        head + spec_strip_records(ds.drop_first())
    }
}

/// Total doc lines carried by the first `i` declarations.
pub open spec fn docs_upto(ds: Seq<DeclarationV>, i: int) -> int
    decreases i,
{
    if i <= 0 {
        0
    } else {
        docs_upto(ds, i - 1) + ds[i - 1].docs.len()
    }
}

/// Total doc lines carried by a declaration sequence.
pub open spec fn total_docs(ds: Seq<DeclarationV>) -> int {
    docs_upto(ds, ds.len() as int)
}

/// The declaration at index `i` as it stands after the strip pass: same
/// identity and address, no docs, line shifted up by every doc line
/// removed at or before it.
pub open spec fn strip_decl(ds: Seq<DeclarationV>, i: int) -> DeclarationV {
    DeclarationV {
        kind: ds[i].kind,
        name: ds[i].name,
        address: ds[i].address,
        docs: Seq::empty(),
        line: ds[i].line - docs_upto(ds, i + 1),
        indent: ds[i].indent,
    }
}

/// The whole declaration sequence as it stands after the strip pass.
pub open spec fn spec_strip_decls(ds: Seq<DeclarationV>) -> Seq<DeclarationV> {
    Seq::new(ds.len(), |i: int| strip_decl(ds, i))
}

/// The buffer with one doc block inserted immediately before a
/// declaration, rendered at the declaration's indentation.
pub open spec fn insert_block(
    buf: Seq<Seq<char>>,
    d: DeclarationV,
    lines: Seq<Seq<char>>,
) -> Seq<Seq<char>> {
    buf.subrange(0, d.line) + spec_render_docs(d.indent, lines) + buf.subrange(
        d.line,
        buf.len() as int,
    )
}

/// The buffer after the embed pass: each declaration whose address is in
/// the store gets that record's lines inserted before it, in descending
/// span-start order; declarations without a record stay undocumented.
pub open spec fn spec_embed_buf(
    buf: Seq<Seq<char>>,
    ds: Seq<DeclarationV>,
    store: Seq<RecV>,
) -> Seq<Seq<char>>
    decreases ds.len(),
{
    if ds.len() == 0 {
        buf
    } else {
        let b = match spec_lookup(store, ds.last().address) {
            Some(lines) => insert_block(buf, ds.last(), lines),
            None => buf,
        };
        spec_embed_buf(b, ds.drop_last(), store)
    }
}

// ---- ordering and arithmetic lemmas ----

proof fn lemma_ordered_mono(ds: Seq<DeclarationV>, i: int, j: int)
    requires
        decls_ordered(ds),
        forall|k: int| 0 <= k < ds.len() ==> #[trigger] ds[k].docs.len() >= 0,
        0 <= i < j < ds.len(),
    ensures
        ds[i].line < doc_start(ds[j]),
        ds[i].line < ds[j].line,
    decreases j - i,
{
    if j == i + 1 {
    } else {
        lemma_ordered_mono(ds, i, j - 1);
        assert(ds[j - 1].line < doc_start(ds[j]));
    }
}

proof fn lemma_docs_upto_nonneg(ds: Seq<DeclarationV>, i: int)
    ensures
        docs_upto(ds, i) >= 0,
    decreases i,
{
    if i > 0 {
        lemma_docs_upto_nonneg(ds, i - 1);
    }
}

proof fn lemma_docs_upto_drop_last(ds: Seq<DeclarationV>, i: int)
    requires
        0 <= i <= ds.len() - 1,
    ensures
        docs_upto(ds, i) == docs_upto(ds.drop_last(), i),
    decreases i,
{
    if i > 0 {
        lemma_docs_upto_drop_last(ds, i - 1);
    }
}

proof fn lemma_docs_upto_suffix(ds: Seq<DeclarationV>, i: int, j: int)
    requires
        0 <= i <= j <= ds.len(),
    ensures
        docs_upto(ds, j) - docs_upto(ds, i) == total_docs(ds.subrange(i, j)),
    decreases j - i,
{
    if j == i {
        assert(ds.subrange(i, i).len() == 0);
    } else {
        lemma_docs_upto_suffix(ds, i, j - 1);
        let sub = ds.subrange(i, j);
        assert(sub.drop_last() =~= ds.subrange(i, j - 1));
        assert(sub.last() == ds[j - 1]);
        assert(total_docs(sub) == docs_upto(sub, sub.len() as int));
        assert(docs_upto(sub, sub.len() as int) == docs_upto(sub, sub.len() - 1)
            + sub[sub.len() - 1].docs.len());
        lemma_docs_upto_drop_last(sub, sub.len() - 1);
    }
}

// ---- strip shape: length and untouched prefix ----

proof fn lemma_strip_shape(buf: Seq<Seq<char>>, s: Seq<DeclarationV>)
    requires
        forall|i: int| 0 <= i < s.len() ==> decl_wf(#[trigger] s[i], buf),
        decls_ordered(s),
    ensures
        spec_strip_buf(buf, s).len() == buf.len() - total_docs(s),
        forall|j: int| 0 <= j < (if s.len() == 0 { buf.len() as int } else { doc_start(s.first()) })
            ==> #[trigger] spec_strip_buf(buf, s)[j] == buf[j],
    decreases s.len(),
{
    if s.len() == 0 {
    } else {
        let d = s.last();
        let b1 = delete_block(buf, d);
        let rest = s.drop_last();
        assert(b1.len() == buf.len() - d.docs.len());
        assert forall|j: int| 0 <= j < doc_start(d) implies b1[j] == buf[j] by {}
        assert forall|i: int| 0 <= i < rest.len() implies decl_wf(#[trigger] rest[i], b1) by {
            assert(rest[i] == s[i]);
            if i < s.len() - 2 {
                assert(decls_ordered(rest));
            }
            if rest.len() >= 1 {
                lemma_ordered_mono(s, i, s.len() - 1);
            }
            assert(s[i].line < doc_start(d));
            assert forall|k: int| 0 <= k < s[i].docs.len() implies b1[doc_start(s[i]) + k]
                == spec_render_doc_line(s[i].indent, s[i].docs[k]) by {
                assert(doc_start(s[i]) + k < doc_start(d));
            }
        }
        assert(decls_ordered(rest));
        lemma_strip_shape(b1, rest);
        lemma_docs_upto_drop_last(s, s.len() - 1);
        assert(total_docs(s) == total_docs(rest) + d.docs.len());
        if rest.len() > 0 {
            assert(rest.first() == s.first());
            lemma_ordered_mono(s, 0, s.len() - 1);
            assert forall|j: int| 0 <= j < doc_start(s.first()) implies #[trigger] spec_strip_buf(
                buf,
                s,
            )[j] == buf[j] by {
                assert(spec_strip_buf(buf, s)[j] == spec_strip_buf(b1, rest)[j]);
                assert(spec_strip_buf(b1, rest)[j] == b1[j]);
                assert(j < doc_start(d));
            }
        }
    }
}

proof fn lemma_suffix_room(ds: Seq<DeclarationV>, buf: Seq<Seq<char>>, i: int)
    requires
        source_wf(ds, buf),
        0 <= i < ds.len(),
    ensures
        ds[i].line <= buf.len() - total_docs(ds.subrange(i + 1, ds.len() as int)),
    decreases ds.len() - i,
{
    let n = ds.len() as int;
    if i == n - 1 {
        assert(ds.subrange(n, n).len() == 0);
    } else {
        lemma_suffix_room(ds, buf, i + 1);
        let tail = ds.subrange(i + 1, n);
        assert(tail.first() == ds[i + 1]);
        assert(tail.drop_first() =~= ds.subrange(i + 2, n));
        lemma_total_drop_first(tail);
        assert(ds[i].line < doc_start(ds[i + 1]));
    }
}

proof fn lemma_total_drop_first(s: Seq<DeclarationV>)
    requires
        s.len() > 0,
    ensures
        total_docs(s) == s.first().docs.len() + total_docs(s.drop_first()),
{
    lemma_docs_upto_suffix(s, 1, s.len() as int);
    assert(s.subrange(1, s.len() as int) =~= s.drop_first());
    assert(docs_upto(s, 0) == 0);
    assert(docs_upto(s, 1) == s[0].docs.len());
}

proof fn lemma_strip_front(buf: Seq<Seq<char>>, s: Seq<DeclarationV>)
    requires
        s.len() > 0,
    ensures
        spec_strip_buf(buf, s) == delete_block(spec_strip_buf(buf, s.drop_first()), s.first()),
    decreases s.len(),
{
    if s.len() == 1 {
        assert(s.drop_last() =~= Seq::<DeclarationV>::empty());
        assert(s.drop_first() =~= Seq::<DeclarationV>::empty());
        assert(s.first() == s.last());
        assert(spec_strip_buf(delete_block(buf, s.last()), Seq::<DeclarationV>::empty())
            == delete_block(buf, s.last()));
        assert(spec_strip_buf(buf, Seq::<DeclarationV>::empty()) == buf);
    } else {
        let b1 = delete_block(buf, s.last());
        lemma_strip_front(b1, s.drop_last());
        assert(s.drop_last().first() == s.first());
        assert(s.drop_last().drop_first() =~= s.drop_first().drop_last());
        assert(s.drop_first().last() == s.last());
        assert(spec_strip_buf(buf, s.drop_first()) == spec_strip_buf(
            delete_block(buf, s.last()),
            s.drop_first().drop_last(),
        ));
        assert(spec_strip_buf(buf, s) == spec_strip_buf(b1, s.drop_last()));
    }
}

proof fn lemma_embed_front(buf: Seq<Seq<char>>, s: Seq<DeclarationV>, store: Seq<RecV>)
    requires
        s.len() > 0,
    ensures
        spec_embed_buf(buf, s, store) == (match spec_lookup(store, s.first().address) {
            Some(lines) => insert_block(spec_embed_buf(buf, s.drop_first(), store), s.first(), lines),
            None => spec_embed_buf(buf, s.drop_first(), store),
        }),
    decreases s.len(),
{
    if s.len() == 1 {
        assert(s.drop_last() =~= Seq::<DeclarationV>::empty());
        assert(s.drop_first() =~= Seq::<DeclarationV>::empty());
        assert(s.first() == s.last());
        let b1 = match spec_lookup(store, s.last().address) {
            Some(lines) => insert_block(buf, s.last(), lines),
            None => buf,
        };
        assert(spec_embed_buf(b1, Seq::<DeclarationV>::empty(), store) == b1);
        assert(spec_embed_buf(buf, Seq::<DeclarationV>::empty(), store) == buf);
    } else {
        let b1 = match spec_lookup(store, s.last().address) {
            Some(lines) => insert_block(buf, s.last(), lines),
            None => buf,
        };
        lemma_embed_front(b1, s.drop_last(), store);
        assert(s.drop_last().first() == s.first());
        assert(s.drop_last().drop_first() =~= s.drop_first().drop_last());
        assert(s.drop_first().last() == s.last());
        let b2 = match spec_lookup(store, s.drop_first().last().address) {
            Some(lines) => insert_block(buf, s.drop_first().last(), lines),
            None => buf,
        };
        assert(b2 == b1);
        assert(spec_embed_buf(buf, s.drop_first(), store) == spec_embed_buf(
            b1,
            s.drop_first().drop_last(),
            store,
        ));
        assert(spec_embed_buf(buf, s, store) == spec_embed_buf(b1, s.drop_last(), store));
    }
}

proof fn lemma_embed_len_ge(buf: Seq<Seq<char>>, s: Seq<DeclarationV>, store: Seq<RecV>)
    requires
        forall|i: int| 0 <= i < s.len() ==> 0 <= #[trigger] s[i].line <= buf.len(),
    ensures
        spec_embed_buf(buf, s, store).len() >= buf.len(),
    decreases s.len(),
{
    if s.len() > 0 {
        let b1 = match spec_lookup(store, s.last().address) {
            Some(lines) => insert_block(buf, s.last(), lines),
            None => buf,
        };
        assert(b1.len() >= buf.len());
        assert forall|i: int| 0 <= i < s.drop_last().len() implies 0 <= #[trigger] s.drop_last()[
            i
        ].line <= b1.len() by {
            assert(s.drop_last()[i] == s[i]);
        }
        lemma_embed_len_ge(b1, s.drop_last(), store);
    }
}

proof fn lemma_records_append(a: Seq<DeclarationV>, b: Seq<DeclarationV>)
    ensures
        spec_strip_records(a + b) == spec_strip_records(a) + spec_strip_records(b),
    decreases a.len(),
{
    if a.len() == 0 {
        assert(a + b =~= b);
        assert(spec_strip_records(a) == Seq::<RecV>::empty());
        assert(spec_strip_records(a) + spec_strip_records(b) =~= spec_strip_records(b));
    } else {
        assert((a + b).first() == a.first());
        assert((a + b).drop_first() =~= a.drop_first() + b);
        lemma_records_append(a.drop_first(), b);
        assert(spec_strip_records(a + b) =~= spec_strip_records(a) + spec_strip_records(b));
    }
}

proof fn lemma_records_snoc(ds: Seq<DeclarationV>, i: int)
    requires
        0 <= i < ds.len(),
    ensures
        spec_strip_records(ds.subrange(0, i + 1)) == spec_strip_records(ds.subrange(0, i)) + (
        if ds[i].docs.len() > 0 {
            seq![RecV { addr: ds[i].address, lines: ds[i].docs }]
        } else {
            Seq::<RecV>::empty()
        }),
{
    let single = seq![ds[i]];
    assert(ds.subrange(0, i + 1) =~= ds.subrange(0, i) + single);
    lemma_records_append(ds.subrange(0, i), single);
    assert(single.drop_first() =~= Seq::<DeclarationV>::empty());
    assert(spec_strip_records(Seq::<DeclarationV>::empty()) == Seq::<RecV>::empty());
    assert(spec_strip_records(single) =~= (if ds[i].docs.len() > 0 {
        seq![RecV { addr: ds[i].address, lines: ds[i].docs }]
    } else {
        Seq::<RecV>::empty()
    }));
}

/// No blank entries: a store built by the strip pass never holds a record
/// with empty doc lines.
pub proof fn lemma_no_blank_entries(ds: Seq<DeclarationV>)
    ensures
        forall|k: int| 0 <= k < spec_strip_records(ds).len() ==> (#[trigger] spec_strip_records(
            ds,
        )[k]).lines.len() > 0,
    decreases ds.len(),
{
    if ds.len() > 0 {
        lemma_no_blank_entries(ds.drop_first());
        let head: Seq<RecV> = if ds.first().docs.len() > 0 {
            seq![RecV { addr: ds.first().address, lines: ds.first().docs }]
        } else {
            Seq::<RecV>::empty()
        };
        assert forall|k: int| 0 <= k < spec_strip_records(ds).len() implies (
        #[trigger] spec_strip_records(ds)[k]).lines.len() > 0 by {
            if k >= head.len() {
                assert(spec_strip_records(ds)[k] == spec_strip_records(ds.drop_first())[k
                    - head.len()]);
            }
        }
    }
}

// ---- the round trip ----

proof fn lemma_room_below(ds: Seq<DeclarationV>, buf: Seq<Seq<char>>, i: int)
    requires
        source_wf(ds, buf),
        0 <= i < ds.len(),
    ensures
        doc_start(ds[i]) >= docs_upto(ds, i),
    decreases i,
{
    if i == 0 {
        assert(decl_wf(ds[0], buf));
    } else {
        lemma_room_below(ds, buf, i - 1);
        assert(ds[i - 1].line < doc_start(ds[i]));
        assert(ds[i - 1].line == doc_start(ds[i - 1]) + ds[i - 1].docs.len());
    }
}

proof fn lemma_stripped_positions(ds: Seq<DeclarationV>, buf: Seq<Seq<char>>)
    requires
        source_wf(ds, buf),
    ensures
        forall|i: int| 0 <= i < ds.len() ==> 0 <= (#[trigger] strip_decl(ds, i)).line <= buf.len()
            - total_docs(ds),
{
    assert forall|i: int| 0 <= i < ds.len() implies 0 <= (#[trigger] strip_decl(ds, i)).line
        <= buf.len() - total_docs(ds) by {
        lemma_suffix_room(ds, buf, i);
        lemma_docs_upto_suffix(ds, i + 1, ds.len() as int);
        lemma_room_below(ds, buf, i);
        assert(decl_wf(ds[i], buf));
    }
}

proof fn lemma_rest_wf(ds: Seq<DeclarationV>, buf: Seq<Seq<char>>)
    requires
        source_wf(ds, buf),
        ds.len() > 0,
    ensures
        forall|i: int| 0 <= i < ds.len() - 1 ==> decl_wf(
            #[trigger] ds.drop_last()[i],
            buf.subrange(0, doc_start(ds.last())),
        ),
        decls_ordered(ds.drop_last()),
        source_wf(ds.drop_last(), buf.subrange(0, doc_start(ds.last()))),
{
    let d = ds.last();
    let p = buf.subrange(0, doc_start(d));
    let rest = ds.drop_last();
    assert(decl_wf(d, buf));
    assert forall|i: int| 0 <= i < rest.len() implies decl_wf(#[trigger] rest[i], p) by {
        assert(rest[i] == ds[i]);
        lemma_ordered_mono(ds, i, ds.len() - 1);
        assert(ds[i].line < doc_start(d));
        assert(decl_wf(ds[i], buf));
        assert forall|k: int| 0 <= k < ds[i].docs.len() implies p[doc_start(ds[i]) + k]
            == spec_render_doc_line(ds[i].indent, ds[i].docs[k]) by {
            assert(doc_start(ds[i]) + k < doc_start(d));
            assert(p[doc_start(ds[i]) + k] == buf[doc_start(ds[i]) + k]);
        }
    }
    assert(decls_ordered(rest));
}

proof fn lemma_strip_split(p: Seq<Seq<char>>, c: Seq<Seq<char>>, s: Seq<DeclarationV>)
    requires
        forall|i: int| 0 <= i < s.len() ==> decl_wf(#[trigger] s[i], p),
        decls_ordered(s),
    ensures
        spec_strip_buf(p + c, s) == spec_strip_buf(p, s) + c,
    decreases s.len(),
{
    if s.len() == 0 {
    } else {
        let d = s.last();
        assert(decl_wf(d, p));
        assert(delete_block(p + c, d) =~= delete_block(p, d) + c);
        lemma_rest_wf_in_place(p, s);
        lemma_strip_split(delete_block(p, d), c, s.drop_last());
    }
}

proof fn lemma_rest_wf_in_place(p: Seq<Seq<char>>, s: Seq<DeclarationV>)
    requires
        forall|i: int| 0 <= i < s.len() ==> decl_wf(#[trigger] s[i], p),
        decls_ordered(s),
        s.len() > 0,
    ensures
        forall|i: int| 0 <= i < s.len() - 1 ==> decl_wf(
            #[trigger] s.drop_last()[i],
            delete_block(p, s.last()),
        ),
        decls_ordered(s.drop_last()),
{
    let d = s.last();
    let b1 = delete_block(p, d);
    assert(decl_wf(d, p));
    assert(b1.len() == p.len() - d.docs.len());
    assert forall|i: int| 0 <= i < s.len() - 1 implies decl_wf(#[trigger] s.drop_last()[i], b1) by {
        assert(s.drop_last()[i] == s[i]);
        lemma_ordered_mono(s, i, s.len() - 1);
        assert(s[i].line < doc_start(d));
        assert(decl_wf(s[i], p));
        assert forall|k: int| 0 <= k < s[i].docs.len() implies b1[doc_start(s[i]) + k]
            == spec_render_doc_line(s[i].indent, s[i].docs[k]) by {
            assert(doc_start(s[i]) + k < doc_start(d));
            assert(b1[doc_start(s[i]) + k] == p[doc_start(s[i]) + k]);
        }
    }
    assert(decls_ordered(s.drop_last()));
}

proof fn lemma_embed_split(
    b: Seq<Seq<char>>,
    t: Seq<Seq<char>>,
    es: Seq<DeclarationV>,
    store: Seq<RecV>,
)
    requires
        forall|i: int| 0 <= i < es.len() ==> 0 <= #[trigger] es[i].line <= b.len(),
    ensures
        spec_embed_buf(b + t, es, store) == spec_embed_buf(b, es, store) + t,
    decreases es.len(),
{
    if es.len() > 0 {
        let e = es.last();
        match spec_lookup(store, e.address) {
            Some(lines) => {
                assert(insert_block(b + t, e, lines) =~= insert_block(b, e, lines) + t);
                let b2 = insert_block(b, e, lines);
                assert(b2.len() >= b.len());
                assert forall|i: int| 0 <= i < es.drop_last().len() implies 0 <= #[trigger] es.drop_last()[
                    i
                ].line <= b2.len() by {
                    assert(es.drop_last()[i] == es[i]);
                }
                lemma_embed_split(b2, t, es.drop_last(), store);
            },
            None => {
                assert forall|i: int| 0 <= i < es.drop_last().len() implies 0
                    <= #[trigger] es.drop_last()[i].line <= b.len() by {
                    assert(es.drop_last()[i] == es[i]);
                }
                lemma_embed_split(b, t, es.drop_last(), store);
            },
        }
    }
}

proof fn lemma_strip_decls_drop_last(ds: Seq<DeclarationV>)
    requires
        ds.len() > 0,
    ensures
        spec_strip_decls(ds).drop_last() == spec_strip_decls(ds.drop_last()),
{
    assert forall|i: int| 0 <= i < ds.len() - 1 implies spec_strip_decls(ds).drop_last()[i]
        == spec_strip_decls(ds.drop_last())[i] by {
        lemma_docs_upto_drop_last(ds, i + 1);
        assert(strip_decl(ds, i) == strip_decl(ds.drop_last(), i));
    }
    assert(spec_strip_decls(ds).drop_last() =~= spec_strip_decls(ds.drop_last()));
}

/// The round trip, generalized over any store whose lookups return exactly
/// each declaration's doc block: embedding what strip removed, against the
/// stripped declarations of the stripped buffer, restores the original
/// buffer line for line.
proof fn lemma_round_trip_store(ds: Seq<DeclarationV>, buf: Seq<Seq<char>>, store: Seq<RecV>)
    requires
        source_wf(ds, buf),
        forall|i: int| 0 <= i < ds.len() ==> spec_lookup(store, (#[trigger] ds[i]).address) == (
        if ds[i].docs.len() > 0 {
            Some(ds[i].docs)
        } else {
            None
        }),
    ensures
        spec_embed_buf(spec_strip_buf(buf, ds), spec_strip_decls(ds), store) == buf,
    decreases ds.len(),
{
    if ds.len() == 0 {
        assert(spec_strip_decls(ds) =~= Seq::<DeclarationV>::empty());
        assert(spec_embed_buf(buf, Seq::<DeclarationV>::empty(), store) == buf);
    } else {
        let n = ds.len() as int;
        let d = ds.last();
        let rest = ds.drop_last();
        assert(decl_wf(d, buf));
        let p = buf.subrange(0, doc_start(d));
        let c = buf.subrange(d.line, buf.len() as int);
        let dblock = buf.subrange(doc_start(d), d.line);
        assert(delete_block(buf, d) =~= p + c);
        lemma_rest_wf(ds, buf);
        lemma_strip_split(p, c, rest);
        assert(spec_strip_buf(buf, ds) == spec_strip_buf(p + c, rest));
        let sp = spec_strip_buf(p, rest);
        lemma_strip_shape(p, rest);
        assert(sp.len() == p.len() - total_docs(rest));
        lemma_strip_decls_drop_last(ds);
        let ds2 = spec_strip_decls(ds);
        let dn = ds2.last();
        assert(dn == strip_decl(ds, n - 1));
        lemma_docs_upto_drop_last(ds, n - 1);
        assert(docs_upto(ds, n - 1) == total_docs(rest));
        assert(dn.line == doc_start(d) - total_docs(rest));
        assert(dn.line == sp.len());
        assert(dn.address == d.address);
        assert(dn.indent == d.indent);
        // the rendered block equals what was deleted
        assert(spec_render_docs(d.indent, d.docs) =~= dblock);
        // one embed step for the last declaration
        let s_full = spec_strip_buf(buf, ds);
        assert(s_full == sp + c);
        let b = if d.docs.len() > 0 {
            insert_block(s_full, dn, d.docs)
        } else {
            s_full
        };
        assert(spec_embed_buf(s_full, ds2, store) == spec_embed_buf(b, ds2.drop_last(), store));
        assert(b =~= sp + (dblock + c)) by {
            if d.docs.len() > 0 {
                assert(insert_block(s_full, dn, d.docs) =~= sp + (dblock + c));
            } else {
                assert(dblock =~= Seq::<Seq<char>>::empty());
                assert(s_full =~= sp + (dblock + c));
            }
        }
        // the remaining embeds stay inside the stripped prefix
        lemma_stripped_positions(rest, p);
        assert forall|i: int| 0 <= i < spec_strip_decls(rest).len() implies 0
            <= #[trigger] spec_strip_decls(rest)[i].line <= sp.len() by {
            assert(spec_strip_decls(rest)[i] == strip_decl(rest, i));
        }
        lemma_embed_split(sp, dblock + c, spec_strip_decls(rest), store);
        // the inner round trip restores the prefix
        assert forall|i: int| 0 <= i < rest.len() implies spec_lookup(
            store,
            (#[trigger] rest[i]).address,
        ) == (if rest[i].docs.len() > 0 {
            Some(rest[i].docs)
        } else {
            None
        }) by {
            assert(rest[i] == ds[i]);
        }
        lemma_round_trip_store(rest, p, store);
        assert(spec_embed_buf(b, ds2.drop_last(), store) == spec_embed_buf(
            sp + (dblock + c),
            spec_strip_decls(rest),
            store,
        ));
        assert(spec_embed_buf(sp, spec_strip_decls(rest), store) == p);
        assert(p + (dblock + c) =~= buf);
    }
}

proof fn lemma_lookup_none(ds: Seq<DeclarationV>, a: Seq<crate::address::SegV>)
    requires
        forall|j: int| 0 <= j < ds.len() ==> (#[trigger] ds[j]).address != a,
    ensures
        spec_lookup(spec_strip_records(ds), a) is None,
    decreases ds.len(),
{
    if ds.len() > 0 {
        assert forall|j: int| 0 <= j < ds.drop_first().len() implies (#[trigger] ds.drop_first()[
            j
        ]).address != a by {
            assert(ds.drop_first()[j] == ds[j + 1]);
        }
        lemma_lookup_none(ds.drop_first(), a);
        let recs = spec_strip_records(ds);
        if ds.first().docs.len() > 0 {
            assert(recs.first().addr == ds.first().address);
            assert(recs.drop_first() =~= spec_strip_records(ds.drop_first()));
        } else {
            assert(recs =~= spec_strip_records(ds.drop_first()));
        }
    }
}

proof fn lemma_lookup_records(ds: Seq<DeclarationV>, i: int)
    requires
        unique_addresses(ds),
        0 <= i < ds.len(),
    ensures
        spec_lookup(spec_strip_records(ds), ds[i].address) == (if ds[i].docs.len() > 0 {
            Some(ds[i].docs)
        } else {
            None
        }),
    decreases ds.len(),
{
    let rest = ds.drop_first();
    let recs = spec_strip_records(ds);
    if i == 0 {
        if ds[0].docs.len() > 0 {
            assert(recs.first() == (RecV { addr: ds[0].address, lines: ds[0].docs }));
        } else {
            assert(recs =~= spec_strip_records(rest));
            assert forall|j: int| 0 <= j < rest.len() implies (#[trigger] rest[j]).address
                != ds[0].address by {
                assert(rest[j] == ds[j + 1]);
            }
            lemma_lookup_none(rest, ds[0].address);
        }
    } else {
        assert forall|p: int, q: int| 0 <= p < q < rest.len() implies (#[trigger] rest[p]).address
            != (#[trigger] rest[q]).address by {
            assert(rest[p] == ds[p + 1]);
            assert(rest[q] == ds[q + 1]);
        }
        assert(rest[i - 1] == ds[i]);
        lemma_lookup_records(rest, i - 1);
        if ds[0].docs.len() > 0 {
            assert(recs.first().addr == ds[0].address);
            assert(ds[0].address != ds[i].address);
            assert(recs.drop_first() =~= spec_strip_records(rest));
        } else {
            assert(recs =~= spec_strip_records(rest));
        }
    }
}

/// Round trip: stripping a well-formed source and embedding the resulting
/// store back into the stripped buffer — against the stripped declarations,
/// whose addresses are unchanged — restores the original buffer, line for
/// line, doc placement and content included.
pub proof fn lemma_round_trip(ds: Seq<DeclarationV>, buf: Seq<Seq<char>>)
    requires
        source_wf(ds, buf),
        unique_addresses(ds),
    ensures
        spec_embed_buf(
            spec_strip_buf(buf, ds),
            spec_strip_decls(ds),
            spec_strip_records(ds),
        ) == buf,
{
    assert forall|i: int| 0 <= i < ds.len() implies spec_lookup(
        spec_strip_records(ds),
        (#[trigger] ds[i]).address,
    ) == (if ds[i].docs.len() > 0 {
        Some(ds[i].docs)
    } else {
        None
    }) by {
        lemma_lookup_records(ds, i);
    }
    lemma_round_trip_store(ds, buf, spec_strip_records(ds));
}

proof fn lemma_strip_no_docs(ds: Seq<DeclarationV>, buf: Seq<Seq<char>>)
    requires
        forall|i: int| 0 <= i < ds.len() ==> (#[trigger] ds[i]).docs.len() == 0,
        forall|i: int| 0 <= i < ds.len() ==> 0 <= (#[trigger] ds[i]).line <= buf.len(),
    ensures
        spec_strip_buf(buf, ds) == buf,
        spec_strip_records(ds) == Seq::<RecV>::empty(),
    decreases ds.len(),
{
    if ds.len() > 0 {
        let d = ds.last();
        assert(delete_block(buf, d) =~= buf);
        assert forall|i: int| 0 <= i < ds.drop_last().len() implies (#[trigger] ds.drop_last()[
            i
        ]).docs.len() == 0 && 0 <= ds.drop_last()[i].line <= buf.len() by {
            assert(ds.drop_last()[i] == ds[i]);
        }
        lemma_strip_no_docs(ds.drop_last(), buf);
        assert forall|i: int| 0 <= i < ds.drop_first().len() implies (#[trigger] ds.drop_first()[
            i
        ]).docs.len() == 0 && 0 <= ds.drop_first()[i].line <= buf.len() by {
            assert(ds.drop_first()[i] == ds[i + 1]);
        }
        lemma_strip_no_docs(ds.drop_first(), buf);
        assert(spec_strip_records(ds) =~= Seq::<RecV>::empty());
    }
}

/// Strip idempotence: running the strip pass over an already-stripped
/// compilation unit yields an empty store and leaves the buffer unchanged,
/// because the stripped declarations carry no doc lines at all.
pub proof fn lemma_strip_idempotent(ds: Seq<DeclarationV>, buf: Seq<Seq<char>>)
    requires
        source_wf(ds, buf),
    ensures
        spec_strip_buf(spec_strip_buf(buf, ds), spec_strip_decls(ds)) == spec_strip_buf(buf, ds),
        spec_strip_records(spec_strip_decls(ds)) == Seq::<RecV>::empty(),
{
    let sb = spec_strip_buf(buf, ds);
    let ds2 = spec_strip_decls(ds);
    assert forall|i: int| 0 <= i < ds.len() implies decl_wf(#[trigger] ds[i], buf) by {}
    lemma_strip_shape(buf, ds);
    lemma_stripped_positions(ds, buf);
    assert forall|i: int| 0 <= i < ds2.len() implies (#[trigger] ds2[i]).docs.len() == 0 && 0
        <= ds2[i].line <= sb.len() by {
        assert(ds2[i] == strip_decl(ds, i));
    }
    lemma_strip_no_docs(ds2, sb);
}

/// Decides whether a tree and its buffer are consistent and addressable:
/// every declaration's line is in the buffer, its doc block sits
/// immediately before it holding exactly the rendered doc text, the
/// declarations come in ascending source order with disjoint doc spans,
/// and their structural addresses are pairwise unique.  This is exactly
/// the condition under which the strip and embed passes run, so an
/// unverified caller can gate on this answer and refuse the file
/// otherwise.
pub fn source_consistent(tree: &SourceTree, buffer: &Vec<String>) -> (r: bool)
    ensures
        r == (source_wf(spec_assign(spec_visit(*tree)), buffer.deep_view())
            && unique_addresses(spec_assign(spec_visit(*tree)))),
{
    let ghost ds = spec_assign(spec_visit(*tree));
    let ghost bufdv = buffer.deep_view();
    let raw = visit_source_tree(tree);
    let assigned = match assign_addresses(&raw) {
        Ok(a) => a,
        Err(_) => {
            return false;
        },
    };
    proof {
        assert(decl_seq_view(assigned@) == ds);
        assert(ds.len() == assigned@.len());
        assert(unique_addresses(ds));
    }
    let n = assigned.len();
    let mut i: usize = 0;
    while i < n
        invariant
            i <= n,
            n == assigned@.len(),
            decl_seq_view(assigned@) == ds,
            ds == spec_assign(spec_visit(*tree)),
            ds.len() == n,
            unique_addresses(ds),
            bufdv == buffer.deep_view(),
            bufdv.len() == buffer@.len(),
            forall|j: int| 0 <= j < i ==> decl_wf(#[trigger] ds[j], bufdv),
            forall|j: int| 0 <= j < i - 1 ==> #[trigger] ds[j].line < doc_start(ds[j + 1]),
        decreases n - i,
    {
        let d = &assigned[i];
        proof {
            assert(ds[i as int] == d@);
        }
        if d.line >= buffer.len() || d.docs.len() > d.line {
            proof {
                assert(!decl_wf(ds[i as int], bufdv));
                assert(!source_wf(ds, bufdv));
            }
            return false;
        }
        let start = d.line - d.docs.len();
        let mut k: usize = 0;
        while k < d.docs.len()
            invariant
                k <= d.docs@.len(),
                i < n,
                n == assigned@.len(),
                decl_seq_view(assigned@) == ds,
                ds == spec_assign(spec_visit(*tree)),
                ds.len() == n,
                unique_addresses(ds),
                ds[i as int] == d@,
                start + d.docs@.len() == d.line,
                d.line < buffer@.len(),
                bufdv == buffer.deep_view(),
                bufdv.len() == buffer@.len(),
                forall|k2: int| 0 <= k2 < k ==> bufdv[start + k2] == spec_render_doc_line(
                    d.indent as int,
                    d.docs.deep_view()[k2],
                ),
            decreases d.docs.len() - k,
        {
            let rendered = render_doc_line(d.indent, &d.docs[k]);
            if !(rendered == buffer[start + k]) {
                proof {
                    assert(bufdv[start + k] == buffer@[(start + k) as int]@);
                    assert(d@.docs[k as int] == d.docs@[k as int]@);
                    assert(doc_start(ds[i as int]) == start);
                    assert(bufdv[doc_start(ds[i as int]) + k] != spec_render_doc_line(
                        ds[i as int].indent,
                        ds[i as int].docs[k as int],
                    ));
                    assert(!decl_wf(ds[i as int], bufdv));
                    assert(!source_wf(ds, bufdv));
                }
                return false;
            }
            proof {
                assert(bufdv[start + k] == buffer@[(start + k) as int]@);
                assert(d.docs.deep_view()[k as int] == d.docs@[k as int]@);
            }
            k = k + 1;
        }
        if i > 0 {
            let prev = &assigned[i - 1];
            proof {
                assert(ds[i as int - 1] == prev@);
            }
            if prev.line >= start {
                proof {
                    assert(doc_start(ds[i as int]) == start);
                    assert(!(ds[i as int - 1].line < doc_start(ds[i as int])));
                    assert(!decls_ordered(ds));
                    assert(!source_wf(ds, bufdv));
                }
                return false;
            }
        }
        proof {
            assert(decl_wf(ds[i as int], bufdv));
        }
        i = i + 1;
    }
    proof {
        assert(source_wf(ds, bufdv));
    }
    true
}

/// The result of one strip pass: the doc-free buffer and the store holding
/// what was removed.
pub struct StripOutput {
    pub buffer: Vec<String>,
    pub store: DocStore,
}

/// The strip pass: walks the tree, assigns addresses, builds the store
/// from the non-empty doc blocks in source order, and deletes every doc
/// span from the buffer in descending span-start order.  Fails exactly
/// when address assignment detects a collision, before touching anything.
pub fn strip(tree: &SourceTree, buffer: Vec<String>) -> (r: Result<StripOutput, PassError>)
    requires
        source_wf(spec_assign(spec_visit(*tree)), buffer.deep_view()),
    ensures
        (r is Err) <==> !unique_addresses(spec_assign(spec_visit(*tree))),
        r is Err ==> r->Err_0 == PassError::AddressCollision,
        r is Ok ==> r->Ok_0.buffer.deep_view() == spec_strip_buf(
            buffer.deep_view(),
            spec_assign(spec_visit(*tree)),
        ),
        r is Ok ==> r->Ok_0.store@ == spec_strip_records(spec_assign(spec_visit(*tree))),
        r is Ok ==> forall|k: int| 0 <= k < r->Ok_0.store@.len() ==> (#[trigger] r->Ok_0.store@[
            k
        ]).lines.len() > 0,
{
    let ghost ds = spec_assign(spec_visit(*tree));
    let ghost buf0 = buffer.deep_view();
    let raw = visit_source_tree(tree);
    let assigned = match assign_addresses(&raw) {
        Ok(a) => a,
        Err(e) => {
            return Err(e);
        },
    };
    proof {
        assert(decl_seq_view(assigned@) == ds);
        assert(ds.len() == assigned@.len());
    }
    let n = assigned.len();
    let mut records: Vec<DocRecord> = Vec::new();
    proof {
        assert(ds.subrange(0, 0) =~= Seq::<DeclarationV>::empty());
        assert(records@.map_values(|r: DocRecord| r@) =~= spec_strip_records(ds.subrange(0, 0)));
    }
    let mut i: usize = 0;
    while i < n
        invariant
            i <= n,
            n == assigned@.len(),
            decl_seq_view(assigned@) == ds,
            ds.len() == n,
            records@.map_values(|r: DocRecord| r@) == spec_strip_records(ds.subrange(0, i as int)),
        decreases n - i,
    {
        proof {
            assert(ds[i as int] == assigned@[i as int]@);
        }
        let ghost prev = records@;
        if assigned[i].docs.len() > 0 {
            let rec = DocRecord {
                address: clone_address(&assigned[i].address),
                lines: clone_string_vec(&assigned[i].docs),
            };
            proof {
                assert(rec.lines.deep_view() =~= assigned@[i as int].docs.deep_view());
                assert(rec@ =~= (RecV { addr: ds[i as int].address, lines: ds[i as int].docs }));
            }
            records.push(rec);
        }
        proof {
            lemma_records_snoc(ds, i as int);
            assert(records@.map_values(|r: DocRecord| r@) =~= spec_strip_records(
                ds.subrange(0, i as int + 1),
            ));
        }
        i = i + 1;
    }
    let mut buffer = buffer;
    proof {
        assert(ds.subrange(n as int, n as int) =~= Seq::<DeclarationV>::empty());
    }
    let mut j: usize = n;
    while j > 0
        invariant
            j <= n,
            n == assigned@.len(),
            decl_seq_view(assigned@) == ds,
            ds.len() == n,
            source_wf(ds, buf0),
            buffer.deep_view() == spec_strip_buf(buf0, ds.subrange(j as int, n as int)),
        decreases j,
    {
        j = j - 1;
        let d = &assigned[j];
        let ghost suffix = ds.subrange(j as int + 1, n as int);
        let ghost cur = buffer.deep_view();
        proof {
            assert(ds[j as int] == d@);
            assert forall|p: int| 0 <= p < suffix.len() implies decl_wf(#[trigger] suffix[p], buf0) by {
                assert(suffix[p] == ds[j as int + 1 + p]);
            }
            assert forall|p: int| 0 <= p < suffix.len() - 1 implies suffix[p].line < doc_start(
                suffix[p + 1],
            ) by {
                assert(suffix[p] == ds[j as int + 1 + p]);
                assert(suffix[p + 1] == ds[j as int + 1 + p + 1]);
            }
            lemma_strip_shape(buf0, suffix);
            lemma_suffix_room(ds, buf0, j as int);
            assert(cur.len() == buf0.len() - total_docs(suffix));
            assert(d@.line <= cur.len());
            lemma_docs_upto_nonneg(suffix, suffix.len() as int);
            assert(decl_wf(ds[j as int], buf0));
        }
        if d.docs.len() > 0 {
            let start = d.line - d.docs.len();
            delete_range(&mut buffer, start, d.docs.len());
        }
        proof {
            lemma_strip_front(buf0, ds.subrange(j as int, n as int));
            assert(ds.subrange(j as int, n as int).first() == ds[j as int]);
            assert(ds.subrange(j as int, n as int).drop_first() =~= suffix);
            assert(buffer.deep_view() =~= delete_block(cur, ds[j as int]));
            assert(buffer.deep_view() == spec_strip_buf(buf0, ds.subrange(j as int, n as int)));
        }
    }
    proof {
        assert(ds.subrange(0, n as int) =~= ds);
        lemma_no_blank_entries(ds);
    }
    let store = DocStore { records };
    Ok(StripOutput { buffer, store })
}

/// The embed pass: walks the tree of the current, doc-free buffer, looks
/// every declaration's address up in the store, and inserts the rendered
/// doc lines immediately before each hit, in descending span-start order,
/// at the declaration's own indentation.  A store entry with no matching
/// declaration is stale: it is skipped, and the buffer is not touched for
/// it.  Fails exactly when address assignment detects a collision.
pub fn embed(tree: &SourceTree, buffer: Vec<String>, store: &DocStore) -> (r: Result<
    Vec<String>,
    PassError,
>)
    requires
        source_wf(spec_assign(spec_visit(*tree)), buffer.deep_view()),
    ensures
        (r is Err) <==> !unique_addresses(spec_assign(spec_visit(*tree))),
        r is Err ==> r->Err_0 == PassError::AddressCollision,
        r is Ok ==> r->Ok_0.deep_view() == spec_embed_buf(
            buffer.deep_view(),
            spec_assign(spec_visit(*tree)),
            store@,
        ),
{
    let ghost ds = spec_assign(spec_visit(*tree));
    let ghost buf0 = buffer.deep_view();
    let raw = visit_source_tree(tree);
    let assigned = match assign_addresses(&raw) {
        Ok(a) => a,
        Err(e) => {
            return Err(e);
        },
    };
    proof {
        assert(decl_seq_view(assigned@) == ds);
        assert(ds.len() == assigned@.len());
    }
    let n = assigned.len();
    let mut buffer = buffer;
    proof {
        assert(ds.subrange(n as int, n as int) =~= Seq::<DeclarationV>::empty());
    }
    let mut j: usize = n;
    while j > 0
        invariant
            j <= n,
            n == assigned@.len(),
            decl_seq_view(assigned@) == ds,
            ds.len() == n,
            source_wf(ds, buf0),
            buffer.deep_view() == spec_embed_buf(buf0, ds.subrange(j as int, n as int), store@),
        decreases j,
    {
        j = j - 1;
        let d = &assigned[j];
        let ghost suffix = ds.subrange(j as int + 1, n as int);
        let ghost cur = buffer.deep_view();
        proof {
            assert(ds[j as int] == d@);
            lemma_embed_len_ge(buf0, suffix, store@);
            assert(decl_wf(ds[j as int], buf0));
            assert(d@.line <= cur.len());
        }
        match lookup(store, &d.address) {
            Some(lines) => {
                let rendered = render_docs(d.indent, lines);
                insert_lines(&mut buffer, d.line, &rendered);
                proof {
                    assert(buffer.deep_view() =~= insert_block(
                        cur,
                        ds[j as int],
                        lines.deep_view(),
                    ));
                }
            },
            None => {},
        }
        proof {
            lemma_embed_front(buf0, ds.subrange(j as int, n as int), store@);
            assert(ds.subrange(j as int, n as int).first() == ds[j as int]);
            assert(ds.subrange(j as int, n as int).drop_first() =~= suffix);
            assert(buffer.deep_view() == spec_embed_buf(
                buf0,
                ds.subrange(j as int, n as int),
                store@,
            ));
        }
    }
    proof {
        assert(ds.subrange(0, n as int) =~= ds);
    }
    Ok(buffer)
}


/// The stale entries of a store held against a tree: the addresses of the
/// records that match no declaration of the current parse, in store order.
/// A stale entry is a warning, never fatal: the embed pass skips it, and
/// this is the list a caller reports.
pub open spec fn spec_stale(store: Seq<RecV>, ds: Seq<DeclarationV>) -> Seq<Seq<SegV>>
    decreases store.len(),
{
    if store.len() == 0 {
        Seq::empty()
    } else {
        let head: Seq<Seq<SegV>> = if exists|j: int|
            0 <= j < ds.len() && (#[trigger] ds[j]).address == store.first().addr {
            Seq::empty()
        } else {
            seq![store.first().addr]
        };
        head + spec_stale(store.drop_first(), ds)
    }
}

proof fn lemma_stale_append(a: Seq<RecV>, b: Seq<RecV>, ds: Seq<DeclarationV>)
    ensures
        spec_stale(a + b, ds) == spec_stale(a, ds) + spec_stale(b, ds),
    decreases a.len(),
{
    if a.len() == 0 {
        assert(a + b =~= b);
        assert(spec_stale(a, ds) == Seq::<Seq<SegV>>::empty());
        assert(spec_stale(a, ds) + spec_stale(b, ds) =~= spec_stale(b, ds));
    } else {
        assert((a + b).first() == a.first());
        assert((a + b).drop_first() =~= a.drop_first() + b);
        lemma_stale_append(a.drop_first(), b, ds);
        assert(spec_stale(a + b, ds) =~= spec_stale(a, ds) + spec_stale(b, ds));
    }
}

proof fn lemma_stale_snoc(store: Seq<RecV>, ds: Seq<DeclarationV>, i: int)
    requires
        0 <= i < store.len(),
    ensures
        spec_stale(store.subrange(0, i + 1), ds) == spec_stale(store.subrange(0, i), ds) + (
        if exists|j: int| 0 <= j < ds.len() && (#[trigger] ds[j]).address == store[i].addr {
            Seq::<Seq<SegV>>::empty()
        } else {
            seq![store[i].addr]
        }),
{
    let single = seq![store[i]];
    assert(store.subrange(0, i + 1) =~= store.subrange(0, i) + single);
    lemma_stale_append(store.subrange(0, i), single, ds);
    assert(single.drop_first() =~= Seq::<RecV>::empty());
    assert(spec_stale(Seq::<RecV>::empty(), ds) == Seq::<Seq<SegV>>::empty());
    assert(spec_stale(single, ds) =~= (if exists|j: int|
        0 <= j < ds.len() && (#[trigger] ds[j]).address == store[i].addr {
        Seq::<Seq<SegV>>::empty()
    } else {
        seq![store[i].addr]
    }));
    assert(spec_stale(store.subrange(0, i + 1), ds) =~= spec_stale(store.subrange(0, i), ds) + (
    if exists|j: int| 0 <= j < ds.len() && (#[trigger] ds[j]).address == store[i].addr {
        Seq::<Seq<SegV>>::empty()
    } else {
        seq![store[i].addr]
    }));
}

fn decls_have_address(decls: &Vec<Declaration>, addr: &Address) -> (found: bool)
    ensures
        found == exists|j: int| 0 <= j < decls@.len() && (#[trigger] decls@[j]@).address == addr@,
{
    let mut j: usize = 0;
    while j < decls.len()
        invariant
            j <= decls@.len(),
            forall|p: int| 0 <= p < j ==> (#[trigger] decls@[p]@).address != addr@,
        decreases decls.len() - j,
    {
        if addr_eq(&decls[j].address, addr) {
            proof {
                assert(decls@[j as int]@.address == addr@);
            }
            return true;
        }
        j = j + 1;
    }
    false
}

/// Lists a store's stale entries against a tree: the addresses of records
/// naming no current declaration — renamed or removed since the strip
/// pass.  They are the warnings of an embed run; the pass itself skips
/// them and is not aborted by them.  Fails exactly as the passes do, on an
/// address collision in the tree.
pub fn stale_entries(tree: &SourceTree, store: &DocStore) -> (r: Result<Vec<Address>, PassError>)
    ensures
        (r is Err) <==> !unique_addresses(spec_assign(spec_visit(*tree))),
        r is Err ==> r->Err_0 == PassError::AddressCollision,
        r is Ok ==> r->Ok_0@.map_values(|a: Address| a@) == spec_stale(
            store@,
            spec_assign(spec_visit(*tree)),
        ),
{
    let ghost ds = spec_assign(spec_visit(*tree));
    let raw = visit_source_tree(tree);
    let assigned = match assign_addresses(&raw) {
        Ok(a) => a,
        Err(e) => {
            return Err(e);
        },
    };
    proof {
        assert(decl_seq_view(assigned@) == ds);
    }
    let mut stale: Vec<Address> = Vec::new();
    proof {
        assert(store@.subrange(0, 0) =~= Seq::<RecV>::empty());
        assert(stale@.map_values(|a: Address| a@) =~= spec_stale(store@.subrange(0, 0), ds));
    }
    let mut i: usize = 0;
    while i < store.records.len()
        invariant
            i <= store.records@.len(),
            store@.len() == store.records@.len(),
            decl_seq_view(assigned@) == ds,
            ds == spec_assign(spec_visit(*tree)),
            stale@.map_values(|a: Address| a@) == spec_stale(store@.subrange(0, i as int), ds),
        decreases store.records.len() - i,
    {
        let ghost prev = stale@.map_values(|a: Address| a@);
        let rec = &store.records[i];
        proof {
            assert(store@[i as int] == rec@);
        }
        let found = decls_have_address(&assigned, &rec.address);
        proof {
            assert(store@[i as int].addr == rec.address@);
            if found {
                let j = choose|j: int|
                    0 <= j < assigned@.len() && (#[trigger] assigned@[j]@).address
                        == rec.address@;
                assert(ds[j] == assigned@[j]@);
                assert(exists|p: int| 0 <= p < ds.len() && (#[trigger] ds[p]).address == store@[
                    i as int
                ].addr);
            } else {
                assert forall|p: int| 0 <= p < ds.len() implies (#[trigger] ds[p]).address
                    != store@[i as int].addr by {
                    assert(ds[p] == assigned@[p]@);
                }
            }
            assert(found == exists|j: int| 0 <= j < ds.len() && (#[trigger] ds[j]).address
                == store@[i as int].addr);
        }
        if !found {
            stale.push(clone_address(&rec.address));
            proof {
                assert(stale@.map_values(|a: Address| a@) =~= prev.push(store@[i as int].addr));
            }
        }
        proof {
            lemma_stale_snoc(store@, ds, i as int);
            assert(stale@.map_values(|a: Address| a@) =~= spec_stale(
                store@.subrange(0, i as int + 1),
                ds,
            ));
        }
        i = i + 1;
    }
    proof {
        assert(store@.subrange(0, store@.len() as int) =~= store@);
    }
    Ok(stale)
}

} // verus!
