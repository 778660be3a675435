//! The declaration visitor: a depth-first, pre-order walk of a source tree
//! that produces the ordered sequence of documentable declarations, each
//! paired with the contiguous run of doc-comment lines immediately
//! preceding it.
//!
//! The walk recurses into inline module bodies and, for trait and impl
//! blocks, one level into the associated item list, emitting a declaration
//! for each function-kind member.  Unrecognized node and member kinds are
//! skipped, never an error: the visitor is forward-compatible with tree
//! shapes it does not recognize.

use vstd::prelude::*;
use crate::tree::AssocKind;
use crate::tree::AssocNode;
use crate::tree::AttrEntry;
use crate::tree::ImplHead;
use crate::tree::ImplHeadV;
use crate::tree::NodeKind;
use crate::tree::SourceTree;
use crate::tree::TreeNode;

verus! {

/// The kind of a documentable declaration.
#[derive(Clone, Copy, PartialEq, Eq, Structural, Debug)]
pub enum DeclKind {
    StructDecl,
    EnumDecl,
    TraitDecl,
    ImplDecl,
    FnDecl,
    AssocFnDecl,
}

/// One documentable declaration as produced by the visitor, before an
/// address has been assigned.  `mods` is the path of enclosing inline
/// modules; for an associated function it is empty, because its address is
/// derived from its owning container instead.
pub struct RawDecl {
    pub kind: DeclKind,
    pub name: String,
    /// `Some` exactly for impl-block declarations.
    pub impl_head: Option<ImplHead>,
    pub mods: Vec<String>,
    pub docs: Vec<String>,
    pub line: usize,
    pub indent: usize,
}

/// Spec-level value of a [`RawDecl`].
#[verifier::ext_equal]
pub struct DeclV {
    pub kind: DeclKind,
    pub name: Seq<char>,
    pub impl_head: Option<ImplHeadV>,
    pub mods: Seq<Seq<char>>,
    pub docs: Seq<Seq<char>>,
    pub line: int,
    pub indent: int,
}

impl View for RawDecl {
    type V = DeclV;

    open spec fn view(&self) -> DeclV {
        DeclV {
            kind: self.kind,
            name: self.name@,
            impl_head: match self.impl_head {
                Some(h) => Some(h@),
                None => None,
            },
            mods: self.mods.deep_view(),
            docs: self.docs.deep_view(),
            line: self.line as int,
            indent: self.indent as int,
        }
    }
}

/// The sequence of declaration values held by a declaration list.
pub open spec fn decls_view(s: Seq<RawDecl>) -> Seq<DeclV> {
    s.map_values(|d: RawDecl| d@)
}

/// The text carried by an attribute entry; empty for non-doc attributes.
pub open spec fn attr_text(a: AttrEntry) -> Seq<char> {
    match a {
        AttrEntry::Doc(t) => t@,
        AttrEntry::NonDoc => Seq::empty(),
    }
}

/// The maximal contiguous run of doc-comment lines at the end of an
/// attribute list, in source order: the run immediately adjacent to the
/// declaration the list belongs to.  A non-doc attribute breaks the run.
pub open spec fn doc_texts(attrs: Seq<AttrEntry>) -> Seq<Seq<char>>
    decreases attrs.len(),
{
    if attrs.len() == 0 {
        Seq::empty()
    } else {
        match attrs.last() {
            AttrEntry::Doc(t) => doc_texts(attrs.drop_last()).push(t@),
            AttrEntry::NonDoc => Seq::empty(),
        }
    }
}

proof fn lemma_doc_texts_run(attrs: Seq<AttrEntry>, start: int)
    requires
        0 <= start <= attrs.len(),
        forall|j: int| start <= j < attrs.len() ==> attrs[j] is Doc,
        start == 0 || !(attrs[start - 1] is Doc),
    ensures
        doc_texts(attrs) == Seq::new((attrs.len() - start) as nat, |k: int| attr_text(attrs[start + k])),
    decreases attrs.len() - start,
{
    if start == attrs.len() {
        if attrs.len() == 0 {
        } else {
            assert(!(attrs[attrs.len() - 1] is Doc));
        }
    } else {
        let sub = attrs.drop_last();
        assert(attrs.last() is Doc);
        if start == sub.len() {
            if sub.len() == 0 {
            } else {
                assert(!(sub[sub.len() - 1] is Doc));
            }
            assert(doc_texts(sub) =~= Seq::new((sub.len() - start) as nat, |k: int| attr_text(sub[start + k])));
        } else {
            lemma_doc_texts_run(sub, start);
        }
    }
}

/// Extracts the trailing doc-comment run of an attribute list.
pub fn extract_docs(attrs: &Vec<AttrEntry>) -> (docs: Vec<String>)
    ensures
        docs.deep_view() == doc_texts(attrs@),
{
    let mut start: usize = attrs.len();
    loop
        invariant_except_break
            start <= attrs.len(),
            forall|j: int| start <= j < attrs@.len() ==> attrs@[j] is Doc,
        ensures
            start <= attrs.len(),
            forall|j: int| start <= j < attrs@.len() ==> attrs@[j] is Doc,
            start == 0 || !(attrs@[start - 1] is Doc),
        decreases start,
    {
        if start == 0 {
            break;
        }
        match &attrs[start - 1] {
            AttrEntry::Doc(_) => {
                start = start - 1;
            },
            AttrEntry::NonDoc => {
                break;
            },
        }
    }
    let mut docs: Vec<String> = Vec::new();
    let mut i: usize = start;
    while i < attrs.len()
        invariant
            start <= i <= attrs.len(),
            forall|j: int| start <= j < attrs@.len() ==> attrs@[j] is Doc,
            docs.deep_view() == Seq::new((i - start) as nat, |k: int| attr_text(attrs@[start + k])),
        decreases attrs.len() - i,
    {
        match &attrs[i] {
            AttrEntry::Doc(t) => {
                let ghost dold = docs@;
                let ghost pre = docs.deep_view();
                proof {
                    assert(pre.len() == dold.len());
                    assert(pre.len() == i - start);
                }
                docs.push(t.clone());
                proof {
                    assert(attr_text(attrs@[i as int]) == t@);
                    assert forall|k: int| 0 <= k < docs@.len() implies docs@[k].deep_view()
                        == attr_text(attrs@[start + k]) by {
                        if k < dold.len() {
                            assert(docs@[k] == dold[k]);
                            assert(pre[k] == dold[k].deep_view());
                            assert(pre[k] == attr_text(attrs@[start + k]));
                        } else {
                            assert(docs@[k]@ == t@);
                        }
                    }
                    assert(docs.deep_view() =~= Seq::new(
                        ((i + 1) - start) as nat,
                        |k: int| attr_text(attrs@[start + k]),
                    ));
                }
            },
            AttrEntry::NonDoc => {
                proof {
                    assert(false);
                }
            },
        }
        i = i + 1;
    }
    proof {
        lemma_doc_texts_run(attrs@, start as int);
        assert(docs.deep_view() =~= doc_texts(attrs@));
    }
    docs
}

/// The declaration value of a struct, enum, trait or free function node.
pub open spec fn plain_decl(kind: DeclKind, node: TreeNode, mods: Seq<Seq<char>>) -> DeclV {
    DeclV {
        kind: kind,
        name: node.name@,
        impl_head: None,
        mods: mods,
        docs: doc_texts(node.attrs@),
        line: node.line as int,
        indent: node.indent as int,
    }
}

/// The declaration value of an impl-block node.
pub open spec fn impl_decl(node: TreeNode, head: ImplHead, mods: Seq<Seq<char>>) -> DeclV {
    DeclV {
        kind: DeclKind::ImplDecl,
        name: node.name@,
        impl_head: Some(head@),
        mods: mods,
        docs: doc_texts(node.attrs@),
        line: node.line as int,
        indent: node.indent as int,
    }
}

/// The declaration value of a function-kind associated item.
pub open spec fn assoc_decl(a: AssocNode) -> DeclV {
    DeclV {
        kind: DeclKind::AssocFnDecl,
        name: a.name@,
        impl_head: None,
        mods: Seq::empty(),
        docs: doc_texts(a.attrs@),
        line: a.line as int,
        indent: a.indent as int,
    }
}

/// Declarations contributed by an associated item list: one declaration
/// per function-kind member, in source order; other members are skipped.
pub open spec fn spec_assoc_decls(items: Seq<AssocNode>) -> Seq<DeclV>
    decreases items.len(),
{
    if items.len() == 0 {
        Seq::empty()
    } else {
        let rest = spec_assoc_decls(items.drop_first());
        match items.first().kind {
            AssocKind::FnMember => seq![assoc_decl(items.first())] + rest,
            AssocKind::OtherMember => rest,
        }
    }
}

/// Declarations contributed by one tree node, pre-order: the node's own
/// declaration (when documentable) first, then its associated functions or
/// the contents of its inline module body.
pub open spec fn spec_visit_node(node: TreeNode, mods: Seq<Seq<char>>) -> Seq<DeclV>
    decreases node, 0int,
{
    match node.kind {
        NodeKind::StructNode => seq![plain_decl(DeclKind::StructDecl, node, mods)],
        NodeKind::EnumNode => seq![plain_decl(DeclKind::EnumDecl, node, mods)],
        NodeKind::FnNode => seq![plain_decl(DeclKind::FnDecl, node, mods)],
        NodeKind::TraitNode(items) => seq![plain_decl(DeclKind::TraitDecl, node, mods)]
            + spec_assoc_decls(items@),
        NodeKind::ImplNode(head, items) => seq![impl_decl(node, head, mods)]
            + spec_assoc_decls(items@),
        NodeKind::ModNode(loaded, items) => if loaded {
            spec_visit_items(items@, mods.push(node.name@))
        } else {
            Seq::empty()
        },
        NodeKind::OtherNode => Seq::empty(),
    }
}

/// Declarations contributed by a node list, in source order.
pub open spec fn spec_visit_items(items: Seq<TreeNode>, mods: Seq<Seq<char>>) -> Seq<DeclV>
    decreases items, 1int,
{
    if items.len() == 0 {
        Seq::empty()
    } else {
        spec_visit_node(items.first(), mods) + spec_visit_items(items.drop_first(), mods)
    }
}

/// The full visitor result for one compilation unit.
pub open spec fn spec_visit(tree: SourceTree) -> Seq<DeclV> {
    spec_visit_items(tree.items@, Seq::empty())
}

/// Two associated items with the same identity: equal name, and
/// function-kind together or not at all.
pub open spec fn same_shape_assoc(a: AssocNode, b: AssocNode) -> bool {
    a.name@ == b.name@ && (a.kind is FnMember <==> b.kind is FnMember)
}

/// Two tree nodes that carry the same declarations: equal names, kinds,
/// impl heads and children, while lines, indentation and attributes — all
/// that reformatting moves — are free to differ.
pub open spec fn same_shape_node(a: TreeNode, b: TreeNode) -> bool
    decreases a,
{
    a.name@ == b.name@ && match (a.kind, b.kind) {
        (NodeKind::StructNode, NodeKind::StructNode) => true,
        (NodeKind::EnumNode, NodeKind::EnumNode) => true,
        (NodeKind::FnNode, NodeKind::FnNode) => true,
        (NodeKind::TraitNode(x), NodeKind::TraitNode(y)) => x@.len() == y@.len() && (forall|i: int|
            0 <= i < x@.len() ==> same_shape_assoc(#[trigger] x@[i], y@[i])),
        (NodeKind::ImplNode(h1, x), NodeKind::ImplNode(h2, y)) => h1@ == h2@ && x@.len()
            == y@.len() && (forall|i: int| 0 <= i < x@.len() ==> same_shape_assoc(
            #[trigger] x@[i],
            y@[i],
        )),
        (NodeKind::ModNode(l1, x), NodeKind::ModNode(l2, y)) => l1 == l2 && x@.len() == y@.len()
            && (forall|i: int| 0 <= i < x@.len() ==> same_shape_node(#[trigger] x@[i], y@[i])),
        (NodeKind::OtherNode, NodeKind::OtherNode) => true,
        _ => false,
    }
}

/// Two compilation units with the same declarations.
pub open spec fn same_shape(a: SourceTree, b: SourceTree) -> bool {
    a.items@.len() == b.items@.len() && (forall|i: int| 0 <= i < a.items@.len() ==> same_shape_node(
        #[trigger] a.items@[i],
        b.items@[i],
    ))
}

pub proof fn lemma_visit_items_append(a: Seq<TreeNode>, b: Seq<TreeNode>, mods: Seq<Seq<char>>)
    ensures
        spec_visit_items(a + b, mods) == spec_visit_items(a, mods) + spec_visit_items(b, mods),
    decreases a.len(),
{
    if a.len() == 0 {
        assert(a + b =~= b);
    } else {
        assert((a + b).first() == a.first());
        assert((a + b).drop_first() =~= a.drop_first() + b);
        lemma_visit_items_append(a.drop_first(), b, mods);
        assert(spec_visit_items(a + b, mods) =~= spec_visit_node(a.first(), mods)
            + (spec_visit_items(a.drop_first(), mods) + spec_visit_items(b, mods)));
    }
}

pub proof fn lemma_visit_items_snoc(items: Seq<TreeNode>, mods: Seq<Seq<char>>, i: int)
    requires
        0 <= i < items.len(),
    ensures
        spec_visit_items(items.subrange(0, i + 1), mods) == spec_visit_items(
            items.subrange(0, i),
            mods,
        ) + spec_visit_node(items[i], mods),
{
    let a = items.subrange(0, i);
    let single = seq![items[i]];
    assert(items.subrange(0, i + 1) =~= a + single);
    lemma_visit_items_append(a, single, mods);
    assert(single.drop_first() =~= Seq::<TreeNode>::empty());
    assert(spec_visit_items(Seq::<TreeNode>::empty(), mods) == Seq::<DeclV>::empty());
    assert(spec_visit_items(single, mods) =~= spec_visit_node(items[i], mods));
}

pub proof fn lemma_assoc_decls_snoc(items: Seq<AssocNode>, i: int)
    requires
        0 <= i < items.len(),
    ensures
        spec_assoc_decls(items.subrange(0, i + 1)) == spec_assoc_decls(items.subrange(0, i))
            + (match items[i].kind {
                AssocKind::FnMember => seq![assoc_decl(items[i])],
                AssocKind::OtherMember => Seq::<DeclV>::empty(),
            }),
    decreases i,
{
    let pre = items.subrange(0, i);
    let all = items.subrange(0, i + 1);
    if i == 0 {
        assert(all.first() == items[0]);
        assert(all.drop_first() =~= Seq::<AssocNode>::empty());
        assert(pre =~= Seq::<AssocNode>::empty());
    } else {
        assert(all.first() == items[0]);
        assert(pre.first() == items[0]);
        let itail = items.drop_first();
        assert(all.drop_first() =~= itail.subrange(0, i));
        assert(pre.drop_first() =~= itail.subrange(0, i - 1));
        assert(itail[i - 1] == items[i]);
        lemma_assoc_decls_snoc(itail, i - 1);
    }
}

/// Clones a vector of strings, element for element.
pub fn clone_string_vec(v: &Vec<String>) -> (r: Vec<String>)
    ensures
        r@ == v@,
{
    let mut r: Vec<String> = Vec::new();
    let mut i: usize = 0;
    while i < v.len()
        invariant
            i <= v.len(),
            r@ == v@.subrange(0, i as int),
        decreases v.len() - i,
    {
        r.push(v[i].clone());
        i = i + 1;
    }
    proof {
        assert(v@.subrange(0, v@.len() as int) =~= v@);
    }
    r
}

/// Clones an impl head, preserving its value.
pub fn clone_impl_head(h: &ImplHead) -> (r: ImplHead)
    ensures
        r == *h,
{
    let trait_name = match &h.trait_name {
        Some(t) => Some(t.clone()),
        None => None,
    };
    ImplHead { target: h.target.clone(), trait_name }
}

fn push_plain(kind: DeclKind, node: &TreeNode, mods: &Vec<String>, out: &mut Vec<RawDecl>)
    ensures
        decls_view(final(out)@) == decls_view(old(out)@) + seq![
            plain_decl(kind, *node, mods.deep_view()),
        ],
{
    let docs = extract_docs(&node.attrs);
    let d = RawDecl {
        kind,
        name: node.name.clone(),
        impl_head: None,
        mods: clone_string_vec(mods),
        docs,
        line: node.line,
        indent: node.indent,
    };
    proof {
        assert(d.mods.deep_view() =~= mods.deep_view());
        assert(d@ =~= plain_decl(kind, *node, mods.deep_view()));
    }
    out.push(d);
    proof {
        assert(decls_view(out@) =~= decls_view(old(out)@) + seq![d@]);
    }
}

fn push_assoc(member: &AssocNode, out: &mut Vec<RawDecl>)
    ensures
        decls_view(final(out)@) == decls_view(old(out)@) + seq![assoc_decl(*member)],
{
    let docs = extract_docs(&member.attrs);
    let d = RawDecl {
        kind: DeclKind::AssocFnDecl,
        name: member.name.clone(),
        impl_head: None,
        mods: Vec::new(),
        docs,
        line: member.line,
        indent: member.indent,
    };
    proof {
        assert(d.mods.deep_view() =~= Seq::<Seq<char>>::empty());
        assert(d@ =~= assoc_decl(*member));
    }
    out.push(d);
    proof {
        assert(decls_view(out@) =~= decls_view(old(out)@) + seq![d@]);
    }
}

fn visit_assoc_items(items: &Vec<AssocNode>, out: &mut Vec<RawDecl>)
    ensures
        decls_view(final(out)@) == decls_view(old(out)@) + spec_assoc_decls(items@),
{
    let mut i: usize = 0;
    while i < items.len()
        invariant
            i <= items.len(),
            decls_view(out@) == decls_view(old(out)@) + spec_assoc_decls(items@.subrange(0, i as int)),
        decreases items.len() - i,
    {
        match items[i].kind {
            AssocKind::FnMember => {
                push_assoc(&items[i], out);
            },
            AssocKind::OtherMember => {},
        }
        proof {
            lemma_assoc_decls_snoc(items@, i as int);
        }
        i = i + 1;
    }
    proof {
        assert(items@.subrange(0, items@.len() as int) =~= items@);
    }
}

fn visit_node(node: &TreeNode, mods: &Vec<String>, out: &mut Vec<RawDecl>)
    ensures
        decls_view(final(out)@) == decls_view(old(out)@) + spec_visit_node(*node, mods.deep_view()),
    decreases *node, 0int,
{
    match &node.kind {
        NodeKind::StructNode => {
            push_plain(DeclKind::StructDecl, node, mods, out);
        },
        NodeKind::EnumNode => {
            push_plain(DeclKind::EnumDecl, node, mods, out);
        },
        NodeKind::FnNode => {
            push_plain(DeclKind::FnDecl, node, mods, out);
        },
        NodeKind::TraitNode(items) => {
            push_plain(DeclKind::TraitDecl, node, mods, out);
            visit_assoc_items(items, out);
        },
        NodeKind::ImplNode(head, items) => {
            let docs = extract_docs(&node.attrs);
            let d = RawDecl {
                kind: DeclKind::ImplDecl,
                name: node.name.clone(),
                impl_head: Some(clone_impl_head(head)),
                mods: clone_string_vec(mods),
                docs,
                line: node.line,
                indent: node.indent,
            };
            proof {
                assert(d.mods.deep_view() =~= mods.deep_view());
                assert(d@ =~= impl_decl(*node, *head, mods.deep_view()));
            }
            out.push(d);
            proof {
                assert(decls_view(out@) =~= decls_view(old(out)@) + seq![d@]);
            }
            visit_assoc_items(items, out);
        },
        NodeKind::ModNode(loaded, items) => {
            if *loaded {
                let mut inner_mods = clone_string_vec(mods);
                inner_mods.push(node.name.clone());
                proof {
                    assert(inner_mods.deep_view() =~= mods.deep_view().push(node.name@));
                }
                visit_items(items, &inner_mods, out);
            }
        },
        NodeKind::OtherNode => {},
    }
}

fn visit_items(items: &Vec<TreeNode>, mods: &Vec<String>, out: &mut Vec<RawDecl>)
    ensures
        decls_view(final(out)@) == decls_view(old(out)@) + spec_visit_items(
            items@,
            mods.deep_view(),
        ),
    decreases items@, 1int,
{
    let mut i: usize = 0;
    while i < items.len()
        invariant
            i <= items.len(),
            decls_view(out@) == decls_view(old(out)@) + spec_visit_items(
                items@.subrange(0, i as int),
                mods.deep_view(),
            ),
        decreases items.len() - i,
    {
        visit_node(&items[i], mods, out);
        proof {
            lemma_visit_items_snoc(items@, mods.deep_view(), i as int);
        }
        i = i + 1;
    }
    proof {
        assert(items@.subrange(0, items@.len() as int) =~= items@);
    }
}

/// Walks one compilation unit and returns its documentable declarations
/// in source order, pre-order with respect to nesting, each carrying the
/// doc-comment run immediately preceding it.
pub fn visit_source_tree(tree: &SourceTree) -> (out: Vec<RawDecl>)
    ensures
        decls_view(out@) == spec_visit(*tree),
{
    let mut out: Vec<RawDecl> = Vec::new();
    let mods: Vec<String> = Vec::new();
    visit_items(&tree.items, &mods, &mut out);
    proof {
        assert(mods.deep_view() =~= Seq::<Seq<char>>::empty());
        assert(decls_view(out@) =~= spec_visit(*tree));
    }
    out
}

} // verus!
