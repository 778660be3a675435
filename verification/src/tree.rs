//! The parsed source tree handed in by a frontend collaborator.
//!
//! The tree is a closed tagged union: every node carries its kind, and the
//! visitor matches the kinds exhaustively, treating unrecognized ones as
//! opaque.  Spans are line offsets into the owning line buffer; a node's
//! doc comment, when present in the buffer, occupies the lines immediately
//! before the node's own line.

use vstd::prelude::*;

verus! {

/// One entry of the attribute list attached to a declaration: either one
/// doc-comment line (its text, without the comment marker) or any other,
/// non-doc attribute.
pub enum AttrEntry {
    Doc(String),
    NonDoc,
}

/// The head of an `impl` block: the name of the target type, and the name
/// of the implemented trait for trait impls.
pub struct ImplHead {
    pub target: String,
    pub trait_name: Option<String>,
}

/// Spec-level value of an [`ImplHead`].
#[verifier::ext_equal]
pub struct ImplHeadV {
    pub target: Seq<char>,
    pub trait_name: Option<Seq<char>>,
}

impl View for ImplHead {
    type V = ImplHeadV;

    open spec fn view(&self) -> ImplHeadV {
        ImplHeadV {
            target: self.target@,
            trait_name: match self.trait_name {
                Some(t) => Some(t@),
                None => None,
            },
        }
    }
}

/// The kind of an associated item inside a trait or impl block.  Only
/// function items are documentable declarations here; everything else is
/// ignored by the visitor, never an error.
pub enum AssocKind {
    FnMember,
    OtherMember,
}

/// An associated item of a trait or impl block.
pub struct AssocNode {
    pub name: String,
    pub kind: AssocKind,
    pub attrs: Vec<AttrEntry>,
    /// Line offset of the item itself in the owning buffer.
    pub line: usize,
    /// Leading spaces of the item's line, used to indent embedded docs.
    pub indent: usize,
}

/// The kind of a top-level (or module-level) node.  Unrecognized kinds are
/// carried as `OtherNode` and skipped by the visitor.
pub enum NodeKind {
    StructNode,
    EnumNode,
    FnNode,
    TraitNode(Vec<AssocNode>),
    ImplNode(ImplHead, Vec<AssocNode>),
    /// A module; the flag is true when its body is loaded inline, and the
    /// visitor recurses into inline bodies only.
    ModNode(bool, Vec<TreeNode>),
    OtherNode,
}

/// One node of the source tree.
pub struct TreeNode {
    pub name: String,
    pub attrs: Vec<AttrEntry>,
    /// Line offset of the declaration itself in the owning buffer.
    pub line: usize,
    /// Leading spaces of the declaration's line.
    pub indent: usize,
    pub kind: NodeKind,
}

/// One compilation unit as parsed by the frontend.
pub struct SourceTree {
    pub items: Vec<TreeNode>,
}

} // verus!
