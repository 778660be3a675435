//! Structural addresses: a stable, offset-independent path identifying a
//! declaration within one compilation unit.
//!
//! A path segment names an enclosing inline module, a struct / enum /
//! trait / function declaration, an impl block, or an associated function
//! under its owning trait or impl.  Sibling impl blocks sharing the same
//! target type and trait are disambiguated by a zero-based ordinal counted
//! in source order over the whole compilation unit.  Addresses are derived
//! from declaration identity alone — kind, name, nesting, impl target and
//! trait — never from line or byte offsets, which makes them stable across
//! reformatting.

use vstd::prelude::*;
use crate::tree::ImplHead;
use crate::tree::ImplHeadV;
use crate::tree::NodeKind;
use crate::tree::TreeNode;
use crate::tree::AssocNode;
use crate::tree::SourceTree;
use crate::visit::DeclKind;
use crate::visit::DeclV;
use crate::visit::RawDecl;
use crate::visit::assoc_decl;
use crate::visit::impl_decl;
use crate::visit::plain_decl;
use crate::visit::same_shape;
use crate::visit::same_shape_assoc;
use crate::visit::same_shape_node;
use crate::visit::spec_assoc_decls;
use crate::visit::spec_visit;
use crate::visit::spec_visit_items;
use crate::visit::spec_visit_node;
use crate::visit::clone_impl_head;
use crate::visit::clone_string_vec;
use crate::visit::decls_view;

verus! {

/// One path segment of a structural address.
pub enum Segment {
    /// An enclosing inline module.
    ModSeg { name: String },
    /// A struct, enum, trait or free function declaration.
    TypeSeg { kind: DeclKind, name: String },
    /// An impl block, disambiguated among impls of the same target and
    /// trait by a zero-based source-order ordinal.
    ImplSeg { target: String, trait_name: Option<String>, ordinal: usize },
    /// An associated function under its owning trait or impl segment.
    AssocSeg { name: String },
}

/// Spec-level value of a [`Segment`].
#[verifier::ext_equal]
pub enum SegV {
    ModSegV { name: Seq<char> },
    TypeSegV { kind: DeclKind, name: Seq<char> },
    ImplSegV { target: Seq<char>, trait_name: Option<Seq<char>>, ordinal: int },
    AssocSegV { name: Seq<char> },
}

impl View for Segment {
    type V = SegV;

    open spec fn view(&self) -> SegV {
        match self {
            Segment::ModSeg { name } => SegV::ModSegV { name: name@ },
            Segment::TypeSeg { kind, name } => SegV::TypeSegV { kind: *kind, name: name@ },
            Segment::ImplSeg { target, trait_name, ordinal } => SegV::ImplSegV {
                target: target@,
                trait_name: match trait_name {
                    Some(t) => Some(t@),
                    None => None,
                },
                ordinal: *ordinal as int,
            },
            Segment::AssocSeg { name } => SegV::AssocSegV { name: name@ },
        }
    }
}

impl DeepView for Segment {
    type V = SegV;

    open spec fn deep_view(&self) -> SegV {
        self.view()
    }
}

/// A structural address: the segment path from the compilation-unit root
/// to one declaration.
pub struct Address {
    pub segs: Vec<Segment>,
}

impl View for Address {
    type V = Seq<SegV>;

    open spec fn view(&self) -> Seq<SegV> {
        self.segs.deep_view()
    }
}

/// Compares two segments by value.
pub fn seg_eq(a: &Segment, b: &Segment) -> (r: bool)
    ensures
        r == (a@ == b@),
{
    match (a, b) {
        (Segment::ModSeg { name: an }, Segment::ModSeg { name: bn }) => *an == *bn,
        (
            Segment::TypeSeg { kind: ak, name: an },
            Segment::TypeSeg { kind: bk, name: bn },
        ) => *ak == *bk && *an == *bn,
        (
            Segment::ImplSeg { target: at, trait_name: atr, ordinal: ao },
            Segment::ImplSeg { target: bt, trait_name: btr, ordinal: bo },
        ) => {
            let tr_eq = match (atr, btr) {
                (Some(x), Some(y)) => *x == *y,
                (None, None) => true,
                _ => false,
            };
            *at == *bt && tr_eq && *ao == *bo
        },
        (Segment::AssocSeg { name: an }, Segment::AssocSeg { name: bn }) => *an == *bn,
        _ => {
            proof {
                assert(a@ != b@);
            }
            false
        },
    }
}

/// Compares two addresses by value.
pub fn addr_eq(a: &Address, b: &Address) -> (r: bool)
    ensures
        r == (a@ == b@),
{
    if a.segs.len() != b.segs.len() {
        proof {
            assert(a@.len() == a.segs@.len());
            assert(b@.len() == b.segs@.len());
        }
        return false;
    }
    let mut i: usize = 0;
    while i < a.segs.len()
        invariant
            i <= a.segs@.len(),
            a.segs@.len() == b.segs@.len(),
            a@.len() == a.segs@.len(),
            b@.len() == b.segs@.len(),
            forall|j: int| 0 <= j < i ==> a@[j] == b@[j],
        decreases a.segs.len() - i,
    {
        let same = seg_eq(&a.segs[i], &b.segs[i]);
        proof {
            assert(a@[i as int] == a.segs@[i as int]@);
            assert(b@[i as int] == b.segs@[i as int]@);
        }
        if !same {
            proof {
                assert(a@[i as int] != b@[i as int]);
            }
            return false;
        }
        i = i + 1;
    }
    proof {
        assert(a@ =~= b@);
    }
    true
}

/// Clones a segment, preserving its value.
pub fn clone_segment(s: &Segment) -> (r: Segment)
    ensures
        r@ == s@,
{
    match s {
        Segment::ModSeg { name } => Segment::ModSeg { name: name.clone() },
        Segment::TypeSeg { kind, name } => (Segment::TypeSeg { kind: *kind, name: name.clone() }),
        Segment::ImplSeg { target, trait_name, ordinal } => (Segment::ImplSeg {
            target: target.clone(),
            trait_name: match trait_name {
                Some(t) => Some(t.clone()),
                None => None,
            },
            ordinal: *ordinal,
        }),
        Segment::AssocSeg { name } => Segment::AssocSeg { name: name.clone() },
    }
}

/// Clones an address, preserving its value.
pub fn clone_address(a: &Address) -> (r: Address)
    ensures
        r@ == a@,
{
    let mut segs: Vec<Segment> = Vec::new();
    let mut i: usize = 0;
    while i < a.segs.len()
        invariant
            i <= a.segs@.len(),
            segs@.len() == i,
            forall|j: int| 0 <= j < i ==> segs@[j]@ == a.segs@[j]@,
        decreases a.segs.len() - i,
    {
        segs.push(clone_segment(&a.segs[i]));
        i = i + 1;
    }
    let r = Address { segs };
    proof {
        assert(r@ =~= a@);
    }
    r
}

/// A declaration with its assigned structural address.
pub struct Declaration {
    pub kind: DeclKind,
    pub name: String,
    pub address: Address,
    pub docs: Vec<String>,
    pub line: usize,
    pub indent: usize,
}

/// Spec-level value of a [`Declaration`].
#[verifier::ext_equal]
pub struct DeclarationV {
    pub kind: DeclKind,
    pub name: Seq<char>,
    pub address: Seq<SegV>,
    pub docs: Seq<Seq<char>>,
    pub line: int,
    pub indent: int,
}

impl View for Declaration {
    type V = DeclarationV;

    open spec fn view(&self) -> DeclarationV {
        DeclarationV {
            kind: self.kind,
            name: self.name@,
            address: self.address@,
            docs: self.docs.deep_view(),
            line: self.line as int,
            indent: self.indent as int,
        }
    }
}

/// The sequence of declaration values held by an addressed declaration list.
pub open spec fn decl_seq_view(s: Seq<Declaration>) -> Seq<DeclarationV> {
    s.map_values(|d: Declaration| d@)
}

/// Addresses are pairwise distinct: the load-bearing invariant that makes
/// the strip / embed round trip lossless.
pub open spec fn unique_addresses(s: Seq<DeclarationV>) -> bool {
    forall|p: int, q: int| 0 <= p < q < s.len() ==> s[p].address != s[q].address
}

/// A pass-internal failure that aborts the pass for the affected file.
#[derive(Clone, Copy, PartialEq, Eq, Structural, Debug)]
pub enum PassError {
    /// Two declarations resolved to the same address after disambiguation:
    /// an assigner defect that would silently corrupt the round trip.
    AddressCollision,
    /// A doc store header line could not be parsed back into an address.
    MalformedDocStore,
}

/// Module-path segments of a declaration's address.
pub open spec fn mod_segs(mods: Seq<Seq<char>>) -> Seq<SegV> {
    mods.map_values(|m: Seq<char>| SegV::ModSegV { name: m })
}

/// Whether a declaration can own associated functions.
pub open spec fn is_container(d: DeclV) -> bool {
    d.kind == DeclKind::TraitDecl || (d.kind == DeclKind::ImplDecl && d.impl_head is Some)
}

/// Index of the closest preceding container declaration, or -1 when none.
pub open spec fn last_container(ds: Seq<DeclV>, i: int) -> int
    decreases i,
{
    if i <= 0 {
        -1
    } else if is_container(ds[i - 1]) {
        i - 1
    } else {
        last_container(ds, i - 1)
    }
}

/// Number of impl declarations before index `i` whose head equals `head`:
/// the running disambiguation counter of the assigner.  The counter is
/// deliberately one per compilation unit, not one per module: two impls of
/// the same target and trait continue the same count even when they sit in
/// different modules, so an impl's ordinal is its source-order rank among
/// all impls of that head in the unit.
pub open spec fn count_impls_before(ds: Seq<DeclV>, head: Option<ImplHeadV>, i: int) -> int
    decreases i,
{
    if i <= 0 {
        0
    } else {
        count_impls_before(ds, head, i - 1) + if ds[i - 1].kind == DeclKind::ImplDecl
            && ds[i - 1].impl_head == head {
            1int
        } else {
            0int
        }
    }
}

/// A declaration the assigner ignores as an internal structural anomaly:
/// an impl without a head, or an associated function without a preceding
/// container.  Never fatal, by design.
pub open spec fn skipped(ds: Seq<DeclV>, i: int) -> bool {
    ||| (ds[i].kind == DeclKind::ImplDecl && ds[i].impl_head is None)
    ||| (ds[i].kind == DeclKind::AssocFnDecl && last_container(ds, i) < 0)
}

/// The address of a non-associated declaration at index `i`.
pub open spec fn own_address(ds: Seq<DeclV>, i: int) -> Seq<SegV> {
    let d = ds[i];
    if d.kind == DeclKind::ImplDecl {
        mod_segs(d.mods) + seq![
            SegV::ImplSegV {
                target: d.impl_head->Some_0.target,
                trait_name: d.impl_head->Some_0.trait_name,
                ordinal: count_impls_before(ds, d.impl_head, i),
            },
        ]
    } else {
        mod_segs(d.mods) + seq![SegV::TypeSegV { kind: d.kind, name: d.name }]
    }
}

/// The address of the declaration at index `i`: its own path, or, for an
/// associated function, its owning container's path extended by one
/// segment.
pub open spec fn spec_address(ds: Seq<DeclV>, i: int) -> Seq<SegV> {
    if ds[i].kind == DeclKind::AssocFnDecl {
        own_address(ds, last_container(ds, i)) + seq![SegV::AssocSegV { name: ds[i].name }]
    } else {
        own_address(ds, i)
    }
}

/// The addressed record of the declaration at index `i`.
pub open spec fn assigned(ds: Seq<DeclV>, i: int) -> DeclarationV {
    DeclarationV {
        kind: ds[i].kind,
        name: ds[i].name,
        address: spec_address(ds, i),
        docs: ds[i].docs,
        line: ds[i].line,
        indent: ds[i].indent,
    }
}

/// Address assignment over the first `n` declarations, anomalies skipped.
pub open spec fn spec_assign_upto(ds: Seq<DeclV>, n: int) -> Seq<DeclarationV>
    decreases n,
{
    if n <= 0 {
        Seq::empty()
    } else if skipped(ds, n - 1) {
        spec_assign_upto(ds, n - 1)
    } else {
        spec_assign_upto(ds, n - 1).push(assigned(ds, n - 1))
    }
}

/// Address assignment over a whole declaration sequence.
pub open spec fn spec_assign(ds: Seq<DeclV>) -> Seq<DeclarationV> {
    spec_assign_upto(ds, ds.len() as int)
}

proof fn lemma_count_impls_bound(ds: Seq<DeclV>, head: Option<ImplHeadV>, i: int)
    requires
        i >= 0,
    ensures
        0 <= count_impls_before(ds, head, i) <= i,
    decreases i,
{
    if i > 0 {
        lemma_count_impls_bound(ds, head, i - 1);
    }
}

proof fn lemma_assign_upto_prefix(ds: Seq<DeclV>, m: int, n: int)
    requires
        0 <= m <= n,
    ensures
        spec_assign_upto(ds, m).len() <= spec_assign_upto(ds, n).len(),
        forall|k: int| 0 <= k < spec_assign_upto(ds, m).len() ==> spec_assign_upto(ds, n)[k]
            == spec_assign_upto(ds, m)[k],
    decreases n,
{
    if n > m {
        lemma_assign_upto_prefix(ds, m, n - 1);
    }
}

/// Converts a module path to its address segments.
fn mods_to_segs(mods: &Vec<String>) -> (r: Vec<Segment>)
    ensures
        r.deep_view() == mod_segs(mods.deep_view()),
{
    let mut r: Vec<Segment> = Vec::new();
    let mut i: usize = 0;
    while i < mods.len()
        invariant
            i <= mods@.len(),
            r@.len() == i,
            forall|j: int| 0 <= j < i ==> r@[j]@ == (SegV::ModSegV { name: mods@[j]@ }),
        decreases mods.len() - i,
    {
        r.push(Segment::ModSeg { name: mods[i].clone() });
        i = i + 1;
    }
    proof {
        assert(r.deep_view() =~= mod_segs(mods.deep_view()));
    }
    r
}

proof fn lemma_counts_step_no_impl(ds: Seq<DeclV>, i: int)
    requires
        0 <= i < ds.len(),
        ds[i].kind != DeclKind::ImplDecl,
    ensures
        forall|h: Option<ImplHeadV>| #[trigger] count_impls_before(ds, h, i + 1)
            == count_impls_before(ds, h, i),
{
}

proof fn lemma_counts_step_impl(ds: Seq<DeclV>, i: int)
    requires
        0 <= i < ds.len(),
        ds[i].kind == DeclKind::ImplDecl,
    ensures
        forall|h: Option<ImplHeadV>| h != ds[i].impl_head ==> #[trigger] count_impls_before(
            ds,
            h,
            i + 1,
        ) == count_impls_before(ds, h, i),
        count_impls_before(ds, ds[i].impl_head, i + 1) == count_impls_before(
            ds,
            ds[i].impl_head,
            i,
        ) + 1,
{
}

fn bump_counter(counters: &mut Vec<(ImplHead, usize)>, p: usize)
    requires
        p < old(counters)@.len(),
        old(counters)@[p as int].1 < usize::MAX,
    ensures
        final(counters)@.len() == old(counters)@.len(),
        forall|j: int| 0 <= j < old(counters)@.len() && j != p ==> final(counters)@[j]
            == old(counters)@[j],
        final(counters)@[p as int].0 == old(counters)@[p as int].0,
        final(counters)@[p as int].1 == old(counters)@[p as int].1 + 1,
{
    let entry = counters.remove(p);
    counters.insert(p, (entry.0, entry.1 + 1));
    proof {
        assert forall|j: int| 0 <= j < old(counters)@.len() && j != p implies counters@[j]
            == old(counters)@[j] by {
            if j < p {
            } else {
                assert(counters@[j] == old(counters)@.remove(p as int).insert(
                    p as int,
                    (old(counters)@[p as int].0, (old(counters)@[p as int].1 + 1) as usize),
                )[j]);
            }
        }
    }
}

fn emit_decl(
    out: &mut Vec<Declaration>,
    d: &RawDecl,
    addr: Address,
    Ghost(ds): Ghost<Seq<DeclV>>,
    Ghost(i): Ghost<int>,
) -> (ok: bool)
    requires
        0 <= i < ds.len(),
        ds[i] == d@,
        !skipped(ds, i),
        addr@ == spec_address(ds, i),
        decl_seq_view(old(out)@) == spec_assign_upto(ds, i),
        unique_addresses(spec_assign_upto(ds, i)),
    ensures
        ok ==> decl_seq_view(final(out)@) == spec_assign_upto(ds, i + 1),
        ok ==> unique_addresses(spec_assign_upto(ds, i + 1)),
        !ok ==> !unique_addresses(spec_assign_upto(ds, i + 1)),
{
    let ghost upto = spec_assign_upto(ds, i);
    proof {
        assert(spec_assign_upto(ds, i + 1) == upto.push(assigned(ds, i)));
        assert(assigned(ds, i).address == addr@);
    }
    if contains_address(out, &addr) {
        proof {
            let p = choose|p: int| 0 <= p < out@.len() && out@[p].address@ == addr@;
            assert(decl_seq_view(out@)[p] == out@[p]@);
            assert(upto[p].address == addr@);
            let q = upto.len() as int;
            assert(spec_assign_upto(ds, i + 1)[p].address == spec_assign_upto(ds, i + 1)[q].address);
            assert(!unique_addresses(spec_assign_upto(ds, i + 1)));
        }
        return false;
    }
    let decl = Declaration {
        kind: d.kind,
        name: d.name.clone(),
        address: addr,
        docs: clone_string_vec(&d.docs),
        line: d.line,
        indent: d.indent,
    };
    proof {
        assert(decl.docs.deep_view() =~= d.docs.deep_view());
        assert(decl@ =~= assigned(ds, i));
    }
    let ghost prev = out@;
    out.push(decl);
    proof {
        assert(decl_seq_view(out@) =~= decl_seq_view(prev).push(assigned(ds, i)));
        let full = spec_assign_upto(ds, i + 1);
        assert forall|p: int, q: int| 0 <= p < q < full.len() implies full[p].address
            != full[q].address by {
            if q < upto.len() {
                assert(upto[p].address != upto[q].address);
            } else {
                assert(full[q].address == addr@);
                assert(decl_seq_view(prev)[p] == prev[p]@);
                assert(prev[p].address@ != addr@);
            }
        }
    }
    true
}

proof fn lemma_not_unique_extends(ds: Seq<DeclV>, n: int)
    requires
        0 <= n <= ds.len(),
        !unique_addresses(spec_assign_upto(ds, n)),
    ensures
        !unique_addresses(spec_assign(ds)),
{
    lemma_assign_upto_prefix(ds, n, ds.len() as int);
    let upto = spec_assign_upto(ds, n);
    let (p, q) = choose|p: int, q: int| 0 <= p < q < upto.len() && #[trigger] upto[p].address
        == #[trigger] upto[q].address;
    assert(spec_assign(ds)[p].address == spec_assign(ds)[q].address);
}

fn find_counter(counters: &Vec<(ImplHead, usize)>, h: &ImplHead) -> (r: Option<usize>)
    ensures
        match r {
            Some(p) => p < counters@.len() && counters@[p as int].0@ == h@,
            None => forall|p: int| 0 <= p < counters@.len() ==> counters@[p].0@ != h@,
        },
{
    let mut p: usize = 0;
    while p < counters.len()
        invariant
            p <= counters@.len(),
            forall|j: int| 0 <= j < p ==> counters@[j].0@ != h@,
        decreases counters.len() - p,
    {
        if impl_head_eq(&counters[p].0, h) {
            return Some(p);
        }
        p = p + 1;
    }
    None
}

fn contains_address(out: &Vec<Declaration>, addr: &Address) -> (found: bool)
    ensures
        found == (exists|p: int| 0 <= p < out@.len() && out@[p].address@ == addr@),
{
    let mut p: usize = 0;
    while p < out.len()
        invariant
            p <= out@.len(),
            forall|j: int| 0 <= j < p ==> out@[j].address@ != addr@,
        decreases out.len() - p,
    {
        if addr_eq(&out[p].address, addr) {
            return true;
        }
        p = p + 1;
    }
    false
}

/// Compares two impl heads by value.
pub fn impl_head_eq(a: &ImplHead, b: &ImplHead) -> (r: bool)
    ensures
        r == (a@ == b@),
{
    let tr_eq = match (&a.trait_name, &b.trait_name) {
        (Some(x), Some(y)) => *x == *y,
        (None, None) => true,
        _ => false,
    };
    let r = a.target == b.target && tr_eq;
    proof {
        if r {
            assert(a@ =~= b@);
        }
    }
    r
}

/// Two declarations with the same identity: equal kind, name, impl head
/// and module path.  Line offsets, indentation and doc text are free to
/// differ, as they do when a source file is merely reformatted.
pub open spec fn same_identity(a: DeclV, b: DeclV) -> bool {
    a.kind == b.kind && a.name == b.name && a.impl_head == b.impl_head && a.mods == b.mods
}

/// Two declaration sequences that pair up identity for identity.
pub open spec fn same_identities(a: Seq<DeclV>, b: Seq<DeclV>) -> bool {
    a.len() == b.len() && forall|i: int| 0 <= i < a.len() ==> same_identity(a[i], b[i])
}

proof fn lemma_count_stable(a: Seq<DeclV>, b: Seq<DeclV>, head: Option<ImplHeadV>, i: int)
    requires
        same_identities(a, b),
        0 <= i <= a.len(),
    ensures
        count_impls_before(a, head, i) == count_impls_before(b, head, i),
    decreases i,
{
    if i > 0 {
        lemma_count_stable(a, b, head, i - 1);
    }
}

proof fn lemma_container_stable(a: Seq<DeclV>, b: Seq<DeclV>, i: int)
    requires
        same_identities(a, b),
        0 <= i <= a.len(),
    ensures
        last_container(a, i) == last_container(b, i),
    decreases i,
{
    if i > 0 {
        assert(is_container(a[i - 1]) == is_container(b[i - 1]));
        lemma_container_stable(a, b, i - 1);
    }
}

proof fn lemma_last_container_bound(ds: Seq<DeclV>, i: int)
    requires
        i >= 0,
    ensures
        -1 <= last_container(ds, i) < i,
    decreases i,
{
    if i > 0 {
        lemma_last_container_bound(ds, i - 1);
    }
}

proof fn lemma_own_address_stable(a: Seq<DeclV>, b: Seq<DeclV>, i: int)
    requires
        same_identities(a, b),
        0 <= i < a.len(),
    ensures
        own_address(a, i) == own_address(b, i),
{
    lemma_count_stable(a, b, a[i].impl_head, i);
    assert(own_address(a, i) =~= own_address(b, i));
}

proof fn lemma_address_stable(a: Seq<DeclV>, b: Seq<DeclV>, i: int)
    requires
        same_identities(a, b),
        0 <= i < a.len(),
        !skipped(a, i),
    ensures
        !skipped(b, i),
        spec_address(a, i) == spec_address(b, i),
{
    lemma_container_stable(a, b, i);
    if a[i].kind == DeclKind::AssocFnDecl {
        let c = last_container(a, i);
        lemma_last_container_bound(a, i);
        lemma_own_address_stable(a, b, c);
        assert(spec_address(a, i) =~= spec_address(b, i));
    } else {
        lemma_own_address_stable(a, b, i);
    }
}

proof fn lemma_assign_upto_stable(a: Seq<DeclV>, b: Seq<DeclV>, n: int)
    requires
        same_identities(a, b),
        0 <= n <= a.len(),
    ensures
        spec_assign_upto(a, n).len() == spec_assign_upto(b, n).len(),
        forall|k: int| 0 <= k < spec_assign_upto(a, n).len() ==> #[trigger] spec_assign_upto(
            a,
            n,
        )[k].address == spec_assign_upto(b, n)[k].address,
    decreases n,
{
    if n > 0 {
        lemma_assign_upto_stable(a, b, n - 1);
        lemma_container_stable(a, b, n - 1);
        if !skipped(a, n - 1) {
            lemma_address_stable(a, b, n - 1);
        }
        assert(skipped(a, n - 1) == skipped(b, n - 1));
    }
}

/// Structural stability: reformatting a compilation unit — any change that
/// keeps every declaration's identity (kind, name, nesting, impl target
/// and trait) while moving lines, indentation or doc text — assigns every
/// corresponding declaration the same address, because addresses are
/// derived from declaration identity alone, never from offsets.
pub proof fn lemma_structural_stability(a: Seq<DeclV>, b: Seq<DeclV>)
    requires
        same_identities(a, b),
    ensures
        spec_assign(a).len() == spec_assign(b).len(),
        forall|k: int| 0 <= k < spec_assign(a).len() ==> #[trigger] spec_assign(a)[k].address
            == spec_assign(b)[k].address,
{
    lemma_assign_upto_stable(a, b, a.len() as int);
}

proof fn lemma_same_identities_concat(a1: Seq<DeclV>, a2: Seq<DeclV>, b1: Seq<DeclV>, b2: Seq<DeclV>)
    requires
        same_identities(a1, b1),
        same_identities(a2, b2),
    ensures
        same_identities(a1 + a2, b1 + b2),
{
    assert forall|i: int| 0 <= i < (a1 + a2).len() implies same_identity(
        #[trigger] (a1 + a2)[i],
        (b1 + b2)[i],
    ) by {
        if i < a1.len() {
            assert(same_identity(a1[i], b1[i]));
        } else {
            assert(same_identity(a2[i - a1.len()], b2[i - a1.len()]));
        }
    }
}

proof fn lemma_shape_assoc_decls(x: Seq<AssocNode>, y: Seq<AssocNode>)
    requires
        x.len() == y.len(),
        forall|i: int| 0 <= i < x.len() ==> same_shape_assoc(#[trigger] x[i], y[i]),
    ensures
        same_identities(spec_assoc_decls(x), spec_assoc_decls(y)),
    decreases x.len(),
{
    if x.len() > 0 {
        assert forall|i: int| 0 <= i < x.drop_first().len() implies same_shape_assoc(
            #[trigger] x.drop_first()[i],
            y.drop_first()[i],
        ) by {
            assert(x.drop_first()[i] == x[i + 1]);
            assert(y.drop_first()[i] == y[i + 1]);
            assert(same_shape_assoc(x[i + 1], y[i + 1]));
        }
        lemma_shape_assoc_decls(x.drop_first(), y.drop_first());
        assert(same_shape_assoc(x[0], y[0]));
        match x.first().kind {
            crate::tree::AssocKind::FnMember => {
                assert(same_identity(assoc_decl(x.first()), assoc_decl(y.first())));
                lemma_same_identities_concat(
                    seq![assoc_decl(x.first())],
                    spec_assoc_decls(x.drop_first()),
                    seq![assoc_decl(y.first())],
                    spec_assoc_decls(y.drop_first()),
                );
            },
            crate::tree::AssocKind::OtherMember => {},
        }
    }
}

proof fn lemma_shape_node_decls(a: TreeNode, b: TreeNode, mods: Seq<Seq<char>>)
    requires
        same_shape_node(a, b),
    ensures
        same_identities(spec_visit_node(a, mods), spec_visit_node(b, mods)),
    decreases a, 0int,
{
    match (a.kind, b.kind) {
        (NodeKind::StructNode, NodeKind::StructNode) => {
            assert(same_identity(
                plain_decl(DeclKind::StructDecl, a, mods),
                plain_decl(DeclKind::StructDecl, b, mods),
            ));
        },
        (NodeKind::EnumNode, NodeKind::EnumNode) => {
            assert(same_identity(
                plain_decl(DeclKind::EnumDecl, a, mods),
                plain_decl(DeclKind::EnumDecl, b, mods),
            ));
        },
        (NodeKind::FnNode, NodeKind::FnNode) => {
            assert(same_identity(
                plain_decl(DeclKind::FnDecl, a, mods),
                plain_decl(DeclKind::FnDecl, b, mods),
            ));
        },
        (NodeKind::TraitNode(x), NodeKind::TraitNode(y)) => {
            lemma_shape_assoc_decls(x@, y@);
            lemma_same_identities_concat(
                seq![plain_decl(DeclKind::TraitDecl, a, mods)],
                spec_assoc_decls(x@),
                seq![plain_decl(DeclKind::TraitDecl, b, mods)],
                spec_assoc_decls(y@),
            );
        },
        (NodeKind::ImplNode(h1, x), NodeKind::ImplNode(h2, y)) => {
            lemma_shape_assoc_decls(x@, y@);
            assert(same_identity(impl_decl(a, h1, mods), impl_decl(b, h2, mods)));
            lemma_same_identities_concat(
                seq![impl_decl(a, h1, mods)],
                spec_assoc_decls(x@),
                seq![impl_decl(b, h2, mods)],
                spec_assoc_decls(y@),
            );
        },
        (NodeKind::ModNode(l1, x), NodeKind::ModNode(l2, y)) => {
            if l1 {
                lemma_shape_items_decls(x@, y@, mods.push(a.name@));
            }
        },
        (NodeKind::OtherNode, NodeKind::OtherNode) => {},
        _ => {
            assert(false);
        },
    }
}

proof fn lemma_shape_items_decls(x: Seq<TreeNode>, y: Seq<TreeNode>, mods: Seq<Seq<char>>)
    requires
        x.len() == y.len(),
        forall|i: int| 0 <= i < x.len() ==> same_shape_node(#[trigger] x[i], y[i]),
    ensures
        same_identities(spec_visit_items(x, mods), spec_visit_items(y, mods)),
    decreases x, 1int,
{
    if x.len() > 0 {
        assert(same_shape_node(x[0], y[0]));
        lemma_shape_node_decls(x.first(), y.first(), mods);
        assert forall|i: int| 0 <= i < x.drop_first().len() implies same_shape_node(
            #[trigger] x.drop_first()[i],
            y.drop_first()[i],
        ) by {
            assert(x.drop_first()[i] == x[i + 1]);
            assert(y.drop_first()[i] == y[i + 1]);
            assert(same_shape_node(x[i + 1], y[i + 1]));
        }
        lemma_shape_items_decls(x.drop_first(), y.drop_first(), mods);
        lemma_same_identities_concat(
            spec_visit_node(x.first(), mods),
            spec_visit_items(x.drop_first(), mods),
            spec_visit_node(y.first(), mods),
            spec_visit_items(y.drop_first(), mods),
        );
    }
}

/// Structural stability, stated from the trees themselves: two parses that
/// carry the same declarations — a source file and any reformatting of it,
/// with lines, indentation and doc text moved at will — assign every
/// corresponding declaration the very same structural address.
pub proof fn lemma_tree_structural_stability(t1: SourceTree, t2: SourceTree)
    requires
        same_shape(t1, t2),
    ensures
        spec_assign(spec_visit(t1)).len() == spec_assign(spec_visit(t2)).len(),
        forall|k: int| 0 <= k < spec_assign(spec_visit(t1)).len() ==> #[trigger] spec_assign(
            spec_visit(t1),
        )[k].address == spec_assign(spec_visit(t2))[k].address,
{
    lemma_shape_items_decls(t1.items@, t2.items@, Seq::empty());
    lemma_structural_stability(spec_visit(t1), spec_visit(t2));
}

/// Assigns every declaration its structural address, walking the visitor
/// output in source order and maintaining a running disambiguation counter
/// per impl head, reset per compilation unit.  Succeeds with the addressed
/// declarations exactly when the resulting addresses are pairwise unique;
/// a collision — an assigner defect, not a normal source condition — is
/// fatal, because it would silently corrupt the strip / embed round trip.
pub fn assign_addresses(raw: &Vec<RawDecl>) -> (r: Result<Vec<Declaration>, PassError>)
    ensures
        r is Ok ==> decl_seq_view(r->Ok_0@) == spec_assign(decls_view(raw@)),
        r is Ok ==> unique_addresses(decl_seq_view(r->Ok_0@)),
        r is Err <==> !unique_addresses(spec_assign(decls_view(raw@))),
        r is Err ==> r->Err_0 == PassError::AddressCollision,
{
    let ghost ds = decls_view(raw@);
    proof {
        assert(ds.len() == raw@.len());
    }
    let mut out: Vec<Declaration> = Vec::new();
    let mut counters: Vec<(ImplHead, usize)> = Vec::new();
    let mut container: Option<Address> = None;
    let mut i: usize = 0;
    proof {
        assert(decl_seq_view(out@) =~= spec_assign_upto(ds, 0));
    }
    while i < raw.len()
        invariant
            i <= raw@.len(),
            ds == decls_view(raw@),
            ds.len() == raw@.len(),
            decl_seq_view(out@) == spec_assign_upto(ds, i as int),
            unique_addresses(spec_assign_upto(ds, i as int)),
            forall|p: int| 0 <= p < counters@.len() ==> #[trigger] counters@[p].1 as int
                == count_impls_before(ds, Some(counters@[p].0@), i as int),
            forall|h: ImplHeadV|
                (forall|p: int| 0 <= p < counters@.len() ==> counters@[p].0@ != h)
                    ==> #[trigger] count_impls_before(ds, Some(h), i as int) == 0,
            forall|p: int, q: int| 0 <= p < q < counters@.len() ==> counters@[p].0@
                != counters@[q].0@,
            (container is Some) == (last_container(ds, i as int) >= 0),
            container is Some ==> container->0@ == own_address(ds, last_container(ds, i as int)),
        decreases raw.len() - i,
    {
        let d = &raw[i];
        proof {
            assert(ds[i as int] == raw@[i as int]@);
        }
        match d.kind {
            DeclKind::AssocFnDecl => {
                match &container {
                    Some(caddr) => {
                        let mut addr = clone_address(caddr);
                        addr.segs.push(Segment::AssocSeg { name: d.name.clone() });
                        proof {
                            let c = last_container(ds, i as int);
                            assert(addr@ =~= own_address(ds, c) + seq![
                                SegV::AssocSegV { name: ds[i as int].name },
                            ]);
                            assert(!skipped(ds, i as int));
                        }
                        let ok = emit_decl(&mut out, d, addr, Ghost(ds), Ghost(i as int));
                        if !ok {
                            proof {
                                lemma_not_unique_extends(ds, i as int + 1);
                            }
                            return Err(PassError::AddressCollision);
                        }
                    },
                    None => {
                        proof {
                            assert(skipped(ds, i as int));
                        }
                    },
                }
                proof {
                    assert(!is_container(ds[i as int]));
                    lemma_counts_step_no_impl(ds, i as int);
                }
            },
            DeclKind::ImplDecl => {
                match &d.impl_head {
                    Some(h) => {
                        let ghost cold = counters@;
                        let found = find_counter(&counters, h);
                        let mut ordinal: usize = 0;
                        match found {
                            Some(p) => {
                                ordinal = counters[p].1;
                                proof {
                                    lemma_count_impls_bound(ds, Some(h@), i as int);
                                }
                                bump_counter(&mut counters, p);
                                proof {
                                    lemma_counts_step_impl(ds, i as int);
                                    assert(ds[i as int].impl_head == Some(h@));
                                    assert forall|pp: int| 0 <= pp < counters@.len() implies
                                        #[trigger] counters@[pp].1 as int == count_impls_before(
                                        ds,
                                        Some(counters@[pp].0@),
                                        i as int + 1,
                                    ) by {
                                        if pp == p as int {
                                            assert(counters@[pp].0@ == h@);
                                        } else {
                                            assert(counters@[pp] == cold[pp]);
                                            assert(cold[pp].0@ != cold[p as int].0@);
                                            assert(Some(counters@[pp].0@) != ds[i as int].impl_head);
                                        }
                                    }
                                    assert(forall|pp: int| 0 <= pp < counters@.len()
                                        ==> counters@[pp].0 == cold[pp].0);
                                    assert forall|hh: ImplHeadV|
                                        (forall|pp: int| 0 <= pp < counters@.len()
                                            ==> counters@[pp].0@ != hh) implies #[trigger]
                                        count_impls_before(ds, Some(hh), i as int + 1) == 0 by {
                                        assert(counters@[p as int].0@ == h@);
                                        assert(hh != h@);
                                        assert(Some(hh) != ds[i as int].impl_head);
                                        assert forall|pp: int| 0 <= pp < cold.len() implies
                                            cold[pp].0@ != hh by {
                                            assert(counters@[pp].0 == cold[pp].0);
                                        }
                                    }
                                }
                            },
                            None => {
                                proof {
                                    assert(count_impls_before(ds, Some(h@), i as int) == 0);
                                }
                                counters.push((clone_impl_head(h), 1));
                                proof {
                                    lemma_counts_step_impl(ds, i as int);
                                    assert(ds[i as int].impl_head == Some(h@));
                                    assert(counters@[cold.len() as int].0@ == h@);
                                    assert forall|pp: int| 0 <= pp < counters@.len() implies
                                        #[trigger] counters@[pp].1 as int == count_impls_before(
                                        ds,
                                        Some(counters@[pp].0@),
                                        i as int + 1,
                                    ) by {
                                        if pp < cold.len() {
                                            assert(counters@[pp] == cold[pp]);
                                            assert(cold[pp].0@ != h@);
                                            assert(Some(counters@[pp].0@) != ds[i as int].impl_head);
                                        } else {
                                            assert(counters@[pp].1 == 1);
                                        }
                                    }
                                    assert forall|hh: ImplHeadV|
                                        (forall|pp: int| 0 <= pp < counters@.len()
                                            ==> counters@[pp].0@ != hh) implies #[trigger]
                                        count_impls_before(ds, Some(hh), i as int + 1) == 0 by {
                                        assert(hh != h@);
                                        assert(Some(hh) != ds[i as int].impl_head);
                                        assert forall|pp: int| 0 <= pp < cold.len() implies
                                            cold[pp].0@ != hh by {
                                            assert(counters@[pp] == cold[pp]);
                                        }
                                    }
                                }
                            },
                        }
                        let mut segs = mods_to_segs(&d.mods);
                        let trait_clone = match &h.trait_name {
                            Some(t) => Some(t.clone()),
                            None => None,
                        };
                        segs.push(
                            Segment::ImplSeg { target: h.target.clone(), trait_name: trait_clone, ordinal },
                        );
                        let addr = Address { segs };
                        proof {
                            assert(ds[i as int].impl_head == Some(h@));
                            assert(addr@ =~= own_address(ds, i as int));
                            assert(!skipped(ds, i as int));
                        }
                        let caddr = clone_address(&addr);
                        let ok = emit_decl(&mut out, d, addr, Ghost(ds), Ghost(i as int));
                        if !ok {
                            proof {
                                lemma_not_unique_extends(ds, i as int + 1);
                            }
                            return Err(PassError::AddressCollision);
                        }
                        container = Some(caddr);
                        proof {
                            assert(is_container(ds[i as int]));
                            assert(last_container(ds, i as int + 1) == i as int);
                        }
                    },
                    None => {
                        proof {
                            assert(skipped(ds, i as int));
                            assert(!is_container(ds[i as int]));
                            lemma_counts_step_impl(ds, i as int);
                            assert(ds[i as int].impl_head is None);
                            assert forall|pp: int| 0 <= pp < counters@.len() implies #[trigger]
                                counters@[pp].1 as int == count_impls_before(
                                ds,
                                Some(counters@[pp].0@),
                                i as int + 1,
                            ) by {
                                assert(Some(counters@[pp].0@) != ds[i as int].impl_head);
                            }
                            assert forall|hh: ImplHeadV|
                                (forall|pp: int| 0 <= pp < counters@.len() ==> counters@[pp].0@
                                    != hh) implies #[trigger] count_impls_before(
                                ds,
                                Some(hh),
                                i as int + 1,
                            ) == 0 by {
                                assert(Some(hh) != ds[i as int].impl_head);
                            }
                        }
                    },
                }
            },
            _ => {
                let mut segs = mods_to_segs(&d.mods);
                segs.push(Segment::TypeSeg { kind: d.kind, name: d.name.clone() });
                let addr = Address { segs };
                proof {
                    assert(ds[i as int].kind != DeclKind::ImplDecl);
                    assert(ds[i as int].kind != DeclKind::AssocFnDecl);
                    assert(addr@ =~= own_address(ds, i as int));
                    assert(!skipped(ds, i as int));
                }
                let is_trait = match d.kind {
                    DeclKind::TraitDecl => true,
                    _ => false,
                };
                let caddr = if is_trait {
                    Some(clone_address(&addr))
                } else {
                    None
                };
                let ok = emit_decl(&mut out, d, addr, Ghost(ds), Ghost(i as int));
                if !ok {
                    proof {
                        lemma_not_unique_extends(ds, i as int + 1);
                    }
                    return Err(PassError::AddressCollision);
                }
                if is_trait {
                    container = caddr;
                    proof {
                        assert(is_container(ds[i as int]));
                        assert(last_container(ds, i as int + 1) == i as int);
                    }
                } else {
                    proof {
                        assert(!is_container(ds[i as int]));
                    }
                }
                proof {
                    lemma_counts_step_no_impl(ds, i as int);
                }
            },
        }
        i = i + 1;
    }
    proof {
        assert(spec_assign_upto(ds, ds.len() as int) == spec_assign(ds));
    }
    Ok(out)
}

} // verus!
