//! The doc store: an ordered mapping from structural address to doc text,
//! kept in the source-traversal order of the pass that produced it, so
//! that reserializing it is diff-stable.

use vstd::prelude::*;
use vstd::string::StringExecFns;
use vstd::string::StrSliceExecFns;
use crate::address::Address;
use crate::address::PassError;
use crate::address::SegV;
use crate::address::Segment;
use crate::address::addr_eq;
use crate::visit::DeclKind;

verus! {

/// One persisted record: a structural address and the doc lines that
/// belong to the declaration it names.
pub struct DocRecord {
    pub address: Address,
    pub lines: Vec<String>,
}

/// Spec-level value of a [`DocRecord`].
#[verifier::ext_equal]
pub struct RecV {
    pub addr: Seq<SegV>,
    pub lines: Seq<Seq<char>>,
}

impl View for DocRecord {
    type V = RecV;

    open spec fn view(&self) -> RecV {
        RecV { addr: self.address@, lines: self.lines.deep_view() }
    }
}

/// The ordered mapping from address to doc text for one compilation unit.
pub struct DocStore {
    pub records: Vec<DocRecord>,
}

impl View for DocStore {
    type V = Seq<RecV>;

    open spec fn view(&self) -> Seq<RecV> {
        self.records@.map_values(|r: DocRecord| r@)
    }
}

/// The doc lines stored under an address: the first record whose address
/// matches, or nothing.
pub open spec fn spec_lookup(store: Seq<RecV>, addr: Seq<SegV>) -> Option<Seq<Seq<char>>>
    decreases store.len(),
{
    if store.len() == 0 {
        None
    } else if store.first().addr == addr {
        Some(store.first().lines)
    } else {
        spec_lookup(store.drop_first(), addr)
    }
}

/// Looks an address up in the store.
pub fn lookup<'a>(store: &'a DocStore, addr: &Address) -> (r: Option<&'a Vec<String>>)
    ensures
        match r {
            Some(lines) => spec_lookup(store@, addr@) == Some(lines.deep_view()),
            None => spec_lookup(store@, addr@) is None,
        },
{
    let ghost whole = store@;
    proof {
        assert(whole.subrange(0, whole.len() as int) =~= whole);
    }
    let mut j: usize = 0;
    while j < store.records.len()
        invariant
            j <= store.records@.len(),
            whole == store@,
            whole.len() == store.records@.len(),
            spec_lookup(whole, addr@) == spec_lookup(whole.subrange(j as int, whole.len() as int), addr@),
        decreases store.records.len() - j,
    {
        let ghost tail = whole.subrange(j as int, whole.len() as int);
        proof {
            assert(tail.first() == whole[j as int]);
            assert(whole[j as int] == store.records@[j as int]@);
            assert(tail.drop_first() =~= whole.subrange(j as int + 1, whole.len() as int));
        }
        if addr_eq(&store.records[j].address, addr) {
            return Some(&store.records[j].lines);
        }
        j = j + 1;
    }
    proof {
        assert(whole.subrange(whole.len() as int, whole.len() as int) =~= Seq::<RecV>::empty());
    }
    None
}

// ---- serialization: canonical textual form ----

/// The marker that opens every header line of the serialized form.
pub open spec fn header_prefix() -> Seq<char> {
    seq![':', ':', ' ']
}

/// The keyword naming a declaration kind in a header line.
pub open spec fn kind_word(k: DeclKind) -> Seq<char> {
    match k {
        DeclKind::StructDecl => seq!['s', 't', 'r', 'u', 'c', 't'],
        DeclKind::EnumDecl => seq!['e', 'n', 'u', 'm'],
        DeclKind::TraitDecl => seq!['t', 'r', 'a', 'i', 't'],
        DeclKind::FnDecl => seq!['f', 'n'],
        DeclKind::ImplDecl => seq!['i', 'm', 'p', 'l'],
        DeclKind::AssocFnDecl => seq!['a', 'f', 'n'],
    }
}

/// The decimal digit character for a value below ten.
pub open spec fn digit_char(d: int) -> char {
    if d == 0 {
        '0'
    } else if d == 1 {
        '1'
    } else if d == 2 {
        '2'
    } else if d == 3 {
        '3'
    } else if d == 4 {
        '4'
    } else if d == 5 {
        '5'
    } else if d == 6 {
        '6'
    } else if d == 7 {
        '7'
    } else if d == 8 {
        '8'
    } else {
        '9'
    }
}

/// Decimal digits of a positive value, most significant first.
pub open spec fn dec_digits_rec(n: int) -> Seq<char>
    decreases n,
{
    if n <= 0 {
        Seq::empty()
    } else {
        dec_digits_rec(n / 10).push(digit_char(n % 10))
    }
}

/// Canonical decimal rendering of a non-negative value.
pub open spec fn dec_digits(n: int) -> Seq<char> {
    if n <= 0 {
        seq!['0']
    } else {
        dec_digits_rec(n)
    }
}

/// Canonical text of one address segment: a kind keyword, then the
/// space-separated fields; impl segments carry their ordinal first.
pub open spec fn spec_render_segment(s: SegV) -> Seq<char> {
    match s {
        SegV::ModSegV { name } => seq!['m', 'o', 'd', ' '] + name,
        SegV::TypeSegV { kind, name } => kind_word(kind) + seq![' '] + name,
        SegV::AssocSegV { name } => seq!['a', 'f', 'n', ' '] + name,
        SegV::ImplSegV { target, trait_name, ordinal } => seq!['i', 'm', 'p', 'l', ' ']
            + dec_digits(ordinal) + seq![' '] + target + (match trait_name {
            Some(t) => seq![' '] + t,
            None => Seq::empty(),
        }),
    }
}

/// Canonical text of an address: its segments joined by `/`.
pub open spec fn spec_render_address(a: Seq<SegV>) -> Seq<char>
    decreases a.len(),
{
    if a.len() == 0 {
        Seq::empty()
    } else if a.len() == 1 {
        spec_render_segment(a[0])
    } else {
        spec_render_address(a.drop_last()) + seq!['/'] + spec_render_segment(a.last())
    }
}

/// The header line of one record.
pub open spec fn spec_header(a: Seq<SegV>) -> Seq<char> {
    header_prefix() + spec_render_address(a)
}

/// One stored doc line: a single leading space, then the text.  The
/// space keeps doc text fully opaque — a doc line that itself begins with
/// the header marker can never be mistaken for a header — and is what
/// makes the serialized form unambiguous.
pub open spec fn escape_line(t: Seq<char>) -> Seq<char> {
    seq![' '] + t
}

/// The text of one stored doc line, its leading space removed.
pub open spec fn unescape_line(l: Seq<char>) -> Seq<char> {
    l.subrange(1, l.len() as int)
}

/// The serialized store: one block per record, a header line followed by
/// the record's doc lines, each behind one leading space, in store order.
pub open spec fn spec_serialize(store: Seq<RecV>) -> Seq<Seq<char>>
    decreases store.len(),
{
    if store.len() == 0 {
        Seq::empty()
    } else {
        seq![spec_header(store.first().addr)] + store.first().lines.map_values(
            |t: Seq<char>| escape_line(t),
        ) + spec_serialize(store.drop_first())
    }
}

fn digit_str(d: u8) -> (r: &'static str)
    requires
        d < 10,
    ensures
        r@ == seq![digit_char(d as int)],
{
    let r: &'static str = match d {
        0 => "0",
        1 => "1",
        2 => "2",
        3 => "3",
        4 => "4",
        5 => "5",
        6 => "6",
        7 => "7",
        8 => "8",
        _ => "9",
    };
    proof {
        reveal_strlit("0");
        reveal_strlit("1");
        reveal_strlit("2");
        reveal_strlit("3");
        reveal_strlit("4");
        reveal_strlit("5");
        reveal_strlit("6");
        reveal_strlit("7");
        reveal_strlit("8");
        reveal_strlit("9");
        assert(r@ =~= seq![digit_char(d as int)]);
    }
    r
}

/// The digits of a value, least significant first.
spec fn rev_digits(ds: Seq<u8>) -> Seq<char> {
    Seq::new(ds.len(), |k: int| digit_char(ds[ds.len() - 1 - k] as int))
}

fn append_usize(s: &mut String, n: usize)
    ensures
        final(s)@ == old(s)@ + dec_digits(n as int),
{
    if n == 0 {
        s.append("0");
        proof {
            reveal_strlit("0");
            assert(s@ =~= old(s)@ + dec_digits(0));
        }
        return ;
    }
    let mut digs: Vec<u8> = Vec::new();
    let mut m: usize = n;
    while m > 0
        invariant
            m <= n,
            m > 0 || digs@.len() > 0,
            forall|k: int| 0 <= k < digs@.len() ==> #[trigger] digs@[k] < 10,
            dec_digits_rec(n as int) == dec_digits_rec(m as int) + rev_digits(digs@),
        decreases m,
    {
        let d = (m % 10) as u8;
        let ghost pre = digs@;
        digs.push(d);
        m = m / 10;
        proof {
            assert(rev_digits(digs@) =~= seq![digit_char(d as int)] + rev_digits(pre));
            assert(dec_digits_rec(n as int) =~= dec_digits_rec(m as int) + rev_digits(digs@));
        }
    }
    proof {
        assert(dec_digits_rec(0) == Seq::<char>::empty());
        assert(rev_digits(digs@) =~= dec_digits_rec(n as int));
    }
    let mut i: usize = digs.len();
    while i > 0
        invariant
            i <= digs@.len(),
            forall|k: int| 0 <= k < digs@.len() ==> #[trigger] digs@[k] < 10,
            rev_digits(digs@) == dec_digits_rec(n as int),
            s@ == old(s)@ + rev_digits(digs@).subrange(0, (digs@.len() - i) as int),
        decreases i,
    {
        i = i - 1;
        s.append(digit_str(digs[i]));
        proof {
            assert(rev_digits(digs@)[digs@.len() - 1 - i] == digit_char(digs@[i as int] as int));
            assert(s@ =~= old(s)@ + rev_digits(digs@).subrange(
                0,
                (digs@.len() - i) as int,
            ));
        }
    }
    proof {
        assert(rev_digits(digs@).subrange(0, digs@.len() as int) =~= rev_digits(digs@));
        assert(s@ =~= old(s)@ + dec_digits(n as int));
    }
}

fn append_segment(s: &mut String, seg: &Segment)
    ensures
        final(s)@ == old(s)@ + spec_render_segment(seg@),
{
    match seg {
        Segment::ModSeg { name } => {
            s.append("mod ");
            s.append(name.as_str());
            proof {
                reveal_strlit("mod ");
                assert(s@ =~= old(s)@ + spec_render_segment(seg@));
            }
        },
        Segment::TypeSeg { kind, name } => {
            match kind {
                DeclKind::StructDecl => s.append("struct "),
                DeclKind::EnumDecl => s.append("enum "),
                DeclKind::TraitDecl => s.append("trait "),
                DeclKind::FnDecl => s.append("fn "),
                DeclKind::ImplDecl => s.append("impl "),
                DeclKind::AssocFnDecl => s.append("afn "),
            }
            proof {
                reveal_strlit("struct ");
                reveal_strlit("enum ");
                reveal_strlit("trait ");
                reveal_strlit("fn ");
                reveal_strlit("impl ");
                reveal_strlit("afn ");
                assert(s@ =~= old(s)@ + kind_word(*kind) + seq![' ']);
            }
            s.append(name.as_str());
            proof {
                assert(s@ =~= old(s)@ + spec_render_segment(seg@));
            }
        },
        Segment::AssocSeg { name } => {
            s.append("afn ");
            s.append(name.as_str());
            proof {
                reveal_strlit("afn ");
                assert(s@ =~= old(s)@ + spec_render_segment(seg@));
            }
        },
        Segment::ImplSeg { target, trait_name, ordinal } => {
            s.append("impl ");
            proof {
                reveal_strlit("impl ");
            }
            append_usize(s, *ordinal);
            s.append(" ");
            s.append(target.as_str());
            proof {
                reveal_strlit(" ");
            }
            match trait_name {
                Some(t) => {
                    s.append(" ");
                    s.append(t.as_str());
                    proof {
                        reveal_strlit(" ");
                        assert(s@ =~= old(s)@ + spec_render_segment(seg@));
                    }
                },
                None => {
                    proof {
                        assert(s@ =~= old(s)@ + spec_render_segment(seg@));
                    }
                },
            }
        },
    }
}

/// Renders the canonical header line of an address.
pub fn render_header(addr: &Address) -> (h: String)
    ensures
        h@ == spec_header(addr@),
{
    let mut s = String::from_str(":: ");
    proof {
        reveal_strlit(":: ");
        assert(s@ =~= header_prefix());
        assert(addr@.subrange(0, 0) =~= Seq::<SegV>::empty());
    }
    let mut j: usize = 0;
    while j < addr.segs.len()
        invariant
            j <= addr.segs@.len(),
            addr@.len() == addr.segs@.len(),
            s@ == header_prefix() + spec_render_address(addr@.subrange(0, j as int)),
        decreases addr.segs.len() - j,
    {
        if j > 0 {
            s.append("/");
            proof {
                reveal_strlit("/");
            }
        }
        append_segment(&mut s, &addr.segs[j]);
        proof {
            let sub = addr@.subrange(0, j as int + 1);
            assert(sub.drop_last() =~= addr@.subrange(0, j as int));
            assert(sub.last() == addr@[j as int]);
            assert(addr@[j as int] == addr.segs@[j as int]@);
            if j == 0 {
                assert(spec_render_address(sub) == spec_render_segment(addr@[0]));
            }
            assert(s@ =~= header_prefix() + spec_render_address(sub));
        }
        j = j + 1;
    }
    proof {
        assert(addr@.subrange(0, addr@.len() as int) =~= addr@);
    }
    s
}

proof fn lemma_serialize_append(a: Seq<RecV>, b: Seq<RecV>)
    ensures
        spec_serialize(a + b) == spec_serialize(a) + spec_serialize(b),
    decreases a.len(),
{
    if a.len() == 0 {
        assert(a + b =~= b);
        assert(spec_serialize(a) == Seq::<Seq<char>>::empty());
        assert(spec_serialize(a) + spec_serialize(b) =~= spec_serialize(b));
    } else {
        assert((a + b).first() == a.first());
        assert((a + b).drop_first() =~= a.drop_first() + b);
        lemma_serialize_append(a.drop_first(), b);
        assert(spec_serialize(a + b) =~= spec_serialize(a) + spec_serialize(b));
    }
}

proof fn lemma_serialize_snoc(a: Seq<RecV>, r: RecV)
    ensures
        spec_serialize(a.push(r)) == spec_serialize(a) + seq![spec_header(r.addr)]
            + r.lines.map_values(|t: Seq<char>| escape_line(t)),
{
    let single = seq![r];
    assert(a.push(r) =~= a + single);
    lemma_serialize_append(a, single);
    assert(single.drop_first() =~= Seq::<RecV>::empty());
    assert(spec_serialize(Seq::<RecV>::empty()) == Seq::<Seq<char>>::empty());
    assert(spec_serialize(single) =~= seq![spec_header(r.addr)] + r.lines.map_values(
        |t: Seq<char>| escape_line(t),
    ));
    assert(spec_serialize(a.push(r)) =~= spec_serialize(a) + seq![spec_header(r.addr)]
        + r.lines.map_values(|t: Seq<char>| escape_line(t)));
}

/// Serializes a store to its canonical textual form, one block per record:
/// a header line carrying the address, then the doc lines verbatim, in
/// store order.
pub fn serialize(store: &DocStore) -> (out: Vec<String>)
    ensures
        out.deep_view() == spec_serialize(store@),
{
    let mut out: Vec<String> = Vec::new();
    proof {
        assert(store@.subrange(0, 0) =~= Seq::<RecV>::empty());
        assert(out.deep_view() =~= spec_serialize(store@.subrange(0, 0)));
    }
    let mut i: usize = 0;
    while i < store.records.len()
        invariant
            i <= store.records@.len(),
            store@.len() == store.records@.len(),
            out.deep_view() == spec_serialize(store@.subrange(0, i as int)),
        decreases store.records.len() - i,
    {
        let ghost pre = out.deep_view();
        let rec = &store.records[i];
        proof {
            assert(store@[i as int] == rec@);
        }
        out.push(render_header(&rec.address));
        let ghost escaped = rec.lines.deep_view().map_values(|t: Seq<char>| escape_line(t));
        let mut k: usize = 0;
        while k < rec.lines.len()
            invariant
                k <= rec.lines@.len(),
                escaped == rec.lines.deep_view().map_values(|t: Seq<char>| escape_line(t)),
                escaped.len() == rec.lines@.len(),
                out.deep_view() == pre + seq![spec_header(rec@.addr)] + escaped.subrange(
                    0,
                    k as int,
                ),
            decreases rec.lines.len() - k,
        {
            let ghost dv_pre = out.deep_view();
            let mut bodyline = String::from_str(" ");
            bodyline.append(rec.lines[k].as_str());
            proof {
                reveal_strlit(" ");
                assert(bodyline@ =~= escape_line(rec.lines@[k as int]@));
                assert(rec.lines.deep_view()[k as int] == rec.lines@[k as int]@);
                assert(escaped[k as int] == escape_line(rec.lines@[k as int]@));
            }
            out.push(bodyline);
            proof {
                assert(out.deep_view() =~= dv_pre.push(escaped[k as int]));
                assert(escaped.subrange(0, k as int + 1) =~= escaped.subrange(0, k as int).push(
                    escaped[k as int],
                ));
                assert(out.deep_view() =~= pre + seq![spec_header(rec@.addr)] + escaped.subrange(
                    0,
                    k as int + 1,
                ));
            }
            k = k + 1;
        }
        proof {
            assert(escaped.subrange(0, rec.lines@.len() as int) =~= escaped);
            assert(store@.subrange(0, i as int + 1) =~= store@.subrange(0, i as int).push(
                store@[i as int],
            ));
            lemma_serialize_snoc(store@.subrange(0, i as int), store@[i as int]);
            assert(out.deep_view() =~= spec_serialize(store@.subrange(0, i as int + 1)));
        }
        i = i + 1;
    }
    proof {
        assert(store@.subrange(0, store@.len() as int) =~= store@);
    }
    out
}

// ---- deserialization ----

fn eq_strings(a: &String, b: &String) -> (r: bool)
    ensures
        r == (a@ == b@),
{
    *a == *b
}

fn str_eq_lit(a: &str, b: &str) -> (r: bool)
    ensures
        r == (a@ == b@),
{
    let na = a.unicode_len();
    let nb = b.unicode_len();
    if na != nb {
        return false;
    }
    let mut i: usize = 0;
    while i < na
        invariant
            i <= na,
            na == a@.len(),
            nb == b@.len(),
            na == nb,
            forall|j: int| 0 <= j < i ==> a@[j] == b@[j],
        decreases na - i,
    {
        if a.get_char(i) != b.get_char(i) {
            return false;
        }
        i = i + 1;
    }
    proof {
        assert(a@ =~= b@);
    }
    true
}

// The grammar of the serialized form, as spec-level functions that mirror
// the executable parser step for step.  They are the direct statement of
// what the parser accepts and produces; `deserialize`'s contract is an
// if-and-only-if over them.

/// A line that opens a record block: it starts with the header marker.
pub open spec fn is_header_text(l: Seq<char>) -> bool {
    l.len() >= 3 && l[0] == ':' && l[1] == ':' && l[2] == ' '
}

/// Index of the first occurrence of `c` in `l[from..to)`, if any.
pub open spec fn spec_find(l: Seq<char>, from: int, to: int, c: char) -> Option<int>
    decreases to - from,
{
    if from >= to {
        None
    } else if l[from] == c {
        Some(from)
    } else {
        spec_find(l, from + 1, to, c)
    }
}

/// The value of one decimal digit character.
pub open spec fn spec_digit(c: char) -> Option<u8> {
    if c == '0' {
        Some(0u8)
    } else if c == '1' {
        Some(1u8)
    } else if c == '2' {
        Some(2u8)
    } else if c == '3' {
        Some(3u8)
    } else if c == '4' {
        Some(4u8)
    } else if c == '5' {
        Some(5u8)
    } else if c == '6' {
        Some(6u8)
    } else if c == '7' {
        Some(7u8)
    } else if c == '8' {
        Some(8u8)
    } else if c == '9' {
        Some(9u8)
    } else {
        None
    }
}

/// Left-to-right decimal accumulation over `l[from..to)`; ordinals beyond
/// the parser's cap are rejected, never wrapped.
pub open spec fn spec_parse_usize_rec(l: Seq<char>, from: int, to: int, acc: usize) -> Option<usize>
    decreases to - from,
{
    if from >= to {
        Some(acc)
    } else {
        match spec_digit(l[from]) {
            Some(d) => if acc > 0xFFFFFFFusize {
                None
            } else {
                spec_parse_usize_rec(l, from + 1, to, (acc * 10 + d) as usize)
            },
            None => None,
        }
    }
}

/// The decimal value of `l[from..to)`: at least one digit, digits only.
pub open spec fn spec_parse_usize(l: Seq<char>, from: int, to: int) -> Option<usize> {
    if from >= to {
        None
    } else {
        spec_parse_usize_rec(l, from, to, 0)
    }
}

/// The segment encoded by `l[from..to)`: a kind keyword up to the first
/// space, then the fields; impl segments carry ordinal, target and an
/// optional trait, space-separated.
pub open spec fn spec_parse_segment(l: Seq<char>, from: int, to: int) -> Option<SegV> {
    match spec_find(l, from, to, ' ') {
        None => None,
        Some(sp) => {
            let kw = l.subrange(from, sp);
            if kw == seq!['m', 'o', 'd'] {
                Some(SegV::ModSegV { name: l.subrange(sp + 1, to) })
            } else if kw == kind_word(DeclKind::StructDecl) {
                Some(SegV::TypeSegV { kind: DeclKind::StructDecl, name: l.subrange(sp + 1, to) })
            } else if kw == kind_word(DeclKind::EnumDecl) {
                Some(SegV::TypeSegV { kind: DeclKind::EnumDecl, name: l.subrange(sp + 1, to) })
            } else if kw == kind_word(DeclKind::TraitDecl) {
                Some(SegV::TypeSegV { kind: DeclKind::TraitDecl, name: l.subrange(sp + 1, to) })
            } else if kw == kind_word(DeclKind::FnDecl) {
                Some(SegV::TypeSegV { kind: DeclKind::FnDecl, name: l.subrange(sp + 1, to) })
            } else if kw == kind_word(DeclKind::AssocFnDecl) {
                Some(SegV::AssocSegV { name: l.subrange(sp + 1, to) })
            } else if kw == kind_word(DeclKind::ImplDecl) {
                match spec_find(l, sp + 1, to, ' ') {
                    None => None,
                    Some(osp) => match spec_parse_usize(l, sp + 1, osp) {
                        None => None,
                        Some(ord) => match spec_find(l, osp + 1, to, ' ') {
                            Some(q) => Some(
                                SegV::ImplSegV {
                                    target: l.subrange(osp + 1, q),
                                    trait_name: Some(l.subrange(q + 1, to)),
                                    ordinal: ord as int,
                                },
                            ),
                            None => Some(
                                SegV::ImplSegV {
                                    target: l.subrange(osp + 1, to),
                                    trait_name: None,
                                    ordinal: ord as int,
                                },
                            ),
                        },
                    },
                }
            } else {
                None
            }
        },
    }
}

/// The segments encoded by `l[start..n)`: one or more, separated by `/`.
pub open spec fn spec_parse_segs(l: Seq<char>, start: int, n: int) -> Option<Seq<SegV>>
    decreases n - start,
{
    match spec_find(l, start, n, '/') {
        Some(p) => if !(start <= p < n) {
            None
        } else {
            match spec_parse_segment(l, start, p) {
                None => None,
                Some(sg) => if p + 1 >= n {
                    None
                } else {
                    match spec_parse_segs(l, p + 1, n) {
                        None => None,
                        Some(rest) => Some(seq![sg] + rest),
                    }
                },
            }
        },
        None => match spec_parse_segment(l, start, n) {
            None => None,
            Some(sg) => Some(seq![sg]),
        },
    }
}

/// The address encoded by one header line, if the line is a well-formed
/// header: the marker, then the segment path.
pub open spec fn spec_parse_address(l: Seq<char>) -> Option<Seq<SegV>> {
    if !is_header_text(l) {
        None
    } else if l.len() == 3 {
        Some(Seq::empty())
    } else {
        spec_parse_segs(l, 3, l.len() as int)
    }
}

/// A stored doc line: one leading space, then the text.
pub open spec fn is_body_text(l: Seq<char>) -> bool {
    l.len() >= 1 && l[0] == ' '
}

/// Index of the first line at or after `i` that is not a stored doc line,
/// or the length: where the current record's body ends.
pub open spec fn spec_body_end(lines: Seq<Seq<char>>, i: int) -> int
    decreases lines.len() - i,
{
    if i >= lines.len() {
        lines.len() as int
    } else if !is_body_text(lines[i]) {
        i
    } else {
        spec_body_end(lines, i + 1)
    }
}

/// The records encoded from line `i` on: each block a header line whose
/// address renders back to that very line — the canonical form — followed
/// by one or more stored doc lines, their leading space removed.  A block
/// without doc lines is refused: blank records are never persisted.
pub open spec fn spec_parse_store_from(lines: Seq<Seq<char>>, i: int) -> Option<Seq<RecV>>
    decreases lines.len() - i,
{
    if i >= lines.len() {
        Some(Seq::empty())
    } else {
        match spec_parse_address(lines[i]) {
            None => None,
            Some(a) => if spec_header(a) != lines[i] {
                None
            } else {
                let h = spec_body_end(lines, i + 1);
                if !(i + 1 < h <= lines.len()) {
                    None
                } else {
                    match spec_parse_store_from(lines, h) {
                        None => None,
                        Some(rest) => Some(
                            seq![
                                RecV {
                                    addr: a,
                                    lines: lines.subrange(i + 1, h).map_values(
                                        |l: Seq<char>| unescape_line(l),
                                    ),
                                },
                            ] + rest,
                        ),
                    }
                }
            },
        }
    }
}

/// The records encoded by a whole store text.
pub open spec fn spec_parse_store(lines: Seq<Seq<char>>) -> Option<Seq<RecV>> {
    spec_parse_store_from(lines, 0)
}

/// Well-formed canonical store text: what `deserialize` accepts.
pub open spec fn wf_store_text(lines: Seq<Seq<char>>) -> bool {
    spec_parse_store(lines) is Some
}

proof fn lemma_body_end_bounds(lines: Seq<Seq<char>>, i: int)
    requires
        0 <= i <= lines.len(),
    ensures
        i <= spec_body_end(lines, i) <= lines.len(),
    decreases lines.len() - i,
{
    if i < lines.len() && is_body_text(lines[i]) {
        lemma_body_end_bounds(lines, i + 1);
    }
}

fn find_char_to(s: &str, from: usize, to: usize, c: char) -> (r: Option<usize>)
    requires
        from <= to <= s@.len(),
    ensures
        match r {
            Some(p) => from <= p < to && spec_find(s@, from as int, to as int, c) == Some(
                p as int,
            ),
            None => spec_find(s@, from as int, to as int, c) is None,
        },
{
    let mut i: usize = from;
    while i < to
        invariant
            from <= i <= to <= s@.len(),
            spec_find(s@, from as int, to as int, c) == spec_find(s@, i as int, to as int, c),
        decreases to - i,
    {
        if s.get_char(i) == c {
            return Some(i);
        }
        i = i + 1;
    }
    None
}

fn digit_val(c: char) -> (r: Option<u8>)
    ensures
        r == spec_digit(c),
        r is Some ==> r->0 < 10,
{
    match c {
        '0' => Some(0),
        '1' => Some(1),
        '2' => Some(2),
        '3' => Some(3),
        '4' => Some(4),
        '5' => Some(5),
        '6' => Some(6),
        '7' => Some(7),
        '8' => Some(8),
        '9' => Some(9),
        _ => None,
    }
}

fn parse_usize(s: &str, from: usize, to: usize) -> (r: Option<usize>)
    requires
        from <= to <= s@.len(),
    ensures
        r == spec_parse_usize(s@, from as int, to as int),
{
    if from == to {
        return None;
    }
    let mut n: usize = 0;
    let mut i: usize = from;
    while i < to
        invariant
            from <= i <= to <= s@.len(),
            from < to,
            n <= 0xFFFFFFF * 10 + 9,
            spec_parse_usize_rec(s@, from as int, to as int, 0) == spec_parse_usize_rec(
                s@,
                i as int,
                to as int,
                n,
            ),
        decreases to - i,
    {
        match digit_val(s.get_char(i)) {
            Some(d) => {
                if n > 0xFFFFFFF {
                    return None;
                }
                n = n * 10 + (d as usize);
            },
            None => {
                return None;
            },
        }
        i = i + 1;
    }
    Some(n)
}

fn parse_segment(s: &str, from: usize, to: usize) -> (r: Option<Segment>)
    requires
        from <= to <= s@.len(),
    ensures
        match r {
            Some(sg) => spec_parse_segment(s@, from as int, to as int) == Some(sg@),
            None => spec_parse_segment(s@, from as int, to as int) is None,
        },
{
    proof {
        reveal_strlit("mod");
        reveal_strlit("struct");
        reveal_strlit("enum");
        reveal_strlit("trait");
        reveal_strlit("fn");
        reveal_strlit("afn");
        reveal_strlit("impl");
        assert("mod"@ =~= seq!['m', 'o', 'd']);
        assert("struct"@ =~= kind_word(DeclKind::StructDecl));
        assert("enum"@ =~= kind_word(DeclKind::EnumDecl));
        assert("trait"@ =~= kind_word(DeclKind::TraitDecl));
        assert("fn"@ =~= kind_word(DeclKind::FnDecl));
        assert("afn"@ =~= kind_word(DeclKind::AssocFnDecl));
        assert("impl"@ =~= kind_word(DeclKind::ImplDecl));
    }
    let sp = match find_char_to(s, from, to, ' ') {
        Some(p) => p,
        None => {
            return None;
        },
    };
    let kw = s.substring_char(from, sp);
    proof {
        assert(kw@ == s@.subrange(from as int, sp as int));
    }
    if str_eq_lit(kw, "mod") {
        Some(Segment::ModSeg { name: s.substring_char(sp + 1, to).to_owned() })
    } else if str_eq_lit(kw, "struct") {
        Some(
            Segment::TypeSeg {
                kind: DeclKind::StructDecl,
                name: s.substring_char(sp + 1, to).to_owned(),
            },
        )
    } else if str_eq_lit(kw, "enum") {
        Some(
            Segment::TypeSeg {
                kind: DeclKind::EnumDecl,
                name: s.substring_char(sp + 1, to).to_owned(),
            },
        )
    } else if str_eq_lit(kw, "trait") {
        Some(
            Segment::TypeSeg {
                kind: DeclKind::TraitDecl,
                name: s.substring_char(sp + 1, to).to_owned(),
            },
        )
    } else if str_eq_lit(kw, "fn") {
        Some(
            Segment::TypeSeg {
                kind: DeclKind::FnDecl,
                name: s.substring_char(sp + 1, to).to_owned(),
            },
        )
    } else if str_eq_lit(kw, "afn") {
        Some(Segment::AssocSeg { name: s.substring_char(sp + 1, to).to_owned() })
    } else if str_eq_lit(kw, "impl") {
        proof {
            assert(kw@ == kind_word(DeclKind::ImplDecl));
            assert(spec_find(s@, from as int, to as int, ' ') == Some(sp as int));
        }
        let osp = match find_char_to(s, sp + 1, to, ' ') {
            Some(p) => p,
            None => {
                proof {
                    assert(spec_find(s@, sp as int + 1, to as int, ' ') is None);
                    assert(spec_parse_segment(s@, from as int, to as int) is None);
                }
                return None;
            },
        };
        let ordinal = match parse_usize(s, sp + 1, osp) {
            Some(n) => n,
            None => {
                proof {
                    assert(spec_find(s@, sp as int + 1, to as int, ' ') == Some(osp as int));
                    assert(spec_parse_usize(s@, sp as int + 1, osp as int) is None);
                    assert(spec_parse_segment(s@, from as int, to as int) is None);
                }
                return None;
            },
        };
        match find_char_to(s, osp + 1, to, ' ') {
            Some(q) => Some(
                Segment::ImplSeg {
                    target: s.substring_char(osp + 1, q).to_owned(),
                    trait_name: Some(s.substring_char(q + 1, to).to_owned()),
                    ordinal,
                },
            ),
            None => Some(
                Segment::ImplSeg {
                    target: s.substring_char(osp + 1, to).to_owned(),
                    trait_name: None,
                    ordinal,
                },
            ),
        }
    } else {
        None
    }
}

/// Parses the address out of one header line: exactly the address that
/// [`spec_parse_address`] gives the line, and nothing on any line the
/// grammar rejects.  `deserialize` additionally accepts a parse only when
/// the parsed address renders back to the very same line, so the canonical
/// form is enforced, never widened.
pub fn parse_address(line: &str) -> (r: Option<Address>)
    ensures
        match r {
            Some(a) => spec_parse_address(line@) == Some(a@),
            None => spec_parse_address(line@) is None,
        },
{
    let n = line.unicode_len();
    if n < 3 {
        return None;
    }
    if !(line.get_char(0) == ':' && line.get_char(1) == ':' && line.get_char(2) == ' ') {
        return None;
    }
    let mut segs: Vec<Segment> = Vec::new();
    if n == 3 {
        proof {
            assert(Address { segs }@ =~= Seq::<SegV>::empty());
        }
        return Some(Address { segs });
    }
    let mut start: usize = 3;
    proof {
        let g = spec_parse_segs(line@, 3, n as int);
        match g {
            Some(rest) => {
                assert(segs.deep_view() =~= Seq::<SegV>::empty());
                assert(Seq::<SegV>::empty() + rest =~= rest);
            },
            None => {},
        }
    }
    loop
        invariant
            3 <= start < n,
            n == line@.len(),
            is_header_text(line@),
            spec_parse_segs(line@, 3, n as int) == (match spec_parse_segs(
                line@,
                start as int,
                n as int,
            ) {
                None => None::<Seq<SegV>>,
                Some(rest) => Some(segs.deep_view() + rest),
            }),
        decreases n - start,
    {
        match find_char_to(line, start, n, '/') {
            Some(p) => {
                let ghost pre = segs.deep_view();
                proof {
                    assert(spec_find(line@, start as int, n as int, '/') == Some(p as int));
                }
                match parse_segment(line, start, p) {
                    Some(sg) => {
                        let ghost sgv = sg@;
                        proof {
                            assert(spec_parse_segment(line@, start as int, p as int) == Some(sgv));
                        }
                        segs.push(sg);
                        proof {
                            assert(segs.deep_view() =~= pre.push(sgv));
                        }
                        if p + 1 >= n {
                            proof {
                                assert(spec_parse_segs(line@, start as int, n as int) is None);
                                assert(spec_parse_segs(line@, 3, n as int) is None);
                            }
                            return None;
                        }
                        proof {
                            let tail = spec_parse_segs(line@, p as int + 1, n as int);
                            assert(spec_parse_segs(line@, start as int, n as int) == (match tail {
                                None => None::<Seq<SegV>>,
                                Some(rest) => Some(seq![sgv] + rest),
                            }));
                            match tail {
                                Some(rest) => {
                                    assert(pre + (seq![sgv] + rest) =~= segs.deep_view() + rest);
                                },
                                None => {},
                            }
                        }
                        start = p + 1;
                    },
                    None => {
                        proof {
                            assert(spec_parse_segment(line@, start as int, p as int) is None);
                            assert(spec_parse_segs(line@, start as int, n as int) is None);
                        }
                        return None;
                    },
                }
            },
            None => {
                proof {
                    assert(spec_find(line@, start as int, n as int, '/') is None);
                }
                match parse_segment(line, start, n) {
                    Some(sg) => {
                        let ghost pre = segs.deep_view();
                        let ghost sgv = sg@;
                        proof {
                            assert(spec_parse_segs(line@, start as int, n as int) == Some(seq![sgv]));
                        }
                        segs.push(sg);
                        proof {
                            assert(segs.deep_view() =~= pre + seq![sgv]);
                            assert(spec_parse_segs(line@, 3, n as int) == Some(segs.deep_view()));
                            assert(is_header_text(line@));
                            assert(spec_parse_address(line@) == Some(segs.deep_view()));
                            assert(Address { segs }@ == segs.deep_view());
                        }
                        return Some(Address { segs });
                    },
                    None => {
                        proof {
                            assert(spec_parse_segs(line@, start as int, n as int) is None);
                        }
                        return None;
                    },
                }
            },
        }
    }
}

fn is_body(line: &String) -> (r: bool)
    ensures
        r == is_body_text(line@),
{
    let n = line.as_str().unicode_len();
    n >= 1 && line.as_str().get_char(0) == ' '
}

/// Deserializes a store from its textual form: one block per record, a
/// header line followed by that record's stored doc lines, each behind
/// one leading space, running to the first line that carries no space.
/// Succeeds exactly on well-formed canonical store text — every block
/// opened by a header line whose address parses and renders back to that
/// very line, and carrying at least one doc line, since blank records are
/// never persisted — and returns exactly the records that text encodes;
/// any other input is a malformed store, fatal for the pass.  Any store
/// this function accepts reserializes to the input, byte for byte.
pub fn deserialize(lines: &Vec<String>) -> (r: Result<DocStore, PassError>)
    ensures
        (r is Ok) <==> wf_store_text(lines.deep_view()),
        r is Ok ==> spec_parse_store(lines.deep_view()) == Some(r->Ok_0@),
        r is Ok ==> spec_serialize(r->Ok_0@) == lines.deep_view(),
        r is Err ==> r->Err_0 == PassError::MalformedDocStore,
{
    let ghost ldv = lines.deep_view();
    let mut records: Vec<DocRecord> = Vec::new();
    proof {
        assert(ldv.subrange(0, 0) =~= Seq::<Seq<char>>::empty());
        assert(records@.map_values(|x: DocRecord| x@) =~= Seq::<RecV>::empty());
        assert(spec_serialize(records@.map_values(|x: DocRecord| x@)) =~= ldv.subrange(0, 0));
        let g = spec_parse_store_from(ldv, 0);
        match g {
            Some(rest) => {
                assert(Seq::<RecV>::empty() + rest =~= rest);
            },
            None => {},
        }
    }
    let mut i: usize = 0;
    while i < lines.len()
        invariant
            i <= lines@.len(),
            ldv == lines.deep_view(),
            ldv.len() == lines@.len(),
            spec_serialize(records@.map_values(|x: DocRecord| x@)) == ldv.subrange(0, i as int),
            spec_parse_store_from(ldv, 0) == (match spec_parse_store_from(ldv, i as int) {
                None => None::<Seq<RecV>>,
                Some(rest) => Some(records@.map_values(|x: DocRecord| x@) + rest),
            }),
        decreases lines.len() - i,
    {
        let ghost i0 = i as int;
        let ghost prev = records@.map_values(|x: DocRecord| x@);
        proof {
            assert(ldv[i0] == lines@[i0]@);
        }
        let addr = match parse_address(lines[i].as_str()) {
            Some(a) => a,
            None => {
                proof {
                    assert(spec_parse_address(ldv[i0]) is None);
                    assert(spec_parse_store_from(ldv, i0) is None);
                }
                return Err(PassError::MalformedDocStore);
            },
        };
        let rendered = render_header(&addr);
        if !eq_strings(&rendered, &lines[i]) {
            proof {
                assert(spec_parse_address(ldv[i0]) == Some(addr@));
                assert(spec_header(addr@) != ldv[i0]);
                assert(spec_parse_store_from(ldv, i0) is None);
            }
            return Err(PassError::MalformedDocStore);
        }
        proof {
            assert(ldv[i0] == lines@[i0]@);
            assert(ldv[i0] == spec_header(addr@));
            assert(spec_parse_address(ldv[i0]) == Some(addr@));
        }
        i = i + 1;
        let mut body: Vec<String> = Vec::new();
        proof {
            assert(body.deep_view() =~= ldv.subrange(i0 + 1, i as int).map_values(
                |l: Seq<char>| unescape_line(l),
            ));
        }
        loop
            invariant_except_break
                0 <= i0,
                i0 + 1 <= i <= lines@.len(),
                ldv == lines.deep_view(),
                ldv.len() == lines@.len(),
                forall|j: int| i0 + 1 <= j < i ==> is_body_text(#[trigger] ldv[j]),
                body.deep_view() == ldv.subrange(i0 + 1, i as int).map_values(
                    |l: Seq<char>| unescape_line(l),
                ),
                spec_body_end(ldv, i0 + 1) == spec_body_end(ldv, i as int),
            ensures
                0 <= i0,
                i0 + 1 <= i <= lines@.len(),
                forall|j: int| i0 + 1 <= j < i ==> is_body_text(#[trigger] ldv[j]),
                body.deep_view() == ldv.subrange(i0 + 1, i as int).map_values(
                    |l: Seq<char>| unescape_line(l),
                ),
                i as int == spec_body_end(ldv, i0 + 1),
            decreases lines@.len() - i,
        {
            if i >= lines.len() {
                proof {
                    assert(spec_body_end(ldv, i as int) == i as int);
                }
                break;
            }
            if !is_body(&lines[i]) {
                proof {
                    assert(ldv[i as int] == lines@[i as int]@);
                    assert(!is_body_text(ldv[i as int]));
                    assert(spec_body_end(ldv, i as int) == i as int);
                }
                break;
            }
            proof {
                assert(ldv[i as int] == lines@[i as int]@);
                assert(is_body_text(ldv[i as int]));
            }
            let n_i = lines[i].as_str().unicode_len();
            let text = lines[i].as_str().substring_char(1, n_i).to_owned();
            let ghost dv_pre = body.deep_view();
            proof {
                assert(text@ == unescape_line(ldv[i as int]));
            }
            body.push(text);
            proof {
                assert(body.deep_view() =~= dv_pre.push(unescape_line(ldv[i as int])));
                assert(i0 + 1 <= i as int);
                assert(i as int + 1 <= ldv.len());
                assert(ldv.subrange(i0 + 1, i as int + 1) =~= ldv.subrange(i0 + 1, i as int).push(
                    ldv[i as int],
                ));
                assert(body.deep_view() =~= ldv.subrange(i0 + 1, i as int + 1).map_values(
                    |l: Seq<char>| unescape_line(l),
                ));
            }
            i = i + 1;
        }
        if body.is_empty() {
            proof {
                assert(ldv.subrange(i0 + 1, i as int).map_values(
                    |l: Seq<char>| unescape_line(l),
                ).len() == 0);
                assert(i as int == i0 + 1);
                assert(spec_parse_store_from(ldv, i0) is None);
            }
            return Err(PassError::MalformedDocStore);
        }
        let ghost h = i as int;
        let ghost addr_v = addr@;
        let ghost body_v = body.deep_view();
        let rec = DocRecord { address: addr, lines: body };
        proof {
            assert(rec@ == (RecV { addr: addr_v, lines: body_v }));
        }
        records.push(rec);
        proof {
            lemma_body_end_bounds(ldv, i0 + 1);
            assert(records@.map_values(|x: DocRecord| x@) =~= prev.push(
                RecV { addr: addr_v, lines: body_v },
            ));
            lemma_serialize_snoc(prev, RecV { addr: addr_v, lines: body_v });
            // each consumed body line carries its own leading space back
            let escaped_back = body_v.map_values(|t: Seq<char>| escape_line(t));
            assert forall|j: int| 0 <= j < body_v.len() implies #[trigger] escaped_back[j]
                == ldv[i0 + 1 + j] by {
                assert(body_v[j] == unescape_line(ldv[i0 + 1 + j]));
                assert(is_body_text(ldv[i0 + 1 + j]));
                assert(escape_line(unescape_line(ldv[i0 + 1 + j])) =~= ldv[i0 + 1 + j]);
            }
            assert(escaped_back =~= ldv.subrange(i0 + 1, i as int));
            assert(ldv.subrange(0, i as int) =~= ldv.subrange(0, i0) + seq![ldv[i0]]
                + ldv.subrange(i0 + 1, i as int));
            assert(spec_serialize(records@.map_values(|x: DocRecord| x@)) =~= ldv.subrange(
                0,
                i as int,
            ));
            let specrec = RecV {
                addr: addr_v,
                lines: ldv.subrange(i0 + 1, h).map_values(|l: Seq<char>| unescape_line(l)),
            };
            assert(specrec == (RecV { addr: addr_v, lines: body_v }));
            let rest_opt = spec_parse_store_from(ldv, h);
            assert(spec_parse_store_from(ldv, i0) == (match rest_opt {
                None => None::<Seq<RecV>>,
                Some(rest) => Some(seq![specrec] + rest),
            }));
            match rest_opt {
                Some(rest) => {
                    assert(prev + (seq![specrec] + rest) =~= records@.map_values(
                        |x: DocRecord| x@,
                    ) + rest);
                },
                None => {},
            }
        }
    }
    proof {
        assert(ldv.subrange(0, ldv.len() as int) =~= ldv);
        assert(spec_parse_store_from(ldv, ldv.len() as int) == Some(Seq::<RecV>::empty()));
        let g = spec_parse_store_from(ldv, 0);
        match g {
            Some(rest) => {
                assert(records@.map_values(|x: DocRecord| x@) + Seq::<RecV>::empty()
                    =~= records@.map_values(|x: DocRecord| x@));
            },
            None => {},
        }
    }
    let store = DocStore { records };
    Ok(store)
}


// ---- the serialization round trip ----

/// A name that survives the address grammar: it contains no segment
/// separator.  Rust identifiers always qualify.
pub open spec fn wf_name(t: Seq<char>) -> bool {
    forall|i: int| 0 <= i < t.len() ==> t[i] != '/'
}

/// A field that must also end at the next space: no separator, no space.
pub open spec fn wf_token(t: Seq<char>) -> bool {
    forall|i: int| 0 <= i < t.len() ==> t[i] != '/' && t[i] != ' '
}

/// A segment value the canonical text encodes losslessly: plain kinds
/// only, separator-free names, a space-free impl target, and an ordinal
/// within the parser's range.
pub open spec fn wf_segment_v(s: SegV) -> bool {
    match s {
        SegV::ModSegV { name } => wf_name(name),
        SegV::TypeSegV { kind, name } => kind != DeclKind::ImplDecl && kind
            != DeclKind::AssocFnDecl && wf_name(name),
        SegV::AssocSegV { name } => wf_name(name),
        SegV::ImplSegV { target, trait_name, ordinal } => 0 <= ordinal <= 0xFFFFFFF && wf_token(
            target,
        ) && (match trait_name {
            Some(t) => wf_name(t),
            None => true,
        }),
    }
}

/// An address the canonical text encodes losslessly.
pub open spec fn wf_address(a: Seq<SegV>) -> bool {
    forall|i: int| 0 <= i < a.len() ==> wf_segment_v(#[trigger] a[i])
}

/// A record sequence the store format round-trips: well-formed addresses,
/// and no blank entries, which are never persisted.
pub open spec fn wf_records(rs: Seq<RecV>) -> bool {
    forall|k: int| 0 <= k < rs.len() ==> wf_address((#[trigger] rs[k]).addr) && rs[k].lines.len()
        > 0
}

proof fn lemma_digit_char_facts(d: int)
    requires
        0 <= d < 10,
    ensures
        spec_digit(digit_char(d)) == Some(d as u8),
        digit_char(d) != ' ',
        digit_char(d) != '/',
{
}

proof fn lemma_dec_digits_chars(v: int)
    requires
        v >= 0,
    ensures
        dec_digits(v).len() >= 1,
        forall|j: int| 0 <= j < dec_digits(v).len() ==> spec_digit(#[trigger] dec_digits(v)[j])
            is Some,
        forall|j: int| 0 <= j < dec_digits(v).len() ==> #[trigger] dec_digits(v)[j] != ' '
            && dec_digits(v)[j] != '/',
    decreases v,
{
    if v <= 0 {
        lemma_digit_char_facts(0);
        assert(dec_digits(0) =~= seq![digit_char(0)]);
        assert(dec_digits(v)[0] == digit_char(0));
    } else {
        lemma_dec_digits_chars(v / 10);
        lemma_digit_char_facts(v % 10);
        let tail = dec_digits_rec(v);
        assert(tail == dec_digits_rec(v / 10).push(digit_char(v % 10)));
        assert forall|j: int| 0 <= j < tail.len() implies spec_digit(#[trigger] tail[j]) is Some
            && tail[j] != ' ' && tail[j] != '/' by {
            if j < tail.len() - 1 {
                if v / 10 > 0 {
                    assert(tail[j] == dec_digits(v / 10)[j]);
                }
            } else {
                assert(tail[j] == digit_char(v % 10));
            }
        }
    }
}

proof fn lemma_find_at(l: Seq<char>, from: int, to: int, c: char, p: int)
    requires
        0 <= from,
        0 <= p,
        from + p < to <= l.len(),
        l[from + p] == c,
        forall|j: int| 0 <= j < p ==> #[trigger] l[from + j] != c,
    ensures
        spec_find(l, from, to, c) == Some(from + p),
    decreases p,
{
    if p > 0 {
        assert(l[from + 0] != c);
        assert forall|j: int| 0 <= j < p - 1 implies #[trigger] l[(from + 1) + j] != c by {
            assert(l[from + (j + 1)] != c);
        }
        lemma_find_at(l, from + 1, to, c, p - 1);
    }
}

proof fn lemma_find_none(l: Seq<char>, from: int, to: int, c: char)
    requires
        forall|j: int| from <= j < to ==> l[j] != c,
    ensures
        spec_find(l, from, to, c) is None,
    decreases to - from,
{
    if from < to {
        lemma_find_none(l, from + 1, to, c);
    }
}

proof fn lemma_usize_rec_last(l: Seq<char>, from: int, to: int, acc: usize, m: usize, dl: u8)
    requires
        from < to <= l.len(),
        spec_digit(l[to - 1]) == Some(dl),
        spec_parse_usize_rec(l, from, to - 1, acc) == Some(m),
        m <= 0xFFFFFFFusize,
        dl < 10,
    ensures
        spec_parse_usize_rec(l, from, to, acc) == Some((m * 10 + dl) as usize),
    decreases to - from,
{
    if from == to - 1 {
        assert(spec_parse_usize_rec(l, from, from, acc) == Some(acc));
        assert(acc == m);
    } else {
        let d0 = spec_digit(l[from]);
        assert(d0 is Some);
        assert(acc <= 0xFFFFFFFusize);
        let acc2 = ((acc * 10 + d0->0) as usize);
        assert(spec_parse_usize_rec(l, from + 1, to - 1, acc2) == Some(m));
        lemma_usize_rec_last(l, from + 1, to, acc2, m, dl);
    }
}

proof fn lemma_rec_digits(l: Seq<char>, from: int, to: int, v: int)
    requires
        0 <= from <= to <= l.len(),
        0 <= v <= 0xFFFFFFF,
        to - from == dec_digits_rec(v).len(),
        forall|j: int| 0 <= j < to - from ==> l[from + j] == #[trigger] dec_digits_rec(v)[j],
    ensures
        spec_parse_usize_rec(l, from, to, 0) == Some(v as usize),
    decreases v,
{
    if v == 0 {
        assert(dec_digits_rec(0).len() == 0);
        assert(to == from);
    } else {
        let w = dec_digits_rec(v);
        assert(w == dec_digits_rec(v / 10).push(digit_char(v % 10)));
        assert forall|j: int| 0 <= j < (to - 1) - from implies l[from + j]
            == #[trigger] dec_digits_rec(v / 10)[j] by {
            assert(w[j] == dec_digits_rec(v / 10)[j]);
        }
        lemma_rec_digits(l, from, to - 1, v / 10);
        lemma_digit_char_facts(v % 10);
        assert(l[to - 1] == w[to - 1 - from]);
        assert(l[to - 1] == digit_char(v % 10));
        lemma_usize_rec_last(
            l,
            from,
            to,
            0,
            (v / 10) as usize,
            (v % 10) as u8,
        );
        assert((v / 10) * 10 + (v % 10) == v);
    }
}

proof fn lemma_parse_usize_digits(l: Seq<char>, from: int, to: int, v: int)
    requires
        0 <= from <= to <= l.len(),
        0 <= v <= 0xFFFFFFF,
        to - from == dec_digits(v).len(),
        forall|j: int| 0 <= j < to - from ==> l[from + j] == #[trigger] dec_digits(v)[j],
    ensures
        spec_parse_usize(l, from, to) == Some(v as usize),
{
    lemma_dec_digits_chars(v);
    assert(from < to);
    if v == 0 {
        assert(dec_digits(0) =~= seq![digit_char(0)]);
        assert(l[from + 0] == dec_digits(v)[0]);
        assert(l[from] == digit_char(0));
        lemma_digit_char_facts(0);
        assert(spec_parse_usize_rec(l, from + 1, to, 0) == Some(0usize));
    } else {
        assert forall|j: int| 0 <= j < to - from implies l[from + j]
            == #[trigger] dec_digits_rec(v)[j] by {
            assert(dec_digits(v)[j] == dec_digits_rec(v)[j]);
        }
        lemma_rec_digits(l, from, to, v);
    }
}


proof fn lemma_kind_word_chars(k: DeclKind)
    ensures
        2 <= kind_word(k).len() <= 6,
        forall|j: int| 0 <= j < kind_word(k).len() ==> #[trigger] kind_word(k)[j] != ' '
            && kind_word(k)[j] != '/',
{
    let w = kind_word(k);
    assert forall|j: int| 0 <= j < w.len() implies #[trigger] w[j] != ' ' && w[j] != '/' by {
        match k {
            DeclKind::StructDecl => {
                assert(w =~= seq!['s', 't', 'r', 'u', 'c', 't']);
            },
            DeclKind::EnumDecl => {
                assert(w =~= seq!['e', 'n', 'u', 'm']);
            },
            DeclKind::TraitDecl => {
                assert(w =~= seq!['t', 'r', 'a', 'i', 't']);
            },
            DeclKind::FnDecl => {
                assert(w =~= seq!['f', 'n']);
            },
            DeclKind::ImplDecl => {
                assert(w =~= seq!['i', 'm', 'p', 'l']);
            },
            DeclKind::AssocFnDecl => {
                assert(w =~= seq!['a', 'f', 'n']);
            },
        }
    }
}

proof fn lemma_render_segment_shape(g: SegV)
    requires
        wf_segment_v(g),
    ensures
        spec_render_segment(g).len() >= 3,
        forall|j: int| 0 <= j < spec_render_segment(g).len() ==> #[trigger] spec_render_segment(
            g,
        )[j] != '/',
{
    let w = spec_render_segment(g);
    match g {
        SegV::ModSegV { name } => {
            assert forall|j: int| 0 <= j < w.len() implies #[trigger] w[j] != '/' by {
                if j < 4 {
                    assert(seq!['m', 'o', 'd', ' '][j] != '/');
                } else {
                    assert(w[j] == name[j - 4]);
                }
            }
        },
        SegV::TypeSegV { kind, name } => {
            lemma_kind_word_chars(kind);
            let kl = kind_word(kind).len() as int;
            assert forall|j: int| 0 <= j < w.len() implies #[trigger] w[j] != '/' by {
                if j < kl {
                    assert(w[j] == kind_word(kind)[j]);
                } else if j == kl {
                    assert(w[j] == ' ');
                } else {
                    assert(w[j] == name[j - kl - 1]);
                }
            }
        },
        SegV::AssocSegV { name } => {
            assert forall|j: int| 0 <= j < w.len() implies #[trigger] w[j] != '/' by {
                if j < 4 {
                    assert(seq!['a', 'f', 'n', ' '][j] != '/');
                } else {
                    assert(w[j] == name[j - 4]);
                }
            }
        },
        SegV::ImplSegV { target, trait_name, ordinal } => {
            lemma_dec_digits_chars(ordinal);
            let dd = dec_digits(ordinal).len() as int;
            let tl = target.len() as int;
            assert forall|j: int| 0 <= j < w.len() implies #[trigger] w[j] != '/' by {
                if j < 5 {
                    assert(seq!['i', 'm', 'p', 'l', ' '][j] != '/');
                } else if j < 5 + dd {
                    assert(w[j] == dec_digits(ordinal)[j - 5]);
                } else if j == 5 + dd {
                    assert(w[j] == ' ');
                } else if j < 6 + dd + tl {
                    assert(w[j] == target[j - 6 - dd]);
                } else {
                    match trait_name {
                        Some(t) => {
                            if j == 6 + dd + tl {
                                assert(w[j] == ' ');
                            } else {
                                assert(w[j] == t[j - 7 - dd - tl]);
                            }
                        },
                        None => {},
                    }
                }
            }
        },
    }
}

proof fn lemma_window_eq(l: Seq<char>, from: int, to: int, w: Seq<char>, a: int, b: int)
    requires
        0 <= from <= a <= b <= to <= l.len(),
        to - from == w.len(),
        forall|j: int| 0 <= j < to - from ==> #[trigger] l[from + j] == w[j],
    ensures
        l.subrange(a, b) == w.subrange(a - from, b - from),
{
    assert forall|j: int| 0 <= j < b - a implies l.subrange(a, b)[j] == w.subrange(
        a - from,
        b - from,
    )[j] by {
        assert(l[from + (a - from + j)] == w[a - from + j]);
    }
    assert(l.subrange(a, b) =~= w.subrange(a - from, b - from));
}

proof fn lemma_parse_render_segment(l: Seq<char>, from: int, to: int, g: SegV)
    requires
        wf_segment_v(g),
        0 <= from <= to <= l.len(),
        to - from == spec_render_segment(g).len(),
        forall|j: int| 0 <= j < to - from ==> #[trigger] l[from + j] == spec_render_segment(g)[j],
    ensures
        spec_parse_segment(l, from, to) == Some(g),
{
    let w = spec_render_segment(g);
    lemma_kind_word_chars(DeclKind::StructDecl);
    lemma_kind_word_chars(DeclKind::EnumDecl);
    lemma_kind_word_chars(DeclKind::TraitDecl);
    lemma_kind_word_chars(DeclKind::FnDecl);
    lemma_kind_word_chars(DeclKind::ImplDecl);
    lemma_kind_word_chars(DeclKind::AssocFnDecl);
    match g {
        SegV::ModSegV { name } => {
            assert forall|j: int| 0 <= j < 3 implies #[trigger] l[from + j] != ' ' by {
                assert(w[j] == seq!['m', 'o', 'd', ' '][j]);
            }
            assert(l[from + 3] == ' ');
            lemma_find_at(l, from, to, ' ', 3);
            lemma_window_eq(l, from, to, w, from, from + 3);
            assert(w.subrange(0, 3) =~= seq!['m', 'o', 'd']);
            lemma_window_eq(l, from, to, w, from + 4, to);
            assert(w.subrange(4, w.len() as int) =~= name);
        },
        SegV::TypeSegV { kind, name } => {
            let kl = kind_word(kind).len() as int;
            assert forall|j: int| 0 <= j < kl implies #[trigger] l[from + j] != ' ' by {
                assert(w[j] == kind_word(kind)[j]);
            }
            assert(l[from + kl] == ' ');
            lemma_find_at(l, from, to, ' ', kl);
            lemma_window_eq(l, from, to, w, from, from + kl);
            assert(w.subrange(0, kl) =~= kind_word(kind));
            lemma_window_eq(l, from, to, w, from + kl + 1, to);
            assert(w.subrange(kl + 1, w.len() as int) =~= name);
            assert(kind_word(DeclKind::StructDecl)[0] == 's');
            assert(kind_word(DeclKind::EnumDecl)[0] == 'e');
            assert(kind_word(DeclKind::TraitDecl)[0] == 't');
            assert(kind_word(DeclKind::FnDecl)[0] == 'f');
            assert(seq!['m', 'o', 'd'][0] == 'm');
            match kind {
                DeclKind::StructDecl => {},
                DeclKind::EnumDecl => {},
                DeclKind::TraitDecl => {},
                DeclKind::FnDecl => {},
                DeclKind::ImplDecl => {
                    assert(false);
                },
                DeclKind::AssocFnDecl => {
                    assert(false);
                },
            }
        },
        SegV::AssocSegV { name } => {
            assert forall|j: int| 0 <= j < 3 implies #[trigger] l[from + j] != ' ' by {
                assert(w[j] == seq!['a', 'f', 'n', ' '][j]);
            }
            assert(l[from + 3] == ' ');
            lemma_find_at(l, from, to, ' ', 3);
            lemma_window_eq(l, from, to, w, from, from + 3);
            assert(w.subrange(0, 3) =~= kind_word(DeclKind::AssocFnDecl));
            assert(kind_word(DeclKind::AssocFnDecl)[0] == 'a');
            assert(seq!['m', 'o', 'd'][0] == 'm');
            assert(l.subrange(from, from + 3) != seq!['m', 'o', 'd']);
            lemma_window_eq(l, from, to, w, from + 4, to);
            assert(w.subrange(4, w.len() as int) =~= name);
        },
        SegV::ImplSegV { target, trait_name, ordinal } => {
            lemma_dec_digits_chars(ordinal);
            let dd = dec_digits(ordinal).len() as int;
            let tl = target.len() as int;
            assert forall|j: int| 0 <= j < 4 implies #[trigger] l[from + j] != ' ' by {
                assert(w[j] == seq!['i', 'm', 'p', 'l', ' '][j]);
            }
            assert(l[from + 4] == ' ');
            lemma_find_at(l, from, to, ' ', 4);
            let sp = from + 4;
            lemma_window_eq(l, from, to, w, from, sp);
            assert(w.subrange(0, 4) =~= kind_word(DeclKind::ImplDecl));
            assert(kind_word(DeclKind::ImplDecl)[0] == 'i');
            assert(kind_word(DeclKind::EnumDecl)[0] == 'e');
            assert(seq!['m', 'o', 'd'][0] == 'm');
            assert(l.subrange(from, sp) != seq!['m', 'o', 'd']);
            assert(l.subrange(from, sp) != kind_word(DeclKind::EnumDecl));
            assert(l.subrange(from, sp) != kind_word(DeclKind::AssocFnDecl));
            // the ordinal's digits end at the following space
            assert forall|j: int| 0 <= j < dd implies #[trigger] l[sp + 1 + j] != ' ' by {
                assert(l[from + (5 + j)] == w[5 + j]);
                assert(w[5 + j] == dec_digits(ordinal)[j]);
            }
            assert(l[from + (5 + dd)] == w[5 + dd]);
            assert(w[5 + dd] == ' ');
            lemma_find_at(l, sp + 1, to, ' ', dd);
            let osp = sp + 1 + dd;
            assert forall|j: int| 0 <= j < dd implies #[trigger] l[sp + 1 + j] == dec_digits(
                ordinal,
            )[j] by {
                assert(l[from + (5 + j)] == w[5 + j]);
            }
            lemma_parse_usize_digits(l, sp + 1, osp, ordinal);
            match trait_name {
                Some(t) => {
                    assert forall|j: int| 0 <= j < tl implies #[trigger] l[osp + 1 + j] != ' ' by {
                        assert(l[from + (6 + dd + j)] == w[6 + dd + j]);
                        assert(w[6 + dd + j] == target[j]);
                    }
                    assert(l[from + (6 + dd + tl)] == w[6 + dd + tl]);
                    assert(w[6 + dd + tl] == ' ');
                    lemma_find_at(l, osp + 1, to, ' ', tl);
                    let q = osp + 1 + tl;
                    lemma_window_eq(l, from, to, w, osp + 1, q);
                    assert(w.subrange(6 + dd, 6 + dd + tl) =~= target);
                    lemma_window_eq(l, from, to, w, q + 1, to);
                    assert(w.subrange(7 + dd + tl, w.len() as int) =~= t);
                },
                None => {
                    assert forall|j: int| osp + 1 <= j < to implies #[trigger] l[j] != ' ' by {
                        assert(l[from + (j - from)] == w[j - from]);
                        assert(w[j - from] == target[j - from - 6 - dd]);
                    }
                    lemma_find_none(l, osp + 1, to, ' ');
                    lemma_window_eq(l, from, to, w, osp + 1, to);
                    assert(w.subrange(6 + dd, w.len() as int) =~= target);
                },
            }
        },
    }
}


proof fn lemma_render_address_front(a: Seq<SegV>)
    requires
        a.len() >= 1,
    ensures
        spec_render_address(a) == spec_render_segment(a[0]) + (if a.len() == 1 {
            Seq::<char>::empty()
        } else {
            seq!['/'] + spec_render_address(a.drop_first())
        }),
    decreases a.len(),
{
    if a.len() == 1 {
        assert(spec_render_segment(a[0]) + Seq::<char>::empty() =~= spec_render_segment(a[0]));
    } else if a.len() == 2 {
        assert(a.drop_last() =~= seq![a[0]]);
        assert(a.drop_first() =~= seq![a[1]]);
        assert(spec_render_address(seq![a[0]]) == spec_render_segment(seq![a[0]][0]));
        assert(spec_render_address(seq![a[1]]) == spec_render_segment(seq![a[1]][0]));
        assert(spec_render_address(a) =~= spec_render_segment(a[0]) + (seq!['/']
            + spec_render_address(a.drop_first())));
    } else {
        lemma_render_address_front(a.drop_last());
        assert(a.drop_last()[0] == a[0]);
        assert(a.drop_last().drop_first() =~= a.drop_first().drop_last());
        assert(a.drop_first().last() == a.last());
        assert(a.drop_first().len() >= 2);
        assert(spec_render_address(a.drop_first()) == spec_render_address(
            a.drop_first().drop_last(),
        ) + seq!['/'] + spec_render_segment(a.drop_first().last()));
        assert(spec_render_address(a) =~= spec_render_segment(a[0]) + (seq!['/']
            + spec_render_address(a.drop_first())));
    }
}

proof fn lemma_parse_segs_render(l: Seq<char>, start: int, n: int, a: Seq<SegV>)
    requires
        wf_address(a),
        a.len() >= 1,
        0 <= start <= n <= l.len(),
        n - start == spec_render_address(a).len(),
        forall|j: int| 0 <= j < n - start ==> #[trigger] l[start + j] == spec_render_address(a)[j],
    ensures
        spec_parse_segs(l, start, n) == Some(a),
    decreases a.len(),
{
    let w = spec_render_address(a);
    lemma_render_address_front(a);
    let s0 = spec_render_segment(a[0]);
    assert(wf_segment_v(a[0]));
    lemma_render_segment_shape(a[0]);
    if a.len() == 1 {
        assert(w =~= s0);
        assert forall|j: int| start <= j < n implies #[trigger] l[j] != '/' by {
            assert(l[start + (j - start)] == w[j - start]);
            assert(w[j - start] == s0[j - start]);
        }
        lemma_find_none(l, start, n, '/');
        assert forall|j: int| 0 <= j < n - start implies #[trigger] l[start + j] == s0[j] by {
            assert(w[j] == s0[j]);
        }
        lemma_parse_render_segment(l, start, n, a[0]);
        assert(seq![a[0]] =~= a);
    } else {
        let s0len = s0.len() as int;
        let rest = a.drop_first();
        let wr = spec_render_address(rest);
        assert forall|j: int| 0 <= j < s0len implies #[trigger] l[start + j] != '/' by {
            assert(w[j] == s0[j]);
        }
        assert(w[s0len] == '/');
        assert(l[start + s0len] == '/');
        lemma_find_at(l, start, n, '/', s0len);
        let p = start + s0len;
        assert forall|j: int| 0 <= j < s0len implies #[trigger] l[start + j] == s0[j] by {
            assert(w[j] == s0[j]);
        }
        lemma_parse_render_segment(l, start, p, a[0]);
        assert(rest.len() >= 1);
        assert(wf_segment_v(a[1]));
        assert(rest[0] == a[1]);
        lemma_render_address_front(rest);
        lemma_render_segment_shape(rest[0]);
        assert(wr.len() >= 3);
        assert(n - (p + 1) == wr.len());
        assert(p + 1 < n);
        assert forall|j: int| 0 <= j < rest.len() implies wf_segment_v(#[trigger] rest[j]) by {
            assert(rest[j] == a[j + 1]);
            assert(wf_segment_v(a[j + 1]));
        }
        assert forall|j: int| 0 <= j < n - (p + 1) implies #[trigger] l[(p + 1) + j] == wr[j] by {
            assert(l[start + (s0len + 1 + j)] == w[s0len + 1 + j]);
            assert(w[s0len + 1 + j] == (seq!['/'] + wr)[1 + j]);
        }
        lemma_parse_segs_render(l, p + 1, n, rest);
        assert(seq![a[0]] + rest =~= a);
    }
}

proof fn lemma_parse_header(a: Seq<SegV>)
    requires
        wf_address(a),
    ensures
        spec_parse_address(spec_header(a)) == Some(a),
{
    let l = spec_header(a);
    assert(l[0] == ':');
    assert(l[1] == ':');
    assert(l[2] == ' ');
    assert(is_header_text(l));
    if a.len() == 0 {
        assert(l.len() == 3);
        assert(Seq::<SegV>::empty() =~= a);
    } else {
        lemma_render_address_front(a);
        assert(wf_segment_v(a[0]));
        lemma_render_segment_shape(a[0]);
        let w = spec_render_address(a);
        assert(w.len() >= 3);
        assert(l.len() > 3);
        assert forall|j: int| 0 <= j < l.len() - 3 implies #[trigger] l[3 + j] == w[j] by {}
        lemma_parse_segs_render(l, 3, l.len() as int, a);
    }
}

proof fn lemma_body_end_at(lines: Seq<Seq<char>>, s: int, e: int)
    requires
        0 <= s <= e <= lines.len(),
        forall|j: int| s <= j < e ==> is_body_text(#[trigger] lines[j]),
        e == lines.len() || !is_body_text(lines[e]),
    ensures
        spec_body_end(lines, s) == e,
    decreases e - s,
{
    if s < e {
        lemma_body_end_at(lines, s + 1, e);
    }
}

proof fn lemma_parse_serialize(lines: Seq<Seq<char>>, i: int, rs: Seq<RecV>)
    requires
        wf_records(rs),
        0 <= i,
        i + spec_serialize(rs).len() == lines.len(),
        forall|j: int| 0 <= j < spec_serialize(rs).len() ==> #[trigger] lines[i + j]
            == spec_serialize(rs)[j],
    ensures
        spec_parse_store_from(lines, i) == Some(rs),
    decreases rs.len(),
{
    if rs.len() == 0 {
        assert(Seq::<RecV>::empty() =~= rs);
    } else {
        let ser = spec_serialize(rs);
        let r0 = rs.first();
        let esc = r0.lines.map_values(|t: Seq<char>| escape_line(t));
        let k = r0.lines.len() as int;
        let rest_ser = spec_serialize(rs.drop_first());
        assert(ser == seq![spec_header(r0.addr)] + esc + rest_ser);
        assert(ser[0] == spec_header(r0.addr));
        assert(lines[i + 0] == ser[0]);
        assert(wf_address(rs[0].addr) && rs[0].lines.len() > 0);
        lemma_parse_header(r0.addr);
        assert(spec_parse_address(lines[i]) == Some(r0.addr));
        assert forall|j: int| 0 <= j < k implies is_body_text(#[trigger] lines[i + 1 + j])
            && lines[i + 1 + j] == escape_line(r0.lines[j]) by {
            assert(lines[i + (1 + j)] == ser[1 + j]);
            assert(ser[1 + j] == esc[j]);
            assert(esc[j] == escape_line(r0.lines[j]));
            assert(escape_line(r0.lines[j])[0] == ' ');
            assert(escape_line(r0.lines[j]).len() >= 1);
        }
        if rs.len() > 1 {
            assert(lines[i + (1 + k)] == ser[1 + k]);
            assert(ser[1 + k] == rest_ser[0]);
            assert(rest_ser[0] == spec_header(rs.drop_first().first().addr));
            assert(spec_header(rs.drop_first().first().addr)[0] == ':');
            assert(!is_body_text(lines[i + 1 + k]));
        } else {
            assert(rest_ser.len() == 0);
            assert(i + 1 + k == lines.len());
        }
        assert forall|j: int| i + 1 <= j < i + 1 + k implies is_body_text(#[trigger] lines[j]) by {
            assert(is_body_text(lines[i + 1 + (j - i - 1)]));
        }
        lemma_body_end_at(lines, i + 1, i + 1 + k);
        let got = lines.subrange(i + 1, i + 1 + k).map_values(|x: Seq<char>| unescape_line(x));
        assert forall|j: int| 0 <= j < k implies #[trigger] got[j] == r0.lines[j] by {
            assert(lines.subrange(i + 1, i + 1 + k)[j] == lines[i + 1 + j]);
            assert(lines[i + 1 + j] == escape_line(r0.lines[j]));
            assert(unescape_line(escape_line(r0.lines[j])) =~= r0.lines[j]);
        }
        assert(got =~= r0.lines);
        assert forall|j: int| 0 <= j < rs.drop_first().len() implies wf_address(
            (#[trigger] rs.drop_first()[j]).addr,
        ) && rs.drop_first()[j].lines.len() > 0 by {
            assert(rs.drop_first()[j] == rs[j + 1]);
            assert(wf_address(rs[j + 1].addr) && rs[j + 1].lines.len() > 0);
        }
        assert forall|j: int| 0 <= j < rest_ser.len() implies #[trigger] lines[(i + 1 + k) + j]
            == rest_ser[j] by {
            assert(lines[i + (1 + k + j)] == ser[1 + k + j]);
            assert(ser[1 + k + j] == rest_ser[j]);
        }
        lemma_parse_serialize(lines, i + 1 + k, rs.drop_first());
        assert((RecV { addr: r0.addr, lines: got }) == r0);
        assert(seq![r0] + rs.drop_first() =~= rs);
    }
}

/// The serialization round trip: for any valid record sequence — addresses
/// whose names carry no segment separator, space-free impl targets, plain
/// kinds, ordinals within the parser's range, and no blank entries — the
/// canonical text encodes exactly those records.  Through the contracts of
/// the executable pair this is the round trip itself: `serialize` returns
/// exactly this text, and `deserialize` accepts it and returns exactly
/// these records, in the same order.
pub proof fn lemma_serialize_round_trip(rs: Seq<RecV>)
    requires
        wf_records(rs),
    ensures
        wf_store_text(spec_serialize(rs)),
        spec_parse_store(spec_serialize(rs)) == Some(rs),
{
    lemma_parse_serialize(spec_serialize(rs), 0, rs);
}

} // verus!
