//! Canonical stateful neighborhood addressing.
//!
//! A scheme maps each content to an indefinitely extensible stream of atoms.
//! A `Neighborhood` holds a set of distinct contents and gives each the
//! shortest nonempty prefix of its stream that no other member's stream
//! shares: one atom more than its longest common prefix with any other member.
//! Addresses depend only on the scheme and the set of contents, never on
//! insertion order; identifiers are opaque downstream bytes and never affect
//! addresses.
use crate::address::{Address, AtomId};
use crate::scheme::{
    compiled_ok, construction_failure, scheme_simple, simple_view, validate_spec,
    bytes_ok, stream_atom, stream_prefix, CompiledScheme, CompiledView, Scheme, SchemeError,
};
use vstd::prelude::*;

verus! {

/// Bound on the comparison of two streams: distinct contents whose streams
/// agree this long are refused as not distinguishable.
pub const MAX_DIVERGENCE_ATOMS: usize = 65536;

// ---------------------------------------------------------------------------
// Stream divergence and canonical addresses
// ---------------------------------------------------------------------------

/// First position at or after `i` where the streams of `a` and `b` differ,
/// capped at the divergence bound.
#[verifier::opaque]
pub open spec fn first_diff(cv: CompiledView, a: Seq<u8>, b: Seq<u8>, i: nat) -> nat
    decreases 65536 - i,
{
    if i >= 65536 {
        65536
    } else if stream_atom(cv, a, i) != stream_atom(cv, b, i) {
        i
    } else {
        first_diff(cv, a, b, i + 1)
    }
}

/// Length of the common prefix of the streams of `a` and `b` (capped).
pub open spec fn lcp(cv: CompiledView, a: Seq<u8>, b: Seq<u8>) -> nat {
    first_diff(cv, a, b, 0)
}

/// Longest common prefix of `x`'s stream with the stream of any member of
/// `cs` other than `x` (0 if there is none).
pub open spec fn max_lcp(cv: CompiledView, cs: Seq<Seq<u8>>, x: Seq<u8>) -> nat
    decreases cs.len(),
{
    if cs.len() == 0 {
        0
    } else {
        let m = max_lcp(cv, cs.drop_last(), x);
        if cs.last() == x {
            m
        } else {
            let l = lcp(cv, x, cs.last());
            if l > m {
                l
            } else {
                m
            }
        }
    }
}

/// Canonical address of `x` among the contents `cs`: one atom longer than its
/// longest common stream prefix with another member.
pub open spec fn canonical_address(cv: CompiledView, cs: Seq<Seq<u8>>, x: Seq<u8>) -> Seq<AtomId> {
    stream_prefix(cv, x, max_lcp(cv, cs, x) + 1)
}

proof fn lemma_first_diff(cv: CompiledView, a: Seq<u8>, b: Seq<u8>, i: nat)
    requires
        i <= 65536,
    ensures
        i <= first_diff(cv, a, b, i) <= 65536,
        forall|k: nat|
            i <= k < first_diff(cv, a, b, i) ==> #[trigger] stream_atom(cv, a, k) == stream_atom(
                cv,
                b,
                k,
            ),
        first_diff(cv, a, b, i) < 65536 ==> stream_atom(cv, a, first_diff(cv, a, b, i))
            != stream_atom(cv, b, first_diff(cv, a, b, i)),
        first_diff(cv, a, b, i) == first_diff(cv, b, a, i),
    decreases 65536 - i,
{
    reveal(first_diff);
    if i < 65536 && stream_atom(cv, a, i) == stream_atom(cv, b, i) {
        lemma_first_diff(cv, a, b, i + 1);
    }
}

/// The common prefix: equal atoms before it, and a difference at it (below
/// the bound).
pub proof fn lemma_lcp(cv: CompiledView, a: Seq<u8>, b: Seq<u8>)
    ensures
        lcp(cv, a, b) <= 65536,
        lcp(cv, a, b) == lcp(cv, b, a),
        forall|k: nat| k < lcp(cv, a, b) ==> #[trigger] stream_atom(cv, a, k) == stream_atom(cv, b, k),
        lcp(cv, a, b) < 65536 ==> stream_atom(cv, a, lcp(cv, a, b)) != stream_atom(
            cv,
            b,
            lcp(cv, a, b),
        ),
{
    lemma_first_diff(cv, a, b, 0);
}

/// `max_lcp` bounds every other member's common prefix, and is attained by
/// one of them when positive.
proof fn lemma_max_lcp(cv: CompiledView, cs: Seq<Seq<u8>>, x: Seq<u8>)
    ensures
        forall|j: int| 0 <= j < cs.len() && cs[j] != x ==> lcp(cv, x, #[trigger] cs[j]) <= max_lcp(cv, cs, x),
        max_lcp(cv, cs, x) > 0 ==> exists|j: int|
            0 <= j < cs.len() && cs[j] != x && lcp(cv, x, #[trigger] cs[j]) == max_lcp(cv, cs, x),
        max_lcp(cv, cs, x) <= 65536,
    decreases cs.len(),
{
    if cs.len() > 0 {
        let d = cs.drop_last();
        lemma_max_lcp(cv, d, x);
        lemma_lcp(cv, x, cs.last());
        assert forall|j: int| 0 <= j < cs.len() && cs[j] != x implies lcp(cv, x, #[trigger] cs[j])
            <= max_lcp(cv, cs, x) by {
            if j < cs.len() - 1 {
                assert(cs[j] == d[j]);
            }
        }
        if max_lcp(cv, cs, x) > 0 {
            if max_lcp(cv, cs, x) == max_lcp(cv, d, x) {
                let j = choose|j: int| 0 <= j < d.len() && d[j] != x && lcp(cv, x, #[trigger] d[j]) == max_lcp(cv, d, x);
                assert(cs[j] == d[j]);
            } else {
                assert(cs[cs.len() - 1] == cs.last());
            }
        }
    }
}

/// `max_lcp` depends only on the set of members.
pub proof fn lemma_max_lcp_set(cv: CompiledView, c1: Seq<Seq<u8>>, c2: Seq<Seq<u8>>, x: Seq<u8>)
    requires
        c1.to_set() == c2.to_set(),
    ensures
        max_lcp(cv, c1, x) == max_lcp(cv, c2, x),
{
    lemma_max_lcp(cv, c1, x);
    lemma_max_lcp(cv, c2, x);
    let m1 = max_lcp(cv, c1, x);
    let m2 = max_lcp(cv, c2, x);
    if m1 > 0 {
        let j = choose|j: int| 0 <= j < c1.len() && c1[j] != x && lcp(cv, x, #[trigger] c1[j]) == m1;
        assert(c1.to_set().contains(c1[j]));
        assert(c2.to_set().contains(c1[j]));
        let k = choose|k: int| 0 <= k < c2.len() && c2[k] == c1[j];
        assert(lcp(cv, x, c2[k]) <= m2);
    }
    if m2 > 0 {
        let j = choose|j: int| 0 <= j < c2.len() && c2[j] != x && lcp(cv, x, #[trigger] c2[j]) == m2;
        assert(c2.to_set().contains(c2[j]));
        assert(c1.to_set().contains(c2[j]));
        let k = choose|k: int| 0 <= k < c1.len() && c1[k] == c2[j];
        assert(lcp(cv, x, c1[k]) <= m1);
    }
}

// ---------------------------------------------------------------------------
// Lexicographic byte order
// ---------------------------------------------------------------------------

/// Strict lexicographic order on byte strings.
pub open spec fn lex_lt(a: Seq<u8>, b: Seq<u8>) -> bool
    decreases a.len(),
{
    if a.len() == 0 {
        b.len() > 0
    } else if b.len() == 0 {
        false
    } else if a[0] != b[0] {
        a[0] < b[0]
    } else {
        lex_lt(a.drop_first(), b.drop_first())
    }
}

pub proof fn lemma_lex_irreflexive(a: Seq<u8>)
    ensures
        !lex_lt(a, a),
    decreases a.len(),
{
    if a.len() > 0 {
        lemma_lex_irreflexive(a.drop_first());
    }
}

pub proof fn lemma_lex_transitive(a: Seq<u8>, b: Seq<u8>, c: Seq<u8>)
    requires
        lex_lt(a, b),
        lex_lt(b, c),
    ensures
        lex_lt(a, c),
    decreases a.len(),
{
    if a.len() > 0 && b.len() > 0 && c.len() > 0 && a[0] == b[0] && b[0] == c[0] {
        lemma_lex_transitive(a.drop_first(), b.drop_first(), c.drop_first());
    }
}

pub proof fn lemma_lex_total(a: Seq<u8>, b: Seq<u8>)
    requires
        a != b,
    ensures
        lex_lt(a, b) || lex_lt(b, a),
    decreases a.len(),
{
    if a.len() > 0 && b.len() > 0 && a[0] == b[0] {
        if a.drop_first() == b.drop_first() {
            assert(a =~= seq![a[0]] + a.drop_first());
            assert(b =~= seq![b[0]] + b.drop_first());
        }
        lemma_lex_total(a.drop_first(), b.drop_first());
    } else if a.len() == 0 && b.len() == 0 {
        assert(a =~= b);
    }
}

pub proof fn lemma_lex_asymmetric(a: Seq<u8>, b: Seq<u8>)
    requires
        lex_lt(a, b),
    ensures
        !lex_lt(b, a),
{
    if lex_lt(b, a) {
        lemma_lex_transitive(a, b, a);
        lemma_lex_irreflexive(a);
    }
}

/// Strictly increasing in lexicographic order.
pub open spec fn lex_sorted(cs: Seq<Seq<u8>>) -> bool {
    forall|i: int, j: int| 0 <= i < j < cs.len() ==> lex_lt(#[trigger] cs[i], #[trigger] cs[j])
}

/// Two strictly sorted sequences with the same members are equal.
pub proof fn lemma_sorted_unique(c1: Seq<Seq<u8>>, c2: Seq<Seq<u8>>)
    requires
        lex_sorted(c1),
        lex_sorted(c2),
        c1.to_set() == c2.to_set(),
    ensures
        c1 == c2,
    decreases c1.len(),
{
    if c1.len() == 0 {
        if c2.len() > 0 {
            assert(c2.to_set().contains(c2[0]));
        }
        assert(c2.len() == 0);
    } else {
        assert(c1.to_set().contains(c1[0]));
        let k = choose|k: int| 0 <= k < c2.len() && c2[k] == c1[0];
        assert(c2.to_set().contains(c2[0]));
        let j = choose|j: int| 0 <= j < c1.len() && c1[j] == c2[0];
        // c1[0] is the least member of both
        if k > 0 {
            assert(lex_lt(c2[0], c2[k]));
            if j > 0 {
                assert(lex_lt(c1[0], c1[j]));
                lemma_lex_asymmetric(c1[0], c1[j]);
            } else {
                lemma_lex_irreflexive(c1[0]);
            }
        }
        assert(c2[0] == c1[0]);
        let t1 = c1.drop_first();
        let t2 = c2.drop_first();
        assert forall|x: Seq<u8>| t1.to_set().contains(x) implies t2.to_set().contains(x) by {
            let a = choose|a: int| 0 <= a < t1.len() && t1[a] == x;
            assert(c1[a + 1] == x);
            assert(c1.to_set().contains(x));
            let b = choose|b: int| 0 <= b < c2.len() && c2[b] == x;
            if b == 0 {
                assert(lex_lt(c1[0], c1[a + 1]));
                lemma_lex_irreflexive(x);
            }
            assert(t2[b - 1] == x);
        }
        assert forall|x: Seq<u8>| t2.to_set().contains(x) implies t1.to_set().contains(x) by {
            let a = choose|a: int| 0 <= a < t2.len() && t2[a] == x;
            assert(c2[a + 1] == x);
            assert(c2.to_set().contains(x));
            let b = choose|b: int| 0 <= b < c1.len() && c1[b] == x;
            if b == 0 {
                assert(lex_lt(c2[0], c2[a + 1]));
                lemma_lex_irreflexive(x);
            }
            assert(t1[b - 1] == x);
        }
        assert(t1.to_set() =~= t2.to_set());
        lemma_sorted_unique(t1, t2);
        assert(c1 =~= seq![c1[0]] + t1);
        assert(c2 =~= seq![c2[0]] + t2);
    }
}


// ---------------------------------------------------------------------------
// Addresses, entries and errors
// ---------------------------------------------------------------------------

/// A structural neighborhood address: a nonempty prefix of a stream.
#[derive(Clone, Debug, PartialEq, Eq, Hash, PartialOrd, Ord)]
pub struct NeighborhoodAddress {
    atoms: Vec<AtomId>,
}

impl View for NeighborhoodAddress {
    type V = Seq<AtomId>;

    closed spec fn view(&self) -> Seq<AtomId> {
        self.atoms@
    }
}

impl NeighborhoodAddress {
    /// An address over `atoms`; the empty sequence is refused.
    pub fn new(atoms: Vec<AtomId>) -> (r: Result<Self, NeighborhoodError>)
        ensures
            atoms@.len() == 0 ==> r == Err::<Self, NeighborhoodError>(NeighborhoodError::EmptyAddress),
            atoms@.len() > 0 ==> (r matches Ok(a) && a@ == atoms@),
    {
        if atoms.len() == 0 {
            return Err(NeighborhoodError::EmptyAddress);
        }
        Ok(NeighborhoodAddress { atoms })
    }

    pub fn atoms(&self) -> (r: &[AtomId])
        ensures
            r@ == self@,
    {
        self.atoms.as_slice()
    }

    pub fn len(&self) -> (r: usize)
        ensures
            r == self@.len(),
    {
        self.atoms.len()
    }

    pub fn is_empty(&self) -> (r: bool)
        ensures
            r == (self@.len() == 0),
    {
        self.atoms.len() == 0
    }

    /// Atom-for-atom copy.
    pub fn duplicate(&self) -> (r: Self)
        ensures
            r@ == self@,
    {
        NeighborhoodAddress { atoms: copy_atoms(self.atoms.as_slice()) }
    }
}

/// Mathematical content of an entry.
pub struct EntryView {
    pub address: Seq<AtomId>,
    pub bytes: Seq<u8>,
    pub identifier: Option<Seq<u8>>,
}

/// One row of the canonical neighborhood relation: address, exact source
/// bytes, and an optional opaque downstream identifier.
#[derive(Clone, Debug, PartialEq, Eq)]
pub struct NeighborhoodEntry {
    address: NeighborhoodAddress,
    bytes: Vec<u8>,
    identifier: Option<Vec<u8>>,
}

/// View of an optional byte string.
pub open spec fn opt_bytes(o: Option<Vec<u8>>) -> Option<Seq<u8>> {
    match o {
        Some(v) => Some(v@),
        None => None,
    }
}

impl View for NeighborhoodEntry {
    type V = EntryView;

    closed spec fn view(&self) -> EntryView {
        EntryView { address: self.address@, bytes: self.bytes@, identifier: opt_bytes(self.identifier) }
    }
}

impl NeighborhoodEntry {
    pub fn address(&self) -> (r: &NeighborhoodAddress)
        ensures
            r@ == self@.address,
    {
        &self.address
    }

    pub fn bytes(&self) -> (r: &[u8])
        ensures
            r@ == self@.bytes,
    {
        self.bytes.as_slice()
    }

    pub fn identifier(&self) -> (r: Option<&[u8]>)
        ensures
            r is Some == self@.identifier is Some,
            r matches Some(s) ==> s@ == self@.identifier->0,
    {
        match &self.identifier {
            Some(v) => Some(v.as_slice()),
            None => None,
        }
    }

    /// Field-for-field copy.
    pub fn duplicate(&self) -> (r: Self)
        ensures
            r@ == self@,
    {
        NeighborhoodEntry {
            address: self.address.duplicate(),
            bytes: copy_bytes(self.bytes.as_slice()),
            identifier: copy_opt(&self.identifier),
        }
    }
}

#[derive(Clone, Debug, PartialEq, Eq)]
pub enum NeighborhoodError {
    InvalidScheme(SchemeError),
    EmptyAddress,
    AtomOutOfCapacity { atom: u32, capacity: u32 },
    IdentifierAlreadyAssigned(Vec<u8>),
    ConflictingIdentifierForContent(Vec<u8>),
    ContentNotFound,
    SchemeMismatch,
    ContentsNotDistinguishable { left: Vec<u8>, right: Vec<u8> },
    InvalidState(&'static str),
}

/// Mathematical content of an error: byte payloads as sequences.
pub enum NeighborhoodErrorView {
    InvalidScheme(SchemeError),
    EmptyAddress,
    AtomOutOfCapacity { atom: u32, capacity: u32 },
    IdentifierAlreadyAssigned(Seq<u8>),
    ConflictingIdentifierForContent(Seq<u8>),
    ContentNotFound,
    SchemeMismatch,
    ContentsNotDistinguishable { left: Seq<u8>, right: Seq<u8> },
    InvalidState(Seq<char>),
}

impl View for NeighborhoodError {
    type V = NeighborhoodErrorView;

    open spec fn view(&self) -> NeighborhoodErrorView {
        match self {
            NeighborhoodError::InvalidScheme(e) => NeighborhoodErrorView::InvalidScheme(*e),
            NeighborhoodError::EmptyAddress => NeighborhoodErrorView::EmptyAddress,
            NeighborhoodError::AtomOutOfCapacity { atom, capacity } => NeighborhoodErrorView::AtomOutOfCapacity {
                atom: *atom,
                capacity: *capacity,
            },
            NeighborhoodError::IdentifierAlreadyAssigned(v) => NeighborhoodErrorView::IdentifierAlreadyAssigned(v@),
            NeighborhoodError::ConflictingIdentifierForContent(v) => NeighborhoodErrorView::ConflictingIdentifierForContent(v@),
            NeighborhoodError::ContentNotFound => NeighborhoodErrorView::ContentNotFound,
            NeighborhoodError::SchemeMismatch => NeighborhoodErrorView::SchemeMismatch,
            NeighborhoodError::ContentsNotDistinguishable { left, right } => NeighborhoodErrorView::ContentsNotDistinguishable {
                left: left@,
                right: right@,
            },
            NeighborhoodError::InvalidState(m) => NeighborhoodErrorView::InvalidState(m@),
        }
    }
}

// ---------------------------------------------------------------------------
// Small exact helpers on byte strings and atom strings
// ---------------------------------------------------------------------------

pub fn copy_bytes(b: &[u8]) -> (r: Vec<u8>)
    ensures
        r@ == b@,
{
    vstd::slice::slice_to_vec(b)
}

fn copy_atoms(a: &[AtomId]) -> (r: Vec<AtomId>)
    ensures
        r@ == a@,
{
    vstd::slice::slice_to_vec(a)
}

pub fn copy_opt(o: &Option<Vec<u8>>) -> (r: Option<Vec<u8>>)
    ensures
        opt_bytes(r) == opt_bytes(*o),
{
    match o {
        Some(v) => Some(copy_bytes(v.as_slice())),
        None => None,
    }
}

/// The bytes of an identifier known to be present.
fn copy_owned(o: &Option<Vec<u8>>) -> (r: Vec<u8>)
    requires
        o is Some,
    ensures
        Some(r@) == opt_bytes(*o),
{
    match o {
        Some(v) => copy_bytes(v.as_slice()),
        None => Vec::new(),
    }
}

/// Byte-string equality.
pub fn bytes_eq(a: &[u8], b: &[u8]) -> (r: bool)
    ensures
        r == (a@ == b@),
{
    if a.len() != b.len() {
        return false;
    }
    let mut i: usize = 0;
    while i < a.len()
        invariant
            i <= a@.len(),
            a@.len() == b@.len(),
            forall|k: int| 0 <= k < i ==> a@[k] == b@[k],
        decreases a@.len() - i,
    {
        if a[i] != b[i] {
            return false;
        }
        i = i + 1;
    }
    proof {
        assert(a@ =~= b@);
    }
    true
}

/// Atom-string equality.
pub fn atoms_eq(a: &[AtomId], b: &[AtomId]) -> (r: bool)
    ensures
        r == (a@ == b@),
{
    if a.len() != b.len() {
        return false;
    }
    let mut i: usize = 0;
    while i < a.len()
        invariant
            i <= a@.len(),
            a@.len() == b@.len(),
            forall|k: int| 0 <= k < i ==> a@[k] == b@[k],
        decreases a@.len() - i,
    {
        if a[i] != b[i] {
            return false;
        }
        i = i + 1;
    }
    proof {
        assert(a@ =~= b@);
    }
    true
}

proof fn lemma_lex_skip(a: Seq<u8>, b: Seq<u8>, i: int)
    requires
        0 <= i < a.len(),
        i < b.len(),
        a[i] == b[i],
    ensures
        lex_lt(a.skip(i), b.skip(i)) == lex_lt(a.skip(i + 1), b.skip(i + 1)),
{
    assert(a.skip(i).drop_first() =~= a.skip(i + 1));
    assert(b.skip(i).drop_first() =~= b.skip(i + 1));
}

/// Strict lexicographic comparison of byte strings.
pub fn lex_less(a: &[u8], b: &[u8]) -> (r: bool)
    ensures
        r == lex_lt(a@, b@),
{
    let mut i: usize = 0;
    proof {
        assert(a@.skip(0) =~= a@);
        assert(b@.skip(0) =~= b@);
    }
    while i < a.len() && i < b.len()
        invariant
            i <= a@.len(),
            i <= b@.len(),
            lex_lt(a@, b@) == lex_lt(a@.skip(i as int), b@.skip(i as int)),
        decreases a@.len() - i,
    {
        if a[i] != b[i] {
            return a[i] < b[i];
        }
        proof {
            lemma_lex_skip(a@, b@, i as int);
        }
        i = i + 1;
    }
    i == a.len() && i < b.len()
}


// ---------------------------------------------------------------------------
// Entry collections
// ---------------------------------------------------------------------------

/// Views of a sequence of entries.
pub open spec fn views(es: Seq<NeighborhoodEntry>) -> Seq<EntryView> {
    es.map_values(|e: NeighborhoodEntry| e@)
}

/// The contents of a sequence of entry views, in order.
pub open spec fn contents(es: Seq<EntryView>) -> Seq<Seq<u8>> {
    es.map_values(|e: EntryView| e.bytes)
}

/// Rows that a neighborhood can hold: contents in strict byte order, each
/// within the machine bound, pairwise distinguishable by their streams, and
/// no identifier on two contents.
pub open spec fn rows_ok(cv: CompiledView, es: Seq<EntryView>) -> bool {
    &&& lex_sorted(contents(es))
    &&& forall|i: int| 0 <= i < es.len() ==> bytes_ok((#[trigger] es[i]).bytes.len())
    &&& forall|i: int, j: int|
        0 <= i < es.len() && 0 <= j < es.len() && i != j ==> lcp(cv, #[trigger] es[i].bytes, #[trigger] es[j].bytes)
            < 65536
    &&& forall|i: int, j: int|
        0 <= i < j < es.len() && (#[trigger] es[i]).identifier is Some ==> es[i].identifier != (#[trigger] es[j]).identifier
}

/// Every entry carries the canonical address of its content.
pub open spec fn addresses_ok(cv: CompiledView, es: Seq<EntryView>) -> bool {
    forall|i: int|
        0 <= i < es.len() ==> (#[trigger] es[i]).address == canonical_address(cv, contents(es), es[i].bytes)
}

/// The bytes-to-identifier relation held by a sequence of entries.
pub open spec fn rows_of(es: Seq<EntryView>) -> Map<Seq<u8>, Option<Seq<u8>>>
    decreases es.len(),
{
    if es.len() == 0 {
        Map::empty()
    } else {
        rows_of(es.drop_last()).insert(es.last().bytes, es.last().identifier)
    }
}

// ---------------------------------------------------------------------------
// Executable stream comparison and canonical addresses
// ---------------------------------------------------------------------------

/// Length of the common prefix of the streams of `a` and `b`, capped at the
/// divergence bound.
pub fn common_prefix_len(cs: &CompiledScheme, a: &[u8], b: &[u8]) -> (r: usize)
    requires
        cs.wf(),
        bytes_ok(a@.len()),
        bytes_ok(b@.len()),
    ensures
        r == lcp(cs@, a@, b@),
{
    let mut sa = Address::new(cs, a);
    let mut sb = Address::new(cs, b);
    let mut i: usize = 0;
    while i < MAX_DIVERGENCE_ATOMS
        invariant
            i <= 65536,
            sa.wf(),
            sb.wf(),
            sa.position() == i,
            sb.position() == i,
            sa.compiled() == cs@,
            sb.compiled() == cs@,
            sa.bytes() == a@,
            sb.bytes() == b@,
            first_diff(cs@, a@, b@, 0) == first_diff(cs@, a@, b@, i as nat),
        decreases 65536 - i,
    {
        let x = sa.next();
        let y = sb.next();
        proof {
            reveal(first_diff);
        }
        match (x, y) {
            (Some(p), Some(q)) => {
                if p != q {
                    return i;
                }
            },
            _ => {},
        }
        i = i + 1;
    }
    proof {
        reveal(first_diff);
    }
    i
}

/// Longest common stream prefix of `x` with any other member of `es`.
fn canonical_depth(cs: &CompiledScheme, es: &Vec<NeighborhoodEntry>, x: &[u8]) -> (r: usize)
    requires
        cs.wf(),
        bytes_ok(x@.len()),
        forall|i: int| 0 <= i < es@.len() ==> bytes_ok((#[trigger] es@[i])@.bytes.len()),
    ensures
        r == max_lcp(cs@, contents(views(es@)), x@),
        r <= 65536,
{
    let ghost c = contents(views(es@));
    let mut m: usize = 0;
    let mut i: usize = 0;
    proof {
        assert(c.take(0) =~= Seq::<Seq<u8>>::empty());
    }
    while i < es.len()
        invariant
            cs.wf(),
            bytes_ok(x@.len()),
            forall|k: int| 0 <= k < es@.len() ==> bytes_ok((#[trigger] es@[k])@.bytes.len()),
            c == contents(views(es@)),
            i <= es@.len(),
            m == max_lcp(cs@, c.take(i as int), x@),
            m <= 65536,
        decreases es@.len() - i,
    {
        let e = &es[i];
        proof {
            assert(c.take(i + 1).drop_last() =~= c.take(i as int));
            assert(c.take(i + 1).last() == e@.bytes);
            lemma_lcp(cs@, x@, e@.bytes);
        }
        if !bytes_eq(e.bytes.as_slice(), x) {
            let l = common_prefix_len(cs, x, e.bytes.as_slice());
            if l > m {
                m = l;
            }
        }
        i = i + 1;
    }
    proof {
        assert(c.take(es@.len() as int) =~= c);
    }
    m
}

/// The canonical address of `x` among the contents of `es`.
fn canonical_address_of(cs: &CompiledScheme, es: &Vec<NeighborhoodEntry>, x: &[u8]) -> (r: Vec<AtomId>)
    requires
        cs.wf(),
        bytes_ok(x@.len()),
        forall|i: int| 0 <= i < es@.len() ==> bytes_ok((#[trigger] es@[i])@.bytes.len()),
    ensures
        r@ == canonical_address(cs@, contents(views(es@)), x@),
{
    let d = canonical_depth(cs, es, x);
    let mut s = Address::new(cs, x);
    let r = s.take_atoms(d + 1);
    proof {
        assert(r@ =~= canonical_address(cs@, contents(views(es@)), x@));
    }
    r
}

/// The entries of `es` with every address replaced by its canonical one.
fn with_canonical_addresses(cs: &CompiledScheme, es: &Vec<NeighborhoodEntry>) -> (r: Vec<NeighborhoodEntry>)
    requires
        cs.wf(),
        forall|i: int| 0 <= i < es@.len() ==> bytes_ok((#[trigger] es@[i])@.bytes.len()),
    ensures
        r@.len() == es@.len(),
        forall|i: int|
            0 <= i < es@.len() ==> (#[trigger] r@[i])@ == (EntryView {
                address: canonical_address(cs@, contents(views(es@)), es@[i]@.bytes),
                bytes: es@[i]@.bytes,
                identifier: es@[i]@.identifier,
            }),
{
    let mut out: Vec<NeighborhoodEntry> = Vec::new();
    let mut i: usize = 0;
    while i < es.len()
        invariant
            cs.wf(),
            forall|k: int| 0 <= k < es@.len() ==> bytes_ok((#[trigger] es@[k])@.bytes.len()),
            i <= es@.len(),
            out@.len() == i,
            forall|k: int|
                0 <= k < i ==> (#[trigger] out@[k])@ == (EntryView {
                    address: canonical_address(cs@, contents(views(es@)), es@[k]@.bytes),
                    bytes: es@[k]@.bytes,
                    identifier: es@[k]@.identifier,
                }),
        decreases es@.len() - i,
    {
        let e = &es[i];
        proof {
            assert(bytes_ok(es@[i as int]@.bytes.len()));
        }
        let atoms = canonical_address_of(cs, es, e.bytes.as_slice());
        let ne = NeighborhoodEntry {
            address: NeighborhoodAddress { atoms },
            bytes: copy_bytes(e.bytes.as_slice()),
            identifier: copy_opt(&e.identifier),
        };
        out.push(ne);
        i = i + 1;
    }
    out
}


// ---------------------------------------------------------------------------
// The rows relation and what determines a neighborhood
// ---------------------------------------------------------------------------

proof fn lemma_sorted_prefix(c: Seq<Seq<u8>>, n: int)
    requires
        lex_sorted(c),
        0 <= n <= c.len(),
    ensures
        lex_sorted(c.take(n)),
{
    assert forall|i: int, j: int| 0 <= i < j < c.take(n).len() implies lex_lt(
        #[trigger] c.take(n)[i],
        #[trigger] c.take(n)[j],
    ) by {
        assert(c.take(n)[i] == c[i] && c.take(n)[j] == c[j]);
    }
}

/// Distinct positions of a sorted sequence hold distinct contents.
proof fn lemma_sorted_distinct(c: Seq<Seq<u8>>, i: int, j: int)
    requires
        lex_sorted(c),
        0 <= i < c.len(),
        0 <= j < c.len(),
        i != j,
    ensures
        c[i] != c[j],
{
    if i < j {
        assert(lex_lt(c[i], c[j]));
    } else {
        assert(lex_lt(c[j], c[i]));
    }
    lemma_lex_irreflexive(c[i]);
}

/// Domain and values of the rows relation of sorted entries.
pub proof fn lemma_rows_of(es: Seq<EntryView>)
    requires
        lex_sorted(contents(es)),
    ensures
        forall|b: Seq<u8>|
            #[trigger] rows_of(es).dom().contains(b) <==> exists|i: int| 0 <= i < es.len() && (#[trigger] es[i]).bytes == b,
        forall|i: int| 0 <= i < es.len() ==> #[trigger] rows_of(es)[es[i].bytes] == es[i].identifier,
    decreases es.len(),
{
    if es.len() > 0 {
        let d = es.drop_last();
        let n = es.len() - 1;
        assert(contents(d) =~= contents(es).take(n));
        lemma_sorted_prefix(contents(es), n);
        lemma_rows_of(d);
        assert forall|b: Seq<u8>| #[trigger] rows_of(es).dom().contains(b) implies exists|i: int|
            0 <= i < es.len() && (#[trigger] es[i]).bytes == b by {
            if b == es.last().bytes {
                assert(es[n].bytes == b);
            } else {
                let i = choose|i: int| 0 <= i < d.len() && (#[trigger] d[i]).bytes == b;
                assert(es[i] == d[i]);
            }
        }
        assert forall|b: Seq<u8>| (exists|i: int| 0 <= i < es.len() && (#[trigger] es[i]).bytes == b) implies #[trigger] rows_of(
            es,
        ).dom().contains(b) by {
            let i = choose|i: int| 0 <= i < es.len() && (#[trigger] es[i]).bytes == b;
            if i < n {
                assert(d[i] == es[i]);
            }
        }
        assert forall|i: int| 0 <= i < es.len() implies #[trigger] rows_of(es)[es[i].bytes] == es[i].identifier by {
            if i < n {
                assert(d[i] == es[i]);
                assert(contents(es)[i] == es[i].bytes);
                assert(contents(es)[n] == es[n].bytes);
                lemma_sorted_distinct(contents(es), i, n);
            }
        }
    }
}

/// The contents of two sorted entry sequences with the same rows relation
/// coincide.
proof fn lemma_same_rows_same_contents(e1: Seq<EntryView>, e2: Seq<EntryView>)
    requires
        lex_sorted(contents(e1)),
        lex_sorted(contents(e2)),
        rows_of(e1).dom() == rows_of(e2).dom(),
    ensures
        contents(e1) == contents(e2),
{
    lemma_rows_of(e1);
    lemma_rows_of(e2);
    assert forall|b: Seq<u8>| contents(e1).to_set().contains(b) implies contents(e2).to_set().contains(b) by {
        let i = choose|i: int| 0 <= i < contents(e1).len() && contents(e1)[i] == b;
        assert(e1[i].bytes == b);
        assert(rows_of(e1).dom().contains(b));
        assert(rows_of(e2).dom().contains(b));
        let j = choose|j: int| 0 <= j < e2.len() && (#[trigger] e2[j]).bytes == b;
        assert(contents(e2)[j] == b);
    }
    assert forall|b: Seq<u8>| contents(e2).to_set().contains(b) implies contents(e1).to_set().contains(b) by {
        let i = choose|i: int| 0 <= i < contents(e2).len() && contents(e2)[i] == b;
        assert(e2[i].bytes == b);
        assert(rows_of(e2).dom().contains(b));
        assert(rows_of(e1).dom().contains(b));
        let j = choose|j: int| 0 <= j < e1.len() && (#[trigger] e1[j]).bytes == b;
        assert(contents(e1)[j] == b);
    }
    assert(contents(e1).to_set() =~= contents(e2).to_set());
    lemma_sorted_unique(contents(e1), contents(e2));
}

/// A neighborhood is determined by its scheme and its rows: two canonical
/// entry sequences with the same bytes-to-identifier relation are equal, so
/// addresses never depend on the order in which contents arrived.
pub proof fn lemma_canonical_determined(cv: CompiledView, e1: Seq<EntryView>, e2: Seq<EntryView>)
    requires
        rows_ok(cv, e1),
        addresses_ok(cv, e1),
        rows_ok(cv, e2),
        addresses_ok(cv, e2),
        rows_of(e1) == rows_of(e2),
    ensures
        e1 == e2,
{
    lemma_same_rows_same_contents(e1, e2);
    lemma_rows_of(e1);
    lemma_rows_of(e2);
    assert(e1.len() == contents(e1).len());
    assert forall|i: int| 0 <= i < e1.len() implies e1[i] == e2[i] by {
        assert(contents(e1)[i] == contents(e2)[i]);
        assert(e1[i].bytes == e2[i].bytes);
        assert(rows_of(e1)[e1[i].bytes] == e1[i].identifier);
        assert(rows_of(e2)[e2[i].bytes] == e2[i].identifier);
    }
    assert(e1 =~= e2);
}

/// Identifiers never affect addresses: canonical entry sequences over the
/// same contents carry the same addresses, whatever their identifiers.
pub proof fn lemma_identifiers_do_not_affect_addresses(
    cv: CompiledView,
    e1: Seq<EntryView>,
    e2: Seq<EntryView>,
)
    requires
        rows_ok(cv, e1),
        addresses_ok(cv, e1),
        rows_ok(cv, e2),
        addresses_ok(cv, e2),
        rows_of(e1).dom() == rows_of(e2).dom(),
    ensures
        e1.len() == e2.len(),
        forall|i: int|
            0 <= i < e1.len() ==> (#[trigger] e1[i]).bytes == e2[i].bytes && e1[i].address == e2[i].address,
{
    lemma_same_rows_same_contents(e1, e2);
    assert(e1.len() == contents(e1).len());
    assert forall|i: int| 0 <= i < e1.len() implies (#[trigger] e1[i]).bytes == e2[i].bytes && e1[i].address
        == e2[i].address by {
        assert(contents(e1)[i] == contents(e2)[i]);
    }
}

/// The canonical address of member `i` is the shortest nonempty prefix of its
/// stream that no other member's stream shares: no other member's stream
/// begins with it, each shorter nonempty prefix is shared by another member,
/// and a sole member's address is one atom.
pub proof fn lemma_shortest_unique_prefix(cv: CompiledView, es: Seq<EntryView>, i: int)
    requires
        rows_ok(cv, es),
        addresses_ok(cv, es),
        0 <= i < es.len(),
    ensures
        es[i].address.len() >= 1,
        es[i].address == stream_prefix(cv, es[i].bytes, es[i].address.len()),
        forall|j: int|
            0 <= j < es.len() && j != i ==> stream_prefix(cv, (#[trigger] es[j]).bytes, es[i].address.len())
                != es[i].address,
        forall|k: nat|
            #![trigger stream_prefix(cv, es[i].bytes, k)]
            1 <= k < es[i].address.len() ==> exists|j: int|
                #![trigger es[j]]
                0 <= j < es.len() && j != i && stream_prefix(cv, es[j].bytes, k) == stream_prefix(cv, es[i].bytes, k),
        es.len() == 1 ==> es[i].address.len() == 1,
{
    let c = contents(es);
    let x = es[i].bytes;
    let m = max_lcp(cv, c, x);
    lemma_max_lcp(cv, c, x);
    assert(es[i].address.len() == m + 1);
    assert forall|j: int| 0 <= j < es.len() && j != i implies stream_prefix(
        cv,
        (#[trigger] es[j]).bytes,
        es[i].address.len(),
    ) != es[i].address by {
        assert(c[j] == es[j].bytes);
        assert(c[i] == x);
        lemma_sorted_distinct(c, i, j);
        let y = es[j].bytes;
        lemma_lcp(cv, x, y);
        let l = lcp(cv, x, y);
        assert(l <= m);
        assert(l < 65536);
        assert(stream_prefix(cv, y, m + 1)[l as int] == stream_atom(cv, y, l));
        assert(es[i].address[l as int] == stream_atom(cv, x, l));
    }
    assert forall|k: nat| #![trigger stream_prefix(cv, es[i].bytes, k)] 1 <= k < es[i].address.len() implies exists|j: int|
        #![trigger es[j]]
        0 <= j < es.len() && j != i && stream_prefix(cv, es[j].bytes, k) == stream_prefix(cv, es[i].bytes, k) by {
        let j = choose|j: int| 0 <= j < c.len() && c[j] != x && lcp(cv, x, #[trigger] c[j]) == m;
        assert(c[j] == es[j].bytes);
        lemma_lcp(cv, x, es[j].bytes);
        assert(stream_prefix(cv, es[j].bytes, k) =~= stream_prefix(cv, x, k));
    }
    if es.len() == 1 {
        if m > 0 {
            let j = choose|j: int| 0 <= j < c.len() && c[j] != x && lcp(cv, x, #[trigger] c[j]) == m;
            assert(j == 0 && i == 0);
        }
    }
}

/// Adding members never shortens an address, and the old address stays a
/// prefix of the new one; removing members never lengthens one.
pub proof fn lemma_more_members_longer_addresses(
    cv: CompiledView,
    c1: Seq<Seq<u8>>,
    c2: Seq<Seq<u8>>,
    x: Seq<u8>,
)
    requires
        c1.to_set().subset_of(c2.to_set()),
    ensures
        canonical_address(cv, c1, x).len() <= canonical_address(cv, c2, x).len(),
        canonical_address(cv, c1, x) == canonical_address(cv, c2, x).take(
            canonical_address(cv, c1, x).len() as int,
        ),
{
    lemma_max_lcp(cv, c1, x);
    lemma_max_lcp(cv, c2, x);
    let m1 = max_lcp(cv, c1, x);
    if m1 > 0 {
        let j = choose|j: int| 0 <= j < c1.len() && c1[j] != x && lcp(cv, x, #[trigger] c1[j]) == m1;
        assert(c1.to_set().contains(c1[j]));
        let k = choose|k: int| 0 <= k < c2.len() && c2[k] == c1[j];
        assert(lcp(cv, x, c2[k]) <= max_lcp(cv, c2, x));
    }
    assert(canonical_address(cv, c1, x) =~= canonical_address(cv, c2, x).take(
        canonical_address(cv, c1, x).len() as int,
    ));
}


// ---------------------------------------------------------------------------
// Address changes
// ---------------------------------------------------------------------------

/// A member whose address changed, with its old and new address.
#[derive(Clone, Debug, PartialEq, Eq)]
pub struct AddressChange {
    pub bytes: Vec<u8>,
    pub identifier: Option<Vec<u8>>,
    pub old: NeighborhoodAddress,
    pub new: NeighborhoodAddress,
}

/// Mathematical content of an address change.
pub struct ChangeView {
    pub bytes: Seq<u8>,
    pub identifier: Option<Seq<u8>>,
    pub old: Seq<AtomId>,
    pub new: Seq<AtomId>,
}

impl View for AddressChange {
    type V = ChangeView;

    open spec fn view(&self) -> ChangeView {
        ChangeView {
            bytes: self.bytes@,
            identifier: opt_bytes(self.identifier),
            old: self.old@,
            new: self.new@,
        }
    }
}

pub open spec fn change_views(cs: Seq<AddressChange>) -> Seq<ChangeView> {
    cs.map_values(|c: AddressChange| c@)
}

/// A shortening reported one atom at a time, deepest first, as the prefix
/// trie collapses level by level: `old` to `old` less one atom, and so on
/// down to the new length. A change that does not shorten stays whole.
pub open spec fn steps_of(c: ChangeView) -> Seq<ChangeView> {
    if c.old.len() > c.new.len() {
        Seq::new(
            (c.old.len() - c.new.len()) as nat,
            |j: int|
                ChangeView {
                    bytes: c.bytes,
                    identifier: c.identifier,
                    old: c.old.take(c.old.len() - j),
                    new: c.old.take(c.old.len() - j - 1),
                },
        )
    } else {
        seq![c]
    }
}

/// Every change broken into its steps, in order.
pub open spec fn unit_steps(cs: Seq<ChangeView>) -> Seq<ChangeView>
    decreases cs.len(),
{
    if cs.len() == 0 {
        Seq::empty()
    } else {
        unit_steps(cs.drop_last()) + steps_of(cs.last())
    }
}

fn address_prefix(a: &NeighborhoodAddress, n: usize) -> (r: NeighborhoodAddress)
    requires
        n <= a@.len(),
    ensures
        r@ == a@.take(n as int),
{
    let mut atoms: Vec<AtomId> = Vec::new();
    let mut i: usize = 0;
    while i < n
        invariant
            n <= a@.len(),
            i <= n,
            atoms@ == a@.take(i as int),
        decreases n - i,
    {
        atoms.push(a.atoms[i]);
        i = i + 1;
        proof {
            assert(atoms@ =~= a@.take(i as int));
        }
    }
    NeighborhoodAddress { atoms }
}

/// The changes broken into unit steps.
fn into_unit_steps(changes: &Vec<AddressChange>) -> (r: Vec<AddressChange>)
    ensures
        change_views(r@) == unit_steps(change_views(changes@)),
{
    let ghost cs = change_views(changes@);
    let mut out: Vec<AddressChange> = Vec::new();
    let mut i: usize = 0;
    proof {
        assert(cs.take(0) =~= Seq::<ChangeView>::empty());
        assert(change_views(out@) =~= unit_steps(cs.take(0)));
    }
    while i < changes.len()
        invariant
            cs == change_views(changes@),
            i <= changes@.len(),
            change_views(out@) == unit_steps(cs.take(i as int)),
        decreases changes@.len() - i,
    {
        let c = &changes[i];
        let ghost cv = c@;
        let ghost base = change_views(out@);
        proof {
            assert(cs[i as int] == cv);
            assert(cs.take(i + 1).drop_last() =~= cs.take(i as int));
            assert(cs.take(i + 1).last() == cv);
        }
        let lo = c.old.len();
        let ln = c.new.len();
        if lo > ln {
            let mut j: usize = 0;
            while j < lo - ln
                invariant
                    cv == c@,
                    lo == cv.old.len(),
                    ln == cv.new.len(),
                    lo > ln,
                    j <= lo - ln,
                    change_views(out@) == base + steps_of(cv).take(j as int),
                decreases lo - ln - j,
            {
                let step = AddressChange {
                    bytes: copy_bytes(c.bytes.as_slice()),
                    identifier: copy_opt(&c.identifier),
                    old: address_prefix(&c.old, lo - j),
                    new: address_prefix(&c.old, lo - j - 1),
                };
                let ghost before = out@;
                out.push(step);
                proof {
                    assert(change_views(out@) =~= change_views(before).push(step@));
                    assert(steps_of(cv)[j as int] == step@);
                    assert(steps_of(cv).take(j + 1) =~= steps_of(cv).take(j as int).push(step@));
                }
                j = j + 1;
            }
            proof {
                assert(steps_of(cv).take((lo - ln) as int) =~= steps_of(cv));
            }
        } else {
            let step = AddressChange {
                bytes: copy_bytes(c.bytes.as_slice()),
                identifier: copy_opt(&c.identifier),
                old: c.old.duplicate(),
                new: c.new.duplicate(),
            };
            let ghost before = out@;
            out.push(step);
            proof {
                assert(change_views(out@) =~= change_views(before).push(step@));
                assert(step@ == cv);
                assert(steps_of(cv) =~= seq![cv]);
            }
        }
        i = i + 1;
    }
    proof {
        assert(cs.take(changes@.len() as int) =~= cs);
    }
    out
}

/// The members of `old_es`, in their order, that are still among `now` and
/// whose canonical address among `now` differs from the one they carried.
pub open spec fn address_changes(cv: CompiledView, old_es: Seq<EntryView>, now: Seq<Seq<u8>>) -> Seq<
    ChangeView,
>
    decreases old_es.len(),
{
    if old_es.len() == 0 {
        Seq::empty()
    } else {
        let prev = address_changes(cv, old_es.drop_last(), now);
        let e = old_es.last();
        let na = canonical_address(cv, now, e.bytes);
        if now.contains(e.bytes) && na != e.address {
            prev.push(ChangeView { bytes: e.bytes, identifier: e.identifier, old: e.address, new: na })
        } else {
            prev
        }
    }
}

/// Canonical entries see no change against their own contents.
proof fn lemma_no_changes(cv: CompiledView, es: Seq<EntryView>, n: int)
    requires
        addresses_ok(cv, es),
        0 <= n <= es.len(),
    ensures
        address_changes(cv, es.take(n), contents(es)) == Seq::<ChangeView>::empty(),
    decreases n,
{
    if n > 0 {
        assert(es.take(n).drop_last() =~= es.take(n - 1));
        lemma_no_changes(cv, es, n - 1);
        assert(es.take(n).last() == es[n - 1]);
    }
}

/// Index of the entry holding `b`, if any.
fn find_bytes(es: &Vec<NeighborhoodEntry>, b: &[u8]) -> (r: Option<usize>)
    ensures
        r matches Some(j) ==> j < es@.len() && es@[j as int]@.bytes == b@,
        r is None ==> forall|j: int| 0 <= j < es@.len() ==> (#[trigger] es@[j])@.bytes != b@,
{
    let mut i: usize = 0;
    while i < es.len()
        invariant
            i <= es@.len(),
            forall|j: int| 0 <= j < i ==> (#[trigger] es@[j])@.bytes != b@,
        decreases es@.len() - i,
    {
        if bytes_eq(es[i].bytes.as_slice(), b) {
            return Some(i);
        }
        i = i + 1;
    }
    None
}

/// Index of the entry carrying identifier `w`, if any.
fn find_identifier(es: &Vec<NeighborhoodEntry>, w: &[u8]) -> (r: Option<usize>)
    ensures
        r matches Some(j) ==> j < es@.len() && es@[j as int]@.identifier == Some(w@),
        r is None ==> forall|j: int| 0 <= j < es@.len() ==> (#[trigger] es@[j])@.identifier != Some(w@),
{
    let mut i: usize = 0;
    while i < es.len()
        invariant
            i <= es@.len(),
            forall|j: int| 0 <= j < i ==> (#[trigger] es@[j])@.identifier != Some(w@),
        decreases es@.len() - i,
    {
        match &es[i].identifier {
            Some(v) => {
                if bytes_eq(v.as_slice(), w) {
                    return Some(i);
                }
            },
            None => {},
        }
        i = i + 1;
    }
    None
}

/// The changes of the members of `old` against the canonical entries `new`.
fn collect_changes(cs: &CompiledScheme, old: &Vec<NeighborhoodEntry>, new: &Vec<NeighborhoodEntry>) -> (r: Vec<
    AddressChange,
>)
    requires
        addresses_ok(cs@, views(new@)),
    ensures
        change_views(r@) == address_changes(cs@, views(old@), contents(views(new@))),
{
    let ghost now = contents(views(new@));
    let ghost ov = views(old@);
    let mut out: Vec<AddressChange> = Vec::new();
    let mut i: usize = 0;
    proof {
        assert(ov.take(0) =~= Seq::<EntryView>::empty());
        assert(change_views(out@) =~= Seq::<ChangeView>::empty());
    }
    while i < old.len()
        invariant
            addresses_ok(cs@, views(new@)),
            now == contents(views(new@)),
            ov == views(old@),
            i <= old@.len(),
            change_views(out@) == address_changes(cs@, ov.take(i as int), now),
        decreases old@.len() - i,
    {
        let e = &old[i];
        proof {
            assert(ov.take(i + 1).drop_last() =~= ov.take(i as int));
            assert(ov.take(i + 1).last() == e@);
        }
        match find_bytes(new, e.bytes.as_slice()) {
            Some(j) => {
                let ne = &new[j];
                proof {
                    assert(now[j as int] == e@.bytes);
                    assert(views(new@)[j as int] == ne@);
                }
                if !atoms_eq(e.address.atoms.as_slice(), ne.address.atoms.as_slice()) {
                    let c = AddressChange {
                        bytes: copy_bytes(e.bytes.as_slice()),
                        identifier: copy_opt(&e.identifier),
                        old: e.address.duplicate(),
                        new: ne.address.duplicate(),
                    };
                    out.push(c);
                    proof {
                        assert(change_views(out@) =~= address_changes(cs@, ov.take(i + 1), now));
                    }
                }
            },
            None => {
                proof {
                    assert forall|j: int| 0 <= j < now.len() implies now[j] != e@.bytes by {
                        assert(views(new@)[j] == new@[j]@);
                    }
                }
            },
        }
        i = i + 1;
    }
    proof {
        assert(ov.take(old@.len() as int) =~= ov);
    }
    out
}


// ---------------------------------------------------------------------------
// Insertion, removal and identifier updates on the rows relation
// ---------------------------------------------------------------------------

/// Whether identifier `w` is carried by some content of `m`.
pub open spec fn id_used(m: Map<Seq<u8>, Option<Seq<u8>>>, w: Seq<u8>) -> bool {
    exists|k: Seq<u8>| #[trigger] m.dom().contains(k) && m[k] == Some(w)
}

/// Member `r` of `m` whose stream agrees with that of `b` up to the bound.
pub open spec fn indistinct(cv: CompiledView, m: Map<Seq<u8>, Option<Seq<u8>>>, b: Seq<u8>, r: Seq<u8>) -> bool {
    m.dom().contains(r) && lcp(cv, b, r) >= 65536
}

/// The least such member in byte order.
pub open spec fn least_indistinct(cv: CompiledView, m: Map<Seq<u8>, Option<Seq<u8>>>, b: Seq<u8>) -> Seq<u8> {
    choose|r: Seq<u8>|
        indistinct(cv, m, b, r) && forall|r2: Seq<u8>| #[trigger] indistinct(cv, m, b, r2) ==> r2 == r || lex_lt(r, r2)
}

/// Outcome of adding content `b` with optional identifier `id` to the rows
/// `m`: the new rows, or the error that refuses it.
pub open spec fn insert_step(
    cv: CompiledView,
    m: Map<Seq<u8>, Option<Seq<u8>>>,
    b: Seq<u8>,
    id: Option<Seq<u8>>,
) -> Result<Map<Seq<u8>, Option<Seq<u8>>>, NeighborhoodErrorView> {
    if m.dom().contains(b) {
        match id {
            None => Ok(m),
            Some(w) => match m[b] {
                Some(e) => if e == w {
                    Ok(m)
                } else {
                    Err(NeighborhoodErrorView::ConflictingIdentifierForContent(w))
                },
                None => if id_used(m, w) {
                    Err(NeighborhoodErrorView::IdentifierAlreadyAssigned(w))
                } else {
                    Ok(m.insert(b, Some(w)))
                },
            },
        }
    } else if id is Some && id_used(m, id->0) {
        Err(NeighborhoodErrorView::IdentifierAlreadyAssigned(id->0))
    } else if exists|r: Seq<u8>| #[trigger] indistinct(cv, m, b, r) {
        Err(NeighborhoodErrorView::ContentsNotDistinguishable { left: b, right: least_indistinct(cv, m, b) })
    } else {
        Ok(m.insert(b, id))
    }
}

/// `fv` is `es` with `nv` inserted at `pos`, addresses aside.
pub open spec fn inserted_at(es: Seq<EntryView>, fv: Seq<EntryView>, pos: int, nv: EntryView) -> bool {
    &&& fv.len() == es.len() + 1
    &&& 0 <= pos <= es.len()
    &&& fv[pos].bytes == nv.bytes
    &&& fv[pos].identifier == nv.identifier
    &&& forall|k: int| 0 <= k < pos ==> (#[trigger] fv[k]).bytes == es[k].bytes && fv[k].identifier == es[k].identifier
    &&& forall|k: int|
        pos <= k < es.len() ==> fv[k + 1].bytes == (#[trigger] es[k]).bytes && fv[k + 1].identifier == es[k].identifier
}

/// `fv` is `es` without position `pos`, addresses aside.
pub open spec fn removed_at(es: Seq<EntryView>, fv: Seq<EntryView>, pos: int) -> bool {
    &&& fv.len() + 1 == es.len()
    &&& 0 <= pos < es.len()
    &&& forall|k: int| 0 <= k < pos ==> (#[trigger] fv[k]).bytes == es[k].bytes && fv[k].identifier == es[k].identifier
    &&& forall|k: int|
        pos < k < es.len() ==> fv[k - 1].bytes == (#[trigger] es[k]).bytes && fv[k - 1].identifier == es[k].identifier
}

/// Whether identifier `w` is used, read off sorted entries.
proof fn lemma_id_used(es: Seq<EntryView>, w: Seq<u8>)
    requires
        lex_sorted(contents(es)),
    ensures
        id_used(rows_of(es), w) <==> exists|j: int| 0 <= j < es.len() && (#[trigger] es[j]).identifier == Some(w),
{
    lemma_rows_of(es);
    if id_used(rows_of(es), w) {
        let k = choose|k: Seq<u8>| #[trigger] rows_of(es).dom().contains(k) && rows_of(es)[k] == Some(w);
        let i = choose|i: int| 0 <= i < es.len() && (#[trigger] es[i]).bytes == k;
        assert(es[i].identifier == Some(w));
    }
    if exists|j: int| 0 <= j < es.len() && (#[trigger] es[j]).identifier == Some(w) {
        let j = choose|j: int| 0 <= j < es.len() && (#[trigger] es[j]).identifier == Some(w);
        assert(rows_of(es).dom().contains(es[j].bytes));
    }
}

/// The first member in byte order that `b` cannot be told apart from.
proof fn lemma_least_indistinct(cv: CompiledView, es: Seq<EntryView>, b: Seq<u8>, j: int)
    requires
        lex_sorted(contents(es)),
        0 <= j < es.len(),
        lcp(cv, b, es[j].bytes) >= 65536,
        forall|k: int| 0 <= k < j ==> lcp(cv, b, (#[trigger] es[k]).bytes) < 65536,
    ensures
        exists|r: Seq<u8>| #[trigger] indistinct(cv, rows_of(es), b, r),
        least_indistinct(cv, rows_of(es), b) == es[j].bytes,
{
    lemma_rows_of(es);
    let m = rows_of(es);
    let x = es[j].bytes;
    assert(indistinct(cv, m, b, x));
    assert forall|r2: Seq<u8>| #[trigger] indistinct(cv, m, b, r2) implies r2 == x || lex_lt(x, r2) by {
        let k = choose|k: int| 0 <= k < es.len() && (#[trigger] es[k]).bytes == r2;
        if k > j {
            assert(contents(es)[j] == x && contents(es)[k] == r2);
        }
    }
    let r = least_indistinct(cv, m, b);
    assert(indistinct(cv, m, b, r) && forall|r2: Seq<u8>| #[trigger] indistinct(cv, m, b, r2) ==> r2 == r || lex_lt(r, r2));
    if r != x {
        assert(lex_lt(x, r));
        assert(lex_lt(r, x));
        lemma_lex_asymmetric(x, r);
    }
}

/// Inserting a new content at its place in byte order keeps the contents
/// sorted.
proof fn lemma_insert_sorted(es: Seq<EntryView>, fv: Seq<EntryView>, pos: int, nv: EntryView)
    requires
        lex_sorted(contents(es)),
        inserted_at(es, fv, pos, nv),
        forall|k: int| 0 <= k < pos ==> lex_lt((#[trigger] es[k]).bytes, nv.bytes),
        forall|k: int| pos <= k < es.len() ==> lex_lt(nv.bytes, (#[trigger] es[k]).bytes),
    ensures
        lex_sorted(contents(fv)),
        contents(fv) == contents(es).insert(pos, nv.bytes),
{
    let c = contents(es);
    let cf = contents(fv);
    assert(cf =~= c.insert(pos, nv.bytes)) by {
        assert forall|t: int| 0 <= t < cf.len() implies cf[t] == c.insert(pos, nv.bytes)[t] by {
            if t > pos {
                assert(fv[t].bytes == es[t - 1].bytes);
            }
        }
    }
    assert forall|i: int, j: int| 0 <= i < j < cf.len() implies lex_lt(#[trigger] cf[i], #[trigger] cf[j]) by {
        if i < pos && j < pos {
            assert(c[i] == es[i].bytes && c[j] == es[j].bytes);
        } else if i < pos && j == pos {
        } else if i < pos {
            assert(fv[j].bytes == es[j - 1].bytes);
            lemma_lex_transitive(es[i].bytes, nv.bytes, es[j - 1].bytes);
        } else if i == pos {
            assert(fv[j].bytes == es[j - 1].bytes);
        } else {
            assert(fv[i].bytes == es[i - 1].bytes);
            assert(fv[j].bytes == es[j - 1].bytes);
            assert(c[i - 1] == es[i - 1].bytes && c[j - 1] == es[j - 1].bytes);
        }
    }
}

/// Inserting a new content within the machine bound keeps every content
/// within it.
proof fn lemma_insert_bytes_ok(es: Seq<EntryView>, fv: Seq<EntryView>, pos: int, nv: EntryView)
    requires
        forall|i: int| 0 <= i < es.len() ==> bytes_ok((#[trigger] es[i]).bytes.len()),
        inserted_at(es, fv, pos, nv),
        bytes_ok(nv.bytes.len()),
    ensures
        forall|i: int| 0 <= i < fv.len() ==> bytes_ok((#[trigger] fv[i]).bytes.len()),
{
    assert forall|i: int| 0 <= i < fv.len() implies bytes_ok((#[trigger] fv[i]).bytes.len()) by {
        if i > pos {
            assert(fv[i].bytes == es[i - 1].bytes);
        }
    }
}

/// Inserting a new content distinguishable from every member keeps all
/// pairs distinguishable.
proof fn lemma_insert_lcp(cv: CompiledView, es: Seq<EntryView>, fv: Seq<EntryView>, pos: int, nv: EntryView)
    requires
        forall|i: int, j: int|
            0 <= i < es.len() && 0 <= j < es.len() && i != j ==> lcp(cv, #[trigger] es[i].bytes, #[trigger] es[j].bytes)
                < 65536,
        inserted_at(es, fv, pos, nv),
        forall|k: int| 0 <= k < es.len() ==> lcp(cv, nv.bytes, (#[trigger] es[k]).bytes) < 65536,
    ensures
        forall|i: int, j: int|
            0 <= i < fv.len() && 0 <= j < fv.len() && i != j ==> lcp(cv, #[trigger] fv[i].bytes, #[trigger] fv[j].bytes)
                < 65536,
{
    assert forall|i: int, j: int|
        0 <= i < fv.len() && 0 <= j < fv.len() && i != j implies lcp(cv, #[trigger] fv[i].bytes, #[trigger] fv[j].bytes)
        < 65536 by {
        let ii = if i < pos { i } else { i - 1 };
        let jj = if j < pos { j } else { j - 1 };
        if i == pos {
            assert(fv[j].bytes == es[jj].bytes);
        } else if j == pos {
            assert(fv[i].bytes == es[ii].bytes);
            lemma_lcp(cv, nv.bytes, es[ii].bytes);
        } else {
            assert(fv[i].bytes == es[ii].bytes);
            assert(fv[j].bytes == es[jj].bytes);
        }
    }
}

/// Inserting a new content with an unused identifier keeps identifiers on
/// at most one content.
proof fn lemma_insert_ids(es: Seq<EntryView>, fv: Seq<EntryView>, pos: int, nv: EntryView)
    requires
        forall|i: int, j: int|
            0 <= i < j < es.len() && (#[trigger] es[i]).identifier is Some ==> es[i].identifier != (#[trigger] es[j]).identifier,
        inserted_at(es, fv, pos, nv),
        nv.identifier is Some ==> forall|k: int| 0 <= k < es.len() ==> (#[trigger] es[k]).identifier != nv.identifier,
    ensures
        forall|i: int, j: int|
            0 <= i < j < fv.len() && (#[trigger] fv[i]).identifier is Some ==> fv[i].identifier != (#[trigger] fv[j]).identifier,
{
    assert forall|i: int, j: int|
        0 <= i < j < fv.len() && (#[trigger] fv[i]).identifier is Some implies fv[i].identifier != (
        #[trigger] fv[j]).identifier by {
        let ii = if i < pos { i } else { i - 1 };
        let jj = if j < pos { j } else { j - 1 };
        if i == pos {
            assert(fv[j].identifier == es[jj].identifier);
        } else if j == pos {
            assert(fv[i].identifier == es[ii].identifier);
        } else {
            assert(fv[i].identifier == es[ii].identifier);
            assert(fv[j].identifier == es[jj].identifier);
        }
    }
}

/// Inserting a new content adds it to the rows relation.
proof fn lemma_insert_rows_of(es: Seq<EntryView>, fv: Seq<EntryView>, pos: int, nv: EntryView)
    requires
        lex_sorted(contents(es)),
        lex_sorted(contents(fv)),
        inserted_at(es, fv, pos, nv),
    ensures
        rows_of(fv) == rows_of(es).insert(nv.bytes, nv.identifier),
{
    let cf = contents(fv);
    lemma_rows_of(es);
    lemma_rows_of(fv);
    let m = rows_of(es).insert(nv.bytes, nv.identifier);
    assert forall|k: Seq<u8>| #[trigger] rows_of(fv).dom().contains(k) <==> m.dom().contains(k) by {
        if rows_of(fv).dom().contains(k) {
            let t = choose|t: int| 0 <= t < fv.len() && (#[trigger] fv[t]).bytes == k;
            if t < pos {
                assert(rows_of(es).dom().contains(es[t].bytes));
            } else if t > pos {
                assert(fv[t].bytes == es[t - 1].bytes);
                assert(rows_of(es).dom().contains(es[t - 1].bytes));
            }
        }
        if m.dom().contains(k) && k != nv.bytes {
            let t = choose|t: int| 0 <= t < es.len() && (#[trigger] es[t]).bytes == k;
            if t < pos {
                assert(rows_of(fv).dom().contains(fv[t].bytes));
            } else {
                assert(fv[t + 1].bytes == es[t].bytes);
                assert(rows_of(fv).dom().contains(fv[t + 1].bytes));
            }
        }
        if k == nv.bytes {
            assert(rows_of(fv).dom().contains(fv[pos].bytes));
        }
    }
    assert forall|k: Seq<u8>| #[trigger] rows_of(fv).dom().contains(k) implies rows_of(fv)[k] == m[k] by {
        let t = choose|t: int| 0 <= t < fv.len() && (#[trigger] fv[t]).bytes == k;
        assert(rows_of(fv)[fv[t].bytes] == fv[t].identifier);
        if t != pos {
            assert(cf[t] == fv[t].bytes && cf[pos] == fv[pos].bytes);
            lemma_sorted_distinct(cf, t, pos);
            let tt = if t < pos { t } else { t - 1 };
            assert(fv[t].bytes == es[tt].bytes);
            assert(rows_of(es)[es[tt].bytes] == es[tt].identifier);
        }
    }
    assert(rows_of(fv) =~= m);
}

/// Removing the content at `pos` keeps the contents sorted.
proof fn lemma_remove_sorted(es: Seq<EntryView>, fv: Seq<EntryView>, pos: int)
    requires
        lex_sorted(contents(es)),
        removed_at(es, fv, pos),
    ensures
        lex_sorted(contents(fv)),
        contents(fv) == contents(es).remove(pos),
{
    let c = contents(es);
    let cf = contents(fv);
    assert(cf =~= c.remove(pos)) by {
        assert forall|t: int| 0 <= t < cf.len() implies cf[t] == c.remove(pos)[t] by {
            if t >= pos {
                assert(fv[t].bytes == es[t + 1].bytes);
            }
        }
    }
    assert forall|i: int, j: int| 0 <= i < j < cf.len() implies lex_lt(#[trigger] cf[i], #[trigger] cf[j]) by {
        let ii = if i < pos { i } else { i + 1 };
        let jj = if j < pos { j } else { j + 1 };
        assert(fv[i].bytes == es[ii].bytes);
        assert(fv[j].bytes == es[jj].bytes);
        assert(c[ii] == es[ii].bytes && c[jj] == es[jj].bytes);
    }
}

/// Removing the content at `pos` keeps the pairwise conditions.
proof fn lemma_remove_pairs(cv: CompiledView, es: Seq<EntryView>, fv: Seq<EntryView>, pos: int)
    requires
        forall|i: int| 0 <= i < es.len() ==> bytes_ok((#[trigger] es[i]).bytes.len()),
        forall|i: int, j: int|
            0 <= i < es.len() && 0 <= j < es.len() && i != j ==> lcp(cv, #[trigger] es[i].bytes, #[trigger] es[j].bytes)
                < 65536,
        removed_at(es, fv, pos),
    ensures
        forall|i: int| 0 <= i < fv.len() ==> bytes_ok((#[trigger] fv[i]).bytes.len()),
        forall|i: int, j: int|
            0 <= i < fv.len() && 0 <= j < fv.len() && i != j ==> lcp(cv, #[trigger] fv[i].bytes, #[trigger] fv[j].bytes)
                < 65536,
{
    assert forall|i: int| 0 <= i < fv.len() implies bytes_ok((#[trigger] fv[i]).bytes.len()) by {
        if i >= pos {
            assert(fv[i].bytes == es[i + 1].bytes);
        }
    }
    assert forall|i: int, j: int|
        0 <= i < fv.len() && 0 <= j < fv.len() && i != j implies lcp(cv, #[trigger] fv[i].bytes, #[trigger] fv[j].bytes)
        < 65536 by {
        let ii = if i < pos { i } else { i + 1 };
        let jj = if j < pos { j } else { j + 1 };
        assert(fv[i].bytes == es[ii].bytes);
        assert(fv[j].bytes == es[jj].bytes);
    }
}

/// Removing the content at `pos` keeps identifiers on at most one content.
proof fn lemma_remove_ids(es: Seq<EntryView>, fv: Seq<EntryView>, pos: int)
    requires
        forall|i: int, j: int|
            0 <= i < j < es.len() && (#[trigger] es[i]).identifier is Some ==> es[i].identifier != (#[trigger] es[j]).identifier,
        removed_at(es, fv, pos),
    ensures
        forall|i: int, j: int|
            0 <= i < j < fv.len() && (#[trigger] fv[i]).identifier is Some ==> fv[i].identifier != (#[trigger] fv[j]).identifier,
{
    assert forall|i: int, j: int|
        0 <= i < j < fv.len() && (#[trigger] fv[i]).identifier is Some implies fv[i].identifier != (
        #[trigger] fv[j]).identifier by {
        let ii = if i < pos { i } else { i + 1 };
        let jj = if j < pos { j } else { j + 1 };
        assert(fv[i].identifier == es[ii].identifier);
        assert(fv[j].identifier == es[jj].identifier);
    }
}

/// Removing the content at `pos` drops it from the rows relation.
proof fn lemma_remove_rows_of(es: Seq<EntryView>, fv: Seq<EntryView>, pos: int)
    requires
        lex_sorted(contents(es)),
        lex_sorted(contents(fv)),
        removed_at(es, fv, pos),
    ensures
        rows_of(fv) == rows_of(es).remove(es[pos].bytes),
{
    let c = contents(es);
    lemma_rows_of(es);
    lemma_rows_of(fv);
    let m = rows_of(es).remove(es[pos].bytes);
    assert forall|k: Seq<u8>| #[trigger] rows_of(fv).dom().contains(k) <==> m.dom().contains(k) by {
        if rows_of(fv).dom().contains(k) {
            let t = choose|t: int| 0 <= t < fv.len() && (#[trigger] fv[t]).bytes == k;
            let tt = if t < pos { t } else { t + 1 };
            assert(fv[t].bytes == es[tt].bytes);
            assert(rows_of(es).dom().contains(es[tt].bytes));
            assert(c[tt] == es[tt].bytes && c[pos] == es[pos].bytes);
            lemma_sorted_distinct(c, tt, pos);
        }
        if m.dom().contains(k) {
            let t = choose|t: int| 0 <= t < es.len() && (#[trigger] es[t]).bytes == k;
            assert(t != pos);
            if t < pos {
                assert(rows_of(fv).dom().contains(fv[t].bytes));
            } else {
                assert(fv[t - 1].bytes == es[t].bytes);
                assert(rows_of(fv).dom().contains(fv[t - 1].bytes));
            }
        }
    }
    assert forall|k: Seq<u8>| #[trigger] rows_of(fv).dom().contains(k) implies rows_of(fv)[k] == m[k] by {
        let t = choose|t: int| 0 <= t < fv.len() && (#[trigger] fv[t]).bytes == k;
        let tt = if t < pos { t } else { t + 1 };
        assert(fv[t].bytes == es[tt].bytes);
        assert(rows_of(fv)[fv[t].bytes] == fv[t].identifier);
        assert(rows_of(es)[es[tt].bytes] == es[tt].identifier);
        assert(c[tt] == es[tt].bytes && c[pos] == es[pos].bytes);
        lemma_sorted_distinct(c, tt, pos);
    }
    assert(rows_of(fv) =~= m);
}

/// Changing the identifier at `pos` to one no other content carries keeps
/// the rows valid and the addresses canonical.
proof fn lemma_set_identifier_rows(cv: CompiledView, es: Seq<EntryView>, pos: int, id: Option<Seq<u8>>)
    requires
        rows_ok(cv, es),
        addresses_ok(cv, es),
        0 <= pos < es.len(),
        id is Some ==> forall|k: int| 0 <= k < es.len() && k != pos ==> (#[trigger] es[k]).identifier != id,
    ensures
        ({
            let fv = es.update(pos, EntryView { address: es[pos].address, bytes: es[pos].bytes, identifier: id });
            &&& rows_ok(cv, fv)
            &&& addresses_ok(cv, fv)
            &&& contents(fv) == contents(es)
            &&& rows_of(fv) == rows_of(es).insert(es[pos].bytes, id)
        }),
{
    let fv = es.update(pos, EntryView { address: es[pos].address, bytes: es[pos].bytes, identifier: id });
    assert(contents(fv) =~= contents(es));
    assert forall|i: int, j: int|
        0 <= i < j < fv.len() && (#[trigger] fv[i]).identifier is Some implies fv[i].identifier != (
        #[trigger] fv[j]).identifier by {
        if i != pos && j != pos {
            assert(fv[i] == es[i] && fv[j] == es[j]);
        }
    }
    assert forall|i: int, j: int|
        0 <= i < fv.len() && 0 <= j < fv.len() && i != j implies lcp(cv, #[trigger] fv[i].bytes, #[trigger] fv[j].bytes)
        < 65536 by {
        assert(fv[i].bytes == es[i].bytes && fv[j].bytes == es[j].bytes);
    }
    assert forall|i: int| 0 <= i < fv.len() implies bytes_ok((#[trigger] fv[i]).bytes.len()) by {
        assert(fv[i].bytes == es[i].bytes);
    }
    assert forall|i: int| 0 <= i < fv.len() implies (#[trigger] fv[i]).address == canonical_address(
        cv,
        contents(fv),
        fv[i].bytes,
    ) by {
        assert(fv[i].bytes == es[i].bytes && fv[i].address == es[i].address);
    }
    lemma_rows_of(es);
    lemma_rows_of(fv);
    let m = rows_of(es).insert(es[pos].bytes, id);
    assert forall|k: Seq<u8>| #[trigger] rows_of(fv).dom().contains(k) <==> m.dom().contains(k) by {
        if rows_of(fv).dom().contains(k) {
            let t = choose|t: int| 0 <= t < fv.len() && (#[trigger] fv[t]).bytes == k;
            assert(fv[t].bytes == es[t].bytes);
        }
        if m.dom().contains(k) && k != es[pos].bytes {
            let t = choose|t: int| 0 <= t < es.len() && (#[trigger] es[t]).bytes == k;
            assert(fv[t].bytes == es[t].bytes);
        }
        if k == es[pos].bytes {
            assert(fv[pos].bytes == k);
        }
    }
    assert forall|k: Seq<u8>| #[trigger] rows_of(fv).dom().contains(k) implies rows_of(fv)[k] == m[k] by {
        let t = choose|t: int| 0 <= t < fv.len() && (#[trigger] fv[t]).bytes == k;
        assert(rows_of(fv)[fv[t].bytes] == fv[t].identifier);
        if t != pos {
            assert(fv[t] == es[t]);
            assert(rows_of(es)[es[t].bytes] == es[t].identifier);
            lemma_sorted_distinct(contents(es), t, pos);
        }
    }
    assert(rows_of(fv) =~= m);
}


/// An empty change list.
fn no_changes() -> (r: Vec<AddressChange>)
    ensures
        change_views(r@) == Seq::<ChangeView>::empty(),
{
    let r: Vec<AddressChange> = Vec::new();
    proof {
        assert(change_views(r@) =~= Seq::<ChangeView>::empty());
    }
    r
}

/// Entries rebuilt with canonical addresses after a new content was placed
/// in byte order are canonical and hold the rows with it added.
proof fn lemma_insert_fresh(cv: CompiledView, es: Seq<EntryView>, sv: Seq<EntryView>, fv: Seq<EntryView>, pos: int, nv: EntryView)
    requires
        rows_ok(cv, es),
        inserted_at(es, sv, pos, nv),
        fv.len() == sv.len(),
        forall|i: int|
            0 <= i < sv.len() ==> (#[trigger] fv[i]) == (EntryView {
                address: canonical_address(cv, contents(sv), sv[i].bytes),
                bytes: sv[i].bytes,
                identifier: sv[i].identifier,
            }),
        forall|k: int| 0 <= k < pos ==> lex_lt((#[trigger] es[k]).bytes, nv.bytes),
        forall|k: int| pos <= k < es.len() ==> lex_lt(nv.bytes, (#[trigger] es[k]).bytes),
        bytes_ok(nv.bytes.len()),
        forall|k: int| 0 <= k < es.len() ==> lcp(cv, nv.bytes, (#[trigger] es[k]).bytes) < 65536,
        nv.identifier is Some ==> forall|k: int| 0 <= k < es.len() ==> (#[trigger] es[k]).identifier != nv.identifier,
    ensures
        rows_ok(cv, fv),
        addresses_ok(cv, fv),
        rows_of(fv) == rows_of(es).insert(nv.bytes, nv.identifier),
        fv[pos].address == canonical_address(cv, contents(fv), nv.bytes),
{
    assert(contents(fv) =~= contents(sv));
    assert(inserted_at(es, fv, pos, nv));
    lemma_insert_sorted(es, fv, pos, nv);
    lemma_insert_bytes_ok(es, fv, pos, nv);
    lemma_insert_lcp(cv, es, fv, pos, nv);
    lemma_insert_ids(es, fv, pos, nv);
    lemma_insert_rows_of(es, fv, pos, nv);
}

/// A new content whose identifier is already carried is refused.
proof fn lemma_new_content_id_used(cv: CompiledView, es: Seq<EntryView>, b: Seq<u8>, w: Seq<u8>, j: int)
    requires
        rows_ok(cv, es),
        forall|k: int| 0 <= k < es.len() ==> (#[trigger] es[k]).bytes != b,
        0 <= j < es.len(),
        es[j].identifier == Some(w),
    ensures
        insert_step(cv, rows_of(es), b, Some(w)) == Err::<Map<Seq<u8>, Option<Seq<u8>>>, NeighborhoodErrorView>(
            NeighborhoodErrorView::IdentifierAlreadyAssigned(w),
        ),
{
    lemma_rows_of(es);
    lemma_id_used(es, w);
    if rows_of(es).dom().contains(b) {
        let k = choose|k: int| 0 <= k < es.len() && (#[trigger] es[k]).bytes == b;
    }
}

/// A new content that some member cannot be told apart from is refused,
/// naming the first such member.
proof fn lemma_new_content_indistinct(cv: CompiledView, es: Seq<EntryView>, b: Seq<u8>, id: Option<Seq<u8>>, j: int)
    requires
        rows_ok(cv, es),
        forall|k: int| 0 <= k < es.len() ==> (#[trigger] es[k]).bytes != b,
        id is Some ==> forall|k: int| 0 <= k < es.len() ==> (#[trigger] es[k]).identifier != id,
        0 <= j < es.len(),
        lcp(cv, b, es[j].bytes) >= 65536,
        forall|k: int| 0 <= k < j ==> lcp(cv, b, (#[trigger] es[k]).bytes) < 65536,
    ensures
        insert_step(cv, rows_of(es), b, id) == Err::<Map<Seq<u8>, Option<Seq<u8>>>, NeighborhoodErrorView>(
            NeighborhoodErrorView::ContentsNotDistinguishable { left: b, right: es[j].bytes },
        ),
{
    lemma_rows_of(es);
    if rows_of(es).dom().contains(b) {
        let k = choose|k: int| 0 <= k < es.len() && (#[trigger] es[k]).bytes == b;
    }
    if id is Some {
        lemma_id_used(es, id->0);
    }
    lemma_least_indistinct(cv, es, b, j);
}

/// A new content with a free identifier that every member can be told
/// apart from is added.
proof fn lemma_new_content_ok(cv: CompiledView, es: Seq<EntryView>, b: Seq<u8>, id: Option<Seq<u8>>)
    requires
        rows_ok(cv, es),
        forall|k: int| 0 <= k < es.len() ==> (#[trigger] es[k]).bytes != b,
        id is Some ==> forall|k: int| 0 <= k < es.len() ==> (#[trigger] es[k]).identifier != id,
        forall|k: int| 0 <= k < es.len() ==> lcp(cv, b, (#[trigger] es[k]).bytes) < 65536,
    ensures
        insert_step(cv, rows_of(es), b, id) == Ok::<Map<Seq<u8>, Option<Seq<u8>>>, NeighborhoodErrorView>(
            rows_of(es).insert(b, id),
        ),
        !rows_of(es).dom().contains(b),
{
    lemma_rows_of(es);
    if rows_of(es).dom().contains(b) {
        let k = choose|k: int| 0 <= k < es.len() && (#[trigger] es[k]).bytes == b;
    }
    if id is Some {
        lemma_id_used(es, id->0);
    }
    assert forall|r: Seq<u8>| !(#[trigger] indistinct(cv, rows_of(es), b, r)) by {
        if rows_of(es).dom().contains(r) {
            let k = choose|k: int| 0 <= k < es.len() && (#[trigger] es[k]).bytes == r;
        }
    }
}

// ---------------------------------------------------------------------------
// Neighborhoods
// ---------------------------------------------------------------------------

#[derive(Clone, Copy, Debug, PartialEq, Eq, Structural)]
pub enum InsertStatus {
    Inserted,
    Existing,
}

#[derive(Clone, Debug, PartialEq, Eq)]
pub struct InsertResult {
    pub status: InsertStatus,
    pub address: NeighborhoodAddress,
    pub changes: Vec<AddressChange>,
}

#[derive(Clone, Debug, PartialEq, Eq)]
pub struct RemoveResult {
    pub removed: NeighborhoodEntry,
    pub changes: Vec<AddressChange>,
}

#[derive(Clone, Debug, PartialEq, Eq)]
pub struct NeighborhoodRow {
    pub bytes: Vec<u8>,
    pub identifier: Option<Vec<u8>>,
}

/// Mathematical content of a neighborhood: its compiled scheme and its
/// entries in byte order.
pub struct NeighborhoodView {
    pub compiled: CompiledView,
    pub entries: Seq<EntryView>,
}

/// A stateful namespace layer that owns canonical shortest-unique address
/// assignment over a set of co-occurring contents.
#[derive(Debug, PartialEq, Eq)]
pub struct Neighborhood {
    compiled: CompiledScheme,
    /// Always sorted by lexicographic byte order.
    entries: Vec<NeighborhoodEntry>,
}

impl View for Neighborhood {
    type V = NeighborhoodView;

    closed spec fn view(&self) -> NeighborhoodView {
        NeighborhoodView { compiled: self.compiled@, entries: views(self.entries@) }
    }
}

/// What an insertion of content `b` with identifier `id` does to a
/// neighborhood `old`, leaving `new` and answering `r`.
pub open spec fn insert_outcome(
    old: NeighborhoodView,
    new: NeighborhoodView,
    b: Seq<u8>,
    id: Option<Seq<u8>>,
    r: Result<InsertResult, NeighborhoodError>,
) -> bool {
    match insert_step(old.compiled, rows_of(old.entries), b, id) {
        Ok(m) => {
            &&& r matches Ok(res)
            &&& new.compiled == old.compiled
            &&& rows_of(new.entries) == m
            &&& res.status == (if rows_of(old.entries).dom().contains(b) {
                InsertStatus::Existing
            } else {
                InsertStatus::Inserted
            })
            &&& res.address@ == canonical_address(new.compiled, contents(new.entries), b)
            &&& change_views(res.changes@) == address_changes(old.compiled, old.entries, contents(new.entries))
        },
        Err(e) => r matches Err(x) && x@ == e && new == old,
    }
}

impl Neighborhood {
    /// A valid compiled scheme, and canonical entries.
    pub closed spec fn wf(&self) -> bool {
        &&& self.compiled.wf()
        &&& rows_ok(self.compiled@, views(self.entries@))
        &&& addresses_ok(self.compiled@, views(self.entries@))
    }

    pub proof fn lemma_wf(&self)
        requires
            self.wf(),
        ensures
            compiled_ok(self@.compiled),
            rows_ok(self@.compiled, self@.entries),
            addresses_ok(self@.compiled, self@.entries),
    {
        self.compiled.lemma_wf_ok();
    }

    /// An empty neighborhood over `scheme`, which must validate.
    pub fn new(scheme: Scheme) -> (r: Result<Neighborhood, NeighborhoodError>)
        ensures
            r matches Ok(n) ==> n.wf() && n@.entries.len() == 0 && n@.compiled.scheme == scheme@,
            r matches Err(e) ==> e is InvalidScheme,
            scheme_simple(scheme@) && validate_spec(scheme@) is Ok ==> (r matches Ok(n) && n@.compiled == simple_view(
                scheme@,
            )),
            scheme_simple(scheme@) && validate_spec(scheme@) is Err ==> r == Err::<Neighborhood, NeighborhoodError>(
                NeighborhoodError::InvalidScheme(validate_spec(scheme@)->Err_0),
            ),
            validate_spec(scheme@) is Err ==> r is Err,
            r matches Err(NeighborhoodError::InvalidScheme(e)) ==> validate_spec(scheme@) == Err::<(), SchemeError>(e)
                || construction_failure(e),
    {
        match scheme.compile() {
            Ok(cs) => {
                let n = Neighborhood { compiled: cs, entries: Vec::new() };
                proof {
                    assert(views(n.entries@) =~= Seq::<EntryView>::empty());
                }
                Ok(n)
            },
            Err(e) => Err(NeighborhoodError::InvalidScheme(e)),
        }
    }

    pub fn scheme(&self) -> (r: &Scheme)
        ensures
            r@ == self@.compiled.scheme,
    {
        self.compiled.scheme()
    }

    pub fn len(&self) -> (r: usize)
        ensures
            r == self@.entries.len(),
    {
        self.entries.len()
    }

    pub fn is_empty(&self) -> (r: bool)
        ensures
            r == (self@.entries.len() == 0),
    {
        self.entries.len() == 0
    }

    /// The entries in lexicographic byte order.
    pub fn entries(&self) -> (r: &[NeighborhoodEntry])
        ensures
            views(r@) == self@.entries,
    {
        self.entries.as_slice()
    }

    /// Entry-for-entry copy.
    pub fn duplicate(&self) -> (r: Neighborhood)
        requires
            self.wf(),
        ensures
            r.wf(),
            r@ == self@,
    {
        let compiled = self.compiled.duplicate();
        let mut entries: Vec<NeighborhoodEntry> = Vec::new();
        let mut i: usize = 0;
        while i < self.entries.len()
            invariant
                i <= self.entries@.len(),
                entries@.len() == i,
                forall|k: int| 0 <= k < i ==> (#[trigger] entries@[k])@ == self.entries@[k]@,
            decreases self.entries@.len() - i,
        {
            entries.push(self.entries[i].duplicate());
            i = i + 1;
        }
        let r = Neighborhood { compiled, entries };
        proof {
            assert(views(r.entries@) =~= views(self.entries@));
        }
        r
    }

    /// Position at which `b`, absent from the entries, belongs in byte order.
    fn insertion_point(&self, b: &[u8]) -> (r: usize)
        requires
            self.wf(),
            forall|j: int| 0 <= j < self@.entries.len() ==> (#[trigger] self@.entries[j]).bytes != b@,
        ensures
            r <= self@.entries.len(),
            forall|k: int| 0 <= k < r ==> lex_lt((#[trigger] self@.entries[k]).bytes, b@),
            forall|k: int| r <= k < self@.entries.len() ==> lex_lt(b@, (#[trigger] self@.entries[k]).bytes),
    {
        let ghost es = self@.entries;
        let mut i: usize = 0;
        while i < self.entries.len()
            invariant
                es == self@.entries,
                i <= es.len(),
                lex_sorted(contents(es)),
                forall|j: int| 0 <= j < es.len() ==> (#[trigger] es[j]).bytes != b@,
                forall|k: int| 0 <= k < i ==> lex_lt((#[trigger] es[k]).bytes, b@),
            decreases es.len() - i,
        {
            proof {
                assert(es[i as int] == self.entries@[i as int]@);
            }
            if !lex_less(self.entries[i].bytes.as_slice(), b) {
                proof {
                    lemma_lex_total(es[i as int].bytes, b@);
                    assert forall|k: int| i <= k < es.len() implies lex_lt(b@, (#[trigger] es[k]).bytes) by {
                        if k > i {
                            assert(contents(es)[i as int] == es[i as int].bytes);
                            assert(contents(es)[k] == es[k].bytes);
                            lemma_lex_transitive(b@, es[i as int].bytes, es[k].bytes);
                        }
                    }
                }
                return i;
            }
            i = i + 1;
        }
        i
    }

    /// Insertion of a content already present at `pos`.
    fn insert_existing(&mut self, pos: usize, identifier: Option<Vec<u8>>) -> (r: Result<InsertResult, NeighborhoodError>)
        requires
            old(self).wf(),
            pos < old(self)@.entries.len(),
        ensures
            final(self).wf(),
            insert_outcome(old(self)@, final(self)@, old(self)@.entries[pos as int].bytes, opt_bytes(identifier), r),
    {
        let ghost es = self@.entries;
        let ghost cv = self@.compiled;
        let ghost id = opt_bytes(identifier);
        proof {
            lemma_rows_of(es);
            lemma_no_changes(cv, es, es.len() as int);
            assert(es.take(es.len() as int) =~= es);
            assert(es[pos as int] == self.entries@[pos as int]@);
            assert(rows_of(es)[es[pos as int].bytes] == es[pos as int].identifier);
        }
        let address = self.entries[pos].address.duplicate();
        match identifier {
            None => {
                let res = InsertResult { status: InsertStatus::Existing, address, changes: no_changes() };
                proof {
                    assert(rows_of(es).dom().contains(es[pos as int].bytes));
                    assert(insert_step(cv, rows_of(es), es[pos as int].bytes, id) == Ok::<Map<Seq<u8>, Option<Seq<u8>>>, NeighborhoodErrorView>(rows_of(es)));
                    assert(res.address@ == canonical_address(cv, contents(es), es[pos as int].bytes));
                    assert(change_views(res.changes@) == address_changes(cv, es, contents(es)));
                    assert(insert_outcome(self@, self@, es[pos as int].bytes, id, Ok::<InsertResult, NeighborhoodError>(res)));
                }
                Ok(res)
            },
            Some(w) => {
                let same = match &self.entries[pos].identifier {
                    Some(e) => Some(bytes_eq(e.as_slice(), w.as_slice())),
                    None => None,
                };
                match same {
                    Some(true) => Ok(InsertResult { status: InsertStatus::Existing, address, changes: no_changes() }),
                    Some(false) => Err(NeighborhoodError::ConflictingIdentifierForContent(w)),
                    None => {
                        proof {
                            lemma_id_used(es, w@);
                        }
                        match find_identifier(&self.entries, w.as_slice()) {
                            Some(j) => {
                                proof {
                                    assert(es[j as int] == self.entries@[j as int]@);
                                }
                                Err(NeighborhoodError::IdentifierAlreadyAssigned(w))
                            },
                            None => {
                                proof {
                                    assert forall|k: int| 0 <= k < es.len() implies (#[trigger] es[k]).identifier != Some(w@) by {
                                        assert(es[k] == self.entries@[k]@);
                                    }
                                }
                                let ne = NeighborhoodEntry {
                                    address: self.entries[pos].address.duplicate(),
                                    bytes: copy_bytes(self.entries[pos].bytes.as_slice()),
                                    identifier: Some(w),
                                };
                                self.entries.set(pos, ne);
                                proof {
                                    lemma_set_identifier_rows(cv, es, pos as int, id);
                                    assert(views(self.entries@) =~= es.update(
                                        pos as int,
                                        EntryView { address: es[pos as int].address, bytes: es[pos as int].bytes, identifier: id },
                                    ));
                                }
                                Ok(InsertResult { status: InsertStatus::Existing, address, changes: no_changes() })
                            },
                        }
                    },
                }
            },
        }
    }

    /// Index of the first member, in byte order, whose stream `b`'s agrees
    /// with up to the divergence bound.
    fn first_indistinct(&self, b: &[u8]) -> (r: Option<usize>)
        requires
            self.wf(),
            bytes_ok(b@.len()),
        ensures
            r matches Some(j) ==> j < self@.entries.len() && lcp(self@.compiled, b@, self@.entries[j as int].bytes) >= 65536
                && forall|k: int| 0 <= k < j ==> lcp(self@.compiled, b@, (#[trigger] self@.entries[k]).bytes) < 65536,
            r is None ==> forall|k: int|
                0 <= k < self@.entries.len() ==> lcp(self@.compiled, b@, (#[trigger] self@.entries[k]).bytes) < 65536,
    {
        let ghost es = self@.entries;
        let mut j: usize = 0;
        while j < self.entries.len()
            invariant
                self.wf(),
                es == self@.entries,
                bytes_ok(b@.len()),
                j <= es.len(),
                forall|k: int| 0 <= k < j ==> lcp(self@.compiled, b@, (#[trigger] es[k]).bytes) < 65536,
            decreases es.len() - j,
        {
            proof {
                assert(es[j as int] == self.entries@[j as int]@);
            }
            let l = common_prefix_len(&self.compiled, b, self.entries[j].bytes.as_slice());
            if l >= MAX_DIVERGENCE_ATOMS {
                return Some(j);
            }
            j = j + 1;
        }
        None
    }

    /// Copies of the entries with `ne` placed at `pos`.
    fn staged_with(&self, pos: usize, ne: NeighborhoodEntry) -> (r: Vec<NeighborhoodEntry>)
        requires
            pos <= self@.entries.len(),
        ensures
            r@.len() == self@.entries.len() + 1,
            forall|k: int| 0 <= k < pos ==> (#[trigger] r@[k])@ == self@.entries[k],
            r@[pos as int]@ == ne@,
            forall|k: int| pos <= k < self@.entries.len() ==> r@[k + 1]@ == (#[trigger] self@.entries[k]),
    {
        let ghost es = self@.entries;
        let mut staged: Vec<NeighborhoodEntry> = Vec::new();
        let mut i: usize = 0;
        while i < pos
            invariant
                es == self@.entries,
                pos <= es.len(),
                i <= pos,
                staged@.len() == i,
                forall|k: int| 0 <= k < i ==> (#[trigger] staged@[k])@ == es[k],
            decreases pos - i,
        {
            proof {
                assert(es[i as int] == self.entries@[i as int]@);
            }
            staged.push(self.entries[i].duplicate());
            i = i + 1;
        }
        let ghost nv = ne@;
        staged.push(ne);
        while i < self.entries.len()
            invariant
                es == self@.entries,
                pos <= i <= es.len(),
                staged@.len() == i + 1,
                forall|k: int| 0 <= k < pos ==> (#[trigger] staged@[k])@ == es[k],
                staged@[pos as int]@ == nv,
                forall|k: int| pos <= k < i ==> staged@[k + 1]@ == (#[trigger] es[k]),
            decreases es.len() - i,
        {
            proof {
                assert(es[i as int] == self.entries@[i as int]@);
            }
            staged.push(self.entries[i].duplicate());
            i = i + 1;
        }
        staged
    }

    /// Index of the entry that already carries `identifier`, if it is one.
    fn identifier_owner(&self, identifier: &Option<Vec<u8>>) -> (r: Option<usize>)
        ensures
            r matches Some(j) ==> j < self@.entries.len() && opt_bytes(*identifier) is Some && self@.entries[j as int].identifier
                == opt_bytes(*identifier),
            r is None ==> (opt_bytes(*identifier) is Some ==> forall|k: int|
                0 <= k < self@.entries.len() ==> (#[trigger] self@.entries[k]).identifier != opt_bytes(*identifier)),
    {
        match identifier {
            Some(w) => {
                let f = find_identifier(&self.entries, w.as_slice());
                proof {
                    assert forall|k: int| 0 <= k < self@.entries.len() implies (#[trigger] self@.entries[k]) == self.entries@[k]@ by {}
                }
                f
            },
            None => None,
        }
    }

    /// Insertion of a content not yet present.
    fn insert_new(&mut self, bytes: Vec<u8>, identifier: Option<Vec<u8>>) -> (r: Result<InsertResult, NeighborhoodError>)
        requires
            old(self).wf(),
            bytes_ok(bytes@.len()),
            forall|j: int| 0 <= j < old(self)@.entries.len() ==> (#[trigger] old(self)@.entries[j]).bytes != bytes@,
        ensures
            final(self).wf(),
            insert_outcome(old(self)@, final(self)@, bytes@, opt_bytes(identifier), r),
    {
        let ghost es = self@.entries;
        let ghost cv = self@.compiled;
        let ghost b = bytes@;
        let ghost id = opt_bytes(identifier);
        match self.identifier_owner(&identifier) {
            Some(j) => {
                proof {
                    lemma_new_content_id_used(cv, es, b, id->0, j as int);
                }
                return Err(NeighborhoodError::IdentifierAlreadyAssigned(copy_owned(&identifier)));
            },
            None => {},
        }
        match self.first_indistinct(bytes.as_slice()) {
            Some(j) => {
                proof {
                    lemma_new_content_indistinct(cv, es, b, id, j as int);
                }
                let right = copy_bytes(self.entries[j].bytes.as_slice());
                return Err(NeighborhoodError::ContentsNotDistinguishable { left: bytes, right });
            },
            None => {},
        }
        let pos = self.insertion_point(bytes.as_slice());
        let ne = NeighborhoodEntry { address: NeighborhoodAddress { atoms: Vec::new() }, bytes, identifier };
        let res = self.place(pos, ne);
        proof {
            lemma_new_content_ok(cv, es, b, id);
        }
        Ok(res)
    }

    /// Places the new content `ne` at `pos` and gives every member its
    /// canonical address.
    fn place(&mut self, pos: usize, ne: NeighborhoodEntry) -> (r: InsertResult)
        requires
            old(self).wf(),
            pos <= old(self)@.entries.len(),
            forall|k: int| 0 <= k < pos ==> lex_lt((#[trigger] old(self)@.entries[k]).bytes, ne@.bytes),
            forall|k: int| pos <= k < old(self)@.entries.len() ==> lex_lt(ne@.bytes, (#[trigger] old(self)@.entries[k]).bytes),
            bytes_ok(ne@.bytes.len()),
            forall|k: int|
                0 <= k < old(self)@.entries.len() ==> lcp(old(self)@.compiled, ne@.bytes, (#[trigger] old(self)@.entries[k]).bytes)
                    < 65536,
            ne@.identifier is Some ==> forall|k: int|
                0 <= k < old(self)@.entries.len() ==> (#[trigger] old(self)@.entries[k]).identifier != ne@.identifier,
        ensures
            final(self).wf(),
            final(self)@.compiled == old(self)@.compiled,
            rows_of(final(self)@.entries) == rows_of(old(self)@.entries).insert(ne@.bytes, ne@.identifier),
            r.status == InsertStatus::Inserted,
            r.address@ == canonical_address(final(self)@.compiled, contents(final(self)@.entries), ne@.bytes),
            change_views(r.changes@) == address_changes(
                old(self)@.compiled,
                old(self)@.entries,
                contents(final(self)@.entries),
            ),
    {
        let ghost es = self@.entries;
        let ghost cv = self@.compiled;
        let ghost nv = ne@;
        let staged = self.staged_with(pos, ne);
        proof {
            assert forall|k: int| 0 <= k < staged@.len() implies bytes_ok((#[trigger] staged@[k])@.bytes.len()) by {
                if k > pos {
                    assert(staged@[k]@ == es[k - 1]);
                }
            }
        }
        let fresh = with_canonical_addresses(&self.compiled, &staged);
        proof {
            let sv = views(staged@);
            let fv = views(fresh@);
            assert(inserted_at(es, sv, pos as int, nv));
            lemma_insert_fresh(cv, es, sv, fv, pos as int, nv);
        }
        let changes = collect_changes(&self.compiled, &self.entries, &fresh);
        let address = fresh[pos].address.duplicate();
        self.entries = fresh;
        InsertResult { status: InsertStatus::Inserted, address, changes }
    }

    fn insert_inner(&mut self, bytes: Vec<u8>, identifier: Option<Vec<u8>>) -> (r: Result<InsertResult, NeighborhoodError>)
        requires
            old(self).wf(),
            bytes_ok(bytes@.len()),
        ensures
            final(self).wf(),
            insert_outcome(old(self)@, final(self)@, bytes@, opt_bytes(identifier), r),
    {
        match find_bytes(&self.entries, bytes.as_slice()) {
            Some(pos) => {
                proof {
                    assert(self@.entries[pos as int] == self.entries@[pos as int]@);
                }
                self.insert_existing(pos, identifier)
            },
            None => {
                proof {
                    assert forall|j: int| 0 <= j < self@.entries.len() implies (#[trigger] self@.entries[j]).bytes != bytes@ by {
                        assert(self@.entries[j] == self.entries@[j]@);
                    }
                }
                self.insert_new(bytes, identifier)
            },
        }
    }
}


/// Entries rebuilt with canonical addresses after the content at `pos` was
/// dropped are canonical and hold the rows without it.
proof fn lemma_remove_fresh(cv: CompiledView, es: Seq<EntryView>, sv: Seq<EntryView>, fv: Seq<EntryView>, pos: int)
    requires
        rows_ok(cv, es),
        removed_at(es, sv, pos),
        fv.len() == sv.len(),
        forall|i: int|
            0 <= i < sv.len() ==> (#[trigger] fv[i]) == (EntryView {
                address: canonical_address(cv, contents(sv), sv[i].bytes),
                bytes: sv[i].bytes,
                identifier: sv[i].identifier,
            }),
    ensures
        rows_ok(cv, fv),
        addresses_ok(cv, fv),
        rows_of(fv) == rows_of(es).remove(es[pos].bytes),
{
    assert(contents(fv) =~= contents(sv));
    assert(removed_at(es, fv, pos));
    lemma_remove_sorted(es, fv, pos);
    lemma_remove_pairs(cv, es, fv, pos);
    lemma_remove_ids(es, fv, pos);
    lemma_remove_rows_of(es, fv, pos);
}

/// Whether the stream of `b` begins with the atoms `q`.
pub open spec fn begins_with(cv: CompiledView, b: Seq<u8>, q: Seq<AtomId>) -> bool {
    stream_prefix(cv, b, q.len()) == q
}

/// Number of entries whose stream begins with `q`.
pub open spec fn match_count(cv: CompiledView, es: Seq<EntryView>, q: Seq<AtomId>) -> nat
    decreases es.len(),
{
    if es.len() == 0 {
        0
    } else {
        match_count(cv, es.drop_last(), q) + if begins_with(cv, es.last().bytes, q) {
            1nat
        } else {
            0nat
        }
    }
}

/// Index of the first atom of `q` outside the capacity, if any.
pub open spec fn first_out_of_capacity(q: Seq<AtomId>, capacity: u32, i: nat) -> Option<nat>
    decreases q.len() - i,
{
    if i >= q.len() {
        None
    } else if q[i as int].0 >= capacity {
        Some(i)
    } else {
        first_out_of_capacity(q, capacity, i + 1)
    }
}

/// Outcome of resolving an address against a neighborhood.
#[derive(Debug, PartialEq, Eq)]
pub enum Resolution<'a> {
    NotFound,
    Unique(&'a NeighborhoodEntry),
    Ambiguous { matches: usize },
}

/// Whether the stream of `b` begins with the atoms `q`.
fn stream_begins_with(cs: &CompiledScheme, b: &[u8], q: &[AtomId]) -> (r: bool)
    requires
        cs.wf(),
        bytes_ok(b@.len()),
        q@.len() < usize::MAX,
    ensures
        r == begins_with(cs@, b@, q@),
{
    let mut s = Address::new(cs, b);
    let mut i: usize = 0;
    while i < q.len()
        invariant
            s.wf(),
            s.compiled() == cs@,
            s.bytes() == b@,
            s.position() == i,
            i <= q@.len(),
            q@.len() < usize::MAX,
            forall|k: int| 0 <= k < i ==> stream_atom(cs@, b@, k as nat) == q@[k],
        decreases q@.len() - i,
    {
        let a = s.next();
        match a {
            Some(x) => {
                if x != q[i] {
                    proof {
                        assert(stream_prefix(cs@, b@, q@.len())[i as int] == stream_atom(cs@, b@, i as nat));
                    }
                    return false;
                }
            },
            None => {},
        }
        i = i + 1;
    }
    proof {
        assert(stream_prefix(cs@, b@, q@.len()) =~= q@);
    }
    true
}

impl Neighborhood {
    /// Adds content `bytes` without an identifier; an existing content is
    /// left as it is.
    pub fn insert(&mut self, bytes: Vec<u8>) -> (r: Result<InsertResult, NeighborhoodError>)
        requires
            old(self).wf(),
            bytes_ok(bytes@.len()),
        ensures
            final(self).wf(),
            insert_outcome(old(self)@, final(self)@, bytes@, None, r),
    {
        self.insert_inner(bytes, None)
    }

    /// Adds content `bytes` carrying `identifier`, or gives an existing
    /// content without identifier this one.
    pub fn insert_with_identifier(&mut self, bytes: Vec<u8>, identifier: Vec<u8>) -> (r: Result<
        InsertResult,
        NeighborhoodError,
    >)
        requires
            old(self).wf(),
            bytes_ok(bytes@.len()),
        ensures
            final(self).wf(),
            insert_outcome(old(self)@, final(self)@, bytes@, Some(identifier@), r),
    {
        self.insert_inner(bytes, Some(identifier))
    }

    /// Copies of the entries without position `pos`.
    fn staged_without(&self, pos: usize) -> (r: Vec<NeighborhoodEntry>)
        requires
            pos < self@.entries.len(),
        ensures
            r@.len() + 1 == self@.entries.len(),
            forall|k: int| 0 <= k < pos ==> (#[trigger] r@[k])@ == self@.entries[k],
            forall|k: int| pos < k < self@.entries.len() ==> r@[k - 1]@ == (#[trigger] self@.entries[k]),
    {
        let ghost es = self@.entries;
        let mut staged: Vec<NeighborhoodEntry> = Vec::new();
        let mut i: usize = 0;
        while i < self.entries.len()
            invariant
                es == self@.entries,
                pos < es.len(),
                i <= es.len(),
                staged@.len() == if i <= pos { i as int } else { i - 1 },
                forall|k: int| 0 <= k < pos && k < i ==> (#[trigger] staged@[k])@ == es[k],
                forall|k: int| pos < k < i ==> staged@[k - 1]@ == (#[trigger] es[k]),
            decreases es.len() - i,
        {
            proof {
                assert(es[i as int] == self.entries@[i as int]@);
            }
            if i != pos {
                staged.push(self.entries[i].duplicate());
            }
            i = i + 1;
        }
        staged
    }

    /// Removes the content at `idx` and gives the others their canonical
    /// addresses.
    fn remove_at(&mut self, idx: usize) -> (r: RemoveResult)
        requires
            old(self).wf(),
            idx < old(self)@.entries.len(),
        ensures
            final(self).wf(),
            final(self)@.compiled == old(self)@.compiled,
            rows_of(final(self)@.entries) == rows_of(old(self)@.entries).remove(old(self)@.entries[idx as int].bytes),
            r.removed@ == old(self)@.entries[idx as int],
            change_views(r.changes@) == unit_steps(
                address_changes(old(self)@.compiled, old(self)@.entries, contents(final(self)@.entries)),
            ),
    {
        let ghost es = self@.entries;
        let ghost cv = self@.compiled;
        let staged = self.staged_without(idx);
        proof {
            assert forall|k: int| 0 <= k < staged@.len() implies bytes_ok((#[trigger] staged@[k])@.bytes.len()) by {
                if k >= idx {
                    assert(staged@[k]@ == es[k + 1]);
                }
            }
        }
        let fresh = with_canonical_addresses(&self.compiled, &staged);
        proof {
            let sv = views(staged@);
            let fv = views(fresh@);
            assert(removed_at(es, sv, idx as int));
            lemma_remove_fresh(cv, es, sv, fv, idx as int);
        }
        let changes = collect_changes(&self.compiled, &self.entries, &fresh);
        let removed = self.entries[idx].duplicate();
        self.entries = fresh;
        RemoveResult { removed, changes: into_unit_steps(&changes) }
    }

    /// Removes content `bytes`; `None` when it is absent.
    pub fn remove_by_bytes(&mut self, bytes: &[u8]) -> (r: Result<Option<RemoveResult>, NeighborhoodError>)
        requires
            old(self).wf(),
        ensures
            final(self).wf(),
            r is Ok,
            !rows_of(old(self)@.entries).dom().contains(bytes@) ==> r == Ok::<Option<RemoveResult>, NeighborhoodError>(None)
                && final(self)@ == old(self)@,
            rows_of(old(self)@.entries).dom().contains(bytes@) ==> {
                &&& r matches Ok(Some(res))
                &&& final(self)@.compiled == old(self)@.compiled
                &&& rows_of(final(self)@.entries) == rows_of(old(self)@.entries).remove(bytes@)
                &&& res.removed@ == (EntryView {
                    address: canonical_address(old(self)@.compiled, contents(old(self)@.entries), bytes@),
                    bytes: bytes@,
                    identifier: rows_of(old(self)@.entries)[bytes@],
                })
                &&& change_views(res.changes@) == unit_steps(
                    address_changes(old(self)@.compiled, old(self)@.entries, contents(final(self)@.entries)),
                )
            },
    {
        let ghost es = self@.entries;
        proof {
            lemma_rows_of(es);
        }
        match find_bytes(&self.entries, bytes) {
            Some(pos) => {
                proof {
                    assert(es[pos as int] == self.entries@[pos as int]@);
                }
                Ok(Some(self.remove_at(pos)))
            },
            None => {
                proof {
                    if rows_of(es).dom().contains(bytes@) {
                        let k = choose|k: int| 0 <= k < es.len() && (#[trigger] es[k]).bytes == bytes@;
                        assert(es[k] == self.entries@[k]@);
                    }
                }
                Ok(None)
            },
        }
    }

    /// Removes the content carrying `identifier`; `None` when no content
    /// carries it.
    pub fn remove_by_identifier(&mut self, identifier: &[u8]) -> (r: Result<Option<RemoveResult>, NeighborhoodError>)
        requires
            old(self).wf(),
        ensures
            final(self).wf(),
            r is Ok,
            !id_used(rows_of(old(self)@.entries), identifier@) ==> r == Ok::<Option<RemoveResult>, NeighborhoodError>(None)
                && final(self)@ == old(self)@,
            id_used(rows_of(old(self)@.entries), identifier@) ==> {
                &&& r matches Ok(Some(res))
                &&& res.removed@.identifier == Some(identifier@)
                &&& rows_of(old(self)@.entries).dom().contains(res.removed@.bytes)
                &&& rows_of(old(self)@.entries)[res.removed@.bytes] == Some(identifier@)
                &&& res.removed@.address == canonical_address(
                    old(self)@.compiled,
                    contents(old(self)@.entries),
                    res.removed@.bytes,
                )
                &&& final(self)@.compiled == old(self)@.compiled
                &&& rows_of(final(self)@.entries) == rows_of(old(self)@.entries).remove(res.removed@.bytes)
                &&& change_views(res.changes@) == unit_steps(
                    address_changes(old(self)@.compiled, old(self)@.entries, contents(final(self)@.entries)),
                )
            },
    {
        let ghost es = self@.entries;
        proof {
            lemma_rows_of(es);
            lemma_id_used(es, identifier@);
        }
        match find_identifier(&self.entries, identifier) {
            Some(pos) => {
                proof {
                    assert(es[pos as int] == self.entries@[pos as int]@);
                }
                Ok(Some(self.remove_at(pos)))
            },
            None => {
                proof {
                    assert forall|k: int| 0 <= k < es.len() implies (#[trigger] es[k]).identifier != Some(identifier@) by {
                        assert(es[k] == self.entries@[k]@);
                    }
                }
                Ok(None)
            },
        }
    }

    /// Sets or clears the identifier of content `bytes`.
    pub fn set_identifier(&mut self, bytes: &[u8], identifier: Option<Vec<u8>>) -> (r: Result<(), NeighborhoodError>)
        requires
            old(self).wf(),
        ensures
            final(self).wf(),
            !rows_of(old(self)@.entries).dom().contains(bytes@) ==> r == Err::<(), NeighborhoodError>(
                NeighborhoodError::ContentNotFound,
            ) && final(self)@ == old(self)@,
            rows_of(old(self)@.entries).dom().contains(bytes@) && opt_bytes(identifier) is Some && id_used(
                rows_of(old(self)@.entries).remove(bytes@),
                opt_bytes(identifier)->0,
            ) ==> (r matches Err(e) && e@ == NeighborhoodErrorView::IdentifierAlreadyAssigned(opt_bytes(identifier)->0)
                && final(self)@ == old(self)@),
            rows_of(old(self)@.entries).dom().contains(bytes@) && !(opt_bytes(identifier) is Some && id_used(
                rows_of(old(self)@.entries).remove(bytes@),
                opt_bytes(identifier)->0,
            )) ==> r is Ok && final(self)@.compiled == old(self)@.compiled && rows_of(final(self)@.entries) == rows_of(
                old(self)@.entries,
            ).insert(bytes@, opt_bytes(identifier)),
    {
        let ghost es = self@.entries;
        let ghost cv = self@.compiled;
        let ghost id = opt_bytes(identifier);
        proof {
            lemma_rows_of(es);
        }
        let pos = match find_bytes(&self.entries, bytes) {
            Some(p) => p,
            None => {
                proof {
                    if rows_of(es).dom().contains(bytes@) {
                        let k = choose|k: int| 0 <= k < es.len() && (#[trigger] es[k]).bytes == bytes@;
                        assert(es[k] == self.entries@[k]@);
                    }
                }
                return Err(NeighborhoodError::ContentNotFound);
            },
        };
        proof {
            assert(es[pos as int] == self.entries@[pos as int]@);
        }
        match self.identifier_owner(&identifier) {
            Some(j) => {
                if j != pos {
                    proof {
                        assert(es[j as int].bytes != bytes@) by {
                            assert(contents(es)[j as int] == es[j as int].bytes);
                            assert(contents(es)[pos as int] == es[pos as int].bytes);
                            lemma_sorted_distinct(contents(es), j as int, pos as int);
                        }
                        assert(rows_of(es).remove(bytes@).dom().contains(es[j as int].bytes));
                    }
                    return Err(NeighborhoodError::IdentifierAlreadyAssigned(copy_owned(&identifier)));
                }
            },
            None => {},
        }
        proof {
            if id is Some && id_used(rows_of(es).remove(bytes@), id->0) {
                let k = choose|k: Seq<u8>| #[trigger] rows_of(es).remove(bytes@).dom().contains(k) && rows_of(es).remove(bytes@)[k] == id;
                let t = choose|t: int| 0 <= t < es.len() && (#[trigger] es[t]).bytes == k;
                assert(t != pos);
            }
            assert(id is Some ==> forall|k: int| 0 <= k < es.len() && k != pos ==> (#[trigger] es[k]).identifier != id);
        }
        let ne = NeighborhoodEntry {
            address: self.entries[pos].address.duplicate(),
            bytes: copy_bytes(self.entries[pos].bytes.as_slice()),
            identifier,
        };
        self.entries.set(pos, ne);
        proof {
            lemma_set_identifier_rows(cv, es, pos as int, id);
            assert(views(self.entries@) =~= es.update(
                pos as int,
                EntryView { address: es[pos as int].address, bytes: es[pos as int].bytes, identifier: id },
            ));
        }
        Ok(())
    }

    /// The entry of content `bytes`.
    pub fn get_by_bytes(&self, bytes: &[u8]) -> (r: Option<&NeighborhoodEntry>)
        requires
            self.wf(),
        ensures
            r is Some == rows_of(self@.entries).dom().contains(bytes@),
            r matches Some(e) ==> e@ == (EntryView {
                address: canonical_address(self@.compiled, contents(self@.entries), bytes@),
                bytes: bytes@,
                identifier: rows_of(self@.entries)[bytes@],
            }),
    {
        let ghost es = self@.entries;
        proof {
            lemma_rows_of(es);
        }
        match find_bytes(&self.entries, bytes) {
            Some(pos) => {
                proof {
                    assert(es[pos as int] == self.entries@[pos as int]@);
                }
                Some(&self.entries[pos])
            },
            None => {
                proof {
                    if rows_of(es).dom().contains(bytes@) {
                        let k = choose|k: int| 0 <= k < es.len() && (#[trigger] es[k]).bytes == bytes@;
                        assert(es[k] == self.entries@[k]@);
                    }
                }
                None
            },
        }
    }

    /// The entry of the content carrying `identifier`.
    pub fn get_by_identifier(&self, identifier: &[u8]) -> (r: Option<&NeighborhoodEntry>)
        requires
            self.wf(),
        ensures
            r is Some == id_used(rows_of(self@.entries), identifier@),
            r matches Some(e) ==> {
                &&& e@.identifier == Some(identifier@)
                &&& rows_of(self@.entries).dom().contains(e@.bytes)
                &&& rows_of(self@.entries)[e@.bytes] == Some(identifier@)
                &&& e@.address == canonical_address(self@.compiled, contents(self@.entries), e@.bytes)
            },
    {
        let ghost es = self@.entries;
        proof {
            lemma_rows_of(es);
            lemma_id_used(es, identifier@);
        }
        match find_identifier(&self.entries, identifier) {
            Some(pos) => {
                proof {
                    assert(es[pos as int] == self.entries@[pos as int]@);
                }
                Some(&self.entries[pos])
            },
            None => {
                proof {
                    assert forall|k: int| 0 <= k < es.len() implies (#[trigger] es[k]).identifier != Some(identifier@) by {
                        assert(es[k] == self.entries@[k]@);
                    }
                }
                None
            },
        }
    }

    /// Prefix resolution of `address` against the current members: the
    /// members whose stream begins with it.
    pub fn resolve(&self, address: &NeighborhoodAddress) -> (r: Result<Resolution<'_>, NeighborhoodError>)
        requires
            self.wf(),
            address@.len() < usize::MAX,
        ensures
            address@.len() == 0 ==> r == Err::<Resolution<'_>, NeighborhoodError>(NeighborhoodError::EmptyAddress),
            address@.len() > 0 && first_out_of_capacity(address@, self@.compiled.scheme.capacity, 0) is Some ==> r
                == Err::<Resolution<'_>, NeighborhoodError>(
                NeighborhoodError::AtomOutOfCapacity {
                    atom: address@[first_out_of_capacity(address@, self@.compiled.scheme.capacity, 0)->0 as int].0,
                    capacity: self@.compiled.scheme.capacity,
                },
            ),
            address@.len() > 0 && first_out_of_capacity(address@, self@.compiled.scheme.capacity, 0) is None ==> {
                &&& r is Ok
                &&& match_count(self@.compiled, self@.entries, address@) == 0 ==> r == Ok::<
                    Resolution<'_>,
                    NeighborhoodError,
                >(Resolution::NotFound)
                &&& match_count(self@.compiled, self@.entries, address@) == 1 ==> (r matches Ok(Resolution::Unique(e))
                    && begins_with(self@.compiled, e@.bytes, address@) && self@.entries.contains(e@))
                &&& match_count(self@.compiled, self@.entries, address@) > 1 ==> r == Ok::<
                    Resolution<'_>,
                    NeighborhoodError,
                >(Resolution::Ambiguous { matches: match_count(self@.compiled, self@.entries, address@) as usize })
            },
    {
        let q = address.atoms.as_slice();
        if q.len() == 0 {
            return Err(NeighborhoodError::EmptyAddress);
        }
        let capacity = self.compiled.scheme().capacity;
        let mut i: usize = 0;
        while i < q.len()
            invariant
                i <= q@.len(),
                q@ == address@,
                q@.len() > 0,
                capacity == self@.compiled.scheme.capacity,
                first_out_of_capacity(q@, capacity, 0) == first_out_of_capacity(q@, capacity, i as nat),
            decreases q@.len() - i,
        {
            if q[i].0 >= capacity {
                return Err(NeighborhoodError::AtomOutOfCapacity { atom: q[i].0, capacity });
            }
            i = i + 1;
        }
        let ghost es = self@.entries;
        let ghost cv = self@.compiled;
        let mut count: usize = 0;
        let mut last: usize = 0;
        let mut j: usize = 0;
        proof {
            assert(es.take(0) =~= Seq::<EntryView>::empty());
        }
        while j < self.entries.len()
            invariant
                self.wf(),
                es == self@.entries,
                cv == self@.compiled,
                q@ == address@,
                q@.len() < usize::MAX,
                j <= es.len(),
                count == match_count(cv, es.take(j as int), q@),
                count <= j,
                count >= 1 ==> last < j && begins_with(cv, es[last as int].bytes, q@),
            decreases es.len() - j,
        {
            proof {
                assert(es[j as int] == self.entries@[j as int]@);
                assert(es.take(j + 1).drop_last() =~= es.take(j as int));
                assert(es.take(j + 1).last() == es[j as int]);
                assert(bytes_ok(es[j as int].bytes.len()));
            }
            if stream_begins_with(&self.compiled, self.entries[j].bytes.as_slice(), q) {
                count = count + 1;
                last = j;
            }
            j = j + 1;
        }
        proof {
            assert(es.take(es.len() as int) =~= es);
        }
        if count == 0 {
            Ok(Resolution::NotFound)
        } else if count == 1 {
            proof {
                assert(es[last as int] == self.entries@[last as int]@);
                assert(es.contains(es[last as int]));
            }
            Ok(Resolution::Unique(&self.entries[last]))
        } else {
            Ok(Resolution::Ambiguous { matches: count })
        }
    }
}


// ---------------------------------------------------------------------------
// Bulk construction, merging, validation
// ---------------------------------------------------------------------------

/// A row as plain values.
pub open spec fn row_view(r: NeighborhoodRow) -> (Seq<u8>, Option<Seq<u8>>) {
    (r.bytes@, opt_bytes(r.identifier))
}

pub open spec fn row_views(rs: Seq<NeighborhoodRow>) -> Seq<(Seq<u8>, Option<Seq<u8>>)> {
    rs.map_values(|r: NeighborhoodRow| row_view(r))
}

/// The rows of entries, in their order.
pub open spec fn entry_rows(es: Seq<EntryView>) -> Seq<(Seq<u8>, Option<Seq<u8>>)> {
    es.map_values(|e: EntryView| (e.bytes, e.identifier))
}

/// Outcome of inserting `rows` one after the other into the rows `m`: the
/// first refusal, or the final rows.
pub open spec fn insert_all(
    cv: CompiledView,
    m: Map<Seq<u8>, Option<Seq<u8>>>,
    rows: Seq<(Seq<u8>, Option<Seq<u8>>)>,
) -> Result<Map<Seq<u8>, Option<Seq<u8>>>, NeighborhoodErrorView>
    decreases rows.len(),
{
    if rows.len() == 0 {
        Ok(m)
    } else {
        match insert_all(cv, m, rows.drop_last()) {
            Ok(m2) => insert_step(cv, m2, rows.last().0, rows.last().1),
            Err(e) => Err(e),
        }
    }
}

/// A refusal part way through is the refusal of the whole sequence.
proof fn lemma_insert_all_err(
    cv: CompiledView,
    m: Map<Seq<u8>, Option<Seq<u8>>>,
    rows: Seq<(Seq<u8>, Option<Seq<u8>>)>,
    k: int,
    e: NeighborhoodErrorView,
)
    requires
        0 <= k <= rows.len(),
        insert_all(cv, m, rows.take(k)) == Err::<Map<Seq<u8>, Option<Seq<u8>>>, NeighborhoodErrorView>(e),
    ensures
        insert_all(cv, m, rows) == Err::<Map<Seq<u8>, Option<Seq<u8>>>, NeighborhoodErrorView>(e),
    decreases rows.len() - k,
{
    if k < rows.len() {
        assert(rows.take(k + 1).drop_last() =~= rows.take(k));
        lemma_insert_all_err(cv, m, rows, k + 1, e);
    } else {
        assert(rows.take(k) =~= rows);
    }
}

/// Sorted adjacent pairs make a sorted sequence.
proof fn lemma_adjacent_sorted(c: Seq<Seq<u8>>)
    requires
        forall|i: int| 0 < i < c.len() ==> lex_lt(c[i - 1], #[trigger] c[i]),
    ensures
        lex_sorted(c),
{
    assert forall|i: int, j: int| 0 <= i < j < c.len() implies lex_lt(#[trigger] c[i], #[trigger] c[j]) by {
        lemma_adjacent_chain(c, i, j);
    }
}

proof fn lemma_adjacent_chain(c: Seq<Seq<u8>>, i: int, j: int)
    requires
        forall|k: int| 0 < k < c.len() ==> lex_lt(c[k - 1], #[trigger] c[k]),
        0 <= i < j < c.len(),
    ensures
        lex_lt(c[i], c[j]),
    decreases j - i,
{
    if j > i + 1 {
        lemma_adjacent_chain(c, i, j - 1);
        assert(lex_lt(c[j - 1], c[j]));
        lemma_lex_transitive(c[i], c[j - 1], c[j]);
    }
}

/// Entries with the same contents and identifiers hold the same rows.
proof fn lemma_same_rows(e1: Seq<EntryView>, e2: Seq<EntryView>)
    requires
        lex_sorted(contents(e1)),
        e1.len() == e2.len(),
        forall|i: int| 0 <= i < e1.len() ==> (#[trigger] e1[i]).bytes == e2[i].bytes && e1[i].identifier == e2[i].identifier,
    ensures
        rows_of(e1) == rows_of(e2),
        contents(e1) == contents(e2),
{
    assert(contents(e1) =~= contents(e2));
    lemma_rows_of(e1);
    lemma_rows_of(e2);
    assert forall|k: Seq<u8>| #[trigger] rows_of(e1).dom().contains(k) <==> rows_of(e2).dom().contains(k) by {
        if rows_of(e1).dom().contains(k) {
            let t = choose|t: int| 0 <= t < e1.len() && (#[trigger] e1[t]).bytes == k;
            assert(e2[t].bytes == k);
        }
        if rows_of(e2).dom().contains(k) {
            let t = choose|t: int| 0 <= t < e2.len() && (#[trigger] e2[t]).bytes == k;
            assert(e1[t].bytes == k);
        }
    }
    assert forall|k: Seq<u8>| #[trigger] rows_of(e1).dom().contains(k) implies rows_of(e1)[k] == rows_of(e2)[k] by {
        let t = choose|t: int| 0 <= t < e1.len() && (#[trigger] e1[t]).bytes == k;
        assert(rows_of(e1)[e1[t].bytes] == e1[t].identifier);
        assert(rows_of(e2)[e2[t].bytes] == e2[t].identifier);
    }
    assert(rows_of(e1) =~= rows_of(e2));
}

/// Rows that a neighborhood can hold, inserted one after the other in their
/// order into an empty neighborhood, are all accepted and give back exactly
/// those rows.
pub proof fn lemma_insert_all_rows(cv: CompiledView, es: Seq<EntryView>)
    requires
        rows_ok(cv, es),
    ensures
        insert_all(cv, Map::empty(), entry_rows(es)) == Ok::<Map<Seq<u8>, Option<Seq<u8>>>, NeighborhoodErrorView>(
            rows_of(es),
        ),
    decreases es.len(),
{
    if es.len() == 0 {
        assert(entry_rows(es) =~= Seq::<(Seq<u8>, Option<Seq<u8>>)>::empty());
    } else {
        let n = es.len() - 1;
        let d = es.drop_last();
        assert(contents(d) =~= contents(es).take(n));
        lemma_sorted_prefix(contents(es), n);
        assert forall|i: int, j: int| 0 <= i < d.len() && 0 <= j < d.len() && i != j implies lcp(
            cv,
            #[trigger] d[i].bytes,
            #[trigger] d[j].bytes,
        ) < 65536 by {
            assert(d[i] == es[i] && d[j] == es[j]);
        }
        assert forall|i: int, j: int| 0 <= i < j < d.len() && (#[trigger] d[i]).identifier is Some implies d[i].identifier
            != (#[trigger] d[j]).identifier by {
            assert(d[i] == es[i] && d[j] == es[j]);
        }
        assert forall|i: int| 0 <= i < d.len() implies bytes_ok((#[trigger] d[i]).bytes.len()) by {
            assert(d[i] == es[i]);
        }
        lemma_insert_all_rows(cv, d);
        assert(entry_rows(es).drop_last() =~= entry_rows(d));
        lemma_rows_of(d);
        let last = es[n];
        assert(entry_rows(es).last() == (last.bytes, last.identifier));
        assert(!rows_of(d).dom().contains(last.bytes)) by {
            if rows_of(d).dom().contains(last.bytes) {
                let i = choose|i: int| 0 <= i < d.len() && (#[trigger] d[i]).bytes == last.bytes;
                assert(lex_lt(contents(es)[i], contents(es)[n]));
                lemma_lex_irreflexive(last.bytes);
            }
        }
        if last.identifier is Some {
            let w = last.identifier->0;
            assert(!id_used(rows_of(d), w)) by {
                if id_used(rows_of(d), w) {
                    let k = choose|k: Seq<u8>| #[trigger] rows_of(d).dom().contains(k) && rows_of(d)[k] == Some(w);
                    let i = choose|i: int| 0 <= i < d.len() && (#[trigger] d[i]).bytes == k;
                    assert(rows_of(d)[d[i].bytes] == d[i].identifier);
                    assert(es[i].identifier != es[n].identifier);
                }
            }
        }
        assert(!exists|r: Seq<u8>| #[trigger] indistinct(cv, rows_of(d), last.bytes, r)) by {
            if exists|r: Seq<u8>| #[trigger] indistinct(cv, rows_of(d), last.bytes, r) {
                let r = choose|r: Seq<u8>| #[trigger] indistinct(cv, rows_of(d), last.bytes, r);
                let i = choose|i: int| 0 <= i < d.len() && (#[trigger] d[i]).bytes == r;
                assert(lcp(cv, es[n].bytes, es[i].bytes) < 65536);
            }
        }
    }
}

impl Neighborhood {
    /// A valid compiled scheme, and contents within the machine bound.
    pub closed spec fn inv(&self) -> bool {
        &&& self.compiled.wf()
        &&& forall|i: int| 0 <= i < self.entries@.len() ==> bytes_ok((#[trigger] self.entries@[i])@.bytes.len())
    }

    pub proof fn lemma_wf_inv(&self)
        requires
            self.wf(),
        ensures
            self.inv(),
    {
        assert forall|i: int| 0 <= i < self.entries@.len() implies bytes_ok((#[trigger] self.entries@[i])@.bytes.len()) by {
            assert(views(self.entries@)[i] == self.entries@[i]@);
        }
    }

    /// A neighborhood over `scheme` holding `rows`, inserted in their order.
    pub fn from_rows(scheme: Scheme, rows: Vec<NeighborhoodRow>) -> (r: Result<Neighborhood, NeighborhoodError>)
        requires
            forall|i: int| 0 <= i < rows@.len() ==> bytes_ok((#[trigger] rows@[i]).bytes@.len()),
        ensures
            r matches Ok(n) ==> n.wf() && n@.compiled.scheme == scheme@ && insert_all(
                n@.compiled,
                Map::empty(),
                row_views(rows@),
            ) == Ok::<Map<Seq<u8>, Option<Seq<u8>>>, NeighborhoodErrorView>(rows_of(n@.entries)),
            r matches Err(e) ==> e is InvalidScheme || exists|cv: CompiledView|
                cv.scheme == scheme@ && compiled_ok(cv) && #[trigger] insert_all(cv, Map::empty(), row_views(rows@))
                    == Err::<Map<Seq<u8>, Option<Seq<u8>>>, NeighborhoodErrorView>(e@),
            scheme_simple(scheme@) && validate_spec(scheme@) is Ok ==> match insert_all(
                simple_view(scheme@),
                Map::empty(),
                row_views(rows@),
            ) {
                Ok(m) => r matches Ok(n) && n@.compiled == simple_view(scheme@) && rows_of(n@.entries) == m,
                Err(e) => r matches Err(x) && x@ == e,
            },
            scheme_simple(scheme@) && validate_spec(scheme@) is Err ==> r == Err::<Neighborhood, NeighborhoodError>(
                NeighborhoodError::InvalidScheme(validate_spec(scheme@)->Err_0),
            ),
    {
        let mut n = match Neighborhood::new(scheme) {
            Ok(n) => n,
            Err(e) => {
                return Err(e);
            },
        };
        let ghost cv = n@.compiled;
        let ghost rv = row_views(rows@);
        proof {
            n.lemma_wf();
            assert(rv.take(0) =~= Seq::<(Seq<u8>, Option<Seq<u8>>)>::empty());
            assert(n@.entries =~= Seq::<EntryView>::empty());
            assert(rows_of(n@.entries) =~= Map::<Seq<u8>, Option<Seq<u8>>>::empty());
        }
        let mut i: usize = 0;
        while i < rows.len()
            invariant
                n.wf(),
                n@.compiled == cv,
                compiled_ok(cv),
                cv.scheme == scheme@,
                scheme_simple(scheme@) && validate_spec(scheme@) is Ok ==> cv == simple_view(scheme@),
                rv == row_views(rows@),
                forall|k: int| 0 <= k < rows@.len() ==> bytes_ok((#[trigger] rows@[k]).bytes@.len()),
                i <= rows@.len(),
                insert_all(cv, Map::empty(), rv.take(i as int)) == Ok::<
                    Map<Seq<u8>, Option<Seq<u8>>>,
                    NeighborhoodErrorView,
                >(rows_of(n@.entries)),
            decreases rows@.len() - i,
        {
            let row = &rows[i];
            proof {
                assert(rv.take(i + 1).drop_last() =~= rv.take(i as int));
                assert(rv.take(i + 1).last() == rv[i as int]);
                assert(rv[i as int] == row_view(rows@[i as int]));
                assert(bytes_ok(rows@[i as int].bytes@.len()));
            }
            match n.insert_inner(copy_bytes(row.bytes.as_slice()), copy_opt(&row.identifier)) {
                Ok(_) => {},
                Err(e) => {
                    proof {
                        lemma_insert_all_err(cv, Map::empty(), rv, i + 1, e@);
                    }
                    return Err(e);
                },
            }
            i = i + 1;
        }
        proof {
            assert(rv.take(rows@.len() as int) =~= rv);
        }
        Ok(n)
    }

    /// Merges `other` into this neighborhood: the same as inserting its
    /// entries, in byte order, into a copy, which replaces this one only if
    /// every insertion succeeds. The schemes must be equal.
    pub fn merge(&mut self, other: &Neighborhood) -> (r: Result<Vec<AddressChange>, NeighborhoodError>)
        requires
            old(self).wf(),
            other.wf(),
        ensures
            final(self).wf(),
            old(self)@.compiled.scheme != other@.compiled.scheme ==> r == Err::<Vec<AddressChange>, NeighborhoodError>(
                NeighborhoodError::SchemeMismatch,
            ) && final(self)@ == old(self)@,
            old(self)@.compiled.scheme == other@.compiled.scheme ==> match insert_all(
                old(self)@.compiled,
                rows_of(old(self)@.entries),
                entry_rows(other@.entries),
            ) {
                Ok(m) => {
                    &&& r matches Ok(cs)
                    &&& final(self)@.compiled == old(self)@.compiled
                    &&& rows_of(final(self)@.entries) == m
                    &&& change_views(cs@) == address_changes(
                        old(self)@.compiled,
                        old(self)@.entries,
                        contents(final(self)@.entries),
                    )
                },
                Err(e) => r matches Err(x) && x@ == e && final(self)@ == old(self)@,
            },
    {
        if !self.compiled.scheme().is_same(other.compiled.scheme()) {
            return Err(NeighborhoodError::SchemeMismatch);
        }
        let ghost cv = self@.compiled;
        let ghost m0 = rows_of(self@.entries);
        let ghost ov = entry_rows(other@.entries);
        let mut working = self.duplicate();
        proof {
            assert(ov.take(0) =~= Seq::<(Seq<u8>, Option<Seq<u8>>)>::empty());
            other.lemma_wf();
        }
        let mut i: usize = 0;
        while i < other.entries.len()
            invariant
                working.wf(),
                self.wf(),
                other.wf(),
                working@.compiled == cv,
                self@.compiled == cv,
                self@ == old(self)@,
                cv.scheme == other@.compiled.scheme,
                m0 == rows_of(self@.entries),
                ov == entry_rows(other@.entries),
                rows_ok(other@.compiled, other@.entries),
                i <= other@.entries.len(),
                insert_all(cv, m0, ov.take(i as int)) == Ok::<Map<Seq<u8>, Option<Seq<u8>>>, NeighborhoodErrorView>(
                    rows_of(working@.entries),
                ),
            decreases other@.entries.len() - i,
        {
            let e = &other.entries[i];
            proof {
                assert(ov.take(i + 1).drop_last() =~= ov.take(i as int));
                assert(ov.take(i + 1).last() == ov[i as int]);
                assert(other@.entries[i as int] == e@);
                assert(ov[i as int] == (e@.bytes, e@.identifier));
                assert(bytes_ok(other@.entries[i as int].bytes.len()));
            }
            match working.insert_inner(copy_bytes(e.bytes.as_slice()), copy_opt(&e.identifier)) {
                Ok(_) => {},
                Err(err) => {
                    proof {
                        lemma_insert_all_err(cv, m0, ov, i + 1, err@);
                    }
                    return Err(err);
                },
            }
            i = i + 1;
        }
        proof {
            assert(ov.take(other@.entries.len() as int) =~= ov);
        }
        let changes = collect_changes(&self.compiled, &self.entries, &working.entries);
        *self = working;
        Ok(changes)
    }

    /// Checks that the entries are in strict byte order, pairwise
    /// distinguishable, carry each identifier at most once, and hold their
    /// canonical addresses.
    pub fn validate(&self) -> (r: Result<(), NeighborhoodError>)
        requires
            self.inv(),
        ensures
            r is Ok == self.wf(),
            r matches Err(e) ==> e is InvalidState,
    {
        let ghost es = self@.entries;
        let ghost cv = self@.compiled;
        let n = self.entries.len();
        proof {
            assert forall|k: int| 0 <= k < es.len() implies #[trigger] es[k] == self.entries@[k]@ by {}
        }
        // strict byte order
        let mut i: usize = 1;
        while i < n
            invariant
                n == es.len(),
                es == self@.entries,
                1 <= i,
                i <= n || n == 0,
                forall|k: int| 0 < k < i && k < n ==> lex_lt(contents(es)[k - 1], #[trigger] contents(es)[k]),
            decreases n - i,
        {
            proof {
                assert(es[i - 1] == self.entries@[i - 1]@);
                assert(es[i as int] == self.entries@[i as int]@);
            }
            if !lex_less(self.entries[i - 1].bytes.as_slice(), self.entries[i].bytes.as_slice()) {
                proof {
                    assert(!lex_lt(contents(es)[i - 1], contents(es)[i as int]));
                }
                return Err(NeighborhoodError::InvalidState("entries are not in strict canonical byte order"));
            }
            i = i + 1;
        }
        proof {
            lemma_adjacent_sorted(contents(es));
        }
        // pairwise distinguishable, identifiers at most once
        let mut a: usize = 0;
        while a < n
            invariant
                self.inv(),
                n == es.len(),
                es == self@.entries,
                cv == self@.compiled,
                lex_sorted(contents(es)),
                a <= n,
                forall|x: int, y: int|
                    0 <= x < a && 0 <= y < n && x != y ==> lcp(cv, #[trigger] es[x].bytes, #[trigger] es[y].bytes) < 65536,
                forall|x: int, y: int|
                    0 <= x < a && x < y < n && (#[trigger] es[x]).identifier is Some ==> es[x].identifier != (#[trigger] es[y]).identifier,
            decreases n - a,
        {
            let mut c: usize = 0;
            while c < n
                invariant
                    self.inv(),
                    n == es.len(),
                    es == self@.entries,
                    cv == self@.compiled,
                    a < n,
                    c <= n,
                    forall|y: int| 0 <= y < c && y != a ==> lcp(cv, es[a as int].bytes, #[trigger] es[y].bytes) < 65536,
                    forall|y: int|
                        a < y < c && es[a as int].identifier is Some ==> es[a as int].identifier != (#[trigger] es[y]).identifier,
                decreases n - c,
            {
                proof {
                    assert(es[a as int] == self.entries@[a as int]@);
                    assert(es[c as int] == self.entries@[c as int]@);
                }
                if c != a {
                    let l = common_prefix_len(&self.compiled, self.entries[a].bytes.as_slice(), self.entries[c].bytes.as_slice());
                    if l >= MAX_DIVERGENCE_ATOMS {
                        return Err(NeighborhoodError::InvalidState("distinct contents are not distinguishable"));
                    }
                    if c > a {
                        match (&self.entries[a].identifier, &self.entries[c].identifier) {
                            (Some(x), Some(y)) => {
                                if bytes_eq(x.as_slice(), y.as_slice()) {
                                    return Err(NeighborhoodError::InvalidState("identifier assigned to more than one content"));
                                }
                            },
                            _ => {},
                        }
                    }
                }
                c = c + 1;
            }
            proof {
                assert forall|x: int, y: int|
                    0 <= x < a + 1 && 0 <= y < n && x != y implies lcp(cv, #[trigger] es[x].bytes, #[trigger] es[y].bytes)
                    < 65536 by {
                    if x == a {
                    }
                }
            }
            a = a + 1;
        }
        proof {
            assert forall|x: int, y: int|
                0 <= x < y < n && (#[trigger] es[x]).identifier is Some implies es[x].identifier != (#[trigger] es[y]).identifier by {}
            assert forall|x: int| 0 <= x < n implies bytes_ok((#[trigger] es[x]).bytes.len()) by {
                assert(es[x] == self.entries@[x]@);
            }
            assert(rows_ok(cv, es));
        }
        // canonical addresses
        let mut k: usize = 0;
        while k < n
            invariant
                self.inv(),
                n == es.len(),
                es == self@.entries,
                cv == self@.compiled,
                rows_ok(cv, es),
                k <= n,
                forall|x: int| 0 <= x < k ==> (#[trigger] es[x]).address == canonical_address(cv, contents(es), es[x].bytes),
            decreases n - k,
        {
            proof {
                assert(es[k as int] == self.entries@[k as int]@);
                assert(contents(views(self.entries@)) == contents(es));
            }
            let want = canonical_address_of(&self.compiled, &self.entries, self.entries[k].bytes.as_slice());
            if !atoms_eq(self.entries[k].address.atoms.as_slice(), want.as_slice()) {
                return Err(NeighborhoodError::InvalidState("stored address is not the canonical shortest unique address"));
            }
            k = k + 1;
        }
        Ok(())
    }

    /// Gives every member its canonical address again, from the
    /// authoritative rows; returns the addresses that changed.
    pub fn rebuild(&mut self) -> (r: Result<Vec<AddressChange>, NeighborhoodError>)
        requires
            old(self).inv(),
            rows_ok(old(self)@.compiled, old(self)@.entries),
        ensures
            final(self).wf(),
            r is Ok,
            final(self)@.compiled == old(self)@.compiled,
            rows_of(final(self)@.entries) == rows_of(old(self)@.entries),
            contents(final(self)@.entries) == contents(old(self)@.entries),
            change_views(r->Ok_0@) == address_changes(
                old(self)@.compiled,
                old(self)@.entries,
                contents(final(self)@.entries),
            ),
    {
        let ghost es = self@.entries;
        let ghost cv = self@.compiled;
        let fresh = with_canonical_addresses(&self.compiled, &self.entries);
        proof {
            let fv = views(fresh@);
            assert forall|i: int| 0 <= i < es.len() implies (#[trigger] es[i]).bytes == fv[i].bytes && es[i].identifier
                == fv[i].identifier by {
                assert(es[i] == self.entries@[i]@);
            }
            lemma_same_rows(es, fv);
            assert forall|i: int, j: int|
                0 <= i < j < fv.len() && (#[trigger] fv[i]).identifier is Some implies fv[i].identifier != (
                #[trigger] fv[j]).identifier by {
                assert(es[i].identifier == fv[i].identifier && es[j].identifier == fv[j].identifier);
            }
            assert forall|i: int, j: int|
                0 <= i < fv.len() && 0 <= j < fv.len() && i != j implies lcp(cv, #[trigger] fv[i].bytes, #[trigger] fv[j].bytes)
                < 65536 by {
                assert(es[i].bytes == fv[i].bytes && es[j].bytes == fv[j].bytes);
            }
            assert forall|i: int| 0 <= i < fv.len() implies bytes_ok((#[trigger] fv[i]).bytes.len()) by {
                assert(es[i].bytes == fv[i].bytes);
            }
            assert forall|i: int| 0 <= i < fv.len() implies (#[trigger] fv[i]).address == canonical_address(
                cv,
                contents(fv),
                fv[i].bytes,
            ) by {
                assert(es[i] == self.entries@[i]@);
            }
        }
        let changes = collect_changes(&self.compiled, &self.entries, &fresh);
        self.entries = fresh;
        Ok(changes)
    }
}

} // verus!
